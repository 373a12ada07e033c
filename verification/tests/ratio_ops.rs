use gametree::ratio::Ratio;

#[test]
fn add_is_exact() {
    let a = Ratio::new(1, 4);
    let b = Ratio::new(3, 4);
    let s = a.checked_add(b).unwrap();
    assert_eq!(s.num, 16);
    assert_eq!(s.den, 16);
    assert!(s.equiv(Ratio::one()));
}

#[test]
fn mul_is_exact() {
    let a = Ratio::new(-1, 2);
    let b = Ratio::new(3, 4);
    let p = a.checked_mul(b).unwrap();
    assert_eq!(p.num, -3);
    assert_eq!(p.den, 8);
}

#[test]
fn add_overflow_is_reported() {
    let a = Ratio::new(i64::MAX, 1);
    assert!(a.checked_add(Ratio::one()).is_none());
}

#[test]
fn mul_overflow_is_reported() {
    let a = Ratio::new(i64::MAX, 1);
    assert!(a.checked_mul(Ratio::new(2, 1)).is_none());
}

#[test]
fn neg_flips_sign_exactly() {
    let a = Ratio::new(7, 3);
    let n = a.neg();
    assert_eq!(n.num, -7);
    assert_eq!(n.den, 3);
    assert_eq!(n.neg(), a);
}

#[test]
fn order_is_mathematical() {
    assert!(Ratio::new(1, 3).le(Ratio::new(1, 2)));
    assert!(!Ratio::new(1, 2).le(Ratio::new(1, 3)));
    assert!(Ratio::new(2, 4).le(Ratio::new(1, 2)));
    assert!(Ratio::new(-1, 2).le(Ratio::zero()));
}

#[test]
fn equiv_ignores_representation() {
    assert!(Ratio::new(2, 4).equiv(Ratio::new(1, 2)));
    assert!(!Ratio::new(2, 4).equiv(Ratio::new(2, 3)));
}

use gametree::matrix_game::reverse_game;
use gametree::ratio::Ratio;

fn q(num: i64, den: u64) -> Ratio {
    Ratio::new(num, den)
}

#[test]
fn reverse_transposes_and_negates() {
    let m = vec![vec![q(1, 1), q(2, 1), q(3, 1)], vec![q(-4, 1), q(5, 1), q(-6, 1)]];
    let r = reverse_game(&m);
    assert_eq!(r.len(), 3);
    assert_eq!(r[0], vec![q(-1, 1), q(4, 1)]);
    assert_eq!(r[1], vec![q(-2, 1), q(-5, 1)]);
    assert_eq!(r[2], vec![q(-3, 1), q(6, 1)]);
}

#[test]
fn reverse_pads_short_rows_with_zero() {
    let m = vec![vec![q(1, 1)], vec![q(2, 1), q(3, 1)]];
    let r = reverse_game(&m);
    assert_eq!(r.len(), 2);
    assert_eq!(r[0], vec![q(-1, 1), q(-2, 1)]);
    assert_eq!(r[1], vec![q(0, 1), q(-3, 1)]);
}

#[test]
fn reverse_round_trip_on_rectangular_matrix() {
    let m = vec![vec![q(1, 2), q(-2, 3), q(3, 4)], vec![q(0, 1), q(5, 7), q(-1, 1)]];
    let twice = reverse_game(&reverse_game(&m));
    assert_eq!(twice, m);
}

#[test]
fn reverse_of_empty_matrix_is_empty() {
    let m: Vec<Vec<Ratio>> = Vec::new();
    let r = reverse_game(&m);
    assert!(r.is_empty());
}

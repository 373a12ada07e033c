//! Exact rational arithmetic for payoffs and probabilities.
//!
//! Every quantity the engine computes — a chance probability, a terminal
//! payoff, an expected value — is a `Ratio`: a signed numerator over a
//! positive denominator.  Arithmetic is exact and checked; an operation whose
//! exact result no longer fits the representation reports `None` instead of
//! wrapping or rounding.

use vstd::prelude::*;

verus! {

/// The exact value of a `Ratio` as a pair (numerator, denominator) of
/// unbounded integers, denominator positive.
pub type QVal = (int, int);

/// Exact sum of two rational values, unnormalized.
pub open spec fn q_add(a: QVal, b: QVal) -> QVal {
    (a.0 * b.1 + b.0 * a.1, a.1 * b.1)
}

/// Exact product of two rational values, unnormalized.
pub open spec fn q_mul(a: QVal, b: QVal) -> QVal {
    (a.0 * b.0, a.1 * b.1)
}

/// Mathematical equality of two rational values (cross multiplication);
/// meaningful when both denominators are positive.
pub open spec fn q_eq(a: QVal, b: QVal) -> bool {
    a.0 * b.1 == b.0 * a.1
}

/// Mathematical order on rational values with positive denominators.
pub open spec fn q_le(a: QVal, b: QVal) -> bool {
    a.0 * b.1 <= b.0 * a.1
}

/// Whether an exact rational value is representable as a `Ratio`.
pub open spec fn q_fits(a: QVal) -> bool {
    i64::MIN < a.0 <= i64::MAX && 1 <= a.1 <= u64::MAX
}

/// An exact rational number `num / den`.
#[derive(Clone, Copy, Debug, PartialEq, Eq, Hash, Structural)]
pub struct Ratio {
    pub num: i64,
    pub den: u64,
}

/// Whether the exact sum of `a` and `b` fits the `Ratio` representation.
pub open spec fn add_fits(a: Ratio, b: Ratio) -> bool {
    let n = a.num * b.den + b.num * a.den;
    let d = a.den * b.den;
    i64::MIN < n <= i64::MAX && d <= u64::MAX
}

/// Whether the exact product of `a` and `b` fits the `Ratio` representation.
pub open spec fn mul_fits(a: Ratio, b: Ratio) -> bool {
    let n = a.num * b.num;
    let d = a.den * b.den;
    i64::MIN < n <= i64::MAX && d <= u64::MAX
}

impl Ratio {
    /// Well-formed: positive denominator, numerator negatable without
    /// overflow.
    pub open spec fn wf(self) -> bool {
        self.den >= 1 && self.num > i64::MIN
    }

    /// The exact value this `Ratio` denotes.
    pub open spec fn v(self) -> QVal {
        (self.num as int, self.den as int)
    }

    pub fn new(num: i64, den: u64) -> (r: Ratio)
        requires
            den >= 1,
            num > i64::MIN,
        ensures
            r.wf(),
            r.num == num,
            r.den == den,
    {
        Ratio { num, den }
    }

    pub fn zero() -> (r: Ratio)
        ensures
            r.wf(),
            r.num == 0,
            r.den == 1,
    {
        Ratio { num: 0, den: 1 }
    }

    pub fn one() -> (r: Ratio)
        ensures
            r.wf(),
            r.num == 1,
            r.den == 1,
    {
        Ratio { num: 1, den: 1 }
    }

    /// The rational equal to the given integer.
    pub fn from_int(num: i64) -> (r: Ratio)
        requires
            num > i64::MIN,
        ensures
            r.wf(),
            r.num == num,
            r.den == 1,
    {
        Ratio { num, den: 1 }
    }

    /// Exact negation.
    pub fn neg(self) -> (r: Ratio)
        requires
            self.wf(),
        ensures
            r.wf(),
            r.num == -self.num,
            r.den == self.den,
    {
        Ratio { num: -self.num, den: self.den }
    }

    /// Exact addition; `None` exactly when the unnormalized result does not
    /// fit the representation.
    pub fn checked_add(self, other: Ratio) -> (r: Option<Ratio>)
        requires
            self.wf(),
            other.wf(),
        ensures
            r is Some <==> add_fits(self, other),
            r is Some ==> r->Some_0.wf() && r->Some_0.v() == q_add(self.v(), other.v()),
    {
        proof {
            lemma_cross_mul_bound(self.num as int, other.den as int);
            lemma_cross_mul_bound(other.num as int, self.den as int);
            lemma_unsigned_mul_bound(self.den as int, other.den as int);
        }
        let n1: i128 = self.num as i128 * other.den as i128;
        let n2: i128 = other.num as i128 * self.den as i128;
        let d: u128 = self.den as u128 * other.den as u128;
        if n1 > 0 && n2 > i128::MAX - n1 {
            None
        } else if n1 < 0 && n2 < i128::MIN - n1 {
            None
        } else {
            let n: i128 = n1 + n2;
            if n > i64::MIN as i128 && n <= i64::MAX as i128 && d <= u64::MAX as u128 {
                Some(Ratio { num: n as i64, den: d as u64 })
            } else {
                None
            }
        }
    }

    /// Exact multiplication; `None` exactly when the unnormalized result does
    /// not fit the representation.
    pub fn checked_mul(self, other: Ratio) -> (r: Option<Ratio>)
        requires
            self.wf(),
            other.wf(),
        ensures
            r is Some <==> mul_fits(self, other),
            r is Some ==> r->Some_0.wf() && r->Some_0.v() == q_mul(self.v(), other.v()),
    {
        proof {
            lemma_signed_mul_bound(self.num as int, other.num as int);
            lemma_unsigned_mul_bound(self.den as int, other.den as int);
        }
        let n: i128 = self.num as i128 * other.num as i128;
        let d: u128 = self.den as u128 * other.den as u128;
        if n > i64::MIN as i128 && n <= i64::MAX as i128 && d <= u64::MAX as u128 {
            Some(Ratio { num: n as i64, den: d as u64 })
        } else {
            None
        }
    }

    /// Mathematical equality of the denoted values.
    pub fn equiv(self, other: Ratio) -> (r: bool)
        requires
            self.wf(),
            other.wf(),
        ensures
            r == q_eq(self.v(), other.v()),
    {
        proof {
            lemma_cross_mul_bound(self.num as int, other.den as int);
            lemma_cross_mul_bound(other.num as int, self.den as int);
        }
        self.num as i128 * other.den as i128 == other.num as i128 * self.den as i128
    }

    /// Mathematical order on the denoted values.
    pub fn le(self, other: Ratio) -> (r: bool)
        requires
            self.wf(),
            other.wf(),
        ensures
            r == q_le(self.v(), other.v()),
    {
        proof {
            lemma_cross_mul_bound(self.num as int, other.den as int);
            lemma_cross_mul_bound(other.num as int, self.den as int);
        }
        self.num as i128 * other.den as i128 <= other.num as i128 * self.den as i128
    }
}

/// A product of two `u64` values stays within `u128`.
proof fn lemma_unsigned_mul_bound(a: int, b: int)
    requires
        0 <= a <= u64::MAX,
        0 <= b <= u64::MAX,
    ensures
        0 <= a * b <= u128::MAX,
        a >= 1 && b >= 1 ==> a * b >= 1,
{
    assert(0 <= a * b <= u128::MAX && (a >= 1 && b >= 1 ==> a * b >= 1)) by (nonlinear_arith)
        requires
            0 <= a <= u64::MAX,
            0 <= b <= u64::MAX,
    ;
}

/// A product of an `i64` value and a `u64` value stays within `i128`.
proof fn lemma_cross_mul_bound(a: int, b: int)
    requires
        i64::MIN <= a <= i64::MAX,
        0 <= b <= u64::MAX,
    ensures
        i128::MIN < a * b <= i128::MAX,
{
    assert(i128::MIN < a * b <= i128::MAX) by (nonlinear_arith)
        requires
            i64::MIN <= a <= i64::MAX,
            0 <= b <= u64::MAX,
    ;
}

/// A product of two `i64` values stays within `i128`.
proof fn lemma_signed_mul_bound(a: int, b: int)
    requires
        i64::MIN <= a <= i64::MAX,
        i64::MIN <= b <= i64::MAX,
    ensures
        i128::MIN < a * b <= i128::MAX,
{
    assert(i128::MIN < a * b <= i128::MAX) by (nonlinear_arith)
        requires
            i64::MIN <= a <= i64::MAX,
            i64::MIN <= b <= i64::MAX,
    ;
}

} // verus!

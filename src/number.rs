//! Exact rational numbers, the numeric values of the language.

use vstd::prelude::*;
use num_rational::Ratio;
use vstd::arithmetic::div_mod::{
    lemma_fundamental_div_mod, lemma_mod_multiples_vanish, lemma_mod_self_0, lemma_small_mod,
};

verus! {

/// The rational `num / den`. A well-formed number is in lowest terms with a
/// positive denominator, so that two well-formed numbers are equal exactly
/// when their fields are; the numbers this crate makes are well formed.
#[derive(Clone, Copy, Debug, PartialEq, Eq, Structural)]
pub struct Number {
    pub num: i32,
    pub den: i32,
}

impl Number {
    /// In lowest terms, with a positive denominator.
    pub open spec fn wf(&self) -> bool {
        in_lowest_terms(self.num as int, self.den as int)
    }

    /// The integer `n`.
    pub fn from_int(n: i32) -> (r: Number)
        ensures
            r.wf(),
            r.num == n,
            r.den == 1,
    {
        proof {
            assert forall|k: int| k > 1 implies !(#[trigger] (n as int % k) == 0 && 1int % k == 0) by {
                lemma_small_mod(1, k as nat);
            }
        }
        Number { num: n, den: 1 }
    }
}

/// `n` stands for the fraction `num / den` (`den` nonzero).
pub open spec fn denotes(n: Number, num: int, den: int) -> bool {
    n.den > 0 && n.num * den == num * n.den
}

/// `p / q` is a fraction in lowest terms with a positive denominator.
pub open spec fn in_lowest_terms(p: int, q: int) -> bool {
    q > 0 && forall|k: int| k > 1 ==> !(#[trigger] (p % k) == 0 && q % k == 0)
}

/// The fraction in lowest terms, with a positive denominator, equal to
/// `num / den` (`den` nonzero).
pub open spec fn lowest_terms(num: int, den: int) -> (int, int) {
    choose|pq: (int, int)| in_lowest_terms(pq.0, pq.1) && pq.0 * den == num * pq.1
}

/// The number `pq`, where both parts fit the width of a `Number`.
pub open spec fn fit(pq: (int, int)) -> Option<Number> {
    if i32::MIN <= pq.0 <= i32::MAX && 0 < pq.1 <= i32::MAX {
        Some(Number { num: pq.0 as i32, den: pq.1 as i32 })
    } else {
        None
    }
}

pub open spec fn sum_of(a: Number, b: Number) -> Option<Number> {
    fit(lowest_terms(a.num * b.den + b.num * a.den, a.den * b.den))
}

pub open spec fn difference_of(a: Number, b: Number) -> Option<Number> {
    fit(lowest_terms(a.num * b.den - b.num * a.den, a.den * b.den))
}

pub open spec fn product_of(a: Number, b: Number) -> Option<Number> {
    fit(lowest_terms(a.num * b.num, a.den * b.den))
}

/// `a / b`; `None` where `b` is zero.
pub open spec fn quotient_of(a: Number, b: Number) -> Option<Number> {
    if b.num == 0 {
        None
    } else {
        fit(lowest_terms(a.num * b.den, a.den * b.num))
    }
}

/// The remainder of `a` by `b` with the sign of `a`; `None` where `b` is zero.
pub open spec fn remainder_of(a: Number, b: Number) -> Option<Number> {
    if b.num == 0 {
        None
    } else {
        fit(lowest_terms(trunc_rem(a.num * b.den, b.num * a.den), a.den * b.den))
    }
}

/// The remainder of `x` by `y` with the sign of `x`, as Rust's `%` gives it.
pub open spec fn trunc_rem(x: int, y: int) -> int {
    let m = if y < 0 { -y } else { y };
    if x >= 0 {
        x % m
    } else {
        -((-x) % m)
    }
}

/// Relies on num_rational's `Add` for `Ratio<i64>`: the exact sum in lowest
/// terms with a positive denominator. With 32-bit operands no step overflows.
#[verifier::external_body]
fn ratio_add(a: Number, b: Number) -> (r: (i64, i64))
    requires
        a.wf(),
        b.wf(),
    ensures
        r.1 > 0 && r.0 * (a.den * b.den) == (a.num * b.den + b.num
            * a.den) * r.1,
        (r.0 as int, r.1 as int) == lowest_terms(a.num * b.den + b.num * a.den, a.den * b.den),
        in_lowest_terms(r.0 as int, r.1 as int),
{
    let q = Ratio::new(a.num as i64, a.den as i64) + Ratio::new(b.num as i64, b.den as i64);
    (*q.numer(), *q.denom())
}

/// Relies on num_rational's `Sub` for `Ratio<i64>`: the exact difference in lowest
/// terms with a positive denominator. With 32-bit operands no step overflows.
#[verifier::external_body]
fn ratio_sub(a: Number, b: Number) -> (r: (i64, i64))
    requires
        a.wf(),
        b.wf(),
    ensures
        r.1 > 0 && r.0 * (a.den * b.den) == (a.num * b.den - b.num
            * a.den) * r.1,
        (r.0 as int, r.1 as int) == lowest_terms(a.num * b.den - b.num * a.den, a.den * b.den),
        in_lowest_terms(r.0 as int, r.1 as int),
{
    let q = Ratio::new(a.num as i64, a.den as i64) - Ratio::new(b.num as i64, b.den as i64);
    (*q.numer(), *q.denom())
}

/// Relies on num_rational's `Mul` for `Ratio<i64>`: the exact product in lowest
/// terms with a positive denominator. With 32-bit operands no step overflows.
#[verifier::external_body]
fn ratio_mul(a: Number, b: Number) -> (r: (i64, i64))
    requires
        a.wf(),
        b.wf(),
    ensures
        r.1 > 0 && r.0 * (a.den * b.den) == (a.num * b.num) * r.1,
        (r.0 as int, r.1 as int) == lowest_terms(a.num * b.num, a.den * b.den),
        in_lowest_terms(r.0 as int, r.1 as int),
{
    let q = Ratio::new(a.num as i64, a.den as i64) * Ratio::new(b.num as i64, b.den as i64);
    (*q.numer(), *q.denom())
}

/// Relies on num_rational's `Div` for `Ratio<i64>`: the exact quotient in lowest
/// terms with a positive denominator. With 32-bit operands no step overflows.
#[verifier::external_body]
fn ratio_div(a: Number, b: Number) -> (r: (i64, i64))
    requires
        a.wf(),
        b.wf(),
        b.num != 0,
    ensures
        r.1 > 0 && r.0 * (a.den * b.num) == (a.num * b.den) * r.1,
        (r.0 as int, r.1 as int) == lowest_terms(a.num * b.den, a.den * b.num),
        in_lowest_terms(r.0 as int, r.1 as int),
{
    let q = Ratio::new(a.num as i64, a.den as i64) / Ratio::new(b.num as i64, b.den as i64);
    (*q.numer(), *q.denom())
}

/// Relies on num_rational's `Rem` for `Ratio<i64>`: over a common
/// denominator, the remainder of the numerators with the sign of the
/// dividend, in lowest terms with a positive denominator.
#[verifier::external_body]
fn ratio_rem(a: Number, b: Number) -> (r: (i64, i64))
    requires
        a.wf(),
        b.wf(),
        b.num != 0,
    ensures
        r.1 > 0,
        r.0 * (a.den * b.den) == trunc_rem(a.num * b.den, b.num * a.den) * r.1,
        (r.0 as int, r.1 as int) == lowest_terms(trunc_rem(a.num * b.den, b.num * a.den), a.den * b.den),
        in_lowest_terms(r.0 as int, r.1 as int),
{
    let q = Ratio::new(a.num as i64, a.den as i64) % Ratio::new(b.num as i64, b.den as i64);
    (*q.numer(), *q.denom())
}

pub proof fn lemma_mul_fits_i64(a: int, b: int)
    requires
        i32::MIN <= a <= i32::MAX,
        i32::MIN <= b <= i32::MAX,
    ensures
        i64::MIN < a * b < i64::MAX,
{
    assert(-0x8000_0000 * 0x8000_0000 <= a * b <= 0x8000_0000 * 0x8000_0000) by (nonlinear_arith)
        requires
            -0x8000_0000 <= a <= 0x8000_0000,
            -0x8000_0000 <= b <= 0x8000_0000,
    ;
}

/// The number `n / d`, where both fit the width of a `Number`.
fn narrow(r: (i64, i64)) -> (o: Option<Number>)
    requires
        in_lowest_terms(r.0 as int, r.1 as int),
    ensures
        o matches Some(n) ==> n.wf() && n.num == r.0 && n.den == r.1,
        o is Some == (i32::MIN <= r.0 <= i32::MAX && r.1 <= i32::MAX),
        o == fit((r.0 as int, r.1 as int)),
{
    if i32::MIN as i64 <= r.0 && r.0 <= i32::MAX as i64 && r.1 <= i32::MAX as i64 {
        Some(Number { num: r.0 as i32, den: r.1 as i32 })
    } else {
        None
    }
}

impl Number {
    /// `self + other`, where the result fits.
    pub fn checked_add(self, other: Number) -> (r: Option<Number>)
        requires
            self.wf(),
            other.wf(),
        ensures
            r matches Some(n) ==> denotes(
                n,
                self.num * other.den + other.num * self.den,
                self.den * other.den,
            ),
            r == sum_of(self, other),
            r matches Some(n) ==> n.wf(),
    {
        narrow(ratio_add(self, other))
    }

    /// `self - other`, where the result fits.
    pub fn checked_sub(self, other: Number) -> (r: Option<Number>)
        requires
            self.wf(),
            other.wf(),
        ensures
            r matches Some(n) ==> denotes(
                n,
                self.num * other.den - other.num * self.den,
                self.den * other.den,
            ),
            r == difference_of(self, other),
            r matches Some(n) ==> n.wf(),
    {
        narrow(ratio_sub(self, other))
    }

    /// `self * other`, where the result fits.
    pub fn checked_mul(self, other: Number) -> (r: Option<Number>)
        requires
            self.wf(),
            other.wf(),
        ensures
            r matches Some(n) ==> denotes(n, self.num * other.num, self.den * other.den),
            r == product_of(self, other),
            r matches Some(n) ==> n.wf(),
    {
        narrow(ratio_mul(self, other))
    }

    /// `self / other`; `None` where `other` is zero or the result does not fit.
    pub fn checked_div(self, other: Number) -> (r: Option<Number>)
        requires
            self.wf(),
            other.wf(),
        ensures
            other.num == 0 ==> r is None,
            r matches Some(n) ==> denotes(n, self.num * other.den, self.den * other.num),
            r == quotient_of(self, other),
            r matches Some(n) ==> n.wf(),
    {
        if other.num == 0 {
            return None;
        }
        narrow(ratio_div(self, other))
    }

    /// The remainder of `self` by `other` with the sign of `self`; `None`
    /// where `other` is zero or the result does not fit.
    pub fn checked_rem(self, other: Number) -> (r: Option<Number>)
        requires
            self.wf(),
            other.wf(),
        ensures
            other.num == 0 ==> r is None,
            r matches Some(n) ==> denotes(
                n,
                trunc_rem(self.num * other.den, other.num * self.den),
                self.den * other.den,
            ),
            r == remainder_of(self, other),
            r matches Some(n) ==> n.wf(),
    {
        if other.num == 0 {
            return None;
        }
        narrow(ratio_rem(self, other))
    }

    /// `self` and `other` are the same rational.
    pub fn same_as(self, other: Number) -> (r: bool)
        ensures
            r == (self.num * other.den == other.num * self.den),
    {
        proof {
            lemma_mul_fits_i64(self.num as int, other.den as int);
            lemma_mul_fits_i64(other.num as int, self.den as int);
        }
        (self.num as i64) * (other.den as i64) == (other.num as i64) * (self.den as i64)
    }

    /// `self < other` as rationals.
    pub fn less_than(self, other: Number) -> (r: bool)
        requires
            self.wf(),
            other.wf(),
        ensures
            r == (self.num * other.den < other.num * self.den),
    {
        proof {
            lemma_mul_fits_i64(self.num as int, other.den as int);
            lemma_mul_fits_i64(other.num as int, self.den as int);
        }
        (self.num as i64) * (other.den as i64) < (other.num as i64) * (self.den as i64)
    }
}

proof fn lemma_divides_neg(x: int, k: int)
    requires
        k > 0,
    ensures
        (x % k == 0) == ((-x) % k == 0),
{
    lemma_fundamental_div_mod(x, k);
    lemma_fundamental_div_mod(-x, k);
    if x % k == 0 {
        let q = x / k;
        assert(-x == k * (-q) + 0) by (nonlinear_arith)
            requires
                x == k * q + 0,
        ;
        lemma_mod_multiples_vanish(-q, 0, k);
        lemma_small_mod(0, k as nat);
    }
    if (-x) % k == 0 {
        let q = (-x) / k;
        assert(x == k * (-q) + 0) by (nonlinear_arith)
            requires
                -x == k * q + 0,
        ;
        lemma_mod_multiples_vanish(-q, 0, k);
        lemma_small_mod(0, k as nat);
    }
}

/// A common divisor of `a` and `b` is one of `b` and `a % b`.
proof fn lemma_euclid_step(a: int, b: int, k: int)
    requires
        a >= 0,
        b > 0,
        k > 0,
    ensures
        (a % k == 0 && b % k == 0) == (b % k == 0 && (a % b) % k == 0),
{
    if b % k == 0 {
        lemma_fundamental_div_mod(a, b);
        lemma_fundamental_div_mod(b, k);
        let q = a / b;
        let m = b / k;
        let r = a % b;
        assert(a == k * (m * q) + r) by (nonlinear_arith)
            requires
                a == b * q + r,
                b == k * m + 0,
        ;
        lemma_mod_multiples_vanish(m * q, r, k);
    }
}

impl Number {
    /// Whether the number is well formed: in lowest terms, with a positive
    /// denominator.
    pub fn is_wf(&self) -> (r: bool)
        ensures
            r == self.wf(),
    {
        let (n, d) = (self.num, self.den);
        if d <= 0 {
            return false;
        }
        let mut a: u64 = if n < 0 {
            (-(n as i64)) as u64
        } else {
            n as u64
        };
        let mut b: u64 = d as u64;
        proof {
            assert forall|k: int| k > 1 implies ((n as int % k == 0 && d as int % k == 0) == (#[trigger] (a as int
                % k) == 0 && b as int % k == 0)) by {
                if n < 0 {
                    lemma_divides_neg(n as int, k);
                }
            }
        }
        while b != 0
            invariant
                d > 0,
                a + b > 0,
                forall|k: int|
                    k > 1 ==> ((n as int % k == 0 && d as int % k == 0) == (#[trigger] (a as int % k)
                        == 0 && b as int % k == 0)),
            decreases b,
        {
            let t = a % b;
            proof {
                assert forall|k: int| k > 1 implies ((n as int % k == 0 && d as int % k == 0) == (
                #[trigger] (b as int % k) == 0 && t as int % k == 0)) by {
                    lemma_euclid_step(a as int, b as int, k);
                }
            }
            a = b;
            b = t;
        }
        proof {
            assert forall|k: int| k > 1 implies (#[trigger] (b as int % k) == 0) by {
                lemma_small_mod(0, k as nat);
            }
            if a == 1 {
                assert forall|k: int| k > 1 implies !(#[trigger] (n as int % k) == 0 && d as int % k == 0) by {
                    lemma_small_mod(1, k as nat);
                    assert(a as int % k == 1);
                }
            } else {
                let k = a as int;
                lemma_mod_self_0(k);
                assert(a as int % k == 0);
                assert(n as int % k == 0 && d as int % k == 0);
            }
        }
        a == 1
    }
}

} // verus!

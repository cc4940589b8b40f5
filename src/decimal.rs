//! Fixed-point decimals with 18 fractional digits, held as `u128` atomics.
use vstd::prelude::*;
use vstd::arithmetic::div_mod::{lemma_div_is_ordered, lemma_fundamental_div_mod};
use vstd::arithmetic::mul::{lemma_mul_inequality, lemma_mul_is_commutative};
use cosmwasm_bignumber::{Decimal256, Uint256};

verus! {

/// Atomics of the decimal 1.0.
pub const FRACTIONAL: u128 = 1_000_000_000_000_000_000;

/// A non-negative decimal `atomics / 10^18`.
#[derive(Clone, Copy, Debug, PartialEq, Eq, Structural)]
pub struct Decimal {
    pub atomics: u128,
}

/// Product of two decimals given by their atomics, rounded down.
pub open spec fn mul_value(a: int, b: int) -> int {
    a * b / (FRACTIONAL as int)
}

/// Quotient of two decimals given by their atomics, rounded down.
pub open spec fn div_value(a: int, b: int) -> int {
    a * (FRACTIONAL as int) / b
}

/// When a product is computed: a bound, checked without 256-bit arithmetic,
/// under which the product fits in `u128`.
pub open spec fn mul_fits(a: int, b: int) -> bool {
    (a / (FRACTIONAL as int) + 1) * b <= u128::MAX
}

/// When a quotient is computed: a non-zero divisor and a bound under which
/// the quotient fits in `u128`.
pub open spec fn div_fits(a: int, b: int) -> bool {
    b > 0 && (a / b + 1) * (FRACTIONAL as int) <= u128::MAX
}

/// The product as a partial function: `None` where it is not computed.
pub open spec fn mul_spec(a: Decimal, b: Decimal) -> Option<Decimal> {
    if mul_fits(a.atomics as int, b.atomics as int) {
        Some(Decimal { atomics: mul_value(a.atomics as int, b.atomics as int) as u128 })
    } else {
        None
    }
}

/// The quotient as a partial function: `None` where it is not computed.
pub open spec fn div_spec(a: Decimal, b: Decimal) -> Option<Decimal> {
    if div_fits(a.atomics as int, b.atomics as int) {
        Some(Decimal { atomics: div_value(a.atomics as int, b.atomics as int) as u128 })
    } else {
        None
    }
}

/// A whole amount as a decimal, where it fits.
pub open spec fn from_amount_spec(x: u128) -> Option<Decimal> {
    if x as int * FRACTIONAL <= u128::MAX {
        Some(Decimal { atomics: (x as int * FRACTIONAL) as u128 })
    } else {
        None
    }
}

/// Relies on cosmwasm_bignumber's `Decimal256 * Decimal256`, which is
/// `a * b / 10^18` on the atomics in 256-bit arithmetic, and on
/// `u128::from(Uint256)`, which panics above `u128::MAX`.
#[verifier::external_body]
fn decimal256_mul(a: u128, b: u128) -> (r: u128)
    requires
        mul_value(a as int, b as int) <= u128::MAX,
    ensures
        r == mul_value(a as int, b as int),
{
    let p = Decimal256(Uint256::from(a).0) * Decimal256(Uint256::from(b).0);
    u128::from(Uint256(p.0))
}

/// Relies on cosmwasm_bignumber's `Decimal256 / Decimal256`, which is
/// `a * 10^18 / b` on the atomics in 256-bit arithmetic and panics on a zero
/// divisor, and on `u128::from(Uint256)`, which panics above `u128::MAX`.
#[verifier::external_body]
fn decimal256_div(a: u128, b: u128) -> (r: u128)
    requires
        b > 0,
        div_value(a as int, b as int) <= u128::MAX,
    ensures
        r == div_value(a as int, b as int),
{
    let q = Decimal256(Uint256::from(a).0) / Decimal256(Uint256::from(b).0);
    u128::from(Uint256(q.0))
}

pub proof fn lemma_mul_fits(a: int, b: int)
    requires
        0 <= a,
        0 <= b,
        mul_fits(a, b),
    ensures
        0 <= mul_value(a, b) <= u128::MAX,
{
    let f = FRACTIONAL as int;
    let q = a / f;
    lemma_fundamental_div_mod(a, f);
    assert(a < (q + 1) * f) by (nonlinear_arith)
        requires
            a == f * q + a % f,
            a % f < f,
    ;
    assert(a * b <= (q + 1) * b * f) by (nonlinear_arith)
        requires
            a < (q + 1) * f,
            b >= 0,
    ;
    assert(0 <= a * b) by (nonlinear_arith)
        requires
            a >= 0,
            b >= 0,
    ;
    lemma_div_is_ordered(a * b, (q + 1) * b * f, f);
    vstd::arithmetic::div_mod::lemma_div_multiples_vanish((q + 1) * b, f);
    lemma_mul_is_commutative((q + 1) * b, f);
    lemma_div_is_ordered(0, a * b, f);
}

pub proof fn lemma_div_fits(a: int, b: int)
    requires
        0 <= a,
        div_fits(a, b),
    ensures
        0 <= div_value(a, b) <= u128::MAX,
{
    let f = FRACTIONAL as int;
    let q = a / b;
    lemma_fundamental_div_mod(a, b);
    assert(a < (q + 1) * b) by (nonlinear_arith)
        requires
            a == b * q + a % b,
            a % b < b,
    ;
    assert(a * f < (q + 1) * f * b) by (nonlinear_arith)
        requires
            a < (q + 1) * b,
            f > 0,
    ;
    assert(0 <= a * f) by (nonlinear_arith)
        requires
            a >= 0,
            f > 0,
    ;
    lemma_div_is_ordered(a * f, (q + 1) * f * b, b);
    vstd::arithmetic::div_mod::lemma_div_multiples_vanish((q + 1) * f, b);
    lemma_mul_is_commutative((q + 1) * f, b);
    lemma_div_is_ordered(0, a * f, b);
}

/// A product grows with each factor.
pub proof fn lemma_mul_monotonic(a: Decimal, b1: Decimal, b2: Decimal)
    requires
        b1.atomics <= b2.atomics,
    ensures
        mul_spec(a, b2) is Some ==> mul_spec(a, b1) is Some,
        mul_spec(a, b2) is Some ==> mul_spec(a, b1)->0.atomics <= mul_spec(a, b2)->0.atomics,
{
    let x = a.atomics as int;
    let f = FRACTIONAL as int;
    assert((x / f + 1) * b1.atomics <= (x / f + 1) * b2.atomics) by (nonlinear_arith)
        requires
            x / f + 1 >= 0,
            b1.atomics <= b2.atomics,
    ;
    lemma_mul_inequality(b1.atomics as int, b2.atomics as int, x);
    lemma_mul_is_commutative(b1.atomics as int, x);
    lemma_mul_is_commutative(b2.atomics as int, x);
    lemma_div_is_ordered(x * b1.atomics, x * b2.atomics, f);
    if mul_spec(a, b2) is Some {
        lemma_mul_fits(x, b1.atomics as int);
        lemma_mul_fits(x, b2.atomics as int);
    }
}

/// Scaling by a fraction of at most one does not increase a value.
pub proof fn lemma_mul_by_fraction(m: int, s: int)
    requires
        0 <= m,
        0 <= s <= FRACTIONAL,
    ensures
        0 <= mul_value(m, s) <= m,
{
    let f = FRACTIONAL as int;
    lemma_mul_inequality(s, f, m);
    lemma_mul_is_commutative(s, m);
    lemma_mul_is_commutative(f, m);
    lemma_div_is_ordered(m * s, m * f, f);
    vstd::arithmetic::div_mod::lemma_div_multiples_vanish(m, f);
    assert(0 <= m * s) by (nonlinear_arith)
        requires
            m >= 0,
            s >= 0,
    ;
    lemma_div_is_ordered(0, m * s, f);
}

impl Decimal {
    pub fn zero() -> (r: Decimal)
        ensures
            r.atomics == 0,
    {
        Decimal { atomics: 0 }
    }

    pub fn one() -> (r: Decimal)
        ensures
            r.atomics == FRACTIONAL,
    {
        Decimal { atomics: FRACTIONAL }
    }

    pub fn is_zero(&self) -> (r: bool)
        ensures
            r == (self.atomics == 0),
    {
        self.atomics == 0
    }

    /// The whole amount `x` as a decimal; `None` where it does not fit.
    pub fn from_amount(x: u128) -> (r: Option<Decimal>)
        ensures
            r == from_amount_spec(x),
    {
        match x.checked_mul(FRACTIONAL) {
            Some(a) => Some(Decimal { atomics: a }),
            None => None,
        }
    }

    /// The whole part, rounded down.
    pub fn to_amount(&self) -> (r: u128)
        ensures
            r == self.atomics / FRACTIONAL,
    {
        self.atomics / FRACTIONAL
    }

    pub fn checked_add(&self, o: Decimal) -> (r: Option<Decimal>)
        ensures
            self.atomics + o.atomics <= u128::MAX ==> r == Some(
                Decimal { atomics: (self.atomics + o.atomics) as u128 },
            ),
            self.atomics + o.atomics > u128::MAX ==> r is None,
    {
        match self.atomics.checked_add(o.atomics) {
            Some(a) => Some(Decimal { atomics: a }),
            None => None,
        }
    }

    pub fn checked_sub(&self, o: Decimal) -> (r: Option<Decimal>)
        ensures
            o.atomics <= self.atomics ==> r == Some(
                Decimal { atomics: (self.atomics - o.atomics) as u128 },
            ),
            o.atomics > self.atomics ==> r is None,
    {
        match self.atomics.checked_sub(o.atomics) {
            Some(a) => Some(Decimal { atomics: a }),
            None => None,
        }
    }

    /// The product, rounded down to 18 fractional digits.
    pub fn checked_mul(&self, o: Decimal) -> (r: Option<Decimal>)
        ensures
            r == mul_spec(*self, o),
    {
        let q = self.atomics / FRACTIONAL;
        assert(q + 1 <= u128::MAX);
        match (q + 1).checked_mul(o.atomics) {
            Some(_) => {
                proof {
                    lemma_mul_fits(self.atomics as int, o.atomics as int);
                }
                Some(Decimal { atomics: decimal256_mul(self.atomics, o.atomics) })
            },
            None => None,
        }
    }

    /// The quotient, rounded down to 18 fractional digits.
    pub fn checked_div(&self, o: Decimal) -> (r: Option<Decimal>)
        ensures
            r == div_spec(*self, o),
    {
        if o.atomics == 0 {
            return None;
        }
        let q = self.atomics / o.atomics;
        if q >= u128::MAX {
            return None;
        }
        match (q + 1).checked_mul(FRACTIONAL) {
            Some(_) => {
                proof {
                    lemma_div_fits(self.atomics as int, o.atomics as int);
                }
                Some(Decimal { atomics: decimal256_div(self.atomics, o.atomics) })
            },
            None => None,
        }
    }
}

} // verus!

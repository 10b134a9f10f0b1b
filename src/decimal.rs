use vstd::prelude::*;
use vstd::arithmetic::div_mod::{
    lemma_div_multiples_vanish_fancy, lemma_fundamental_div_mod, lemma_div_is_ordered,
};
use vstd::arithmetic::mul::lemma_mul_inequality;

use crate::error::MarketError;

verus! {

/// Number of atomic units in one whole unit of a `Decimal` (eighteen places).
pub const DECIMAL_FRACTIONAL: u128 = 1_000_000_000_000_000_000;

/// `DECIMAL_FRACTIONAL` as a mathematical integer.
pub open spec fn frac() -> int {
    DECIMAL_FRACTIONAL as int
}

/// A non-negative fixed-point number: `atomics / 10^18`.
#[derive(Clone, Copy, Debug, PartialEq, Eq, Structural)]
pub struct Decimal {
    pub atomics: u128,
}

/// `a * b / 10^18`, truncated: the product of two fixed-point values, or of an
/// integer amount and a fixed-point ratio.
pub open spec fn mul_floor(a: int, b: int) -> int {
    a * b / frac()
}

/// `a * 10^18 / b`, truncated: the quotient of two fixed-point values.
pub open spec fn div_floor(a: int, b: int) -> int {
    a * frac() / b
}

/// `max(a - b, 0)`.
pub open spec fn sub_clamped(a: int, b: int) -> int {
    if a >= b { a - b } else { 0 }
}

/// `x` can be held in a `u128`.
pub open spec fn fits(x: int) -> bool {
    0 <= x <= u128::MAX
}

/// `(d * x + y) / d == x + y / d` for a non-negative `y`.
proof fn lemma_div_shift(x: int, y: int, d: int)
    requires
        0 < d,
        0 <= y,
    ensures
        (d * x + y) / d == x + y / d,
{
    lemma_fundamental_div_mod(y, d);
    assert(d * x + y == d * (x + y / d) + y % d) by (nonlinear_arith)
        requires y == d * (y / d) + y % d;
    lemma_div_multiples_vanish_fancy(x + y / d, y % d, d);
}

/// Splitting both factors at `10^18` gives the truncated product term by term.
proof fn lemma_mul_floor_split(a: int, b: int)
    requires
        0 <= a,
        0 <= b,
    ensures
        mul_floor(a, b) == (a / frac()) * b + (a % frac()) * (b / frac())
            + ((a % frac()) * (b % frac())) / frac(),
{
    let f = frac();
    let qa = a / f;
    let ra = a % f;
    let qb = b / f;
    let rb = b % f;
    lemma_fundamental_div_mod(a, f);
    lemma_fundamental_div_mod(b, f);
    assert(0 <= ra && 0 <= rb);
    assert(a * b == f * (qa * b + ra * qb) + ra * rb) by (nonlinear_arith)
        requires a == f * qa + ra, b == f * qb + rb;
    assert(ra * rb >= 0) by (nonlinear_arith) requires ra >= 0, rb >= 0;
    lemma_div_shift(qa * b + ra * qb, ra * rb, f);
}

/// `mul_floor` does not shrink as either factor grows.
pub proof fn lemma_mul_floor_monotone(a1: int, a2: int, b1: int, b2: int)
    requires
        0 <= a1 <= a2,
        0 <= b1 <= b2,
    ensures
        0 <= mul_floor(a1, b1) <= mul_floor(a2, b2),
{
    lemma_mul_inequality(a1, a2, b1);
    assert(a2 * b1 <= a2 * b2) by (nonlinear_arith) requires 0 <= a2, b1 <= b2;
    assert(0 <= a1 * b1) by (nonlinear_arith) requires 0 <= a1, 0 <= b1;
    lemma_div_is_ordered(0, a1 * b1, frac());
    lemma_div_is_ordered(a1 * b1, a2 * b2, frac());
}

/// Multiplying by one whole unit leaves a value unchanged; by zero gives zero.
pub proof fn lemma_mul_floor_unit(a: int)
    ensures
        mul_floor(a, frac()) == a,
        mul_floor(a, 0) == 0,
        mul_floor(0, a) == 0,
{
    lemma_div_multiples_vanish_fancy(a, 0, frac());
    assert(a * frac() == frac() * a + 0) by (nonlinear_arith);
}

/// A positive value divided by itself is one whole unit.
pub proof fn lemma_div_floor_self(a: int)
    requires
        0 < a,
    ensures
        div_floor(a, a) == frac(),
{
    lemma_div_multiples_vanish_fancy(frac(), 0, a);
    assert(a * frac() == a * frac() + 0);
}

/// Truncated product `a * b / 10^18`, failing when the result does not fit.
pub fn checked_mul_floor(a: u128, b: u128) -> (r: Result<u128, MarketError>)
    ensures
        match r {
            Ok(v) => fits(mul_floor(a as int, b as int)) && v as int == mul_floor(a as int, b as int),
            Err(e) => !fits(mul_floor(a as int, b as int)) && e == MarketError::ArithmeticOverflow,
        },
{
    let qa = a / DECIMAL_FRACTIONAL;
    let ra = a % DECIMAL_FRACTIONAL;
    let qb = b / DECIMAL_FRACTIONAL;
    let rb = b % DECIMAL_FRACTIONAL;
    proof {
        lemma_mul_floor_split(a as int, b as int);
        assert(ra * rb < frac() * frac()) by (nonlinear_arith)
            requires ra < frac(), rb < frac(), 0 <= ra, 0 <= rb;
        assert(qb * frac() <= b) by {
            lemma_fundamental_div_mod(b as int, frac());
        }
        lemma_mul_inequality(ra as int, frac(), qb as int);
        assert(0 <= (ra * rb) as int / frac());
        assert(0 <= ra * qb) by (nonlinear_arith) requires 0 <= ra, 0 <= qb;
    }
    let low = ra * rb / DECIMAL_FRACTIONAL;
    let mid = ra * qb;
    match qa.checked_mul(b) {
        None => {
            proof {
                assert(0 <= qa * b) by (nonlinear_arith) requires 0 <= qa, 0 <= b;
            }
            Err(MarketError::ArithmeticOverflow)
        },
        Some(high) => match high.checked_add(mid) {
            None => Err(MarketError::ArithmeticOverflow),
            Some(s) => match s.checked_add(low) {
                None => Err(MarketError::ArithmeticOverflow),
                Some(v) => Ok(v),
            },
        },
    }
}

/// `10^k`.
pub open spec fn pow10(k: nat) -> int
    decreases k,
{
    if k == 0 {
        1
    } else {
        10 * pow10((k - 1) as nat)
    }
}

/// `10 * r`, split as `c * b + r2` with `r2 < b`, for `r < b`: ten additions
/// modulo `b`, none of which leaves 128 bits.
fn times_ten_mod(r: u128, b: u128) -> (res: (u128, u128))
    requires
        r < b,
    ensures
        10 * r == res.0 * b + res.1,
        res.1 < b,
        res.0 < 10,
{
    let mut carry: u128 = 0;
    let mut acc: u128 = 0;
    let mut j: u128 = 0;
    while j < 10
        invariant
            r < b,
            j <= 10,
            j * r == carry * b + acc,
            acc < b,
            carry <= j,
        decreases 10 - j,
    {
        proof {
            assert((j + 1) * r == j * r + r) by (nonlinear_arith);
            assert((carry + 1) * b == carry * b + b) by (nonlinear_arith);
        }
        if acc >= b - r {
            acc = acc - (b - r);
            carry = carry + 1;
        } else {
            acc = acc + r;
        }
        j = j + 1;
    }
    proof {
        assert(carry * b + acc == 10 * r);
        assert(carry < 10) by (nonlinear_arith)
            requires carry * b + acc == 10 * r, r < b, 0 <= acc, 0 <= carry, carry <= 10;
    }
    (carry, acc)
}

/// `r * 10^18 / b` for `r < b`, by decimal long division.
fn fraction_digits(r: u128, b: u128) -> (q: u128)
    requires
        r < b,
    ensures
        q as int == r * frac() / (b as int),
        (q as int) < frac(),
{
    let mut q: u128 = 0;
    let mut rem: u128 = r;
    let mut k: u32 = 0;
    proof {
        lemma_pow10_monotone(0, 18);
    }
    while k < 18
        invariant
            r < b,
            k <= 18,
            r * pow10(k as nat) == q * b + rem,
            rem < b,
            q < pow10(k as nat),
            pow10(k as nat) <= pow10(18),
        decreases 18 - k,
    {
        let (c, r2) = times_ten_mod(rem, b);
        proof {
            let p = pow10(k as nat);
            assert(pow10((k + 1) as nat) == 10 * p);
            assert(r * (10 * p) == (q * 10 + c) * b + r2) by (nonlinear_arith)
                requires r * p == q * b + rem, 10 * rem == c * b + r2;
            assert(q * 10 + c < 10 * p) by (nonlinear_arith)
                requires q < p, c < 10;
            lemma_pow10_monotone((k + 1) as nat, 18);
            reveal_with_fuel(pow10, 19);
            assert(pow10(18) <= u128::MAX);
        }
        q = q * 10 + c;
        rem = r2;
        k = k + 1;
    }
    proof {
        reveal_with_fuel(pow10, 19);
        assert(pow10(18) == frac());
        lemma_div_multiples_vanish_fancy(q as int, rem as int, b as int);
        assert(b * q + rem == r * frac()) by (nonlinear_arith)
            requires r * pow10(18) == q * b + rem, pow10(18) == frac();
    }
    q
}

proof fn lemma_pow10_monotone(i: nat, j: nat)
    requires
        i <= j,
    ensures
        1 <= pow10(i) <= pow10(j),
    decreases j,
{
    if j == 0 {
    } else if i == j {
        lemma_pow10_monotone(0, (j - 1) as nat);
    } else {
        lemma_pow10_monotone(i, (j - 1) as nat);
    }
}

/// Truncated quotient `a * 10^18 / b`, failing on a zero divisor or when the
/// quotient does not fit.
pub fn checked_div_floor(a: u128, b: u128) -> (r: Result<u128, MarketError>)
    ensures
        match r {
            Ok(v) => b != 0 && fits(div_floor(a as int, b as int)) && v as int == div_floor(
                a as int,
                b as int,
            ),
            Err(e) => (b == 0 && e == MarketError::DivisionByZero) || (b != 0 && !fits(
                div_floor(a as int, b as int),
            ) && e == MarketError::ArithmeticOverflow),
        },
{
    if b == 0 {
        return Err(MarketError::DivisionByZero);
    }
    let whole = a / b;
    let rest = a % b;
    let low = fraction_digits(rest, b);
    proof {
        lemma_fundamental_div_mod(a as int, b as int);
        assert(a * frac() == b * (whole * frac()) + rest * frac()) by (nonlinear_arith)
            requires a == b * whole + rest;
        assert(rest * frac() >= 0) by (nonlinear_arith) requires rest >= 0, frac() > 0;
        lemma_div_shift(whole * frac(), rest * frac(), b as int);
        assert(div_floor(a as int, b as int) == whole * frac() + low);
        assert(whole * frac() >= 0) by (nonlinear_arith) requires whole >= 0, frac() > 0;
    }
    match whole.checked_mul(DECIMAL_FRACTIONAL) {
        None => Err(MarketError::ArithmeticOverflow),
        Some(high) => match high.checked_add(low) {
            None => Err(MarketError::ArithmeticOverflow),
            Some(v) => Ok(v),
        },
    }
}

impl Decimal {
    pub fn zero() -> (r: Decimal)
        ensures
            r.atomics == 0,
    {
        Decimal { atomics: 0 }
    }

    pub fn one() -> (r: Decimal)
        ensures
            r.atomics == DECIMAL_FRACTIONAL,
    {
        Decimal { atomics: DECIMAL_FRACTIONAL }
    }

    /// The whole number `n` as a fixed-point value.
    pub fn from_integer(n: u128) -> (r: Result<Decimal, MarketError>)
        ensures
            match r {
                Ok(d) => fits(n * frac()) && d.atomics == n * frac(),
                Err(e) => !fits(n * frac()) && e == MarketError::ArithmeticOverflow,
            },
    {
        match n.checked_mul(DECIMAL_FRACTIONAL) {
            Some(a) => Ok(Decimal { atomics: a }),
            None => Err(MarketError::ArithmeticOverflow),
        }
    }

    /// `self + other`, failing when the sum does not fit.
    pub fn checked_add(self, other: Decimal) -> (r: Result<Decimal, MarketError>)
        ensures
            match r {
                Ok(d) => fits(self.atomics + other.atomics) && d.atomics == self.atomics
                    + other.atomics,
                Err(e) => !fits(self.atomics + other.atomics) && e == MarketError::ArithmeticOverflow,
            },
    {
        match self.atomics.checked_add(other.atomics) {
            Some(a) => Ok(Decimal { atomics: a }),
            None => Err(MarketError::ArithmeticOverflow),
        }
    }
}

/// `a * b`, truncated to eighteen places.
pub fn decimal_multiplication(a: Decimal, b: Decimal) -> (r: Result<Decimal, MarketError>)
    ensures
        match r {
            Ok(d) => fits(mul_floor(a.atomics as int, b.atomics as int)) && d.atomics == mul_floor(
                a.atomics as int,
                b.atomics as int,
            ),
            Err(e) => !fits(mul_floor(a.atomics as int, b.atomics as int)) && e
                == MarketError::ArithmeticOverflow,
        },
{
    match checked_mul_floor(a.atomics, b.atomics) {
        Ok(v) => Ok(Decimal { atomics: v }),
        Err(e) => Err(e),
    }
}

/// `a / b`, truncated to eighteen places.
pub fn decimal_division(a: Decimal, b: Decimal) -> (r: Result<Decimal, MarketError>)
    ensures
        match r {
            Ok(d) => b.atomics != 0 && fits(div_floor(a.atomics as int, b.atomics as int))
                && d.atomics == div_floor(a.atomics as int, b.atomics as int),
            Err(e) => (b.atomics == 0 && e == MarketError::DivisionByZero) || (b.atomics != 0
                && !fits(div_floor(a.atomics as int, b.atomics as int)) && e
                == MarketError::ArithmeticOverflow),
        },
{
    match checked_div_floor(a.atomics, b.atomics) {
        Ok(v) => Ok(Decimal { atomics: v }),
        Err(e) => Err(e),
    }
}

/// `max(a - b, 0)`: for aggregates that truncation drift must not drive below zero.
pub fn decimal_subtraction(a: Decimal, b: Decimal) -> (r: Decimal)
    ensures
        r.atomics == sub_clamped(a.atomics as int, b.atomics as int),
{
    if a.atomics >= b.atomics {
        Decimal { atomics: a.atomics - b.atomics }
    } else {
        Decimal { atomics: 0 }
    }
}

/// `a - b`, failing when `b` exceeds `a`.
pub fn strict_subtraction(a: u128, b: u128) -> (r: Result<u128, MarketError>)
    ensures
        match r {
            Ok(v) => b <= a && v == a - b,
            Err(e) => b > a && e == MarketError::Underflow,
        },
{
    if b <= a {
        Ok(a - b)
    } else {
        Err(MarketError::Underflow)
    }
}

} // verus!

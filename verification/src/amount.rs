//! Exact integer arithmetic on monetary amounts.

use vstd::prelude::*;

verus! {

/// A calendar day, counted in days from 1970-01-01.
pub type Day = i32;

/// Units of a rate (an exchange rate, a periodic rate of return) that make up 1.
pub const RATE_UNITS: i64 = 1_000_000;

/// Units of a percentage that make up one percent.
pub const PERCENT_UNITS: i128 = 1_000_000;

/// The quotient of a numerator of either sign by a positive divisor,
/// rounded toward zero.
pub open spec fn quotient_by_positive(a: int, b: int) -> int
    recommends
        b > 0,
{
    if a >= 0 {
        a / b
    } else {
        -((-a) / b)
    }
}

/// The quotient `a / b` rounded toward zero, for any non-zero divisor.
pub open spec fn trunc_div(a: int, b: int) -> int
    recommends
        b != 0,
{
    if b > 0 {
        quotient_by_positive(a, b)
    } else {
        -quotient_by_positive(a, -b)
    }
}

/// Whether an integer can be held as an `i64`.
pub open spec fn fits_i64(x: int) -> bool {
    i64::MIN <= x <= i64::MAX
}

/// Whether an integer can be held as an `i128`.
pub open spec fn fits_i128(x: int) -> bool {
    i128::MIN <= x <= i128::MAX
}

/// Rounding toward zero never moves a quotient by a whole unit: the product
/// of quotient and divisor lies within one divisor of the numerator, on the
/// side of zero.
pub proof fn lemma_trunc_div_bounds(a: int, b: int)
    requires
        b > 0,
    ensures
        a >= 0 ==> trunc_div(a, b) * b <= a < trunc_div(a, b) * b + b,
        a <= 0 ==> trunc_div(a, b) * b - b < a <= trunc_div(a, b) * b,
        a % b == 0 ==> trunc_div(a, b) * b == a,
{
    vstd::arithmetic::div_mod::lemma_fundamental_div_mod(a, b);
    vstd::arithmetic::div_mod::lemma_fundamental_div_mod(-a, b);
    vstd::arithmetic::div_mod::lemma_mod_bound(a, b);
    vstd::arithmetic::div_mod::lemma_mod_bound(-a, b);
    assert(b * (a / b) == (a / b) * b) by (nonlinear_arith);
    assert(b * ((-a) / b) == ((-a) / b) * b) by (nonlinear_arith);
    assert((-((-a) / b)) * b == -(((-a) / b) * b)) by (nonlinear_arith);
    if a % b == 0 && a < 0 {
        let k = a / b;
        assert(-a == (-k) * b + 0) by (nonlinear_arith)
            requires
                a == b * k,
        ;
        vstd::arithmetic::div_mod::lemma_fundamental_div_mod_converse(-a, b, -k, 0);
    }
}

/// The exact product of two 64-bit values.
pub fn product(a: i64, b: i64) -> (r: i128)
    ensures
        r == a * b,
        -0x4000_0000_0000_0000_0000_0000_0000_0000 < r <= 0x4000_0000_0000_0000_0000_0000_0000_0000,
{
    assert(-0x4000_0000_0000_0000_0000_0000_0000_0000 < a * b
        <= 0x4000_0000_0000_0000_0000_0000_0000_0000) by (nonlinear_arith)
        requires
            -0x8000_0000_0000_0000 <= a < 0x8000_0000_0000_0000,
            -0x8000_0000_0000_0000 <= b < 0x8000_0000_0000_0000,
    ;
    (a as i128) * (b as i128)
}

/// The sum of two amounts, where it can be held.
pub fn checked_sum(a: i128, b: i128) -> (r: Option<i128>)
    ensures
        fits_i128(a + b) ==> r == Some((a + b) as i128),
        !fits_i128(a + b) ==> r.is_none(),
{
    a.checked_add(b)
}

/// The difference of two amounts, where it can be held.
pub fn checked_difference(a: i128, b: i128) -> (r: Option<i128>)
    ensures
        fits_i128(a - b) ==> r == Some((a - b) as i128),
        !fits_i128(a - b) ==> r.is_none(),
{
    a.checked_sub(b)
}

/// The product of two amounts, where it can be held.
pub fn checked_product(a: i128, b: i128) -> (r: Option<i128>)
    ensures
        fits_i128(a * b) ==> r == Some((a * b) as i128),
        !fits_i128(a * b) ==> r.is_none(),
{
    a.checked_mul(b)
}

/// The quotient rounded toward zero, where the divisor is not zero and the
/// quotient can be held.
pub fn checked_quotient(a: i128, b: i128) -> (r: Option<i128>)
    ensures
        b != 0 && fits_i128(trunc_div(a as int, b as int)) ==> r == Some(
            trunc_div(a as int, b as int) as i128,
        ),
        b == 0 || !fits_i128(trunc_div(a as int, b as int)) ==> r.is_none(),
{
    if b == 0 {
        None
    } else if b > 0 {
        proof {
            lemma_quotient_magnitude(a as int, b as int);
        }
        Some(a / b)
    } else if b == i128::MIN {
        proof {
            lemma_quotient_by_min(a as int);
        }
        if a == i128::MIN {
            Some(1)
        } else {
            Some(0)
        }
    } else {
        let nb: i128 = -b;
        proof {
            lemma_quotient_magnitude(a as int, nb as int);
        }
        let q: i128 = a / nb;
        if q == i128::MIN {
            None
        } else {
            Some(-q)
        }
    }
}

proof fn lemma_quotient_magnitude(a: int, b: int)
    requires
        b > 0,
    ensures
        a >= 0 ==> 0 <= quotient_by_positive(a, b) <= a,
        a <= 0 ==> a <= quotient_by_positive(a, b) <= 0,
{
    lemma_trunc_div_bounds(a, b);
    let q = quotient_by_positive(a, b);
    if a >= 0 {
        assert(0 <= q <= a) by (nonlinear_arith)
            requires
                q * b <= a < q * b + b,
                b >= 1,
                a >= 0,
        ;
    } else {
        assert(a <= q <= 0) by (nonlinear_arith)
            requires
                q * b - b < a <= q * b,
                b >= 1,
                a <= 0,
        ;
    }
}

proof fn lemma_quotient_by_min(a: int)
    requires
        i128::MIN <= a <= i128::MAX,
    ensures
        trunc_div(a, i128::MIN as int) == (if a == i128::MIN {
            1int
        } else {
            0int
        }),
{
    let m: int = -(i128::MIN as int);
    if a >= 0 {
        vstd::arithmetic::div_mod::lemma_basic_div(a, m);
    } else if a == i128::MIN {
        vstd::arithmetic::div_mod::lemma_div_basics(m);
    } else {
        vstd::arithmetic::div_mod::lemma_basic_div(-a, m);
    }
}

} // verus!

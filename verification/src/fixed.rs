//! Fixed-point decimal arithmetic with 18 fractional digits.
//!
//! Every quantity of the engine (token amounts, prices, ratios) is an
//! `i128` counting subunits of `10^-18` ("attos"), the representation the
//! ledger's `Decimal` type uses. Addition and subtraction are plain integer
//! operations; multiplication and division need a 256-bit intermediate and
//! are delegated to scrypto's `Decimal`, whose rounding (truncation toward
//! zero) the spec functions below restate exactly.

use vstd::prelude::*;

verus! {

/// Number of subunits in one whole fixed-point unit.
pub const SCALE: i128 = 1_000_000_000_000_000_000;

pub open spec fn iabs(a: int) -> int {
    if a >= 0 {
        a
    } else {
        -a
    }
}

/// Integer division truncating toward zero, the rounding used by all
/// fixed-point multiplications and divisions.
pub open spec fn trunc_div(a: int, b: int) -> int {
    if (a >= 0) == (b >= 0) {
        iabs(a) / iabs(b)
    } else {
        -(iabs(a) / iabs(b))
    }
}

/// Product of two fixed-point values, truncated toward zero.
pub open spec fn mul_fp(a: int, b: int) -> int {
    trunc_div(a * b, SCALE as int)
}

/// Quotient of two fixed-point values, truncated toward zero.
pub open spec fn div_fp(a: int, b: int) -> int {
    trunc_div(a * (SCALE as int), b)
}

pub open spec fn fits_fp(x: int) -> bool {
    i128::MIN <= x <= i128::MAX
}

/// `base` raised to the whole-number power `n`, one truncating
/// multiplication per step, starting from one.
pub open spec fn pow_fp(base: int, n: nat) -> int
    decreases n,
{
    if n == 0 {
        SCALE as int
    } else {
        mul_fp(pow_fp(base, (n - 1) as nat), base)
    }
}

/// All intermediate powers up to `n` stay representable.
pub open spec fn pow_fits(base: int, n: nat) -> bool {
    forall|j: nat| j <= n ==> fits_fp(pow_fp(base, j))
}

pub proof fn lemma_mul_fp_nonneg(a: int, b: int)
    requires
        a >= 0,
        b >= 0,
    ensures
        mul_fp(a, b) >= 0,
{
    assert(a * b >= 0) by (nonlinear_arith)
        requires
            a >= 0,
            b >= 0,
    ;
}

pub proof fn lemma_div_fp_nonneg(a: int, b: int)
    requires
        a >= 0,
        b > 0,
    ensures
        div_fp(a, b) >= 0,
{
    assert(a * (SCALE as int) >= 0) by (nonlinear_arith)
        requires
            a >= 0,
    ;
}

/// Relies on scrypto's `Decimal::checked_mul`: multiplies the two 192-bit
/// fixed-point numbers over a 256-bit intermediate, divides by `10^18`
/// truncating toward zero, and fails only when the result does not fit.
#[verifier::external_body]
pub fn dec_mul(a: i128, b: i128) -> (r: Option<i128>)
    ensures
        r matches Some(v) ==> v as int == mul_fp(a as int, b as int),
        r is Some <==> fits_fp(mul_fp(a as int, b as int)),
{
    let da = scrypto::math::Decimal::from_attos(scrypto::math::I192::from(a));
    let db = scrypto::math::Decimal::from_attos(scrypto::math::I192::from(b));
    match scrypto::math::CheckedMul::checked_mul(da, db) {
        Some(c) => scrypto::prelude::ToPrimitive::to_i128(&c.attos()),
        None => None,
    }
}

/// Relies on scrypto's `Decimal::checked_div`: multiplies the dividend by
/// `10^18` over a 256-bit intermediate and divides truncating toward zero;
/// fails exactly on a zero divisor or a result that does not fit.
#[verifier::external_body]
pub fn dec_div(a: i128, b: i128) -> (r: Option<i128>)
    ensures
        r matches Some(v) ==> v as int == div_fp(a as int, b as int),
        r is Some <==> (b != 0 && fits_fp(div_fp(a as int, b as int))),
{
    let da = scrypto::math::Decimal::from_attos(scrypto::math::I192::from(a));
    let db = scrypto::math::Decimal::from_attos(scrypto::math::I192::from(b));
    match scrypto::math::CheckedDiv::checked_div(da, db) {
        Some(c) => scrypto::prelude::ToPrimitive::to_i128(&c.attos()),
        None => None,
    }
}

pub fn add_fp(a: i128, b: i128) -> (r: Option<i128>)
    ensures
        r matches Some(v) ==> v as int == a as int + b as int,
        r is Some <==> fits_fp(a as int + b as int),
{
    a.checked_add(b)
}

pub fn sub_fp(a: i128, b: i128) -> (r: Option<i128>)
    ensures
        r matches Some(v) ==> v as int == a as int - b as int,
        r is Some <==> fits_fp(a as int - b as int),
{
    a.checked_sub(b)
}

/// Fixed-point power with a whole-number exponent, by repeated
/// truncating multiplication.
pub fn dec_pow(base: i128, n: u64) -> (r: Option<i128>)
    ensures
        r matches Some(v) ==> v as int == pow_fp(base as int, n as nat),
        r is Some <==> pow_fits(base as int, n as nat),
{
    let mut result: i128 = SCALE;
    let mut i: u64 = 0;
    while i < n
        invariant
            i <= n,
            result as int == pow_fp(base as int, i as nat),
            forall|j: nat| j <= i ==> fits_fp(pow_fp(base as int, j)),
        decreases n - i,
    {
        match dec_mul(result, base) {
            Some(v) => {
                assert(pow_fp(base as int, (i + 1) as nat) == mul_fp(
                    pow_fp(base as int, i as nat),
                    base as int,
                ));
                result = v;
            },
            None => {
                assert(!fits_fp(pow_fp(base as int, (i + 1) as nat)));
                return None;
            },
        }
        i = i + 1;
        assert(forall|j: nat| j <= i ==> fits_fp(pow_fp(base as int, j))) by {
            assert(forall|j: nat| j < i ==> fits_fp(pow_fp(base as int, j)));
            assert(fits_fp(pow_fp(base as int, i as nat)));
        }
    }
    Some(result)
}

} // verus!

//! Exact on-chain ratios as fixed-point integers.
use alloy::primitives::{U256, U512};
use vstd::prelude::*;

use crate::bytes::{be_to_u128, be_value};

verus! {

/// Fixed-point scale of a relative weight: a weight `w` stands for `w / SCALE`.
pub const SCALE: u128 = 10_000_000_000_000_000_000_000_000_000;

/// Why a ratio could not be turned into a fixed-point weight.
#[derive(Debug, Clone, Copy, PartialEq, Eq, Structural)]
pub enum RatioError {
    /// The denominator is zero.
    ZeroDenominator,
    /// The scaled quotient does not fit in 128 bits.
    Overflow,
}

/// `floor(num * SCALE / den)`: the ratio `num / den` truncated to fixed point.
pub open spec fn scaled_ratio(num: nat, den: nat) -> nat
    recommends
        den > 0,
{
    ((num * SCALE) / (den as int)) as nat
}

/// Relies on ruint's `Uint::widening_mul`: the full 512-bit product of a
/// 256-bit and a 128-bit value, with no truncation.
#[verifier::external_body]
fn widening_mul(a: &[u8; 32], b: u128) -> (r: [u8; 64])
    ensures
        be_value(r@) == be_value(a@) * b,
{
    let x = U256::from_be_bytes(*a);
    let p: U512 = x.widening_mul(U256::from(b));
    p.to_be_bytes::<64>()
}

/// Relies on ruint's `Uint::checked_div` on 512-bit values: `None` exactly when
/// the divisor is zero, else the floor of the quotient.
#[verifier::external_body]
fn checked_div(n: &[u8; 64], d: &[u8; 32]) -> (r: Option<[u8; 64]>)
    ensures
        r is None <==> be_value(d@) == 0,
        r matches Some(q) ==> be_value(q@) == be_value(n@) / be_value(d@),
{
    let d: U512 = U256::from_be_bytes(*d).to::<U512>();
    U512::from_be_bytes(*n).checked_div(d).map(|q| q.to_be_bytes::<64>())
}

/// The relative weight `numerator / denominator` of two big-endian 256-bit
/// values, as `floor(numerator * SCALE / denominator)`. The product is formed
/// at double width, so it never overflows; only the final quotient must fit.
pub fn u256_division(numerator: &[u8; 32], denominator: &[u8; 32]) -> (r: Result<u128, RatioError>)
    ensures
        r matches Ok(q) ==> be_value(denominator@) > 0 && q == scaled_ratio(
            be_value(numerator@),
            be_value(denominator@),
        ),
        r == Err::<u128, RatioError>(RatioError::ZeroDenominator) <==> be_value(denominator@) == 0,
        r == Err::<u128, RatioError>(RatioError::Overflow) <==> be_value(denominator@) > 0
            && scaled_ratio(be_value(numerator@), be_value(denominator@)) > u128::MAX,
{
    let product = widening_mul(numerator, SCALE);
    match checked_div(&product, denominator) {
        None => Err(RatioError::ZeroDenominator),
        Some(q) => match be_to_u128(q.as_slice()) {
            Some(v) => Ok(v),
            None => Err(RatioError::Overflow),
        },
    }
}

/// Truncation loses less than one fixed-point unit:
/// `|q / SCALE - num / den| < 1 / SCALE`, written without division as
/// `q * den <= num * SCALE < (q + 1) * den`.
pub proof fn lemma_ratio_truncation(num: nat, den: nat)
    requires
        den > 0,
    ensures
        scaled_ratio(num, den) * den <= num * SCALE,
        num * SCALE < (scaled_ratio(num, den) + 1) * den,
{
    let x: int = num * SCALE;
    let d: int = den as int;
    let q: int = x / d;
    vstd::arithmetic::div_mod::lemma_fundamental_div_mod(x, d);
    vstd::arithmetic::div_mod::lemma_mod_bound(x, d);
    assert(q * d + x % d == x);
    assert((q + 1) * d == q * d + d) by (nonlinear_arith);
}

} // verus!

//! Arithmetic on natural numbers of any size, held as little-endian bytes and
//! computed by `num_bigint`.

use vstd::prelude::*;
use vstd::arithmetic::power2::pow2;
use crate::bytes::le_value;

verus! {

/// `BigUint`'s left shift, from bytes to bytes: the number times `2^n`.
#[verifier::external_body]
pub(crate) fn big_shl(a: &[u8], n: usize) -> (r: Vec<u8>)
    requires
        n <= 4096,
    ensures
        le_value(r@) == le_value(a@) * pow2(n as nat),
{
    (num_bigint::BigUint::from_bytes_le(a) << n).to_bytes_le()
}

/// `BigUint`'s addition, from bytes to bytes: the sum.
#[verifier::external_body]
pub(crate) fn big_add(a: &[u8], b: &[u8]) -> (r: Vec<u8>)
    ensures
        le_value(r@) == le_value(a@) + le_value(b@),
{
    (num_bigint::BigUint::from_bytes_le(a) + num_bigint::BigUint::from_bytes_le(b)).to_bytes_le()
}

/// `BigUint`'s subtraction, from bytes to bytes: the difference, where the
/// first number is not the smaller one.
#[verifier::external_body]
pub(crate) fn big_sub(a: &[u8], b: &[u8]) -> (r: Vec<u8>)
    requires
        le_value(a@) >= le_value(b@),
    ensures
        le_value(r@) == le_value(a@) - le_value(b@),
{
    (num_bigint::BigUint::from_bytes_le(a) - num_bigint::BigUint::from_bytes_le(b)).to_bytes_le()
}

/// `BigUint`'s division, from bytes to bytes: the quotient, rounded down.
#[verifier::external_body]
pub(crate) fn big_div(a: &[u8], m: &[u8]) -> (r: Vec<u8>)
    requires
        le_value(m@) > 0,
    ensures
        le_value(r@) == le_value(a@) / le_value(m@),
{
    (num_bigint::BigUint::from_bytes_le(a) / num_bigint::BigUint::from_bytes_le(m)).to_bytes_le()
}

/// `BigUint`'s order, on bytes: whether the first number is the smaller one.
#[verifier::external_body]
pub(crate) fn big_less(a: &[u8], b: &[u8]) -> (r: bool)
    ensures
        r == (le_value(a@) < le_value(b@)),
{
    num_bigint::BigUint::from_bytes_le(a) < num_bigint::BigUint::from_bytes_le(b)
}

} // verus!

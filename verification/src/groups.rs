//! What the library asks of a scalar field and of a group.

use vstd::prelude::*;
use crate::bytes::le_value;
use crate::errors::ZeiError;
use crate::radix::{ints_of_i8, radix_value, signed_digits, windows_of_bytes};
use vstd::arithmetic::power2::pow2;

verus! {

/// An element of a prime field of integers, held in canonical form.
pub trait Scalar: Sized + Copy {
    /// The number of elements of the field.
    spec fn modulus() -> nat;

    /// The integer below `modulus()` that this element stands for.
    spec fn value(&self) -> nat;

    fn from_u32(x: u32) -> (s: Self)
        ensures
            s.value() == (x as nat) % Self::modulus(),
    ;

    fn from_u64(x: u64) -> (s: Self)
        ensures
            s.value() == (x as nat) % Self::modulus(),
    ;

    fn add(&self, b: &Self) -> (s: Self)
        ensures
            s.value() == (self.value() + b.value()) % Self::modulus(),
    ;

    fn mul(&self, b: &Self) -> (s: Self)
        ensures
            s.value() == (self.value() * b.value()) % Self::modulus(),
    ;

    /// The canonical little-endian encoding.
    fn to_bytes(&self) -> (v: Vec<u8>)
        ensures
            v@.len() == 32,
            le_value(v@) == self.value(),
            self.value() < Self::modulus(),
    ;

    /// Reads a canonical little-endian encoding; anything else is refused.
    fn from_bytes(bytes: &[u8]) -> (r: Result<Self, ZeiError>)
        ensures
            r is Ok <==> bytes@.len() == 32 && le_value(bytes@) < Self::modulus(),
            r is Ok ==> r->Ok_0.value() == le_value(bytes@),
            r is Err ==> r->Err_0 == ZeiError::DeserializationError,
    ;
}

/// A commutative group written additively, with scalars acting on it. Each
/// element is known by its canonical encoding, and the operations are given as
/// functions on encodings.
pub trait Group<S: Scalar>: Sized + Copy {
    /// The bytes that identify this element.
    spec fn encoding(&self) -> Seq<u8>;

    /// Whether `e` is the encoding of an element.
    spec fn is_element(e: Seq<u8>) -> bool;

    /// The encoding of the neutral element.
    spec fn identity() -> Seq<u8>;

    /// The encoding of the distinguished generator.
    spec fn base() -> Seq<u8>;

    /// The encoding of the sum of the elements encoded by `a` and `b`.
    spec fn sum(a: Seq<u8>, b: Seq<u8>) -> Seq<u8>;

    /// The encoding of the element encoded by `a` less the one encoded by `b`.
    spec fn difference(a: Seq<u8>, b: Seq<u8>) -> Seq<u8>;

    /// The encoding of `k` times the element encoded by `a`.
    spec fn multiple(a: Seq<u8>, k: nat) -> Seq<u8>;

    fn get_identity() -> (r: Self)
        ensures
            r.encoding() == Self::identity(),
            Self::is_element(r.encoding()),
    ;

    fn get_base() -> (r: Self)
        ensures
            r.encoding() == Self::base(),
            Self::is_element(r.encoding()),
    ;

    fn add(&self, other: &Self) -> (r: Self)
        ensures
            r.encoding() == Self::sum(self.encoding(), other.encoding()),
            Self::is_element(r.encoding()),
    ;

    fn sub(&self, other: &Self) -> (r: Self)
        ensures
            r.encoding() == Self::difference(self.encoding(), other.encoding()),
            Self::is_element(r.encoding()),
    ;

    fn mul(&self, scalar: &S) -> (r: Self)
        ensures
            r.encoding() == Self::multiple(self.encoding(), scalar.value()),
            Self::is_element(r.encoding()),
    ;
}

/// The signed digits of a scalar in radix `2^w`, the lowest first: each is at
/// least `-2^(w-1)` and below `2^(w-1)`, and together they stand for the
/// scalar's integer. One digit more, zero or one, is the carry out of the top
/// window.
pub fn scalar_to_radix_2_power_w<S: Scalar>(scalar: &S, w: usize) -> (digits: Vec<i8>)
    requires
        1 <= w <= 8,
    ensures
        radix_value(ints_of_i8(digits@), pow2(w as nat) as int, 0) == scalar.value(),
        scalar.value() < S::modulus(),
        forall|i: int|
            0 <= i < digits@.len() - 1 ==> -pow2((w - 1) as nat) <= (#[trigger] digits@[i]) < pow2(
                (w - 1) as nat,
            ),
        0 <= digits@[digits@.len() - 1] <= 1,
        digits@.len() >= 1,
        (digits@.len() - 1) * w >= 256,
        (digits@.len() - 1) * w < 256 + w,
{
    let bytes = scalar.to_bytes();
    let windows = windows_of_bytes(bytes.as_slice(), w);
    signed_digits(&windows, w)
}

} // verus!

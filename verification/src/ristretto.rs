//! The Ristretto group and its scalar field, computed by `curve25519_dalek`.
//!
//! A scalar is held as its canonical 32 bytes and stands for the integer they
//! encode. A point is held as its compressed encoding; what the group
//! operations return on encodings is known here only by name.

use vstd::prelude::*;
use vstd::arithmetic::div_mod::lemma_small_mod;
use crate::bytes::{array_of_32, le_value, lemma_le_value_injective, same_bytes, vec_of_bytes};
use crate::errors::ZeiError;
use crate::groups::{Group, Scalar};

verus! {

/// The order of the Ristretto group, `2^252 + 27742317777372353535851937790883648493`.
pub open spec fn ristretto_order() -> nat {
    7237005577332262213973186563042994240857116359379907606001950938285454250989nat
}

/// The compressed encoding of the Ristretto basepoint.
pub open spec fn ristretto_base_encoding() -> Seq<u8> {
    seq![
        0xe2u8, 0xf2u8, 0xaeu8, 0x0au8, 0x6au8, 0xbcu8, 0x4eu8, 0x71u8,
        0xa8u8, 0x84u8, 0xa9u8, 0x61u8, 0xc5u8, 0x00u8, 0x51u8, 0x5fu8,
        0x58u8, 0xe3u8, 0x0bu8, 0x6au8, 0xa5u8, 0x82u8, 0xddu8, 0x8du8,
        0xb6u8, 0xa6u8, 0x59u8, 0x45u8, 0xe0u8, 0x8du8, 0x2du8, 0x76u8,
    ]
}

/// The compressed encoding of the neutral element: 32 zero bytes.
pub open spec fn ristretto_identity_encoding() -> Seq<u8> {
    Seq::new(32, |i: int| 0u8)
}

/// Whether `CompressedRistretto::decompress` accepts `e` as the encoding of a point.
pub uninterp spec fn ristretto_is_point(e: Seq<u8>) -> bool;

/// The encoding of the sum of the points that `a` and `b` encode.
pub uninterp spec fn ristretto_sum(a: Seq<u8>, b: Seq<u8>) -> Seq<u8>;

/// The encoding of the point that `a` encodes less the one that `b` encodes.
pub uninterp spec fn ristretto_difference(a: Seq<u8>, b: Seq<u8>) -> Seq<u8>;

/// The encoding of the point that `a` encodes, multiplied by the scalar `k`.
pub uninterp spec fn ristretto_multiple(a: Seq<u8>, k: nat) -> Seq<u8>;

/// The encoding of the point that `RistrettoPoint::hash_from_bytes` makes of
/// bytes with the hash SHA3-512.
pub uninterp spec fn ristretto_hash_sha3(bytes: Seq<u8>) -> Seq<u8>;

/// The encoding of the point that `RistrettoPoint::from_uniform_bytes` makes of 64 bytes.
pub uninterp spec fn ristretto_from_uniform(bytes: Seq<u8>) -> Seq<u8>;

/// `Scalar::from(u64)` of `curve25519_dalek`: the scalar whose little-endian
/// bytes are those of `x`, followed by zeros.
#[verifier::external_body]
fn scalar_bytes_from_u64(x: u64) -> (r: [u8; 32])
    ensures
        le_value(r@) == x as nat,
{
    curve25519_dalek::scalar::Scalar::from(x).to_bytes()
}

/// `Scalar::from_canonical_bytes` of `curve25519_dalek`, asked only whether it
/// accepts: it does when the bytes encode an integer below the group order.
#[verifier::external_body]
fn scalar_bytes_are_canonical(a: &[u8; 32]) -> (r: bool)
    ensures
        r == (le_value(a@) < ristretto_order()),
{
    curve25519_dalek::scalar::Scalar::from_canonical_bytes(*a).is_some()
}

/// `Scalar::from_bytes_mod_order_wide` of `curve25519_dalek`: the 512-bit
/// little-endian integer, reduced modulo the group order.
#[verifier::external_body]
fn scalar_bytes_from_wide(a: &[u8; 64]) -> (r: [u8; 32])
    ensures
        le_value(r@) == le_value(a@) % ristretto_order(),
{
    curve25519_dalek::scalar::Scalar::from_bytes_mod_order_wide(a).to_bytes()
}

/// Addition of `curve25519_dalek::scalar::Scalar`, on the scalars that
/// `Scalar::from_bytes_mod_order` reads: the sum modulo the group order.
#[verifier::external_body]
fn scalar_bytes_add(a: &[u8; 32], b: &[u8; 32]) -> (r: [u8; 32])
    ensures
        le_value(r@) == (le_value(a@) + le_value(b@)) % ristretto_order(),
{
    let x = curve25519_dalek::scalar::Scalar::from_bytes_mod_order(*a);
    let y = curve25519_dalek::scalar::Scalar::from_bytes_mod_order(*b);
    (&x + &y).to_bytes()
}

/// Subtraction of `curve25519_dalek::scalar::Scalar`: the difference modulo
/// the group order.
#[verifier::external_body]
fn scalar_bytes_sub(a: &[u8; 32], b: &[u8; 32]) -> (r: [u8; 32])
    ensures
        le_value(r@) == (le_value(a@) - le_value(b@)) % (ristretto_order() as int),
{
    let x = curve25519_dalek::scalar::Scalar::from_bytes_mod_order(*a);
    let y = curve25519_dalek::scalar::Scalar::from_bytes_mod_order(*b);
    (&x - &y).to_bytes()
}

/// Multiplication of `curve25519_dalek::scalar::Scalar`: the product modulo
/// the group order.
#[verifier::external_body]
fn scalar_bytes_mul(a: &[u8; 32], b: &[u8; 32]) -> (r: [u8; 32])
    ensures
        le_value(r@) == (le_value(a@) * le_value(b@)) % ristretto_order(),
{
    let x = curve25519_dalek::scalar::Scalar::from_bytes_mod_order(*a);
    let y = curve25519_dalek::scalar::Scalar::from_bytes_mod_order(*b);
    (&x * &y).to_bytes()
}

/// `CompressedRistretto::decompress` of `curve25519_dalek`, asked only whether
/// it finds a point.
#[verifier::external_body]
fn point_bytes_decode(a: &[u8; 32]) -> (r: bool)
    ensures
        r == ristretto_is_point(a@),
{
    curve25519_dalek::ristretto::CompressedRistretto(*a).decompress().is_some()
}

/// `CompressedRistretto::default` of `curve25519_dalek`, which is the encoding
/// of the neutral element: 32 zero bytes, which decompress.
#[verifier::external_body]
fn point_bytes_identity() -> (r: [u8; 32])
    ensures
        r@ == ristretto_identity_encoding(),
        ristretto_is_point(r@),
{
    curve25519_dalek::ristretto::CompressedRistretto::default().to_bytes()
}

/// The constant `RISTRETTO_BASEPOINT_COMPRESSED` of `curve25519_dalek`.
#[verifier::external_body]
fn point_bytes_base() -> (r: [u8; 32])
    ensures
        r@ == ristretto_base_encoding(),
        ristretto_is_point(r@),
{
    curve25519_dalek::constants::RISTRETTO_BASEPOINT_COMPRESSED.to_bytes()
}

/// Addition of `curve25519_dalek::ristretto::RistrettoPoint`, from encodings to
/// the encoding of the result, which decompresses again.
#[verifier::external_body]
fn point_bytes_add(a: &[u8; 32], b: &[u8; 32]) -> (r: [u8; 32])
    requires
        ristretto_is_point(a@),
        ristretto_is_point(b@),
    ensures
        r@ == ristretto_sum(a@, b@),
        ristretto_is_point(r@),
{
    let p = curve25519_dalek::ristretto::CompressedRistretto(*a).decompress().unwrap();
    let q = curve25519_dalek::ristretto::CompressedRistretto(*b).decompress().unwrap();
    (&p + &q).compress().to_bytes()
}

/// Subtraction of `curve25519_dalek::ristretto::RistrettoPoint`, from encodings
/// to the encoding of the result, which decompresses again.
#[verifier::external_body]
fn point_bytes_sub(a: &[u8; 32], b: &[u8; 32]) -> (r: [u8; 32])
    requires
        ristretto_is_point(a@),
        ristretto_is_point(b@),
    ensures
        r@ == ristretto_difference(a@, b@),
        ristretto_is_point(r@),
{
    let p = curve25519_dalek::ristretto::CompressedRistretto(*a).decompress().unwrap();
    let q = curve25519_dalek::ristretto::CompressedRistretto(*b).decompress().unwrap();
    (&p - &q).compress().to_bytes()
}

/// Multiplication of a `RistrettoPoint` of `curve25519_dalek` by the scalar that
/// `Scalar::from_bytes_mod_order` reads, from encodings to the encoding of the
/// result, which decompresses again.
#[verifier::external_body]
fn point_bytes_mul(a: &[u8; 32], k: &[u8; 32]) -> (r: [u8; 32])
    requires
        ristretto_is_point(a@),
    ensures
        r@ == ristretto_multiple(a@, le_value(k@) % ristretto_order()),
        ristretto_is_point(r@),
{
    let p = curve25519_dalek::ristretto::CompressedRistretto(*a).decompress().unwrap();
    let s = curve25519_dalek::scalar::Scalar::from_bytes_mod_order(*k);
    (&p * &s).compress().to_bytes()
}

/// `RistrettoPoint::from_uniform_bytes` of `curve25519_dalek`: the point that
/// the 64 bytes are mapped to, as its encoding, which decompresses again.
#[verifier::external_body]
fn point_bytes_from_uniform(a: &[u8; 64]) -> (r: [u8; 32])
    ensures
        r@ == ristretto_from_uniform(a@),
        ristretto_is_point(r@),
{
    curve25519_dalek::ristretto::RistrettoPoint::from_uniform_bytes(a).compress().to_bytes()
}

/// `RistrettoPoint::hash_from_bytes` of `curve25519_dalek` with `Sha3_512` of
/// `sha3`: the point that the bytes are hashed to, as its encoding, which
/// decompresses again.
#[verifier::external_body]
fn point_bytes_hash_sha3(a: &[u8]) -> (r: [u8; 32])
    ensures
        r@ == ristretto_hash_sha3(a@),
        ristretto_is_point(r@),
{
    curve25519_dalek::ristretto::RistrettoPoint::hash_from_bytes::<sha3::Sha3_512>(a)
        .compress()
        .to_bytes()
}

/// The little-endian bytes of the order of the Ristretto group.
pub fn ristretto_order_bytes() -> (r: [u8; 32])
    ensures
        le_value(r@) == ristretto_order(),
{
    let r: [u8; 32] = [
        0xed, 0xd3, 0xf5, 0x5c, 0x1a, 0x63, 0x12, 0x58,
        0xd6, 0x9c, 0xf7, 0xa2, 0xde, 0xf9, 0xde, 0x14,
        0x00, 0x00, 0x00, 0x00, 0x00, 0x00, 0x00, 0x00,
        0x00, 0x00, 0x00, 0x00, 0x00, 0x00, 0x00, 0x10,
    ];
    proof {
        reveal_with_fuel(le_value, 34);
        assert(le_value(r@) == ristretto_order());
    }
    r
}

/// A scalar of the Ristretto group: an integer below the group order.
#[derive(Clone, Copy, Debug, PartialEq, Eq)]
pub struct RistrettoScalar {
    bytes: [u8; 32],
}

impl RistrettoScalar {
    #[verifier::type_invariant]
    spec fn canonical(self) -> bool {
        le_value(self.bytes@) < ristretto_order()
    }

    /// The integer that the scalar stands for.
    pub closed spec fn int_value(&self) -> nat {
        le_value(self.bytes@)
    }

    /// The 32 bytes of the canonical encoding, least significant byte first.
    pub closed spec fn encoding(&self) -> Seq<u8> {
        self.bytes@
    }

    /// Scalars that stand for the same integer have the same encoding.
    pub proof fn lemma_encoding_unique(a: RistrettoScalar, b: RistrettoScalar)
        requires
            a.int_value() == b.int_value(),
        ensures
            a.encoding() == b.encoding(),
    {
        lemma_le_value_injective(a.bytes@, b.bytes@);
    }

    /// The scalar zero.
    pub fn zero() -> (s: Self)
        ensures
            s.int_value() == 0,
    {
        RistrettoScalar { bytes: scalar_bytes_from_u64(0) }
    }

    /// The scalar one.
    pub fn one() -> (s: Self)
        ensures
            s.int_value() == 1,
    {
        RistrettoScalar { bytes: scalar_bytes_from_u64(1) }
    }

    /// The difference of two scalars.
    pub fn sub(&self, b: &Self) -> (s: Self)
        ensures
            s.int_value() == (self.int_value() - b.int_value()) % (ristretto_order() as int),
    {
        RistrettoScalar { bytes: scalar_bytes_sub(&self.bytes, &b.bytes) }
    }

    /// The scalar that 64 bytes stand for when read as one little-endian
    /// integer and reduced; the way to a scalar from a hash or from randomness.
    pub fn from_bytes_wide(bytes: &[u8; 64]) -> (s: Self)
        ensures
            s.int_value() == le_value(bytes@) % ristretto_order(),
    {
        RistrettoScalar { bytes: scalar_bytes_from_wide(bytes) }
    }

    /// Whether two scalars are the same integer.
    pub fn is_equal(&self, other: &Self) -> (r: bool)
        ensures
            r == (self.int_value() == other.int_value()),
    {
        proof {
            if self.int_value() == other.int_value() {
                lemma_le_value_injective(self.bytes@, other.bytes@);
            }
        }
        same_bytes(&self.bytes, &other.bytes)
    }

    /// The 32 bytes of the canonical encoding.
    pub fn as_bytes(&self) -> (r: [u8; 32])
        ensures
            r@ == self.encoding(),
            le_value(r@) == self.int_value(),
            self.int_value() < ristretto_order(),
    {
        proof {
            use_type_invariant(self);
        }
        self.bytes
    }
}

impl Scalar for RistrettoScalar {
    open spec fn modulus() -> nat {
        ristretto_order()
    }

    open spec fn value(&self) -> nat {
        self.int_value()
    }

    fn from_u32(x: u32) -> (s: Self) {
        proof {
            lemma_small_mod(x as nat, ristretto_order());
        }
        RistrettoScalar { bytes: scalar_bytes_from_u64(x as u64) }
    }

    fn from_u64(x: u64) -> (s: Self) {
        proof {
            lemma_small_mod(x as nat, ristretto_order());
        }
        RistrettoScalar { bytes: scalar_bytes_from_u64(x) }
    }

    fn add(&self, b: &Self) -> (s: Self) {
        RistrettoScalar { bytes: scalar_bytes_add(&self.bytes, &b.bytes) }
    }

    fn mul(&self, b: &Self) -> (s: Self) {
        RistrettoScalar { bytes: scalar_bytes_mul(&self.bytes, &b.bytes) }
    }

    fn to_bytes(&self) -> (v: Vec<u8>) {
        proof {
            use_type_invariant(self);
        }
        vec_of_bytes(&self.bytes)
    }

    fn from_bytes(bytes: &[u8]) -> (r: Result<Self, ZeiError>) {
        if bytes.len() != 32 {
            return Err(ZeiError::DeserializationError);
        }
        let a = array_of_32(bytes);
        if scalar_bytes_are_canonical(&a) {
            Ok(RistrettoScalar { bytes: a })
        } else {
            Err(ZeiError::DeserializationError)
        }
    }
}

/// 32 bytes that claim to be the compressed encoding of a Ristretto point.
#[derive(Clone, Copy, Debug, PartialEq, Eq)]
pub struct CompressedRistretto(pub [u8; 32]);

/// A point of the Ristretto group.
#[derive(Clone, Copy, Debug, PartialEq, Eq)]
pub struct RistrettoPoint {
    bytes: [u8; 32],
}

impl CompressedRistretto {
    /// The point that the bytes encode, if they encode one.
    pub fn decompress(&self) -> (r: Option<RistrettoPoint>)
        ensures
            r is Some <==> ristretto_is_point(self.0@),
            r is Some ==> r->Some_0.encoding() == self.0@,
    {
        if point_bytes_decode(&self.0) {
            Some(RistrettoPoint { bytes: self.0 })
        } else {
            None
        }
    }

    /// The bytes, as they are.
    pub fn zei_to_bytes(&self) -> (v: Vec<u8>)
        ensures
            v@ == self.0@,
    {
        vec_of_bytes(&self.0)
    }

    /// Takes 32 bytes as they are, without asking whether they encode a point.
    pub fn zei_from_bytes(bytes: &[u8]) -> (r: Result<Self, ZeiError>)
        requires
            bytes@.len() == 32,
        ensures
            r is Ok,
            r->Ok_0.0@ == bytes@,
    {
        Ok(CompressedRistretto(array_of_32(bytes)))
    }
}

impl RistrettoPoint {
    #[verifier::type_invariant]
    spec fn decodes(self) -> bool {
        ristretto_is_point(self.bytes@)
    }

    /// The compressed encoding, which identifies the point.
    pub closed spec fn compressed(&self) -> Seq<u8> {
        self.bytes@
    }

    /// Points with the same encoding are the same point.
    pub proof fn lemma_encoding_identifies(a: RistrettoPoint, b: RistrettoPoint)
        requires
            a.encoding() == b.encoding(),
        ensures
            a == b,
    {
        assert(a.bytes =~= b.bytes);
    }

    /// The compressed form of the point.
    pub fn compress(&self) -> (c: CompressedRistretto)
        ensures
            c.0@ == self.encoding(),
            ristretto_is_point(c.0@),
    {
        proof {
            use_type_invariant(self);
        }
        CompressedRistretto(self.bytes)
    }

    /// The point that 64 bytes are mapped to; the way to a point from a hash or
    /// from randomness.
    pub fn from_uniform_bytes(bytes: &[u8; 64]) -> (p: Self)
        ensures
            p.encoding() == ristretto_from_uniform(bytes@),
    {
        RistrettoPoint { bytes: point_bytes_from_uniform(bytes) }
    }

    /// The point that bytes are hashed to with SHA3-512.
    pub fn hash_from_bytes(bytes: &[u8]) -> (p: Self)
        ensures
            p.encoding() == ristretto_hash_sha3(bytes@),
    {
        RistrettoPoint { bytes: point_bytes_hash_sha3(bytes) }
    }

    /// Whether two points are the same.
    pub fn is_equal(&self, other: &Self) -> (r: bool)
        ensures
            r == (self.encoding() == other.encoding()),
    {
        same_bytes(&self.bytes, &other.bytes)
    }

    /// The 32 bytes of the compressed encoding.
    pub fn to_compressed_bytes(&self) -> (v: Vec<u8>)
        ensures
            v@ == self.encoding(),
            v@.len() == 32,
            ristretto_is_point(v@),
    {
        proof {
            use_type_invariant(self);
        }
        vec_of_bytes(&self.bytes)
    }

    /// The point that the bytes encode, if there are 32 of them and they encode one.
    pub fn from_compressed_bytes(bytes: &[u8]) -> (r: Option<Self>)
        ensures
            r is Some <==> bytes@.len() == 32 && ristretto_is_point(bytes@),
            r is Some ==> r->Some_0.encoding() == bytes@,
    {
        if bytes.len() != 32 {
            return None;
        }
        CompressedRistretto(array_of_32(bytes)).decompress()
    }
}

impl Group<RistrettoScalar> for RistrettoPoint {
    open spec fn encoding(&self) -> Seq<u8> {
        self.compressed()
    }

    open spec fn is_element(e: Seq<u8>) -> bool {
        ristretto_is_point(e)
    }

    open spec fn identity() -> Seq<u8> {
        ristretto_identity_encoding()
    }

    open spec fn base() -> Seq<u8> {
        ristretto_base_encoding()
    }

    open spec fn sum(a: Seq<u8>, b: Seq<u8>) -> Seq<u8> {
        ristretto_sum(a, b)
    }

    open spec fn difference(a: Seq<u8>, b: Seq<u8>) -> Seq<u8> {
        ristretto_difference(a, b)
    }

    open spec fn multiple(a: Seq<u8>, k: nat) -> Seq<u8> {
        ristretto_multiple(a, k)
    }

    fn get_identity() -> (r: Self) {
        RistrettoPoint { bytes: point_bytes_identity() }
    }

    fn get_base() -> (r: Self) {
        RistrettoPoint { bytes: point_bytes_base() }
    }

    fn add(&self, other: &Self) -> (r: Self) {
        proof {
            use_type_invariant(self);
            use_type_invariant(other);
        }
        RistrettoPoint { bytes: point_bytes_add(&self.bytes, &other.bytes) }
    }

    fn sub(&self, other: &Self) -> (r: Self) {
        proof {
            use_type_invariant(self);
            use_type_invariant(other);
        }
        RistrettoPoint { bytes: point_bytes_sub(&self.bytes, &other.bytes) }
    }

    fn mul(&self, scalar: &RistrettoScalar) -> (r: Self) {
        proof {
            use_type_invariant(self);
        }
        let k = scalar.as_bytes();
        proof {
            lemma_small_mod(le_value(k@), ristretto_order());
        }
        RistrettoPoint { bytes: point_bytes_mul(&self.bytes, &k) }
    }
}

} // verus!

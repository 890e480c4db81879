//! The scalar field and the three groups of the pairing-friendly curve
//! BLS12-381, computed by `ark_bls12_381`.
//!
//! A scalar is held as its canonical 32 bytes and stands for the integer they
//! encode. An element of one of the groups is held as its uncompressed
//! encoding; what the group operations return on encodings is known here only
//! by name.

use vstd::prelude::*;
use vstd::arithmetic::div_mod::lemma_small_mod;
use ark_bls12_381::Bls12_381;
use ark_ec::pairing::PairingOutput;
use ark_ec::{AffineRepr, CurveGroup};
use ark_ff::{BigInteger, PrimeField};
use ark_serialize::{CanonicalDeserialize, CanonicalSerialize};
use crate::bytes::{array_of_32, le_value, lemma_le_value_injective, same_bytes, vec_of_bytes};
use crate::errors::ZeiError;
use crate::groups::{Group, Scalar};
use crate::radix::{ints_of_u64, radix_value};
use vstd::arithmetic::power::pow;
use vstd::arithmetic::power2::pow2;

verus! {

/// The order of the three groups, and so the size of the scalar field.
pub open spec fn bls_scalar_order() -> nat {
    52435875175126190479447740508185965837690552500527637822603658699938581184513nat
}

/// The sum of two elements of the scalar field.
pub open spec fn bls_add(a: nat, b: nat) -> nat {
    (a + b) % bls_scalar_order()
}

/// The product of two elements of the scalar field.
pub open spec fn bls_mul(a: nat, b: nat) -> nat {
    (a * b) % bls_scalar_order()
}

/// The power `a^e` in the scalar field.
pub open spec fn bls_pow(a: nat, e: nat) -> nat {
    (pow(a as int, e) % (bls_scalar_order() as int)) as nat
}

/// The number that limbs of 64 bits stand for, the lowest first.
pub open spec fn limbs64_value(limbs: Seq<u64>) -> nat {
    radix_value(ints_of_u64(limbs), pow2(64) as int, 0) as nat
}

/// `Fr::from(u64)` of `ark_bls12_381`, as the little-endian bytes of its
/// integer: the integer is `x`.
#[verifier::external_body]
fn fr_bytes_from_u64(x: u64) -> (r: [u8; 32])
    ensures
        le_value(r@) == x as nat,
{
    let mut r = [0u8; 32];
    r.copy_from_slice(&ark_bls12_381::Fr::from(x).into_bigint().to_bytes_le());
    r
}

/// Deserialization of `ark_bls12_381::Fr`, asked only whether it accepts: it
/// does when the 32 bytes encode an integer below the field's order.
#[verifier::external_body]
fn fr_bytes_are_canonical(a: &[u8; 32]) -> (r: bool)
    ensures
        r == (le_value(a@) < bls_scalar_order()),
{
    ark_bls12_381::Fr::deserialize_compressed(&a[..]).is_ok()
}

/// `Fr::from_le_bytes_mod_order` of `ark_ff`: the little-endian integer,
/// reduced modulo the field's order.
#[verifier::external_body]
fn fr_bytes_reduce(a: &[u8]) -> (r: [u8; 32])
    ensures
        le_value(r@) == le_value(a@) % bls_scalar_order(),
{
    let mut r = [0u8; 32];
    r.copy_from_slice(&ark_bls12_381::Fr::from_le_bytes_mod_order(a).into_bigint().to_bytes_le());
    r
}

/// Addition in `ark_bls12_381::Fr`, on the elements that
/// `from_le_bytes_mod_order` reads: the sum modulo the field's order.
#[verifier::external_body]
fn fr_bytes_add(a: &[u8; 32], b: &[u8; 32]) -> (r: [u8; 32])
    ensures
        le_value(r@) == (le_value(a@) + le_value(b@)) % bls_scalar_order(),
{
    let x = ark_bls12_381::Fr::from_le_bytes_mod_order(a);
    let y = ark_bls12_381::Fr::from_le_bytes_mod_order(b);
    let mut r = [0u8; 32];
    r.copy_from_slice(&(x + y).into_bigint().to_bytes_le());
    r
}

/// Subtraction in `ark_bls12_381::Fr`: the difference modulo the field's order.
#[verifier::external_body]
fn fr_bytes_sub(a: &[u8; 32], b: &[u8; 32]) -> (r: [u8; 32])
    ensures
        le_value(r@) == (le_value(a@) - le_value(b@)) % (bls_scalar_order() as int),
{
    let x = ark_bls12_381::Fr::from_le_bytes_mod_order(a);
    let y = ark_bls12_381::Fr::from_le_bytes_mod_order(b);
    let mut r = [0u8; 32];
    r.copy_from_slice(&(x - y).into_bigint().to_bytes_le());
    r
}

/// Multiplication in `ark_bls12_381::Fr`: the product modulo the field's order.
#[verifier::external_body]
fn fr_bytes_mul(a: &[u8; 32], b: &[u8; 32]) -> (r: [u8; 32])
    ensures
        le_value(r@) == (le_value(a@) * le_value(b@)) % bls_scalar_order(),
{
    let x = ark_bls12_381::Fr::from_le_bytes_mod_order(a);
    let y = ark_bls12_381::Fr::from_le_bytes_mod_order(b);
    let mut r = [0u8; 32];
    r.copy_from_slice(&(x * y).into_bigint().to_bytes_le());
    r
}

/// `Field::pow` of `ark_ff` in `ark_bls12_381::Fr`, with the exponent in limbs
/// of 64 bits, the lowest first: the power modulo the field's order.
#[verifier::external_body]
fn fr_bytes_pow(a: &[u8; 32], e: &[u64; 4]) -> (r: [u8; 32])
    ensures
        le_value(r@) == bls_pow(le_value(a@) % bls_scalar_order(), limbs64_value(e@)),
{
    let x = ark_bls12_381::Fr::from_le_bytes_mod_order(a);
    let mut r = [0u8; 32];
    r.copy_from_slice(&ark_ff::Field::pow(&x, e).into_bigint().to_bytes_le());
    r
}

/// An element of the scalar field of BLS12-381: an integer below its order.
#[derive(Clone, Copy, Debug, PartialEq, Eq)]
pub struct BLSScalar {
    bytes: [u8; 32],
}

impl BLSScalar {
    #[verifier::type_invariant]
    spec fn canonical(self) -> bool {
        le_value(self.bytes@) < bls_scalar_order()
    }

    /// The integer that the element stands for.
    pub closed spec fn int_value(&self) -> nat {
        le_value(self.bytes@)
    }

    /// The 32 bytes of the canonical encoding, least significant byte first.
    pub closed spec fn encoding(&self) -> Seq<u8> {
        self.bytes@
    }

    /// Elements that stand for the same integer have the same encoding.
    pub proof fn lemma_encoding_unique(a: BLSScalar, b: BLSScalar)
        requires
            a.int_value() == b.int_value(),
        ensures
            a.encoding() == b.encoding(),
    {
        lemma_le_value_injective(a.bytes@, b.bytes@);
    }

    /// The element zero.
    pub fn zero() -> (s: Self)
        ensures
            s.value() == 0,
    {
        BLSScalar { bytes: fr_bytes_from_u64(0) }
    }

    /// The element one.
    pub fn one() -> (s: Self)
        ensures
            s.value() == 1,
    {
        BLSScalar { bytes: fr_bytes_from_u64(1) }
    }

    /// The difference of two elements.
    pub fn sub(&self, b: &Self) -> (s: Self)
        ensures
            s.value() == (self.value() - b.value()) % (bls_scalar_order() as int),
    {
        BLSScalar { bytes: fr_bytes_sub(&self.bytes, &b.bytes) }
    }

    /// The power of an element, with the exponent in limbs of 64 bits, the
    /// lowest first.
    pub fn pow(&self, e: &[u64; 4]) -> (s: Self)
        ensures
            s.value() == bls_pow(self.value(), limbs64_value(e@)),
    {
        proof {
            use_type_invariant(self);
            lemma_small_mod(self.value(), bls_scalar_order());
        }
        BLSScalar { bytes: fr_bytes_pow(&self.bytes, e) }
    }

    /// The element that a little-endian integer of any length stands for, once
    /// reduced.
    pub fn from_le_bytes_mod_order(bytes: &[u8]) -> (s: Self)
        ensures
            s.value() == le_value(bytes@) % bls_scalar_order(),
    {
        BLSScalar { bytes: fr_bytes_reduce(bytes) }
    }

    /// The 32 bytes of the canonical encoding.
    pub fn as_bytes(&self) -> (r: [u8; 32])
        ensures
            r@ == self.encoding(),
            le_value(r@) == self.value(),
            self.value() < bls_scalar_order(),
    {
        proof {
            use_type_invariant(self);
        }
        self.bytes
    }

    /// Whether two elements are the same integer.
    pub fn is_equal(&self, other: &Self) -> (r: bool)
        ensures
            r == (self.value() == other.value()),
    {
        proof {
            if self.value() == other.value() {
                lemma_le_value_injective(self.bytes@, other.bytes@);
            }
        }
        same_bytes(&self.bytes, &other.bytes)
    }
}

impl Scalar for BLSScalar {
    open spec fn modulus() -> nat {
        bls_scalar_order()
    }

    open spec fn value(&self) -> nat {
        self.int_value()
    }

    fn from_u32(x: u32) -> (s: Self) {
        proof {
            lemma_small_mod(x as nat, bls_scalar_order());
        }
        BLSScalar { bytes: fr_bytes_from_u64(x as u64) }
    }

    fn from_u64(x: u64) -> (s: Self) {
        proof {
            lemma_small_mod(x as nat, bls_scalar_order());
        }
        BLSScalar { bytes: fr_bytes_from_u64(x) }
    }

    fn add(&self, b: &Self) -> (s: Self) {
        BLSScalar { bytes: fr_bytes_add(&self.bytes, &b.bytes) }
    }

    fn mul(&self, b: &Self) -> (s: Self) {
        BLSScalar { bytes: fr_bytes_mul(&self.bytes, &b.bytes) }
    }

    fn to_bytes(&self) -> (v: Vec<u8>) {
        proof {
            use_type_invariant(self);
        }
        vec_of_bytes(&self.bytes)
    }

    fn from_bytes(bytes: &[u8]) -> (r: Result<Self, ZeiError>) {
        if bytes.len() != 32 {
            return Err(ZeiError::DeserializationError);
        }
        let a = array_of_32(bytes);
        if fr_bytes_are_canonical(&a) {
            Ok(BLSScalar { bytes: a })
        } else {
            Err(ZeiError::DeserializationError)
        }
    }
}

/// Whether `e` is what `serialize_uncompressed` of `ark_serialize` writes for
/// a point of the first group.
pub uninterp spec fn bls_g1_is_point(e: Seq<u8>) -> bool;

/// The encoding of the sum of the elements that `a` and `b` encode.
pub uninterp spec fn bls_g1_sum(a: Seq<u8>, b: Seq<u8>) -> Seq<u8>;

/// The encoding of the element that `a` encodes less the one that `b` encodes.
pub uninterp spec fn bls_g1_difference(a: Seq<u8>, b: Seq<u8>) -> Seq<u8>;

/// The encoding of the element that `a` encodes, multiplied by the scalar `k`.
pub uninterp spec fn bls_g1_multiple(a: Seq<u8>, k: nat) -> Seq<u8>;

/// The uncompressed encoding of the neutral element: the byte `0x40`, then 95 zero bytes.
pub open spec fn bls_g1_identity_encoding() -> Seq<u8> {
    Seq::new(96, |i: int| if i == 0 { 0x40u8 } else { 0u8 })
}

/// The uncompressed encoding of the generator: its two coordinates, each in 48
/// bytes, most significant byte first.
pub open spec fn bls_g1_base_encoding() -> Seq<u8> {
    seq![
        0x17u8, 0xf1u8, 0xd3u8, 0xa7u8, 0x31u8, 0x97u8, 0xd7u8, 0x94u8,
        0x26u8, 0x95u8, 0x63u8, 0x8cu8, 0x4fu8, 0xa9u8, 0xacu8, 0x0fu8,
        0xc3u8, 0x68u8, 0x8cu8, 0x4fu8, 0x97u8, 0x74u8, 0xb9u8, 0x05u8,
        0xa1u8, 0x4eu8, 0x3au8, 0x3fu8, 0x17u8, 0x1bu8, 0xacu8, 0x58u8,
        0x6cu8, 0x55u8, 0xe8u8, 0x3fu8, 0xf9u8, 0x7au8, 0x1au8, 0xefu8,
        0xfbu8, 0x3au8, 0xf0u8, 0x0au8, 0xdbu8, 0x22u8, 0xc6u8, 0xbbu8,
        0x08u8, 0xb3u8, 0xf4u8, 0x81u8, 0xe3u8, 0xaau8, 0xa0u8, 0xf1u8,
        0xa0u8, 0x9eu8, 0x30u8, 0xedu8, 0x74u8, 0x1du8, 0x8au8, 0xe4u8,
        0xfcu8, 0xf5u8, 0xe0u8, 0x95u8, 0xd5u8, 0xd0u8, 0x0au8, 0xf6u8,
        0x00u8, 0xdbu8, 0x18u8, 0xcbu8, 0x2cu8, 0x04u8, 0xb3u8, 0xedu8,
        0xd0u8, 0x3cu8, 0xc7u8, 0x44u8, 0xa2u8, 0x88u8, 0x8au8, 0xe4u8,
        0x0cu8, 0xaau8, 0x23u8, 0x29u8, 0x46u8, 0xc5u8, 0xe7u8, 0xe1u8,
    ]
}

/// The neutral element of the first group of BLS12-381 as `ark_bls12_381` serialises it.
#[verifier::external_body]
fn g1_bytes_identity() -> (r: [u8; 96])
    ensures
        r@ == bls_g1_identity_encoding(),
        bls_g1_is_point(r@),
{
    let mut r = [0u8; 96];
    ark_bls12_381::G1Affine::zero().serialize_uncompressed(&mut r[..]).unwrap();
    r
}

/// The constant generator of the first group in `ark_bls12_381`.
#[verifier::external_body]
fn g1_bytes_base() -> (r: [u8; 96])
    ensures
        r@ == bls_g1_base_encoding(),
        bls_g1_is_point(r@),
{
    let mut r = [0u8; 96];
    ark_bls12_381::G1Affine::generator().serialize_uncompressed(&mut r[..]).unwrap();
    r
}

/// Addition of `ark_bls12_381::G1Affine`, from encodings to the encoding of the
/// result, which is an element again.
#[verifier::external_body]
fn g1_bytes_add(a: &[u8; 96], b: &[u8; 96]) -> (r: [u8; 96])
    requires
        bls_g1_is_point(a@),
        bls_g1_is_point(b@),
    ensures
        r@ == bls_g1_sum(a@, b@),
        bls_g1_is_point(r@),
{
    let p = ark_bls12_381::G1Affine::deserialize_uncompressed_unchecked(&a[..]).unwrap();
    let q = ark_bls12_381::G1Affine::deserialize_uncompressed_unchecked(&b[..]).unwrap();
    let mut r = [0u8; 96];
    (p + q).into_affine().serialize_uncompressed(&mut r[..]).unwrap();
    r
}

/// Subtraction of `ark_bls12_381::G1Affine`, from encodings to the encoding of the
/// result, which is an element again.
#[verifier::external_body]
fn g1_bytes_sub(a: &[u8; 96], b: &[u8; 96]) -> (r: [u8; 96])
    requires
        bls_g1_is_point(a@),
        bls_g1_is_point(b@),
    ensures
        r@ == bls_g1_difference(a@, b@),
        bls_g1_is_point(r@),
{
    let p = ark_bls12_381::G1Affine::deserialize_uncompressed_unchecked(&a[..]).unwrap();
    let q = ark_bls12_381::G1Affine::deserialize_uncompressed_unchecked(&b[..]).unwrap();
    let mut r = [0u8; 96];
    (p - q).into_affine().serialize_uncompressed(&mut r[..]).unwrap();
    r
}

/// Multiplication of `ark_bls12_381::G1Affine` by the scalar that
/// `from_le_bytes_mod_order` reads, from encodings to the encoding of the
/// result, which is an element again.
#[verifier::external_body]
fn g1_bytes_mul(a: &[u8; 96], k: &[u8; 32]) -> (r: [u8; 96])
    requires
        bls_g1_is_point(a@),
    ensures
        r@ == bls_g1_multiple(a@, le_value(k@) % bls_scalar_order()),
        bls_g1_is_point(r@),
{
    let p = ark_bls12_381::G1Affine::deserialize_uncompressed_unchecked(&a[..]).unwrap();
    let s = ark_bls12_381::Fr::from_le_bytes_mod_order(k);
    let mut r = [0u8; 96];
    (p * s).into_affine().serialize_uncompressed(&mut r[..]).unwrap();
    r
}

/// An element of the first group of BLS12-381.
#[derive(Clone, Copy, Debug, PartialEq, Eq)]
pub struct BLSG1 {
    bytes: [u8; 96],
}

impl BLSG1 {
    #[verifier::type_invariant]
    spec fn decodes(self) -> bool {
        bls_g1_is_point(self.bytes@)
    }

    /// The uncompressed encoding, which identifies the element.
    pub closed spec fn uncompressed(&self) -> Seq<u8> {
        self.bytes@
    }

    /// The bytes of the uncompressed encoding.
    pub fn to_unchecked_bytes(&self) -> (v: Vec<u8>)
        ensures
            v@ == self.encoding(),
            bls_g1_is_point(v@),
    {
        proof {
            use_type_invariant(self);
        }
        vec_of_bytes(&self.bytes)
    }
}

impl Group<BLSScalar> for BLSG1 {
    open spec fn encoding(&self) -> Seq<u8> {
        self.uncompressed()
    }

    open spec fn is_element(e: Seq<u8>) -> bool {
        bls_g1_is_point(e)
    }

    open spec fn identity() -> Seq<u8> {
        bls_g1_identity_encoding()
    }

    open spec fn base() -> Seq<u8> {
        bls_g1_base_encoding()
    }

    open spec fn sum(a: Seq<u8>, b: Seq<u8>) -> Seq<u8> {
        bls_g1_sum(a, b)
    }

    open spec fn difference(a: Seq<u8>, b: Seq<u8>) -> Seq<u8> {
        bls_g1_difference(a, b)
    }

    open spec fn multiple(a: Seq<u8>, k: nat) -> Seq<u8> {
        bls_g1_multiple(a, k)
    }

    fn get_identity() -> (r: Self) {
        BLSG1 { bytes: g1_bytes_identity() }
    }

    fn get_base() -> (r: Self) {
        BLSG1 { bytes: g1_bytes_base() }
    }

    fn add(&self, other: &Self) -> (r: Self) {
        proof {
            use_type_invariant(self);
            use_type_invariant(other);
        }
        BLSG1 { bytes: g1_bytes_add(&self.bytes, &other.bytes) }
    }

    fn sub(&self, other: &Self) -> (r: Self) {
        proof {
            use_type_invariant(self);
            use_type_invariant(other);
        }
        BLSG1 { bytes: g1_bytes_sub(&self.bytes, &other.bytes) }
    }

    fn mul(&self, scalar: &BLSScalar) -> (r: Self) {
        proof {
            use_type_invariant(self);
        }
        let k = scalar.as_bytes();
        proof {
            lemma_small_mod(le_value(k@), bls_scalar_order());
        }
        BLSG1 { bytes: g1_bytes_mul(&self.bytes, &k) }
    }
}

/// Whether `e` is what `serialize_uncompressed` of `ark_serialize` writes for
/// a point of the second group.
pub uninterp spec fn bls_g2_is_point(e: Seq<u8>) -> bool;

/// The encoding of the sum of the elements that `a` and `b` encode.
pub uninterp spec fn bls_g2_sum(a: Seq<u8>, b: Seq<u8>) -> Seq<u8>;

/// The encoding of the element that `a` encodes less the one that `b` encodes.
pub uninterp spec fn bls_g2_difference(a: Seq<u8>, b: Seq<u8>) -> Seq<u8>;

/// The encoding of the element that `a` encodes, multiplied by the scalar `k`.
pub uninterp spec fn bls_g2_multiple(a: Seq<u8>, k: nat) -> Seq<u8>;

/// The uncompressed encoding of the neutral element: the byte `0x40`, then 191 zero bytes.
pub open spec fn bls_g2_identity_encoding() -> Seq<u8> {
    Seq::new(192, |i: int| if i == 0 { 0x40u8 } else { 0u8 })
}

/// The uncompressed encoding of the generator: its two coordinates, each as two
/// numbers of 48 bytes, most significant byte first.
pub open spec fn bls_g2_base_encoding() -> Seq<u8> {
    seq![
        0x13u8, 0xe0u8, 0x2bu8, 0x60u8, 0x52u8, 0x71u8, 0x9fu8, 0x60u8,
        0x7du8, 0xacu8, 0xd3u8, 0xa0u8, 0x88u8, 0x27u8, 0x4fu8, 0x65u8,
        0x59u8, 0x6bu8, 0xd0u8, 0xd0u8, 0x99u8, 0x20u8, 0xb6u8, 0x1au8,
        0xb5u8, 0xdau8, 0x61u8, 0xbbu8, 0xdcu8, 0x7fu8, 0x50u8, 0x49u8,
        0x33u8, 0x4cu8, 0xf1u8, 0x12u8, 0x13u8, 0x94u8, 0x5du8, 0x57u8,
        0xe5u8, 0xacu8, 0x7du8, 0x05u8, 0x5du8, 0x04u8, 0x2bu8, 0x7eu8,
        0x02u8, 0x4au8, 0xa2u8, 0xb2u8, 0xf0u8, 0x8fu8, 0x0au8, 0x91u8,
        0x26u8, 0x08u8, 0x05u8, 0x27u8, 0x2du8, 0xc5u8, 0x10u8, 0x51u8,
        0xc6u8, 0xe4u8, 0x7au8, 0xd4u8, 0xfau8, 0x40u8, 0x3bu8, 0x02u8,
        0xb4u8, 0x51u8, 0x0bu8, 0x64u8, 0x7au8, 0xe3u8, 0xd1u8, 0x77u8,
        0x0bu8, 0xacu8, 0x03u8, 0x26u8, 0xa8u8, 0x05u8, 0xbbu8, 0xefu8,
        0xd4u8, 0x80u8, 0x56u8, 0xc8u8, 0xc1u8, 0x21u8, 0xbdu8, 0xb8u8,
        0x06u8, 0x06u8, 0xc4u8, 0xa0u8, 0x2eu8, 0xa7u8, 0x34u8, 0xccu8,
        0x32u8, 0xacu8, 0xd2u8, 0xb0u8, 0x2bu8, 0xc2u8, 0x8bu8, 0x99u8,
        0xcbu8, 0x3eu8, 0x28u8, 0x7eu8, 0x85u8, 0xa7u8, 0x63u8, 0xafu8,
        0x26u8, 0x74u8, 0x92u8, 0xabu8, 0x57u8, 0x2eu8, 0x99u8, 0xabu8,
        0x3fu8, 0x37u8, 0x0du8, 0x27u8, 0x5cu8, 0xecu8, 0x1du8, 0xa1u8,
        0xaau8, 0xa9u8, 0x07u8, 0x5fu8, 0xf0u8, 0x5fu8, 0x79u8, 0xbeu8,
        0x0cu8, 0xe5u8, 0xd5u8, 0x27u8, 0x72u8, 0x7du8, 0x6eu8, 0x11u8,
        0x8cu8, 0xc9u8, 0xcdu8, 0xc6u8, 0xdau8, 0x2eu8, 0x35u8, 0x1au8,
        0xadu8, 0xfdu8, 0x9bu8, 0xaau8, 0x8cu8, 0xbdu8, 0xd3u8, 0xa7u8,
        0x6du8, 0x42u8, 0x9au8, 0x69u8, 0x51u8, 0x60u8, 0xd1u8, 0x2cu8,
        0x92u8, 0x3au8, 0xc9u8, 0xccu8, 0x3bu8, 0xacu8, 0xa2u8, 0x89u8,
        0xe1u8, 0x93u8, 0x54u8, 0x86u8, 0x08u8, 0xb8u8, 0x28u8, 0x01u8,
    ]
}

/// The neutral element of the second group of BLS12-381 as `ark_bls12_381` serialises it.
#[verifier::external_body]
fn g2_bytes_identity() -> (r: [u8; 192])
    ensures
        r@ == bls_g2_identity_encoding(),
        bls_g2_is_point(r@),
{
    let mut r = [0u8; 192];
    ark_bls12_381::G2Affine::zero().serialize_uncompressed(&mut r[..]).unwrap();
    r
}

/// The constant generator of the second group in `ark_bls12_381`.
#[verifier::external_body]
fn g2_bytes_base() -> (r: [u8; 192])
    ensures
        r@ == bls_g2_base_encoding(),
        bls_g2_is_point(r@),
{
    let mut r = [0u8; 192];
    ark_bls12_381::G2Affine::generator().serialize_uncompressed(&mut r[..]).unwrap();
    r
}

/// Addition of `ark_bls12_381::G2Affine`, from encodings to the encoding of the
/// result, which is an element again.
#[verifier::external_body]
fn g2_bytes_add(a: &[u8; 192], b: &[u8; 192]) -> (r: [u8; 192])
    requires
        bls_g2_is_point(a@),
        bls_g2_is_point(b@),
    ensures
        r@ == bls_g2_sum(a@, b@),
        bls_g2_is_point(r@),
{
    let p = ark_bls12_381::G2Affine::deserialize_uncompressed_unchecked(&a[..]).unwrap();
    let q = ark_bls12_381::G2Affine::deserialize_uncompressed_unchecked(&b[..]).unwrap();
    let mut r = [0u8; 192];
    (p + q).into_affine().serialize_uncompressed(&mut r[..]).unwrap();
    r
}

/// Subtraction of `ark_bls12_381::G2Affine`, from encodings to the encoding of the
/// result, which is an element again.
#[verifier::external_body]
fn g2_bytes_sub(a: &[u8; 192], b: &[u8; 192]) -> (r: [u8; 192])
    requires
        bls_g2_is_point(a@),
        bls_g2_is_point(b@),
    ensures
        r@ == bls_g2_difference(a@, b@),
        bls_g2_is_point(r@),
{
    let p = ark_bls12_381::G2Affine::deserialize_uncompressed_unchecked(&a[..]).unwrap();
    let q = ark_bls12_381::G2Affine::deserialize_uncompressed_unchecked(&b[..]).unwrap();
    let mut r = [0u8; 192];
    (p - q).into_affine().serialize_uncompressed(&mut r[..]).unwrap();
    r
}

/// Multiplication of `ark_bls12_381::G2Affine` by the scalar that
/// `from_le_bytes_mod_order` reads, from encodings to the encoding of the
/// result, which is an element again.
#[verifier::external_body]
fn g2_bytes_mul(a: &[u8; 192], k: &[u8; 32]) -> (r: [u8; 192])
    requires
        bls_g2_is_point(a@),
    ensures
        r@ == bls_g2_multiple(a@, le_value(k@) % bls_scalar_order()),
        bls_g2_is_point(r@),
{
    let p = ark_bls12_381::G2Affine::deserialize_uncompressed_unchecked(&a[..]).unwrap();
    let s = ark_bls12_381::Fr::from_le_bytes_mod_order(k);
    let mut r = [0u8; 192];
    (p * s).into_affine().serialize_uncompressed(&mut r[..]).unwrap();
    r
}

/// An element of the second group of BLS12-381.
#[derive(Clone, Copy, Debug, PartialEq, Eq)]
pub struct BLSG2 {
    bytes: [u8; 192],
}

impl BLSG2 {
    #[verifier::type_invariant]
    spec fn decodes(self) -> bool {
        bls_g2_is_point(self.bytes@)
    }

    /// The uncompressed encoding, which identifies the element.
    pub closed spec fn uncompressed(&self) -> Seq<u8> {
        self.bytes@
    }

    /// The bytes of the uncompressed encoding.
    pub fn to_unchecked_bytes(&self) -> (v: Vec<u8>)
        ensures
            v@ == self.encoding(),
            bls_g2_is_point(v@),
    {
        proof {
            use_type_invariant(self);
        }
        vec_of_bytes(&self.bytes)
    }
}

impl Group<BLSScalar> for BLSG2 {
    open spec fn encoding(&self) -> Seq<u8> {
        self.uncompressed()
    }

    open spec fn is_element(e: Seq<u8>) -> bool {
        bls_g2_is_point(e)
    }

    open spec fn identity() -> Seq<u8> {
        bls_g2_identity_encoding()
    }

    open spec fn base() -> Seq<u8> {
        bls_g2_base_encoding()
    }

    open spec fn sum(a: Seq<u8>, b: Seq<u8>) -> Seq<u8> {
        bls_g2_sum(a, b)
    }

    open spec fn difference(a: Seq<u8>, b: Seq<u8>) -> Seq<u8> {
        bls_g2_difference(a, b)
    }

    open spec fn multiple(a: Seq<u8>, k: nat) -> Seq<u8> {
        bls_g2_multiple(a, k)
    }

    fn get_identity() -> (r: Self) {
        BLSG2 { bytes: g2_bytes_identity() }
    }

    fn get_base() -> (r: Self) {
        BLSG2 { bytes: g2_bytes_base() }
    }

    fn add(&self, other: &Self) -> (r: Self) {
        proof {
            use_type_invariant(self);
            use_type_invariant(other);
        }
        BLSG2 { bytes: g2_bytes_add(&self.bytes, &other.bytes) }
    }

    fn sub(&self, other: &Self) -> (r: Self) {
        proof {
            use_type_invariant(self);
            use_type_invariant(other);
        }
        BLSG2 { bytes: g2_bytes_sub(&self.bytes, &other.bytes) }
    }

    fn mul(&self, scalar: &BLSScalar) -> (r: Self) {
        proof {
            use_type_invariant(self);
        }
        let k = scalar.as_bytes();
        proof {
            lemma_small_mod(le_value(k@), bls_scalar_order());
        }
        BLSG2 { bytes: g2_bytes_mul(&self.bytes, &k) }
    }
}

/// Whether `e` is what `serialize_uncompressed` of `ark_serialize` writes for
/// an element of the target group.
pub uninterp spec fn bls_gt_is_point(e: Seq<u8>) -> bool;

/// The encoding of the sum of the elements that `a` and `b` encode.
pub uninterp spec fn bls_gt_sum(a: Seq<u8>, b: Seq<u8>) -> Seq<u8>;

/// The encoding of the element that `a` encodes less the one that `b` encodes.
pub uninterp spec fn bls_gt_difference(a: Seq<u8>, b: Seq<u8>) -> Seq<u8>;

/// The encoding of the element that `a` encodes, multiplied by the scalar `k`.
pub uninterp spec fn bls_gt_multiple(a: Seq<u8>, k: nat) -> Seq<u8>;

/// The uncompressed encoding of the neutral element: the byte `1`, then 575
/// zero bytes, the one of the field underneath.
pub open spec fn bls_gt_identity_encoding() -> Seq<u8> {
    Seq::new(576, |i: int| if i == 0 { 1u8 } else { 0u8 })
}

/// The uncompressed encoding of the generator, the pairing of the generators
/// of the first and the second group: its twelve coordinates, 48 bytes each,
/// least significant byte first.
pub open spec fn bls_gt_base_encoding() -> Seq<u8> {
    seq![
        0xb6u8, 0x89u8, 0x17u8, 0xcau8, 0xaau8, 0x05u8, 0x43u8, 0xa8u8,
        0x08u8, 0xc5u8, 0x39u8, 0x08u8, 0xf6u8, 0x94u8, 0xd1u8, 0xb6u8,
        0xe7u8, 0xb3u8, 0x8du8, 0xe9u8, 0x0cu8, 0xe9u8, 0xd8u8, 0x3du8,
        0x50u8, 0x5cu8, 0xa1u8, 0xefu8, 0x1bu8, 0x44u8, 0x2du8, 0x27u8,
        0x27u8, 0xd7u8, 0xd0u8, 0x68u8, 0x31u8, 0xd8u8, 0xb2u8, 0xa7u8,
        0x92u8, 0x0au8, 0xfcu8, 0x71u8, 0xd8u8, 0xebu8, 0x50u8, 0x12u8,
        0x0fu8, 0x17u8, 0xa0u8, 0xeau8, 0x98u8, 0x2au8, 0x88u8, 0x59u8,
        0x1du8, 0x9fu8, 0x43u8, 0x50u8, 0x3eu8, 0x94u8, 0xa8u8, 0xf1u8,
        0xabu8, 0xafu8, 0x2eu8, 0x45u8, 0x89u8, 0xf6u8, 0x5au8, 0xafu8,
        0xb7u8, 0x92u8, 0x3cu8, 0x48u8, 0x45u8, 0x40u8, 0xa8u8, 0x68u8,
        0x88u8, 0x34u8, 0x32u8, 0xa5u8, 0xc6u8, 0x0eu8, 0x75u8, 0x86u8,
        0x0bu8, 0x11u8, 0xe5u8, 0x46u8, 0x5bu8, 0x1cu8, 0x9au8, 0x08u8,
        0x87u8, 0x3eu8, 0xc2u8, 0x9eu8, 0x84u8, 0x4cu8, 0x1cu8, 0x88u8,
        0x8cu8, 0xb3u8, 0x96u8, 0x93u8, 0x30u8, 0x57u8, 0xffu8, 0xddu8,
        0x54u8, 0x1bu8, 0x03u8, 0xa5u8, 0x22u8, 0x0eu8, 0xdau8, 0x16u8,
        0xb2u8, 0xb3u8, 0xa6u8, 0x72u8, 0x8eu8, 0xa6u8, 0x78u8, 0x03u8,
        0x4cu8, 0xe3u8, 0x9cu8, 0x68u8, 0x39u8, 0xf2u8, 0x03u8, 0x97u8,
        0x20u8, 0x2du8, 0x7cu8, 0x5cu8, 0x44u8, 0xbbu8, 0x68u8, 0x13u8,
        0x4fu8, 0x93u8, 0x19u8, 0x3cu8, 0xecu8, 0x21u8, 0x50u8, 0x31u8,
        0xb1u8, 0x73u8, 0x99u8, 0x57u8, 0x7au8, 0x1du8, 0xe5u8, 0xffu8,
        0x1fu8, 0x5bu8, 0x06u8, 0x66u8, 0xbdu8, 0xd8u8, 0x90u8, 0x7cu8,
        0x61u8, 0xa7u8, 0x65u8, 0x1eu8, 0x4eu8, 0x79u8, 0xe0u8, 0x37u8,
        0x29u8, 0x51u8, 0x50u8, 0x5au8, 0x07u8, 0xfau8, 0x73u8, 0xc2u8,
        0x57u8, 0x88u8, 0xdbu8, 0x6eu8, 0xb8u8, 0x02u8, 0x35u8, 0x19u8,
        0xa5u8, 0xaau8, 0x97u8, 0xb5u8, 0x1fu8, 0x1cu8, 0xadu8, 0x1du8,
        0x43u8, 0xd8u8, 0xaau8, 0xbbu8, 0xffu8, 0x4du8, 0xc3u8, 0x19u8,
        0xc7u8, 0x9au8, 0x58u8, 0xcau8, 0xfcu8, 0x03u8, 0x52u8, 0x18u8,
        0x74u8, 0x7cu8, 0x2fu8, 0x75u8, 0xdau8, 0xf8u8, 0xf2u8, 0xfbu8,
        0x7cu8, 0x00u8, 0xc4u8, 0x4du8, 0xa8u8, 0x5bu8, 0x12u8, 0x91u8,
        0x13u8, 0x17u8, 0x3du8, 0x47u8, 0x22u8, 0xf5u8, 0xb2u8, 0x01u8,
        0xb6u8, 0xb4u8, 0x45u8, 0x40u8, 0x62u8, 0xe9u8, 0xeau8, 0x8bu8,
        0xa7u8, 0x8cu8, 0x5cu8, 0xa3u8, 0xcau8, 0xdau8, 0xf7u8, 0x23u8,
        0x8bu8, 0x47u8, 0xbau8, 0xceu8, 0x5cu8, 0xe5u8, 0x61u8, 0x80u8,
        0x4au8, 0xe1u8, 0x6bu8, 0x8fu8, 0x4bu8, 0x63u8, 0xdau8, 0x46u8,
        0x45u8, 0xb8u8, 0x45u8, 0x7au8, 0x93u8, 0x79u8, 0x3cu8, 0xbdu8,
        0x64u8, 0xa7u8, 0x25u8, 0x4fu8, 0x15u8, 0x07u8, 0x81u8, 0x01u8,
        0x9du8, 0xe8u8, 0x7eu8, 0xe4u8, 0x26u8, 0x82u8, 0x94u8, 0x0fu8,
        0x3eu8, 0x70u8, 0xa8u8, 0x86u8, 0x83u8, 0xd5u8, 0x12u8, 0xbbu8,
        0x2cu8, 0x3fu8, 0xb7u8, 0xb2u8, 0x43u8, 0x4du8, 0xa5u8, 0xdeu8,
        0xdbu8, 0xb2u8, 0xd0u8, 0xb3u8, 0xfbu8, 0x84u8, 0x87u8, 0xc8u8,
        0x4du8, 0xa0u8, 0xd5u8, 0xc3u8, 0x15u8, 0xbdu8, 0xd6u8, 0x9cu8,
        0x46u8, 0xfbu8, 0x05u8, 0xd2u8, 0x37u8, 0x63u8, 0xf2u8, 0x19u8,
        0x1au8, 0xabu8, 0xd5u8, 0xd5u8, 0xc2u8, 0xe1u8, 0x2au8, 0x10u8,
        0xb8u8, 0xf0u8, 0x02u8, 0xffu8, 0x68u8, 0x1bu8, 0xfdu8, 0x1bu8,
        0x2eu8, 0xe0u8, 0xbfu8, 0x61u8, 0x9du8, 0x80u8, 0xd2u8, 0xa7u8,
        0x95u8, 0xebu8, 0x22u8, 0xf2u8, 0xaau8, 0x7bu8, 0x85u8, 0xd5u8,
        0xffu8, 0xb6u8, 0x71u8, 0xa7u8, 0x0cu8, 0x94u8, 0x80u8, 0x9fu8,
        0x0du8, 0xafu8, 0xc5u8, 0xb7u8, 0x3eu8, 0xa2u8, 0xfbu8, 0x06u8,
        0x57u8, 0xbau8, 0xe2u8, 0x33u8, 0x73u8, 0xb4u8, 0x93u8, 0x1bu8,
        0xc9u8, 0xfau8, 0x32u8, 0x1eu8, 0x88u8, 0x48u8, 0xefu8, 0x78u8,
        0x89u8, 0x4eu8, 0x98u8, 0x7bu8, 0xffu8, 0x15u8, 0x0du8, 0x7du8,
        0x67u8, 0x1au8, 0xeeu8, 0x30u8, 0xb3u8, 0x93u8, 0x1au8, 0xc8u8,
        0xc5u8, 0x0eu8, 0x0bu8, 0x3bu8, 0x08u8, 0x68u8, 0xefu8, 0xfcu8,
        0x38u8, 0xbfu8, 0x48u8, 0xcdu8, 0x24u8, 0xb4u8, 0xb8u8, 0x11u8,
        0xa2u8, 0x99u8, 0x5au8, 0xc2u8, 0xa0u8, 0x91u8, 0x22u8, 0xbeu8,
        0xd9u8, 0xfdu8, 0x9fu8, 0xa0u8, 0xc5u8, 0x10u8, 0xa8u8, 0x7bu8,
        0x10u8, 0x29u8, 0x08u8, 0x36u8, 0xadu8, 0x06u8, 0xc8u8, 0x20u8,
        0x33u8, 0x97u8, 0xb5u8, 0x6au8, 0x78u8, 0xe9u8, 0xa0u8, 0xc6u8,
        0x1cu8, 0x77u8, 0xe5u8, 0x6cu8, 0xcbu8, 0x4fu8, 0x1bu8, 0xc3u8,
        0xd3u8, 0xfcu8, 0xaeu8, 0xa7u8, 0x55u8, 0x0fu8, 0x35u8, 0x03u8,
        0xefu8, 0xe3u8, 0x0fu8, 0x2du8, 0x24u8, 0xf0u8, 0x08u8, 0x91u8,
        0xcbu8, 0x45u8, 0x62u8, 0x06u8, 0x05u8, 0xfcu8, 0xfau8, 0xa4u8,
        0x29u8, 0x26u8, 0x87u8, 0xb3u8, 0xa7u8, 0xdbu8, 0x7cu8, 0x1cu8,
        0x05u8, 0x54u8, 0xa9u8, 0x35u8, 0x79u8, 0xe8u8, 0x89u8, 0xa1u8,
        0x21u8, 0xfdu8, 0x8fu8, 0x72u8, 0x64u8, 0x9bu8, 0x24u8, 0x02u8,
        0x99u8, 0x6au8, 0x08u8, 0x4du8, 0x23u8, 0x81u8, 0xc5u8, 0x04u8,
        0x31u8, 0x66u8, 0x67u8, 0x3bu8, 0x38u8, 0x49u8, 0xe4u8, 0xfdu8,
        0x1eu8, 0x7eu8, 0xe4u8, 0xafu8, 0x24u8, 0xaau8, 0x8eu8, 0xd4u8,
        0x43u8, 0xf5u8, 0x6du8, 0xfdu8, 0x6bu8, 0x68u8, 0xffu8, 0xdeu8,
        0x44u8, 0x35u8, 0xa9u8, 0x2cu8, 0xd7u8, 0xa4u8, 0xacu8, 0x3bu8,
        0xc7u8, 0x7eu8, 0x1au8, 0xd0u8, 0xcbu8, 0x72u8, 0x86u8, 0x06u8,
        0xcfu8, 0x08u8, 0xbfu8, 0x63u8, 0x86u8, 0xe5u8, 0x41u8, 0x0fu8,
    ]
}

/// The neutral element of the target group of the BLS12-381 pairing as
/// `ark_bls12_381` serialises it.
#[verifier::external_body]
fn gt_bytes_identity() -> (r: [u8; 576])
    ensures
        r@ == bls_gt_identity_encoding(),
        bls_gt_is_point(r@),
{
    let mut r = [0u8; 576];
    <PairingOutput::<Bls12_381> as ark_std::Zero>::zero()
        .serialize_uncompressed(&mut r[..])
        .unwrap();
    r
}

/// `PairingOutput::generator` of `ark_ec`, the pairing of the generators of the
/// first and the second group, as `ark_bls12_381` serialises it.
#[verifier::external_body]
fn gt_bytes_base() -> (r: [u8; 576])
    ensures
        r@ == bls_gt_base_encoding(),
        bls_gt_is_point(r@),
{
    let mut r = [0u8; 576];
    <PairingOutput::<Bls12_381> as ark_ec::Group>::generator()
        .serialize_uncompressed(&mut r[..])
        .unwrap();
    r
}

/// Addition of `PairingOutput<Bls12_381>` of `ark_ec`, from encodings to the
/// encoding of the result, which is an element again.
#[verifier::external_body]
fn gt_bytes_add(a: &[u8; 576], b: &[u8; 576]) -> (r: [u8; 576])
    requires
        bls_gt_is_point(a@),
        bls_gt_is_point(b@),
    ensures
        r@ == bls_gt_sum(a@, b@),
        bls_gt_is_point(r@),
{
    let p = PairingOutput::<Bls12_381>::deserialize_uncompressed_unchecked(&a[..]).unwrap();
    let q = PairingOutput::<Bls12_381>::deserialize_uncompressed_unchecked(&b[..]).unwrap();
    let mut r = [0u8; 576];
    (p + q).serialize_uncompressed(&mut r[..]).unwrap();
    r
}

/// Subtraction of `PairingOutput<Bls12_381>` of `ark_ec`, from encodings to the
/// encoding of the result, which is an element again.
#[verifier::external_body]
fn gt_bytes_sub(a: &[u8; 576], b: &[u8; 576]) -> (r: [u8; 576])
    requires
        bls_gt_is_point(a@),
        bls_gt_is_point(b@),
    ensures
        r@ == bls_gt_difference(a@, b@),
        bls_gt_is_point(r@),
{
    let p = PairingOutput::<Bls12_381>::deserialize_uncompressed_unchecked(&a[..]).unwrap();
    let q = PairingOutput::<Bls12_381>::deserialize_uncompressed_unchecked(&b[..]).unwrap();
    let mut r = [0u8; 576];
    (p - q).serialize_uncompressed(&mut r[..]).unwrap();
    r
}

/// Multiplication of `PairingOutput<Bls12_381>` of `ark_ec` by the scalar that
/// `from_le_bytes_mod_order` reads, from encodings to the encoding of the
/// result, which is an element again.
#[verifier::external_body]
fn gt_bytes_mul(a: &[u8; 576], k: &[u8; 32]) -> (r: [u8; 576])
    requires
        bls_gt_is_point(a@),
    ensures
        r@ == bls_gt_multiple(a@, le_value(k@) % bls_scalar_order()),
        bls_gt_is_point(r@),
{
    let p = PairingOutput::<Bls12_381>::deserialize_uncompressed_unchecked(&a[..]).unwrap();
    let s = ark_bls12_381::Fr::from_le_bytes_mod_order(k);
    let mut r = [0u8; 576];
    (p * s).serialize_uncompressed(&mut r[..]).unwrap();
    r
}

/// An element of the target group of the BLS12-381 pairing.
#[derive(Clone, Copy, Debug, PartialEq, Eq)]
pub struct BLSGt {
    bytes: [u8; 576],
}

impl BLSGt {
    #[verifier::type_invariant]
    spec fn decodes(self) -> bool {
        bls_gt_is_point(self.bytes@)
    }

    /// The uncompressed encoding, which identifies the element.
    pub closed spec fn uncompressed(&self) -> Seq<u8> {
        self.bytes@
    }

    /// The bytes of the uncompressed encoding.
    pub fn to_unchecked_bytes(&self) -> (v: Vec<u8>)
        ensures
            v@ == self.encoding(),
            bls_gt_is_point(v@),
    {
        proof {
            use_type_invariant(self);
        }
        vec_of_bytes(&self.bytes)
    }
}

impl Group<BLSScalar> for BLSGt {
    open spec fn encoding(&self) -> Seq<u8> {
        self.uncompressed()
    }

    open spec fn is_element(e: Seq<u8>) -> bool {
        bls_gt_is_point(e)
    }

    open spec fn identity() -> Seq<u8> {
        bls_gt_identity_encoding()
    }

    open spec fn base() -> Seq<u8> {
        bls_gt_base_encoding()
    }

    open spec fn sum(a: Seq<u8>, b: Seq<u8>) -> Seq<u8> {
        bls_gt_sum(a, b)
    }

    open spec fn difference(a: Seq<u8>, b: Seq<u8>) -> Seq<u8> {
        bls_gt_difference(a, b)
    }

    open spec fn multiple(a: Seq<u8>, k: nat) -> Seq<u8> {
        bls_gt_multiple(a, k)
    }

    fn get_identity() -> (r: Self) {
        BLSGt { bytes: gt_bytes_identity() }
    }

    fn get_base() -> (r: Self) {
        BLSGt { bytes: gt_bytes_base() }
    }

    fn add(&self, other: &Self) -> (r: Self) {
        proof {
            use_type_invariant(self);
            use_type_invariant(other);
        }
        BLSGt { bytes: gt_bytes_add(&self.bytes, &other.bytes) }
    }

    fn sub(&self, other: &Self) -> (r: Self) {
        proof {
            use_type_invariant(self);
            use_type_invariant(other);
        }
        BLSGt { bytes: gt_bytes_sub(&self.bytes, &other.bytes) }
    }

    fn mul(&self, scalar: &BLSScalar) -> (r: Self) {
        proof {
            use_type_invariant(self);
        }
        let k = scalar.as_bytes();
        proof {
            lemma_small_mod(le_value(k@), bls_scalar_order());
        }
        BLSGt { bytes: gt_bytes_mul(&self.bytes, &k) }
    }
}

} // verus!

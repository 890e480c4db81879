//! The group of prime order of the curve Ed25519 and its scalar field,
//! computed by `ark_ed25519`.
//!
//! A scalar is held as its canonical 32 bytes and stands for the integer they
//! encode. A point is held as its compressed encoding; what the group
//! operations return on encodings is known here only by name.

use vstd::prelude::*;
use vstd::arithmetic::div_mod::lemma_small_mod;
use ark_ec::{AffineRepr, CurveGroup, Group as ArkGroup};
use ark_ff::{BigInteger, PrimeField};
use ark_serialize::{CanonicalDeserialize, CanonicalSerialize};
use crate::bytes::{
    array_of_32, comes_before, le_value, order_of_bytes, same_bytes, vec_of_bytes,
};
use core::cmp::Ordering;
use crate::errors::ZeiError;
use crate::groups::{Group, Scalar};

verus! {

/// The order of the group, `2^252 + 27742317777372353535851937790883648493`.
pub open spec fn ed25519_order() -> nat {
    7237005577332262213973186563042994240857116359379907606001950938285454250989nat
}

/// The size of the field that the coordinates of the points are in,
/// `2^255 - 19`.
pub open spec fn ed25519_field_size() -> nat {
    57896044618658097711785492504343953926634992332820282019728792003956564819949nat
}

/// The number of cosets of the group of prime order in the curve.
pub const COFACTOR: u64 = 8;

/// The number of bytes of an uncompressed encoding.
pub const UNCHECKED_SIZE: usize = 64;

/// The compressed encoding of the neutral element: the second coordinate,
/// one, in 32 bytes.
pub open spec fn ed25519_identity_encoding() -> Seq<u8> {
    Seq::new(
        32,
        |i: int|
            if i == 0 {
                1u8
            } else {
                0u8
            },
    )
}

/// The compressed encoding of the generator: the second coordinate, four
/// fifths, in 32 bytes.
pub open spec fn ed25519_base_encoding() -> Seq<u8> {
    Seq::new(
        32,
        |i: int|
            if i == 0 {
                0x58u8
            } else {
                0x66u8
            },
    )
}

/// Whether `e` is what `serialize_compressed` of `ark_serialize` writes for a
/// point of the group: the one encoding that a point is held in.
pub uninterp spec fn ed25519_is_point(e: Seq<u8>) -> bool;

/// Whether `deserialize_compressed` of `ark_serialize` reads a point of the
/// group from `e`.
pub uninterp spec fn ed25519_decodes(e: Seq<u8>) -> bool;

/// What `serialize_compressed` writes for the point that
/// `deserialize_compressed` reads from `e`.
pub uninterp spec fn ed25519_decoded(e: Seq<u8>) -> Seq<u8>;

/// The encoding of the sum of the points that `a` and `b` encode.
pub uninterp spec fn ed25519_sum(a: Seq<u8>, b: Seq<u8>) -> Seq<u8>;

/// The encoding of the point that `a` encodes less the one that `b` encodes.
pub uninterp spec fn ed25519_difference(a: Seq<u8>, b: Seq<u8>) -> Seq<u8>;

/// The encoding of the point that `a` encodes, multiplied by the scalar `k`.
pub uninterp spec fn ed25519_multiple(a: Seq<u8>, k: nat) -> Seq<u8>;

/// The uncompressed encoding of the point that `a` encodes: its two
/// coordinates, 32 bytes each.
pub uninterp spec fn ed25519_uncompressed(a: Seq<u8>) -> Seq<u8>;

/// Whether `deserialize_uncompressed_unchecked` reads two coordinates from `e`.
pub uninterp spec fn ed25519_reads_unchecked(e: Seq<u8>) -> bool;

/// The compressed encoding of the two coordinates that
/// `deserialize_uncompressed_unchecked` reads from `e`.
pub uninterp spec fn ed25519_from_unchecked(e: Seq<u8>) -> Seq<u8>;

/// The first coordinate of the point that `a` encodes.
pub uninterp spec fn ed25519_x(a: Seq<u8>) -> nat;

/// The second coordinate of the point that `a` encodes.
pub uninterp spec fn ed25519_y(a: Seq<u8>) -> nat;

/// The text that `ark_ec` writes for the point that `a` encodes.
pub uninterp spec fn ed25519_text(a: Seq<u8>) -> Seq<u8>;

/// `Fr::from(u64)` of `ark_ed25519`, as the little-endian bytes of its
/// integer: the integer is `x`.
#[verifier::external_body]
fn fr_bytes_from_u64(x: u64) -> (r: [u8; 32])
    ensures
        le_value(r@) == x as nat,
{
    let mut r = [0u8; 32];
    r.copy_from_slice(&ark_ed25519::Fr::from(x).into_bigint().to_bytes_le());
    r
}

/// Deserialization of `ark_ed25519::Fr`, asked only whether it accepts: it does
/// when the 32 bytes encode an integer below the order of the group.
#[verifier::external_body]
fn fr_bytes_are_canonical(a: &[u8; 32]) -> (r: bool)
    ensures
        r == (le_value(a@) < ed25519_order()),
{
    ark_ed25519::Fr::deserialize_compressed(&a[..]).is_ok()
}

/// Addition in `ark_ed25519::Fr`, on the elements that
/// `from_le_bytes_mod_order` reads: the sum modulo the order of the group.
#[verifier::external_body]
fn fr_bytes_add(a: &[u8; 32], b: &[u8; 32]) -> (r: [u8; 32])
    ensures
        le_value(r@) == (le_value(a@) + le_value(b@)) % ed25519_order(),
{
    let x = ark_ed25519::Fr::from_le_bytes_mod_order(a);
    let y = ark_ed25519::Fr::from_le_bytes_mod_order(b);
    let mut r = [0u8; 32];
    r.copy_from_slice(&(x + y).into_bigint().to_bytes_le());
    r
}

/// Multiplication in `ark_ed25519::Fr`: the product modulo the order of the
/// group.
#[verifier::external_body]
fn fr_bytes_mul(a: &[u8; 32], b: &[u8; 32]) -> (r: [u8; 32])
    ensures
        le_value(r@) == (le_value(a@) * le_value(b@)) % ed25519_order(),
{
    let x = ark_ed25519::Fr::from_le_bytes_mod_order(a);
    let y = ark_ed25519::Fr::from_le_bytes_mod_order(b);
    let mut r = [0u8; 32];
    r.copy_from_slice(&(x * y).into_bigint().to_bytes_le());
    r
}

/// Checked deserialization of `ark_ed25519::EdwardsAffine` from a compressed
/// encoding; the point that was read is handed out as `serialize_compressed`
/// writes it. What was written for a point is read as that point, so that it
/// is handed out unchanged.
#[verifier::external_body]
fn point_bytes_decode(a: &[u8; 32]) -> (r: Option<[u8; 32]>)
    ensures
        r is Some <==> ed25519_decodes(a@),
        r is Some ==> r->Some_0@ == ed25519_decoded(a@) && ed25519_is_point(r->Some_0@),
        ed25519_is_point(a@) ==> r is Some && r->Some_0@ == a@,
{
    match ark_ed25519::EdwardsAffine::deserialize_compressed(&a[..]) {
        Ok(p) => {
            let mut r = [0u8; 32];
            p.serialize_compressed(&mut r[..]).unwrap();
            Some(r)
        },
        Err(_) => None,
    }
}

/// The neutral element of `ark_ed25519::EdwardsAffine` as it is serialised.
#[verifier::external_body]
fn point_bytes_identity() -> (r: [u8; 32])
    ensures
        r@ == ed25519_identity_encoding(),
        ed25519_is_point(r@),
{
    let mut r = [0u8; 32];
    ark_ed25519::EdwardsAffine::zero().serialize_compressed(&mut r[..]).unwrap();
    r
}

/// The constant generator of `ark_ed25519` as it is serialised.
#[verifier::external_body]
fn point_bytes_base() -> (r: [u8; 32])
    ensures
        r@ == ed25519_base_encoding(),
        ed25519_is_point(r@),
{
    let mut r = [0u8; 32];
    ark_ed25519::EdwardsAffine::generator().serialize_compressed(&mut r[..]).unwrap();
    r
}

/// Addition of `ark_ed25519::EdwardsAffine`, from encodings to the encoding of
/// the result, which is a point again.
#[verifier::external_body]
fn point_bytes_add(a: &[u8; 32], b: &[u8; 32]) -> (r: [u8; 32])
    requires
        ed25519_is_point(a@),
        ed25519_is_point(b@),
    ensures
        r@ == ed25519_sum(a@, b@),
        ed25519_is_point(r@),
{
    let p = ark_ed25519::EdwardsAffine::deserialize_compressed_unchecked(&a[..]).unwrap();
    let q = ark_ed25519::EdwardsAffine::deserialize_compressed_unchecked(&b[..]).unwrap();
    let mut r = [0u8; 32];
    (p + q).into_affine().serialize_compressed(&mut r[..]).unwrap();
    r
}

/// Subtraction of `ark_ed25519::EdwardsAffine`, from encodings to the encoding
/// of the result, which is a point again.
#[verifier::external_body]
fn point_bytes_sub(a: &[u8; 32], b: &[u8; 32]) -> (r: [u8; 32])
    requires
        ed25519_is_point(a@),
        ed25519_is_point(b@),
    ensures
        r@ == ed25519_difference(a@, b@),
        ed25519_is_point(r@),
{
    let p = ark_ed25519::EdwardsAffine::deserialize_compressed_unchecked(&a[..]).unwrap();
    let q = ark_ed25519::EdwardsAffine::deserialize_compressed_unchecked(&b[..]).unwrap();
    let mut r = [0u8; 32];
    (p.into_group() - q).into_affine().serialize_compressed(&mut r[..]).unwrap();
    r
}

/// Multiplication of `ark_ed25519::EdwardsAffine` by the scalar that
/// `from_le_bytes_mod_order` reads, from encodings to the encoding of the
/// result, which is a point again.
#[verifier::external_body]
fn point_bytes_mul(a: &[u8; 32], k: &[u8; 32]) -> (r: [u8; 32])
    requires
        ed25519_is_point(a@),
    ensures
        r@ == ed25519_multiple(a@, le_value(k@) % ed25519_order()),
        ed25519_is_point(r@),
{
    let p = ark_ed25519::EdwardsAffine::deserialize_compressed_unchecked(&a[..]).unwrap();
    let s = ark_ed25519::Fr::from_le_bytes_mod_order(k);
    let mut r = [0u8; 32];
    (p * s).into_affine().serialize_compressed(&mut r[..]).unwrap();
    r
}

/// `double` of `ark_ec::Group` on `ark_ed25519::EdwardsProjective`: the point
/// added to itself.
#[verifier::external_body]
fn point_bytes_double(a: &[u8; 32]) -> (r: [u8; 32])
    requires
        ed25519_is_point(a@),
    ensures
        r@ == ed25519_sum(a@, a@),
        ed25519_is_point(r@),
{
    let p = ark_ed25519::EdwardsAffine::deserialize_compressed_unchecked(&a[..]).unwrap();
    let mut r = [0u8; 32];
    p.into_group().double().into_affine().serialize_compressed(&mut r[..]).unwrap();
    r
}

/// Negation of `ark_ed25519::EdwardsAffine`: the neutral element less the
/// point.
#[verifier::external_body]
fn point_bytes_neg(a: &[u8; 32]) -> (r: [u8; 32])
    requires
        ed25519_is_point(a@),
    ensures
        r@ == ed25519_difference(ed25519_identity_encoding(), a@),
        ed25519_is_point(r@),
{
    let p = ark_ed25519::EdwardsAffine::deserialize_compressed_unchecked(&a[..]).unwrap();
    let mut r = [0u8; 32];
    (-p).serialize_compressed(&mut r[..]).unwrap();
    r
}

/// `mul_by_cofactor_to_group` of `ark_ec::AffineRepr` on
/// `ark_ed25519::EdwardsAffine`: eight times the point.
#[verifier::external_body]
fn point_bytes_mul_by_cofactor(a: &[u8; 32]) -> (r: [u8; 32])
    requires
        ed25519_is_point(a@),
    ensures
        r@ == ed25519_multiple(a@, 8),
        ed25519_is_point(r@),
{
    let p = ark_ed25519::EdwardsAffine::deserialize_compressed_unchecked(&a[..]).unwrap();
    let mut r = [0u8; 32];
    p.mul_by_cofactor_to_group().into_affine().serialize_compressed(&mut r[..]).unwrap();
    r
}

/// `serialize_uncompressed` of `ark_serialize` on `ark_ed25519::EdwardsAffine`:
/// the two coordinates of the point, which `deserialize_uncompressed_unchecked`
/// reads again as that point.
#[verifier::external_body]
fn point_bytes_uncompressed(a: &[u8; 32]) -> (r: [u8; 64])
    requires
        ed25519_is_point(a@),
    ensures
        r@ == ed25519_uncompressed(a@),
        ed25519_reads_unchecked(r@),
        ed25519_from_unchecked(r@) == a@,
{
    let p = ark_ed25519::EdwardsAffine::deserialize_compressed_unchecked(&a[..]).unwrap();
    let mut r = [0u8; 64];
    p.serialize_uncompressed(&mut r[..]).unwrap();
    r
}

/// `deserialize_uncompressed_unchecked` of `ark_serialize` on
/// `ark_ed25519::EdwardsAffine`: reads two coordinates, without asking whether
/// they are a point of the group, and hands them out in compressed encoding.
#[verifier::external_body]
fn point_bytes_from_unchecked(a: &[u8]) -> (r: Option<[u8; 32]>)
    ensures
        r is Some <==> ed25519_reads_unchecked(a@),
        r is Some ==> r->Some_0@ == ed25519_from_unchecked(a@),
{
    match ark_ed25519::EdwardsAffine::deserialize_uncompressed_unchecked(a) {
        Ok(p) => {
            let mut r = [0u8; 32];
            p.serialize_compressed(&mut r[..]).unwrap();
            Some(r)
        },
        Err(_) => None,
    }
}

/// The first coordinate of an `ark_ed25519::EdwardsAffine`, as the
/// little-endian bytes of its integer, which is below the size of the field.
#[verifier::external_body]
fn point_bytes_x(a: &[u8; 32]) -> (r: [u8; 32])
    requires
        ed25519_is_point(a@),
    ensures
        le_value(r@) == ed25519_x(a@),
        le_value(r@) < ed25519_field_size(),
{
    let p = ark_ed25519::EdwardsAffine::deserialize_compressed_unchecked(&a[..]).unwrap();
    let mut r = [0u8; 32];
    r.copy_from_slice(&p.x.into_bigint().to_bytes_le());
    r
}

/// The second coordinate of an `ark_ed25519::EdwardsAffine`, as the
/// little-endian bytes of its integer, which is below the size of the field.
#[verifier::external_body]
fn point_bytes_y(a: &[u8; 32]) -> (r: [u8; 32])
    requires
        ed25519_is_point(a@),
    ensures
        le_value(r@) == ed25519_y(a@),
        le_value(r@) < ed25519_field_size(),
{
    let p = ark_ed25519::EdwardsAffine::deserialize_compressed_unchecked(&a[..]).unwrap();
    let mut r = [0u8; 32];
    r.copy_from_slice(&p.y.into_bigint().to_bytes_le());
    r
}

/// The text that `ark_ec` writes for an `ark_ed25519::EdwardsProjective`, as
/// bytes.
#[verifier::external_body]
fn point_bytes_text(a: &[u8; 32]) -> (r: Vec<u8>)
    requires
        ed25519_is_point(a@),
    ensures
        r@ == ed25519_text(a@),
{
    let p = ark_ed25519::EdwardsAffine::deserialize_compressed_unchecked(&a[..]).unwrap();
    format!("{}", p.into_group()).into_bytes()
}

/// A scalar of the group: an integer below its order.
#[derive(Clone, Copy, Debug, PartialEq, Eq, Hash)]
pub struct Ed25519Scalar {
    bytes: [u8; 32],
}

impl Ed25519Scalar {
    #[verifier::type_invariant]
    spec fn canonical(self) -> bool {
        le_value(self.bytes@) < ed25519_order()
    }

    /// The integer that the scalar stands for.
    pub closed spec fn int_value(&self) -> nat {
        le_value(self.bytes@)
    }

    /// The 32 bytes of the canonical encoding.
    pub fn as_bytes(&self) -> (r: [u8; 32])
        ensures
            le_value(r@) == self.int_value(),
            self.int_value() < ed25519_order(),
    {
        proof {
            use_type_invariant(self);
        }
        self.bytes
    }
}

impl Scalar for Ed25519Scalar {
    open spec fn modulus() -> nat {
        ed25519_order()
    }

    open spec fn value(&self) -> nat {
        self.int_value()
    }

    fn from_u32(x: u32) -> (s: Self) {
        proof {
            lemma_small_mod(x as nat, ed25519_order());
        }
        Ed25519Scalar { bytes: fr_bytes_from_u64(x as u64) }
    }

    fn from_u64(x: u64) -> (s: Self) {
        proof {
            lemma_small_mod(x as nat, ed25519_order());
        }
        Ed25519Scalar { bytes: fr_bytes_from_u64(x) }
    }

    fn add(&self, b: &Self) -> (s: Self) {
        Ed25519Scalar { bytes: fr_bytes_add(&self.bytes, &b.bytes) }
    }

    fn mul(&self, b: &Self) -> (s: Self) {
        Ed25519Scalar { bytes: fr_bytes_mul(&self.bytes, &b.bytes) }
    }

    fn to_bytes(&self) -> (v: Vec<u8>) {
        proof {
            use_type_invariant(self);
        }
        vec_of_bytes(&self.bytes)
    }

    fn from_bytes(bytes: &[u8]) -> (r: Result<Self, ZeiError>) {
        if bytes.len() != 32 {
            return Err(ZeiError::DeserializationError);
        }
        let a = array_of_32(bytes);
        if fr_bytes_are_canonical(&a) {
            Ok(Ed25519Scalar { bytes: a })
        } else {
            Err(ZeiError::DeserializationError)
        }
    }
}

/// An element of the field that the coordinates of the points are in: an
/// integer below `2^255 - 19`.
#[derive(Clone, Copy, Debug, PartialEq, Eq, Hash)]
pub struct ZorroScalar {
    bytes: [u8; 32],
}

impl ZorroScalar {
    #[verifier::type_invariant]
    spec fn canonical(self) -> bool {
        le_value(self.bytes@) < ed25519_field_size()
    }

    /// The integer that the element stands for.
    pub closed spec fn value(&self) -> nat {
        le_value(self.bytes@)
    }

    /// The 32 bytes of the canonical encoding.
    pub fn to_bytes(&self) -> (v: Vec<u8>)
        ensures
            v@.len() == 32,
            le_value(v@) == self.value(),
            self.value() < ed25519_field_size(),
    {
        proof {
            use_type_invariant(self);
        }
        vec_of_bytes(&self.bytes)
    }
}

/// Whether 64 bytes hold the two coordinates of a point of the group: two
/// coordinates are read from them, what is read encodes a point of the group,
/// and the bytes are the two coordinates of that point.
pub open spec fn holds_a_point(e: Seq<u8>) -> bool {
    &&& ed25519_reads_unchecked(e)
    &&& ed25519_decodes(ed25519_from_unchecked(e))
    &&& ed25519_uncompressed(ed25519_decoded(ed25519_from_unchecked(e))) == e
}

/// A point of the group of prime order of Ed25519.
#[derive(Clone, Copy, Debug, PartialEq, Eq, Hash)]
pub struct Ed25519Point {
    bytes: [u8; 32],
}

impl Ed25519Point {
    #[verifier::type_invariant]
    spec fn decodes(self) -> bool {
        ed25519_is_point(self.bytes@)
    }

    /// The compressed encoding, which identifies the point.
    pub closed spec fn compressed(&self) -> Seq<u8> {
        self.bytes@
    }

    /// Points with the same encoding are the same point.
    pub proof fn lemma_encoding_identifies(a: Ed25519Point, b: Ed25519Point)
        requires
            a.encoding() == b.encoding(),
        ensures
            a == b,
    {
        assert(a.bytes =~= b.bytes);
    }

    /// Eight times the point.
    pub fn mul_by_cofactor(&self) -> (r: Self)
        ensures
            r.encoding() == ed25519_multiple(self.encoding(), COFACTOR as nat),
    {
        proof {
            use_type_invariant(self);
        }
        Ed25519Point { bytes: point_bytes_mul_by_cofactor(&self.bytes) }
    }

    /// The point added to itself.
    pub fn double(&self) -> (r: Self)
        ensures
            r.encoding() == ed25519_sum(self.encoding(), self.encoding()),
    {
        proof {
            use_type_invariant(self);
        }
        Ed25519Point { bytes: point_bytes_double(&self.bytes) }
    }

    /// The opposite of the point.
    pub fn neg(&self) -> (r: Self)
        ensures
            r.encoding() == ed25519_difference(ed25519_identity_encoding(), self.encoding()),
    {
        proof {
            use_type_invariant(self);
        }
        Ed25519Point { bytes: point_bytes_neg(&self.bytes) }
    }

    /// Adds a point to this one.
    pub fn add_assign(&mut self, rhs: &Ed25519Point)
        ensures
            final(self).encoding() == ed25519_sum(old(self).encoding(), rhs.encoding()),
    {
        let sum = self.add(rhs);
        *self = sum;
    }

    /// Takes a point from this one.
    pub fn sub_assign(&mut self, rhs: &Ed25519Point)
        ensures
            final(self).encoding() == ed25519_difference(old(self).encoding(), rhs.encoding()),
    {
        let difference = self.sub(rhs);
        *self = difference;
    }

    /// The 32 bytes of the compressed encoding.
    pub fn to_compressed_bytes(&self) -> (v: Vec<u8>)
        ensures
            v@ == self.encoding(),
            v@.len() == 32,
            ed25519_is_point(v@),
    {
        proof {
            use_type_invariant(self);
        }
        vec_of_bytes(&self.bytes)
    }

    /// The 64 bytes of the uncompressed encoding: the two coordinates, which
    /// are read again as this point.
    pub fn to_unchecked_bytes(&self) -> (v: Vec<u8>)
        ensures
            v@ == ed25519_uncompressed(self.encoding()),
            v@.len() == UNCHECKED_SIZE,
            ed25519_is_point(self.encoding()),
            ed25519_reads_unchecked(v@),
            ed25519_from_unchecked(v@) == self.encoding(),
    {
        proof {
            use_type_invariant(self);
        }
        let bytes = point_bytes_uncompressed(&self.bytes);
        vec_of_bytes(&bytes)
    }

    /// The point that 32 bytes encode; bytes that encode no point of the group
    /// are refused. The point is held in the one encoding that is written for
    /// it, so that the bytes of a point decode to that point.
    pub fn from_compressed_bytes(bytes: &[u8]) -> (r: Result<Self, ZeiError>)
        ensures
            r is Ok <==> bytes@.len() == 32 && ed25519_decodes(bytes@),
            r is Ok ==> r->Ok_0.encoding() == ed25519_decoded(bytes@),
            bytes@.len() == 32 && ed25519_is_point(bytes@) ==> r is Ok && r->Ok_0.encoding()
                == bytes@,
            r is Err ==> r->Err_0 == ZeiError::DecompressElementError,
    {
        if bytes.len() != 32 {
            return Err(ZeiError::DecompressElementError);
        }
        let a = array_of_32(bytes);
        match point_bytes_decode(&a) {
            Some(c) => Ok(Ed25519Point { bytes: c }),
            None => Err(ZeiError::DecompressElementError),
        }
    }

    /// The point whose two coordinates the bytes hold. Bytes that hold no two
    /// coordinates, or two coordinates that are not those of a point of the
    /// group, are refused: the point that is handed out has the bytes as its
    /// uncompressed encoding.
    pub fn from_unchecked_bytes(bytes: &[u8]) -> (r: Result<Self, ZeiError>)
        ensures
            r is Ok <==> holds_a_point(bytes@),
            r is Ok ==> r->Ok_0.encoding() == ed25519_decoded(ed25519_from_unchecked(bytes@))
                && ed25519_uncompressed(r->Ok_0.encoding()) == bytes@,
            ed25519_reads_unchecked(bytes@) && ed25519_is_point(ed25519_from_unchecked(bytes@))
                && ed25519_uncompressed(ed25519_from_unchecked(bytes@)) == bytes@ ==> r is Ok
                && r->Ok_0.encoding() == ed25519_from_unchecked(bytes@),
            r is Err ==> r->Err_0 == ZeiError::DecompressElementError,
    {
        let read = match point_bytes_from_unchecked(bytes) {
            Some(a) => a,
            None => {
                return Err(ZeiError::DecompressElementError);
            },
        };
        let held = match point_bytes_decode(&read) {
            Some(c) => c,
            None => {
                return Err(ZeiError::DecompressElementError);
            },
        };
        let open = point_bytes_uncompressed(&held);
        if same_bytes(&open, bytes) {
            Ok(Ed25519Point { bytes: held })
        } else {
            Err(ZeiError::DecompressElementError)
        }
    }

    /// The number of bytes of an uncompressed encoding.
    pub fn unchecked_size() -> (n: usize)
        ensures
            n == UNCHECKED_SIZE,
    {
        UNCHECKED_SIZE
    }

    /// The first coordinate of the point.
    pub fn get_x(&self) -> (x: ZorroScalar)
        ensures
            x.value() == ed25519_x(self.encoding()),
    {
        proof {
            use_type_invariant(self);
        }
        ZorroScalar { bytes: point_bytes_x(&self.bytes) }
    }

    /// The second coordinate of the point.
    pub fn get_y(&self) -> (y: ZorroScalar)
        ensures
            y.value() == ed25519_y(self.encoding()),
    {
        proof {
            use_type_invariant(self);
        }
        ZorroScalar { bytes: point_bytes_y(&self.bytes) }
    }

    /// The text that is written for the point, as bytes: what points are
    /// ordered by.
    pub fn text(&self) -> (t: Vec<u8>)
        ensures
            t@ == ed25519_text(self.encoding()),
    {
        proof {
            use_type_invariant(self);
        }
        point_bytes_text(&self.bytes)
    }
}

impl Ed25519Point {
    /// The order of two points: that of the texts written for them.
    pub fn cmp(&self, other: &Self) -> (r: Ordering)
        ensures
            r == Ordering::Less <==> comes_before(
                ed25519_text(self.encoding()),
                ed25519_text(other.encoding()),
            ),
            r == Ordering::Greater <==> comes_before(
                ed25519_text(other.encoding()),
                ed25519_text(self.encoding()),
            ),
            r == Ordering::Equal <==> ed25519_text(self.encoding()) == ed25519_text(
                other.encoding(),
            ),
    {
        let left = self.text();
        let right = other.text();
        let order = order_of_bytes(left.as_slice(), right.as_slice());
        if order < 0 {
            Ordering::Less
        } else if order > 0 {
            Ordering::Greater
        } else {
            Ordering::Equal
        }
    }

    /// The order of two points, which every two points have.
    pub fn partial_cmp(&self, other: &Self) -> (r: Option<Ordering>)
        ensures
            r is Some,
            r->Some_0 == Ordering::Less <==> comes_before(
                ed25519_text(self.encoding()),
                ed25519_text(other.encoding()),
            ),
            r->Some_0 == Ordering::Greater <==> comes_before(
                ed25519_text(other.encoding()),
                ed25519_text(self.encoding()),
            ),
            r->Some_0 == Ordering::Equal <==> ed25519_text(self.encoding()) == ed25519_text(
                other.encoding(),
            ),
    {
        Some(self.cmp(other))
    }
}

impl Default for Ed25519Point {
    /// The neutral element.
    fn default() -> (r: Self)
        ensures
            r.encoding() == ed25519_identity_encoding(),
    {
        Ed25519Point { bytes: point_bytes_identity() }
    }
}

impl Group<Ed25519Scalar> for Ed25519Point {
    open spec fn encoding(&self) -> Seq<u8> {
        self.compressed()
    }

    open spec fn is_element(e: Seq<u8>) -> bool {
        ed25519_is_point(e)
    }

    open spec fn identity() -> Seq<u8> {
        ed25519_identity_encoding()
    }

    open spec fn base() -> Seq<u8> {
        ed25519_base_encoding()
    }

    open spec fn sum(a: Seq<u8>, b: Seq<u8>) -> Seq<u8> {
        ed25519_sum(a, b)
    }

    open spec fn difference(a: Seq<u8>, b: Seq<u8>) -> Seq<u8> {
        ed25519_difference(a, b)
    }

    open spec fn multiple(a: Seq<u8>, k: nat) -> Seq<u8> {
        ed25519_multiple(a, k)
    }

    fn get_identity() -> (r: Self) {
        Ed25519Point { bytes: point_bytes_identity() }
    }

    fn get_base() -> (r: Self) {
        Ed25519Point { bytes: point_bytes_base() }
    }

    fn add(&self, other: &Self) -> (r: Self) {
        proof {
            use_type_invariant(self);
            use_type_invariant(other);
        }
        Ed25519Point { bytes: point_bytes_add(&self.bytes, &other.bytes) }
    }

    fn sub(&self, other: &Self) -> (r: Self) {
        proof {
            use_type_invariant(self);
            use_type_invariant(other);
        }
        Ed25519Point { bytes: point_bytes_sub(&self.bytes, &other.bytes) }
    }

    fn mul(&self, scalar: &Ed25519Scalar) -> (r: Self) {
        proof {
            use_type_invariant(self);
        }
        let k = scalar.as_bytes();
        proof {
            lemma_small_mod(le_value(k@), ed25519_order());
        }
        Ed25519Point { bytes: point_bytes_mul(&self.bytes, &k) }
    }
}

} // verus!

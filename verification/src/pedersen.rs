//! Pedersen commitments in the Ristretto group: a value and a blinding scalar
//! are committed to as the sum of their multiples of two generators.

use vstd::prelude::*;

use crate::groups::{Group, Scalar};
use crate::ristretto::{
    ristretto_base_encoding, ristretto_hash_sha3, ristretto_multiple, ristretto_sum,
    RistrettoPoint, RistrettoScalar,
};

verus! {

/// The two generators of a Pedersen commitment.
#[derive(Clone, Copy, Debug, PartialEq, Eq)]
#[allow(non_snake_case)]
pub struct RistrettoPedersenCommitment {
    /// The generator for the value.
    pub B: RistrettoPoint,
    /// The generator for the blinding scalar.
    pub B_blinding: RistrettoPoint,
}

/// The encoding of the commitment to `value` with `blinding` under the
/// generators with the encodings `b` and `b_blinding`.
pub open spec fn commitment(b: Seq<u8>, b_blinding: Seq<u8>, value: nat, blinding: nat) -> Seq<u8> {
    ristretto_sum(ristretto_multiple(b, value), ristretto_multiple(b_blinding, blinding))
}

impl RistrettoPedersenCommitment {
    /// The commitment to `value` with `blinding`.
    pub fn commit(&self, value: &RistrettoScalar, blinding: &RistrettoScalar) -> (c: RistrettoPoint)
        ensures
            c.encoding() == commitment(
                self.B.encoding(),
                self.B_blinding.encoding(),
                value.value(),
                blinding.value(),
            ),
    {
        self.B.mul(value).add(&self.B_blinding.mul(blinding))
    }

    /// The encodings of the two generators, one after the other.
    pub fn to_bytes(&self) -> (v: Vec<u8>)
        ensures
            v@ == self.B.encoding() + self.B_blinding.encoding(),
            v@.len() == 64,
    {
        let mut v = self.B.to_compressed_bytes();
        let second = self.B_blinding.to_compressed_bytes();
        let mut i: usize = 0;
        let ghost first = v@;
        while i < second.len()
            invariant
                i <= second@.len(),
                v@ == first + second@.take(i as int),
            decreases second@.len() - i,
        {
            v.push(second[i]);
            proof {
                assert(second@.take(i + 1) =~= second@.take(i as int).push(second@[i as int]));
                assert(v@ =~= first + second@.take(i + 1));
            }
            i += 1;
        }
        proof {
            assert(second@.take(second@.len() as int) =~= second@);
        }
        v
    }
}

impl Default for RistrettoPedersenCommitment {
    /// The generators in common use: the basepoint of the group, and the point
    /// that the basepoint's encoding is hashed to with SHA3-512.
    fn default() -> (r: Self)
        ensures
            r.B.encoding() == ristretto_base_encoding(),
            r.B_blinding.encoding() == ristretto_hash_sha3(ristretto_base_encoding()),
    {
        let base = RistrettoPoint::get_base();
        let bytes = base.to_compressed_bytes();
        RistrettoPedersenCommitment {
            B: base,
            B_blinding: RistrettoPoint::hash_from_bytes(bytes.as_slice()),
        }
    }
}

} // verus!

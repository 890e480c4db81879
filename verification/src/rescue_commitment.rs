//! The two commitments that a conversion rests on, each two applications of
//! the Rescue permutation: the commitment of the anonymous record, and the
//! commitment to what the prover of the equality proof keeps to itself.

use vstd::prelude::*;
use vstd::arithmetic::power2::pow2;
use crate::bigint::{big_add, big_shl};
use crate::bls12_381::{bls_scalar_order, BLSScalar};
use crate::bytes::le_value;
use crate::field_simulation::{lemma_pow2_values, limb_radix, limbs_of, SimFr, BIT_PER_LIMB};
use crate::groups::Scalar;
use crate::radix::{ints_of_nat, radix_value};
use crate::rescue::{values_of, RescueInstance};

verus! {

/// The number of limbs that go into one field element of the second commitment.
pub const LIMBS_PER_GROUP: usize = 5;

/// The number of field elements that the 24 limbs are packed into.
pub const NUM_OF_GROUPS: usize = 5;

/// The commitment of an anonymous record: the first entry of
/// `Rescue(Rescue(blind, amount, asset_type, 0)[0], pubkey_x, 0, 0)`.
pub open spec fn abar_commitment_value(
    rescue: RescueInstance,
    blind: nat,
    amount: nat,
    asset_type: nat,
    pubkey_x: nat,
) -> nat {
    rescue.permuted(
        seq![rescue.permuted(seq![blind, amount, asset_type, 0nat])[0], pubkey_x, 0nat, 0nat],
    )[0]
}

/// Group `g` of the limbs: five limbs from place `5 g` on, or as many as are
/// left.
pub open spec fn limb_group(limbs: Seq<nat>, g: int) -> Seq<nat> {
    limbs.subrange(
        LIMBS_PER_GROUP * g,
        if LIMBS_PER_GROUP * (g + 1) <= limbs.len() {
            LIMBS_PER_GROUP * (g + 1)
        } else {
            limbs.len() as int
        },
    )
}

/// The field element that group `g` of the limbs is packed into: the limbs of
/// the group read as a number in radix `2^43`.
pub open spec fn packed_group(limbs: Seq<nat>, g: int) -> nat {
    (radix_value(ints_of_nat(limb_group(limbs, g)), limb_radix() as int, 0) % (
    bls_scalar_order() as int)) as nat
}

/// The commitment to the limbs of `x`, `y`, `a`, `b` and to the blind `r`: with
/// the limbs packed into `l0` to `l4`, the first entry of
/// `Rescue(Rescue(l0, l1, l2, l3)[0], l4, r, 0)`.
pub open spec fn state_commitment_value(rescue: RescueInstance, limbs: Seq<nat>, r: nat) -> nat {
    rescue.permuted(
        seq![
            rescue.permuted(
                seq![
                    packed_group(limbs, 0),
                    packed_group(limbs, 1),
                    packed_group(limbs, 2),
                    packed_group(limbs, 3),
                ],
            )[0],
            packed_group(limbs, 4),
            r,
            0nat,
        ],
    )[0]
}

/// The limbs of four simulated elements, one element after the other.
pub open spec fn joined_limbs(x: SimFr, y: SimFr, a: SimFr, b: SimFr) -> Seq<nat> {
    x.limb_values() + y.limb_values() + a.limb_values() + b.limb_values()
}

/// The limbs of four numbers, one number after the other.
pub open spec fn state_limbs(x: nat, y: nat, a: nat, b: nat) -> Seq<nat> {
    limbs_of(x) + limbs_of(y) + limbs_of(a) + limbs_of(b)
}

/// The commitment of an anonymous record.
pub fn abar_commitment(
    rescue: &RescueInstance,
    blind: &BLSScalar,
    amount: &BLSScalar,
    asset_type: &BLSScalar,
    pubkey_x: &BLSScalar,
) -> (z: BLSScalar)
    ensures
        z.value() == abar_commitment_value(
            *rescue,
            blind.value(),
            amount.value(),
            asset_type.value(),
            pubkey_x.value(),
        ),
{
    let zero = BLSScalar::zero();
    let first = [*blind, *amount, *asset_type, zero];
    let cur = rescue.rescue(&first);
    let second = [cur[0], *pubkey_x, zero, zero];
    let out = rescue.rescue(&second);
    proof {
        assert(values_of(first@) =~= seq![blind.value(), amount.value(), asset_type.value(), 0nat]);
        assert(values_of(second@) =~= seq![values_of(cur@)[0], pubkey_x.value(), 0nat, 0nat]);
        assert(values_of(out@)[0] == out[0].value());
    }
    out[0]
}

/// The limbs of four simulated elements packed into five field elements.
pub fn pack_limbs(x: &SimFr, y: &SimFr, a: &SimFr, b: &SimFr) -> (packed: [BLSScalar; 5])
    ensures
        forall|g: int|
            0 <= g < NUM_OF_GROUPS ==> (#[trigger] packed@[g]).value() == packed_group(
                joined_limbs(*x, *y, *a, *b),
                g,
            ),
{
    let mut all: Vec<BLSScalar> = Vec::new();
    let ghost joined = joined_limbs(*x, *y, *a, *b);
    let mut i: usize = 0;
    while i < 24
        invariant
            i <= 24,
            all@.len() == i,
            joined == joined_limbs(*x, *y, *a, *b),
            forall|k: int| 0 <= k < i ==> (#[trigger] all@[k]).value() == joined[k],
        decreases 24 - i,
    {
        let limb = if i < 6 {
            x.limbs[i]
        } else if i < 12 {
            y.limbs[i - 6]
        } else if i < 18 {
            a.limbs[i - 12]
        } else {
            b.limbs[i - 18]
        };
        all.push(limb);
        i += 1;
    }
    let zero = BLSScalar::zero();
    let mut packed = [zero, zero, zero, zero, zero];
    let mut g: usize = 0;
    while g < NUM_OF_GROUPS
        invariant
            g <= NUM_OF_GROUPS,
            all@.len() == 24,
            joined == joined_limbs(*x, *y, *a, *b),
            joined.len() == 24,
            forall|k: int| 0 <= k < 24 ==> (#[trigger] all@[k]).value() == joined[k],
            forall|k: int| 0 <= k < g ==> (#[trigger] packed@[k]).value() == packed_group(joined, k),
        decreases NUM_OF_GROUPS - g,
    {
        let start = LIMBS_PER_GROUP * g;
        let end = if start + LIMBS_PER_GROUP <= 24 {
            start + LIMBS_PER_GROUP
        } else {
            24
        };
        let ghost group = ints_of_nat(limb_group(joined, g as int));
        let mut acc: Vec<u8> = Vec::new();
        let mut j: usize = end;
        proof {
            lemma_pow2_values();
            assert(radix_value(group, limb_radix() as int, (end - start) as int) == 0);
        }
        while j > start
            invariant
                start <= j <= end,
                end <= 24,
                all@.len() == 24,
                joined.len() == 24,
                start == LIMBS_PER_GROUP * g,
                end == (if start + LIMBS_PER_GROUP <= 24 {
                    start + LIMBS_PER_GROUP
                } else {
                    24
                }),
                group == ints_of_nat(limb_group(joined, g as int)),
                forall|k: int| 0 <= k < 24 ==> (#[trigger] all@[k]).value() == joined[k],
                limb_radix() == pow2(43),
                le_value(acc@) == radix_value(group, limb_radix() as int, (j - start) as int),
            decreases j,
        {
            j -= 1;
            let shifted = big_shl(acc.as_slice(), BIT_PER_LIMB);
            let limb = all[j].as_bytes();
            acc = big_add(&limb, shifted.as_slice());
            proof {
                let above = radix_value(group, limb_radix() as int, j - start + 1);
                assert(group[j - start] == joined[j as int]);
                assert(le_value(shifted@) == limb_radix() * above) by (nonlinear_arith)
                    requires
                        le_value(shifted@) == above * pow2(43),
                        limb_radix() == pow2(43),
                ;
            }
        }
        packed[g] = BLSScalar::from_le_bytes_mod_order(acc.as_slice());
        g += 1;
    }
    packed
}

/// The commitment to the limbs of `x`, `y`, `a`, `b` and to the blind `r`.
pub fn state_commitment(
    rescue: &RescueInstance,
    x: &SimFr,
    y: &SimFr,
    a: &SimFr,
    b: &SimFr,
    r: &BLSScalar,
) -> (comm: BLSScalar)
    ensures
        comm.value() == state_commitment_value(*rescue, joined_limbs(*x, *y, *a, *b), r.value()),
{
    let packed = pack_limbs(x, y, a, b);
    let zero = BLSScalar::zero();
    let first = [packed[0], packed[1], packed[2], packed[3]];
    let h1 = rescue.rescue(&first);
    let second = [h1[0], packed[4], *r, zero];
    let out = rescue.rescue(&second);
    proof {
        let limbs = joined_limbs(*x, *y, *a, *b);
        assert(values_of(first@) =~= seq![
            packed_group(limbs, 0),
            packed_group(limbs, 1),
            packed_group(limbs, 2),
            packed_group(limbs, 3),
        ]);
        assert(values_of(second@) =~= seq![
            values_of(h1@)[0],
            packed_group(limbs, 4),
            r.value(),
            0nat,
        ]);
        assert(values_of(out@)[0] == out[0].value());
    }
    out[0]
}

} // verus!

//! The conversion of a confidential asset record into an anonymous one.
//!
//! The confidential record commits to an amount and an asset type with
//! Pedersen commitments in the Ristretto group, the anonymous one with a Rescue
//! commitment over the scalar field of BLS12-381. A delegated Chaum-Pedersen
//! proof ties the Pedersen commitments to a second Rescue commitment, and a
//! constraint system ties that one to the commitment of the anonymous record.
//! The proof for the constraint system is made and checked by a proof system
//! outside of this library, which is handed the system, its witness and its
//! public inputs.

use vstd::prelude::*;
use vstd::arithmetic::div_mod::{lemma_add_mod_noop, lemma_small_mod};
use vstd::arithmetic::power2::pow2;
use crate::bls12_381::{bls_scalar_order, BLSScalar};
use crate::bar_to_abar_cs::{
    binds_a_conversion, build_bar_to_abar_cs, conversion_holds, conversion_values, opens,
    ConversionValues, Opening,
};
use crate::delegated_chaum_pedersen::{
    answers_fit, beta_of, lambda_of, lemma_honest_answers_fit, prove_delegated_chaum_pedersen,
    ristretto_acts, sigma_remainder, verify_delegated_chaum_pedersen, NonZKState, Randomizers,
    ZKPartProof,
};
use crate::rescue_commitment::abar_commitment;
use crate::ristretto::{ristretto_base_encoding, ristretto_hash_sha3};
use crate::turbo_cs::{in_field, values_at, TurboCS};
use crate::errors::ZeiError;
use crate::field_simulation::{limbs_of, sim_fr_of_scalar, SimFr, NUM_OF_LIMBS};
use crate::groups::{Group, Scalar};
use crate::pedersen::{commitment, RistrettoPedersenCommitment};
use crate::rescue::{values_of, RescueInstance};
use crate::rescue_commitment::{abar_commitment_value, state_commitment_value, state_limbs};
use crate::group_laws::{
    lemma_answer_combines, lemma_multiple_element, lemma_sum_commutes, lemma_sum_element,
};
use crate::ristretto::{
    ristretto_is_point, ristretto_multiple, ristretto_order, ristretto_sum, CompressedRistretto,
    RistrettoPoint, RistrettoScalar,
};

verus! {

/// Two to the power 32, by which the upper half of an amount is weighted.
pub const TWO_POW_32: u64 = 0x1_0000_0000;

/// The number of public inputs of the constraint system of a conversion.
pub const NUM_OF_ONLINE_INPUTS: usize = 2 + 4 * NUM_OF_LIMBS;

/// An amount in a confidential record: committed to in two halves of 32 bits,
/// or in the clear.
#[derive(Clone, Copy, Debug, PartialEq, Eq)]
pub enum XfrAmount {
    /// The commitments to the lower and to the upper half.
    Confidential((CompressedRistretto, CompressedRistretto)),
    /// The amount itself.
    NonConfidential(u64),
}

/// An asset type in a confidential record: committed to, or in the clear as
/// the scalar that stands for it.
#[derive(Clone, Copy, Debug, PartialEq, Eq)]
pub enum XfrAssetType {
    /// The commitment to the asset type.
    Confidential(CompressedRistretto),
    /// The scalar of the asset type.
    NonConfidential(RistrettoScalar),
}

/// A confidential asset record, as far as a conversion reads it.
#[derive(Clone, Copy, Debug, PartialEq, Eq)]
pub struct BlindAssetRecord {
    /// The amount.
    pub amount: XfrAmount,
    /// The asset type.
    pub asset_type: XfrAssetType,
}

/// A confidential asset record with what its owner knows of it.
#[derive(Clone, Copy, Debug, PartialEq, Eq)]
pub struct OpenAssetRecord {
    /// The record.
    pub blind_asset_record: BlindAssetRecord,
    /// The amount.
    pub amount: u64,
    /// The blinding scalars of the two halves of the amount.
    pub amount_blinds: (RistrettoScalar, RistrettoScalar),
    /// The scalar of the asset type.
    pub asset_type: RistrettoScalar,
    /// The blinding scalar of the asset type.
    pub type_blind: RistrettoScalar,
}

/// An anonymous asset record: a Rescue commitment.
#[derive(Clone, Copy, Debug, PartialEq, Eq)]
pub struct AnonBlindAssetRecord {
    /// The commitment to blind, amount, asset type and owner.
    pub commitment: BLSScalar,
}

/// The proof of the outside proof system for the constraint system, as bytes.
#[derive(Clone, Debug, PartialEq, Eq)]
pub struct AXfrPlonkPf(pub Vec<u8>);

/// An encrypted memo for the owner of an anonymous record, as bytes.
#[derive(Clone, Debug, PartialEq, Eq)]
pub struct OwnerMemo(pub Vec<u8>);

/// A signature, as bytes.
#[derive(Clone, Debug, PartialEq, Eq)]
pub struct XfrSignature(pub Vec<u8>);

/// The proof of a conversion: the equality proof and the proof for the
/// constraint system.
#[derive(Clone, Debug, PartialEq, Eq)]
pub struct ConvertBarAbarProof {
    /// The delegated Chaum-Pedersen proof.
    pub commitment_eq_proof: ZKPartProof,
    /// The proof for the constraint system.
    pub pc_rescue_commitments_eq_proof: AXfrPlonkPf,
}

/// A conversion: the record that is converted, the record it is converted
/// into, the proof, and the memo for the new owner.
#[derive(Clone, Debug, PartialEq, Eq)]
pub struct BarToAbarBody {
    /// The confidential record.
    pub input: BlindAssetRecord,
    /// The anonymous record.
    pub output: AnonBlindAssetRecord,
    /// The proof that both hold the same amount and asset type.
    pub proof: ConvertBarAbarProof,
    /// The memo for the owner of the anonymous record.
    pub memo: OwnerMemo,
}

/// A conversion signed by the owner of the confidential record.
#[derive(Clone, Debug, PartialEq, Eq)]
pub struct BarToAbarNote {
    /// The conversion.
    pub body: BarToAbarBody,
    /// The signature over the conversion.
    pub signature: XfrSignature,
}

/// The product of the two challenges, as a scalar.
pub open spec fn challenge_product(beta: nat, lambda: nat) -> nat {
    (beta * lambda) % ristretto_order()
}

/// The two answers joined by the second challenge, as a scalar.
pub open spec fn joined_answer(s_1: nat, s_2: nat, lambda: nat) -> nat {
    (s_1 + lambda * s_2) % ristretto_order()
}

/// The public inputs of the constraint system of a conversion: the commitment
/// of the anonymous record, the commitment of the equality proof, and the six
/// limbs each of `beta`, `lambda`, their product and the joined answer.
pub open spec fn online_inputs_of(
    hash_comm: nat,
    comm: nat,
    beta: nat,
    lambda: nat,
    s_1: nat,
    s_2: nat,
) -> Seq<nat> {
    seq![hash_comm, comm] + limbs_of(beta) + limbs_of(lambda) + limbs_of(
        challenge_product(beta, lambda),
    ) + limbs_of(joined_answer(s_1, s_2, lambda))
}

/// The product of the two challenges and the two answers joined by the second.
pub fn joined_scalars(proof: &ZKPartProof, beta: &RistrettoScalar, lambda: &RistrettoScalar) -> (r: (
    RistrettoScalar,
    RistrettoScalar,
))
    ensures
        r.0.value() == challenge_product(beta.value(), lambda.value()),
        r.1.value() == joined_answer(proof.s_1.value(), proof.s_2.value(), lambda.value()),
{
    let beta_lambda = beta.mul(lambda);
    let _ = proof.s_1.as_bytes();
    let joined = proof.s_1.add(&proof.s_2.mul(lambda));
    proof {
        let m = ristretto_order() as int;
        lemma_add_mod_noop(
            proof.s_1.value() as int,
            (proof.s_2.value() * lambda.value()) as int,
            m,
        );
        lemma_small_mod(proof.s_1.value(), ristretto_order());
        assert(proof.s_2.value() * lambda.value() == lambda.value() * proof.s_2.value())
            by (nonlinear_arith);
    }
    (beta_lambda, joined)
}

/// The public inputs that the proof for the constraint system is checked
/// against, in their order.
pub fn verify_eq_committed_vals(
    hash_comm: BLSScalar,
    proof_zk_part: &ZKPartProof,
    beta: &RistrettoScalar,
    lambda: &RistrettoScalar,
) -> (online_inputs: Vec<BLSScalar>)
    ensures
        online_inputs@.len() == NUM_OF_ONLINE_INPUTS,
        values_of(online_inputs@) == online_inputs_of(
            hash_comm.value(),
            proof_zk_part.non_zk_part_state_commitment.value(),
            beta.value(),
            lambda.value(),
            proof_zk_part.s_1.value(),
            proof_zk_part.s_2.value(),
        ),
{
    let mut online_inputs: Vec<BLSScalar> = Vec::new();
    online_inputs.push(hash_comm);
    online_inputs.push(proof_zk_part.non_zk_part_state_commitment);
    let beta_sim_fr = sim_fr_of_scalar(beta);
    let lambda_sim_fr = sim_fr_of_scalar(lambda);
    let (beta_lambda, s1_plus_lambda_s2) = joined_scalars(proof_zk_part, beta, lambda);
    let beta_lambda_sim_fr = sim_fr_of_scalar(&beta_lambda);
    let s1_plus_lambda_s2_sim_fr = sim_fr_of_scalar(&s1_plus_lambda_s2);
    extend_with_limbs(&mut online_inputs, &beta_sim_fr);
    extend_with_limbs(&mut online_inputs, &lambda_sim_fr);
    extend_with_limbs(&mut online_inputs, &beta_lambda_sim_fr);
    extend_with_limbs(&mut online_inputs, &s1_plus_lambda_s2_sim_fr);
    proof {
        assert(values_of(online_inputs@) =~= online_inputs_of(
            hash_comm.value(),
            proof_zk_part.non_zk_part_state_commitment.value(),
            beta.value(),
            lambda.value(),
            proof_zk_part.s_1.value(),
            proof_zk_part.s_2.value(),
        ));
    }
    online_inputs
}

/// Puts the limbs of `element` at the end of `list`.
fn extend_with_limbs(list: &mut Vec<BLSScalar>, element: &SimFr)
    ensures
        final(list)@.len() == old(list)@.len() + NUM_OF_LIMBS,
        values_of(final(list)@) == values_of(old(list)@) + element.limb_values(),
{
    let mut i: usize = 0;
    while i < NUM_OF_LIMBS
        invariant
            i <= NUM_OF_LIMBS,
            list@.len() == old(list)@.len() + i,
            values_of(list@) == values_of(old(list)@) + element.limb_values().take(i as int),
        decreases NUM_OF_LIMBS - i,
    {
        let ghost before = list@;
        list.push(element.limbs[i]);
        proof {
            assert(values_of(list@) =~= values_of(before).push(element.limb_values()[i as int]));
            assert(element.limb_values().take(i + 1) =~= element.limb_values().take(i as int).push(
                element.limb_values()[i as int],
            ));
            assert(values_of(list@) =~= values_of(old(list)@) + element.limb_values().take(i + 1));
        }
        i += 1;
    }
    proof {
        assert(element.limb_values().take(NUM_OF_LIMBS as int) =~= element.limb_values());
    }
}

/// The encoding of the generator for values in common use.
pub open spec fn value_generator() -> Seq<u8> {
    ristretto_base_encoding()
}

/// The encoding of the generator for blinding scalars in common use.
pub open spec fn blinding_generator() -> Seq<u8> {
    ristretto_hash_sha3(ristretto_base_encoding())
}

/// Whether the commitments of a record decompress to points; what is in the
/// clear needs no decompressing.
pub open spec fn record_decodes(bar: BlindAssetRecord) -> bool {
    &&& match bar.amount {
        XfrAmount::Confidential((low, high)) => ristretto_is_point(low.0@) && ristretto_is_point(
            high.0@,
        ),
        XfrAmount::NonConfidential(_) => true,
    }
    &&& match bar.asset_type {
        XfrAssetType::Confidential(a) => ristretto_is_point(a.0@),
        XfrAssetType::NonConfidential(_) => true,
    }
}

/// The encoding of the commitment to the amount of a record: the commitment
/// to the lower half and `2^32` times the commitment to the upper half. An
/// amount in the clear is committed to with the blinding scalar zero.
pub open spec fn amount_commitment(amount: XfrAmount) -> Seq<u8> {
    let (low, high) = match amount {
        XfrAmount::Confidential((low, high)) => (low.0@, high.0@),
        XfrAmount::NonConfidential(a) => (
            commitment(value_generator(), blinding_generator(), (a % 0x1_0000_0000) as nat, 0),
            commitment(value_generator(), blinding_generator(), (a / 0x1_0000_0000) as nat, 0),
        ),
    };
    ristretto_sum(low, ristretto_multiple(high, 0x1_0000_0000))
}

/// The encoding of the commitment to the asset type of a record. An asset type
/// in the clear is committed to with the blinding scalar zero.
pub open spec fn asset_type_commitment(asset_type: XfrAssetType) -> Seq<u8> {
    match asset_type {
        XfrAssetType::Confidential(a) => a.0@,
        XfrAssetType::NonConfidential(a) => commitment(
            value_generator(),
            blinding_generator(),
            a.value(),
            0,
        ),
    }
}

/// The two halves of 32 bits of an amount, the lower first.
pub fn u64_to_u32_pair(x: u64) -> (r: (u32, u32))
    ensures
        r.0 == x % 0x1_0000_0000,
        r.1 == x / 0x1_0000_0000,
{
    ((x % 0x1_0000_0000) as u32, (x / 0x1_0000_0000) as u32)
}

/// The constraint system of a conversion without its witness, and the witness:
/// what the outside proof system makes its proof of.
///
/// The witness satisfies the system with public inputs `online` exactly where
/// the numbers are as a conversion has them and `online` are the public inputs
/// of the conversion.
pub fn prove_eq_committed_vals(
    rescue: RescueInstance,
    amount: BLSScalar,
    asset_type: BLSScalar,
    blind_hash: BLSScalar,
    pubkey_x: BLSScalar,
    proof: &ZKPartProof,
    non_zk_state: &NonZKState,
    beta: &RistrettoScalar,
    lambda: &RistrettoScalar,
) -> (r: (TurboCS, Vec<BLSScalar>))
    ensures
        r.0.wf(),
        r.0.rescue == rescue,
        binds_a_conversion(&r.0),
        forall|online: Seq<nat>|
            #[trigger] r.0.satisfied_by(values_of(r.1@), online) == (conversion_holds(
                rescue,
                conversion_values(
                    amount,
                    asset_type,
                    blind_hash,
                    pubkey_x,
                    *proof,
                    *non_zk_state,
                    *beta,
                    *lambda,
                ),
            ) && online == online_inputs_of(
                abar_commitment_value(
                    rescue,
                    blind_hash.value(),
                    amount.value(),
                    asset_type.value(),
                    pubkey_x.value(),
                ),
                proof.non_zk_part_state_commitment.value(),
                beta.value(),
                lambda.value(),
                proof.s_1.value(),
                proof.s_2.value(),
            )),
{
    let (mut cs, _) = build_bar_to_abar_cs(
        rescue,
        amount,
        asset_type,
        blind_hash,
        pubkey_x,
        proof,
        non_zk_state,
        beta,
        lambda,
    );
    let ghost built = cs;
    let witness = cs.get_and_clear_witness();
    proof {
        let w = values_of(witness@);
        let public = cs.public_vars_witness_indices@;
        let expected = values_at(public, w);
        assert forall|online: Seq<nat>|
            #[trigger] cs.satisfied_by(w, online) == (built.holds() && online
                == expected) by {
            if built.holds() && online == expected {
                assert(cs.satisfied_by(w, online)) by {
                    assert forall|i: int| 0 <= i < online.len() implies w[public[i] as int]
                        == #[trigger] online[i] by {}
                }
            }
            if cs.satisfied_by(w, online) {
                assert(online =~= expected);
            }
        }
        assert forall|any: Seq<nat>, online: Seq<nat>| #[trigger]
            cs.satisfied_by(any, online) && in_field(any) implies exists|o: Opening| #[trigger]
            opens(cs.rescue, online, o) by {
            assert(built.satisfied_by(any, online));
        }
    }
    (cs, witness)
}

/// The prover's side of a conversion, up to the proof of the outside proof
/// system: the anonymous record, the equality proof, and the constraint system
/// with its witness.
///
/// `blind` and `pubkey_x` are the blind of the anonymous record and the first
/// coordinate of its owner's key. Where the asset type is below `2^240`, the
/// witness satisfies the system with the public inputs that the verifier
/// derives from the anonymous record and the equality proof. Where the
/// Ristretto group obeys the group laws, the answers of the equality proof fit
/// the commitments that the owner makes of what it knows, so that the verifier
/// accepts the proof for a record with those commitments.
pub fn bar_to_abar(
    rescue: RescueInstance,
    randomizers: &Randomizers,
    obar: &OpenAssetRecord,
    blind: BLSScalar,
    pubkey_x: BLSScalar,
) -> (r: (AnonBlindAssetRecord, ZKPartProof, TurboCS, Vec<BLSScalar>))
    ensures
        r.0.commitment.value() == abar_commitment_value(
            rescue,
            blind.value(),
            obar.amount as nat,
            obar.asset_type.value(),
            pubkey_x.value(),
        ),
        r.2.wf(),
        r.2.rescue == rescue,
        binds_a_conversion(&r.2),
        r.2.satisfied_by(
            values_of(r.3@),
            online_inputs_of(
                r.0.commitment.value(),
                r.1.non_zk_part_state_commitment.value(),
                beta_of(
                    value_generator(),
                    blinding_generator(),
                    prover_amount_commitment(*obar),
                    prover_asset_type_commitment(*obar),
                    r.0.commitment,
                    r.1,
                ),
                lambda_of(
                    value_generator(),
                    blinding_generator(),
                    prover_amount_commitment(*obar),
                    prover_asset_type_commitment(*obar),
                    r.0.commitment,
                    r.1,
                ),
                r.1.s_1.value(),
                r.1.s_2.value(),
            ),
        ) == (obar.asset_type.value() < pow2(240)),
        ristretto_acts() ==> answers_fit(
            value_generator(),
            blinding_generator(),
            prover_amount_commitment(*obar),
            prover_asset_type_commitment(*obar),
            r.1,
            beta_of(
                value_generator(),
                blinding_generator(),
                prover_amount_commitment(*obar),
                prover_asset_type_commitment(*obar),
                r.0.commitment,
                r.1,
            ),
        ),
{
    let pc_gens = RistrettoPedersenCommitment::default();
    let x = RistrettoScalar::from_u64(obar.amount);
    let y = obar.asset_type;
    let gamma = obar.amount_blinds.0.add(
        &obar.amount_blinds.1.mul(&RistrettoScalar::from_u64(TWO_POW_32)),
    );
    let delta = obar.type_blind;
    let point_p = pc_gens.commit(&x, &gamma);
    let point_q = pc_gens.commit(&y, &delta);
    let x_in_bls12_381 = BLSScalar::from_le_bytes_mod_order(&x.as_bytes());
    let y_in_bls12_381 = BLSScalar::from_le_bytes_mod_order(&y.as_bytes());
    let z = abar_commitment(&rescue, &blind, &x_in_bls12_381, &y_in_bls12_381, &pubkey_x);
    let (commitment_eq_proof, non_zk_state, beta, lambda) = prove_delegated_chaum_pedersen(
        &rescue,
        randomizers,
        &x,
        &gamma,
        &y,
        &delta,
        &pc_gens,
        &point_p,
        &point_q,
        &z,
    );
    proof {
        lemma_small_mod(obar.amount as nat, ristretto_order());
        lemma_small_mod(0x1_0000_0000nat, ristretto_order());
        lemma_small_mod(x.value(), bls_scalar_order());
        lemma_small_mod(y.value(), bls_scalar_order());
        crate::bar_to_abar_cs::lemma_weights();
        let v = conversion_values(
            x_in_bls12_381,
            y_in_bls12_381,
            blind,
            pubkey_x,
            commitment_eq_proof,
            non_zk_state,
            beta,
            lambda,
        );
        assert(x.value() == obar.amount);
        assert(v.x == obar.amount);
        assert(v.x < pow2(64));
        assert(v.amount == v.x);
        assert(v.asset_type == v.y);
        assert(gamma.value() == (obar.amount_blinds.0.value() + (obar.amount_blinds.1.value()
            * 0x1_0000_0000) % ristretto_order()) % ristretto_order());
        assert(point_p.encoding() == prover_amount_commitment(*obar));
        assert(point_q.encoding() == prover_asset_type_commitment(*obar));
        lemma_honest_conversion(rescue, v);
    }
    let _ = pc_gens.B.compress();
    let _ = pc_gens.B_blinding.compress();
    let _ = x.as_bytes();
    let _ = y.as_bytes();
    let _ = gamma.as_bytes();
    let _ = delta.as_bytes();
    let _ = beta.as_bytes();
    let _ = randomizers.a.as_bytes();
    let _ = randomizers.b.as_bytes();
    let _ = randomizers.c.as_bytes();
    let _ = randomizers.d.as_bytes();
    proof {
        if ristretto_acts() {
            lemma_honest_answers_fit(
                value_generator(),
                blinding_generator(),
                x.value(),
                gamma.value(),
                y.value(),
                delta.value(),
                *randomizers,
                commitment_eq_proof,
                beta.value(),
            );
        }
    }
    let _ = commitment_eq_proof.non_zk_part_state_commitment.as_bytes();
    let (cs, witness) = prove_eq_committed_vals(
        rescue,
        x_in_bls12_381,
        y_in_bls12_381,
        blind,
        pubkey_x,
        &commitment_eq_proof,
        &non_zk_state,
        &beta,
        &lambda,
    );
    (AnonBlindAssetRecord { commitment: z }, commitment_eq_proof, cs, witness)
}

/// Where the commitment of the equality proof and its answers are as the
/// prover makes them, and the amount and asset type are the prover's two
/// values, the numbers are as a conversion has them as soon as the two values
/// are small enough.
pub proof fn lemma_honest_conversion(rescue: RescueInstance, v: ConversionValues)
    requires
        v.comm == state_commitment_value(rescue, state_limbs(v.x, v.y, v.a, v.b), v.r),
        sigma_remainder(v.beta, v.lambda, v.x, v.y, v.a, v.b, v.s_1, v.s_2) % (
        ristretto_order() as int) == 0,
        v.amount == v.x,
        v.asset_type == v.y,
    ensures
        conversion_holds(rescue, v) == (v.x < pow2(64) && v.y < pow2(240)),
{
}

/// The encoding of the commitment to the amount that the owner of a record
/// makes of what it knows: the amount, with the blinding scalar of the lower
/// half and `2^32` times that of the upper half.
pub open spec fn prover_amount_commitment(obar: OpenAssetRecord) -> Seq<u8> {
    commitment(
        value_generator(),
        blinding_generator(),
        obar.amount as nat,
        (obar.amount_blinds.0.value() + (obar.amount_blinds.1.value() * 0x1_0000_0000)
            % ristretto_order()) % ristretto_order(),
    )
}

/// The encoding of the commitment to the asset type that the owner of a record
/// makes of what it knows.
pub open spec fn prover_asset_type_commitment(obar: OpenAssetRecord) -> Seq<u8> {
    commitment(
        value_generator(),
        blinding_generator(),
        obar.asset_type.value(),
        obar.type_blind.value(),
    )
}

/// Whether a record is made of what its owner knows of it: a committed half of
/// the amount is the commitment to that half with its blinding scalar, a
/// committed asset type the commitment to the asset type with its blinding
/// scalar, and what is in the clear is the owner's value, with the blinding
/// scalar zero. The blinding scalars are below the order of the group.
pub open spec fn record_is_opened(obar: OpenAssetRecord) -> bool {
    &&& obar.amount_blinds.0.value() < ristretto_order()
    &&& obar.amount_blinds.1.value() < ristretto_order()
    &&& obar.type_blind.value() < ristretto_order()
    &&& obar.asset_type.value() < ristretto_order()
    &&& match obar.blind_asset_record.amount {
        XfrAmount::Confidential((low, high)) => low.0@ == commitment(
            value_generator(),
            blinding_generator(),
            (obar.amount % 0x1_0000_0000) as nat,
            obar.amount_blinds.0.value(),
        ) && high.0@ == commitment(
            value_generator(),
            blinding_generator(),
            (obar.amount / 0x1_0000_0000) as nat,
            obar.amount_blinds.1.value(),
        ),
        XfrAmount::NonConfidential(a) => a == obar.amount && obar.amount_blinds.0.value() == 0
            && obar.amount_blinds.1.value() == 0,
    }
    &&& match obar.blind_asset_record.asset_type {
        XfrAssetType::Confidential(c) => c.0@ == commitment(
            value_generator(),
            blinding_generator(),
            obar.asset_type.value(),
            obar.type_blind.value(),
        ),
        XfrAssetType::NonConfidential(a) => a.value() == obar.asset_type.value()
            && obar.type_blind.value() == 0,
    }
}

/// The verifier reads from a record the commitments that its owner makes of
/// what it knows: where the Ristretto group obeys the group laws and the
/// record is made of what its owner knows, the commitments of the record
/// decompress, the commitment to the lower half of the amount and `2^32` times
/// the commitment to the upper half are the owner's commitment to the amount,
/// and the commitment to the asset type is the owner's.
pub proof fn lemma_record_commitments(obar: OpenAssetRecord)
    requires
        ristretto_acts(),
        ristretto_is_point(value_generator()),
        ristretto_is_point(blinding_generator()),
        record_is_opened(obar),
    ensures
        record_decodes(obar.blind_asset_record),
        amount_commitment(obar.blind_asset_record.amount) == prover_amount_commitment(obar),
        asset_type_commitment(obar.blind_asset_record.asset_type) == prover_asset_type_commitment(
            obar,
        ),
{
    let g = value_generator();
    let h = blinding_generator();
    let m = ristretto_order();
    let low = (obar.amount % 0x1_0000_0000) as nat;
    let high = (obar.amount / 0x1_0000_0000) as nat;
    let b0 = obar.amount_blinds.0.value();
    let b1 = obar.amount_blinds.1.value();
    let k = 0x1_0000_0000nat;
    lemma_answer_combines::<RistrettoScalar, RistrettoPoint>(g, h, k, high, b1, low, b0);
    lemma_commitment_is_point(low, b0);
    lemma_commitment_is_point(high, b1);
    lemma_commitment_is_point(obar.asset_type.value(), obar.type_blind.value());
    lemma_commitment_is_point(low, 0);
    lemma_commitment_is_point(high, 0);
    lemma_commitment_is_point(obar.asset_type.value(), 0);
    let c_low = commitment(g, h, low, b0);
    let c_high = commitment(g, h, high, b1);
    lemma_multiple_element::<RistrettoScalar, RistrettoPoint>(c_high, k);
    lemma_sum_commutes::<RistrettoScalar, RistrettoPoint>(c_low, ristretto_multiple(c_high, k));
    assert(k * high + low == obar.amount) by (nonlinear_arith)
        requires
            low == obar.amount % 0x1_0000_0000,
            high == obar.amount / 0x1_0000_0000,
            k == 0x1_0000_0000,
    ;
    lemma_small_mod(obar.amount as nat, m);
    assert((k * b1 + b0) % m == (b0 + (b1 * 0x1_0000_0000) % m) % m) by {
        lemma_add_mod_noop(b0 as int, (b1 * 0x1_0000_0000) as int, m as int);
        lemma_small_mod(b0, m);
        assert(k * b1 == b1 * 0x1_0000_0000) by (nonlinear_arith)
            requires
                k == 0x1_0000_0000,
        ;
    }
    assert(ristretto_sum(c_low, ristretto_multiple(c_high, k)) == prover_amount_commitment(obar));
}

/// Under the group laws a commitment is a point.
proof fn lemma_commitment_is_point(value: nat, blinding: nat)
    requires
        ristretto_acts(),
        ristretto_is_point(value_generator()),
        ristretto_is_point(blinding_generator()),
        value < ristretto_order(),
        blinding < ristretto_order(),
    ensures
        ristretto_is_point(commitment(value_generator(), blinding_generator(), value, blinding)),
{
    lemma_multiple_element::<RistrettoScalar, RistrettoPoint>(value_generator(), value);
    lemma_multiple_element::<RistrettoScalar, RistrettoPoint>(blinding_generator(), blinding);
    lemma_sum_element::<RistrettoScalar, RistrettoPoint>(
        ristretto_multiple(value_generator(), value),
        ristretto_multiple(blinding_generator(), blinding),
    );
}

/// Whether the verifier accepts a conversion, up to the check of the outside
/// proof system: the commitments of the record decompress, and the answers of
/// the equality proof fit them under the first challenge.
pub open spec fn accepts(
    bar: BlindAssetRecord,
    abar: AnonBlindAssetRecord,
    proof: ZKPartProof,
) -> bool {
    record_decodes(bar) && answers_fit(
        value_generator(),
        blinding_generator(),
        amount_commitment(bar.amount),
        asset_type_commitment(bar.asset_type),
        proof,
        beta_of(
            value_generator(),
            blinding_generator(),
            amount_commitment(bar.amount),
            asset_type_commitment(bar.asset_type),
            abar.commitment,
            proof,
        ),
    )
}

/// What the owner of a record makes of it is accepted for the record: where
/// the Ristretto group obeys the group laws, the record is made of what its
/// owner knows, and the answers of the equality proof fit the commitments that
/// the owner makes of it, as they do for the proof that `bar_to_abar` makes,
/// the verifier accepts the conversion.
pub proof fn lemma_accepted_for_the_record(
    obar: OpenAssetRecord,
    abar: AnonBlindAssetRecord,
    proof: ZKPartProof,
)
    requires
        ristretto_acts(),
        ristretto_is_point(value_generator()),
        ristretto_is_point(blinding_generator()),
        record_is_opened(obar),
        answers_fit(
            value_generator(),
            blinding_generator(),
            prover_amount_commitment(obar),
            prover_asset_type_commitment(obar),
            proof,
            beta_of(
                value_generator(),
                blinding_generator(),
                prover_amount_commitment(obar),
                prover_asset_type_commitment(obar),
                abar.commitment,
                proof,
            ),
        ),
    ensures
        accepts(obar.blind_asset_record, abar, proof),
{
    lemma_record_commitments(obar);
}

/// The verifier's side of a conversion, up to the check of the outside proof
/// system: the commitments of the record are decompressed, or made of what is
/// in the clear, the equality proof is checked against them and the anonymous
/// record, and the public inputs of the constraint system are handed out.
///
/// A commitment that does not decompress is refused with
/// `DecompressElementError`, an equality proof whose answers do not fit with
/// `ZKProofVerificationError`.
pub fn verify_bar_to_abar(
    bar: &BlindAssetRecord,
    abar: &AnonBlindAssetRecord,
    proof: &ZKPartProof,
) -> (r: Result<Vec<BLSScalar>, ZeiError>)
    ensures
        r is Ok <==> accepts(*bar, *abar, *proof),
        r is Err ==> r->Err_0 == (if record_decodes(*bar) {
            ZeiError::ZKProofVerificationError
        } else {
            ZeiError::DecompressElementError
        }),
        r is Ok ==> values_of(r->Ok_0@) == online_inputs_of(
            abar.commitment.value(),
            proof.non_zk_part_state_commitment.value(),
            beta_of(
                value_generator(),
                blinding_generator(),
                amount_commitment(bar.amount),
                asset_type_commitment(bar.asset_type),
                abar.commitment,
                *proof,
            ),
            lambda_of(
                value_generator(),
                blinding_generator(),
                amount_commitment(bar.amount),
                asset_type_commitment(bar.asset_type),
                abar.commitment,
                *proof,
            ),
            proof.s_1.value(),
            proof.s_2.value(),
        ),
{
    let pc_gens = RistrettoPedersenCommitment::default();
    let zero = RistrettoScalar::zero();
    let (com_low, com_high) = match bar.amount {
        XfrAmount::Confidential((low, high)) => {
            let low_point = match low.decompress() {
                Some(p) => p,
                None => {
                    assert(!record_decodes(*bar));
                    return Err(ZeiError::DecompressElementError);
                },
            };
            let high_point = match high.decompress() {
                Some(p) => p,
                None => {
                    assert(!record_decodes(*bar));
                    return Err(ZeiError::DecompressElementError);
                },
            };
            (low_point, high_point)
        },
        XfrAmount::NonConfidential(amount) => {
            let (l, h) = u64_to_u32_pair(amount);
            proof {
                lemma_small_mod(l as nat, ristretto_order());
                lemma_small_mod(h as nat, ristretto_order());
            }
            (
                pc_gens.commit(&RistrettoScalar::from_u32(l), &zero),
                pc_gens.commit(&RistrettoScalar::from_u32(h), &zero),
            )
        },
    };
    proof {
        lemma_small_mod(0x1_0000_0000nat, ristretto_order());
    }
    let com_amount = com_low.add(&com_high.mul(&RistrettoScalar::from_u64(TWO_POW_32)));
    proof {
        assert(com_amount.encoding() == amount_commitment(bar.amount));
    }
    let com_asset_type = match bar.asset_type {
        XfrAssetType::Confidential(a) => match a.decompress() {
            Some(p) => p,
            None => {
                assert(!record_decodes(*bar));
                return Err(ZeiError::DecompressElementError);
            },
        },
        XfrAssetType::NonConfidential(a) => pc_gens.commit(&a, &zero),
    };
    proof {
        assert(com_asset_type.encoding() == asset_type_commitment(bar.asset_type));
        assert(record_decodes(*bar));
    }
    let (beta, lambda) = match verify_delegated_chaum_pedersen(
        &pc_gens,
        &com_amount,
        &com_asset_type,
        &abar.commitment,
        proof,
    ) {
        Ok(challenges) => challenges,
        Err(_) => {
            return Err(ZeiError::ZKProofVerificationError);
        },
    };
    Ok(verify_eq_committed_vals(abar.commitment, proof, &beta, &lambda))
}

/// A conversion put together of its parts.
pub fn gen_bar_to_abar_body(
    record: &OpenAssetRecord,
    output: AnonBlindAssetRecord,
    proof: ConvertBarAbarProof,
    memo: OwnerMemo,
) -> (body: BarToAbarBody)
    ensures
        body == (BarToAbarBody { input: record.blind_asset_record, output, proof, memo }),
{
    BarToAbarBody { input: record.blind_asset_record, output, proof, memo }
}

/// The verifier's side of a conversion, as `verify_bar_to_abar` has it. That
/// the owner of the record has signed the conversion is not checked here.
pub fn verify_bar_to_abar_body(body: &BarToAbarBody) -> (r: Result<Vec<BLSScalar>, ZeiError>)
    ensures
        r is Ok <==> accepts(body.input, body.output, body.proof.commitment_eq_proof),
        r is Err ==> r->Err_0 == (if record_decodes(body.input) {
            ZeiError::ZKProofVerificationError
        } else {
            ZeiError::DecompressElementError
        }),
        r is Ok ==> values_of(r->Ok_0@) == online_inputs_of(
            body.output.commitment.value(),
            body.proof.commitment_eq_proof.non_zk_part_state_commitment.value(),
            beta_of(
                value_generator(),
                blinding_generator(),
                amount_commitment(body.input.amount),
                asset_type_commitment(body.input.asset_type),
                body.output.commitment,
                body.proof.commitment_eq_proof,
            ),
            lambda_of(
                value_generator(),
                blinding_generator(),
                amount_commitment(body.input.amount),
                asset_type_commitment(body.input.asset_type),
                body.output.commitment,
                body.proof.commitment_eq_proof,
            ),
            body.proof.commitment_eq_proof.s_1.value(),
            body.proof.commitment_eq_proof.s_2.value(),
        ),
{
    verify_bar_to_abar(&body.input, &body.output, &body.proof.commitment_eq_proof)
}

} // verus!

//! The constraint system of a conversion. It holds of its witness where the
//! amount is below `2^64` and the asset type below `2^240`, the commitment of
//! the equality proof opens to the limbs of the two values and of the two
//! randomizers, the two answers of the equality proof are related as the
//! protocol has them, and the amount and asset type that go into the
//! commitment of the anonymous record are the two values.
//!
//! The system asks no less of any other assignment: whatever values satisfy
//! it, with whatever public inputs, hold an amount and an asset type of those
//! sizes that both commitments among the inputs commit to, and for which the
//! relation between the answers holds with the challenges among the inputs.

use vstd::prelude::*;
use vstd::arithmetic::div_mod::lemma_small_mod;
use vstd::arithmetic::power2::pow2;
use crate::bigint::big_shl;
use crate::bls12_381::{bls_scalar_order, BLSScalar};
use crate::bytes::le_value;
use crate::confidential_to_anonymous::{
    challenge_product, joined_answer, joined_scalars, online_inputs_of, NUM_OF_ONLINE_INPUTS,
};
use crate::delegated_chaum_pedersen::{sigma_remainder, NonZKState, ZKPartProof};
use crate::field_simulation::{
    lemma_limbs_round_trip, lemma_number_is_its_digits, lemma_pow2_values, lemma_values_padded,
    limb_radix, limbs_of, limbs_value, sim_fr_of_scalar, BIT_PER_LIMB, NUM_OF_LIMBS,
};
use crate::groups::Scalar;
use crate::radix::{digit_of, ints_of_nat, lemma_radix_value_bound, radix_value};
use crate::rescue::RescueInstance;
use crate::rescue_commitment::{
    abar_commitment_value, limb_group, packed_group, state_commitment_value, state_limbs,
};
use crate::ristretto::{ristretto_order, RistrettoScalar};

use crate::sim_fr_var::{lemma_normal_at, lemma_product_grown, SimFrVar};
use crate::turbo_cs::{
    in_field, is_power_of_two, lemma_admitted_before, lemma_admitted_zero, lemma_grown_twice,
    lemma_least_power, values_at, TurboCS, VarIndex,
};

verus! {

/// The number of gates of the constraint system of a conversion, whatever is
/// converted: 290 gates, filled up to the next power of two.
pub const CONVERSION_GATES: usize = 512;

/// The number of variables of the constraint system of a conversion, whatever
/// is converted.
pub const CONVERSION_VARS: usize = 294;

/// The variables that stand for what a conversion is about.
#[derive(Clone, Copy, Debug, PartialEq, Eq)]
pub struct ConversionVars {
    /// The amount that goes into the commitment of the anonymous record.
    pub amount: VarIndex,
    /// The asset type that goes into it.
    pub asset_type: VarIndex,
    /// The blind that goes into it.
    pub blind_hash: VarIndex,
    /// The first coordinate of the owner's key, which goes into it.
    pub pubkey_x: VarIndex,
    /// The first value of the equality proof.
    pub x: SimFrVar,
    /// The second value.
    pub y: SimFrVar,
    /// The randomizer of the first value.
    pub a: SimFrVar,
    /// The randomizer of the second value.
    pub b: SimFrVar,
    /// The commitment of the equality proof.
    pub comm: VarIndex,
    /// The blind of that commitment.
    pub r: VarIndex,
    /// The first challenge.
    pub beta: SimFrVar,
    /// The second challenge.
    pub lambda: SimFrVar,
    /// The product of the challenges.
    pub beta_lambda: SimFrVar,
    /// The two answers joined by the second challenge.
    pub s: SimFrVar,
}

/// The numbers that a conversion is about.
pub struct ConversionValues {
    /// The amount that goes into the commitment of the anonymous record.
    pub amount: nat,
    /// The asset type that goes into it.
    pub asset_type: nat,
    /// The blind that goes into it.
    pub blind_hash: nat,
    /// The first coordinate of the owner's key, which goes into it.
    pub pubkey_x: nat,
    /// The first value of the equality proof.
    pub x: nat,
    /// The second value.
    pub y: nat,
    /// The randomizer of the first value.
    pub a: nat,
    /// The randomizer of the second value.
    pub b: nat,
    /// The commitment of the equality proof.
    pub comm: nat,
    /// The blind of that commitment.
    pub r: nat,
    /// The first challenge.
    pub beta: nat,
    /// The second challenge.
    pub lambda: nat,
    /// The first answer.
    pub s_1: nat,
    /// The second answer.
    pub s_2: nat,
}

/// The numbers that the inputs of a conversion's constraint system stand for.
pub open spec fn conversion_values(
    amount: BLSScalar,
    asset_type: BLSScalar,
    blind_hash: BLSScalar,
    pubkey_x: BLSScalar,
    proof: ZKPartProof,
    non_zk_state: NonZKState,
    beta: RistrettoScalar,
    lambda: RistrettoScalar,
) -> ConversionValues {
    ConversionValues {
        amount: amount.value(),
        asset_type: asset_type.value(),
        blind_hash: blind_hash.value(),
        pubkey_x: pubkey_x.value(),
        x: non_zk_state.x.value(),
        y: non_zk_state.y.value(),
        a: non_zk_state.a.value(),
        b: non_zk_state.b.value(),
        comm: proof.non_zk_part_state_commitment.value(),
        r: non_zk_state.r.value(),
        beta: beta.value(),
        lambda: lambda.value(),
        s_1: proof.s_1.value(),
        s_2: proof.s_2.value(),
    }
}

/// Whether every scalar among the numbers is below the order of the Ristretto
/// group and every field element below the order of the field.
pub open spec fn in_range(v: ConversionValues) -> bool {
    &&& v.amount < bls_scalar_order()
    &&& v.asset_type < bls_scalar_order()
    &&& v.blind_hash < bls_scalar_order()
    &&& v.pubkey_x < bls_scalar_order()
    &&& v.comm < bls_scalar_order()
    &&& v.r < bls_scalar_order()
    &&& v.x < ristretto_order()
    &&& v.y < ristretto_order()
    &&& v.a < ristretto_order()
    &&& v.b < ristretto_order()
    &&& v.beta < ristretto_order()
    &&& v.lambda < ristretto_order()
    &&& v.s_1 < ristretto_order()
    &&& v.s_2 < ristretto_order()
}

/// What the constraint system of a conversion asks of the numbers.
pub open spec fn conversion_holds(rescue: RescueInstance, v: ConversionValues) -> bool {
    &&& v.x < pow2(64)
    &&& v.y < pow2(240)
    &&& v.comm == state_commitment_value(rescue, state_limbs(v.x, v.y, v.a, v.b), v.r)
    &&& sigma_remainder(v.beta, v.lambda, v.x, v.y, v.a, v.b, v.s_1, v.s_2) % (
    ristretto_order() as int) == 0
    &&& v.amount == v.x
    &&& v.asset_type == v.y
}

/// Whether the variables of `element` hold the limbs of the number `n`.
pub open spec fn element_is(cs: &TurboCS, element: SimFrVar, n: nat) -> bool {
    &&& element.num_of_additions_over_normal_form == 0
    &&& forall|i: int| 0 <= i < NUM_OF_LIMBS ==> (#[trigger] element.var@[i]) < cs.num_vars
    &&& forall|i: int|
        0 <= i < NUM_OF_LIMBS ==> cs.value(#[trigger] element.var@[i]) == limbs_of(n)[i]
}

/// Whether the variables hold the numbers.
pub open spec fn vars_are(cs: &TurboCS, vars: ConversionVars, v: ConversionValues) -> bool {
    &&& vars.amount < cs.num_vars && cs.value(vars.amount) == v.amount
    &&& vars.asset_type < cs.num_vars && cs.value(vars.asset_type) == v.asset_type
    &&& vars.blind_hash < cs.num_vars && cs.value(vars.blind_hash) == v.blind_hash
    &&& vars.pubkey_x < cs.num_vars && cs.value(vars.pubkey_x) == v.pubkey_x
    &&& vars.comm < cs.num_vars && cs.value(vars.comm) == v.comm
    &&& vars.r < cs.num_vars && cs.value(vars.r) == v.r
    &&& element_is(cs, vars.x, v.x)
    &&& element_is(cs, vars.y, v.y)
    &&& element_is(cs, vars.a, v.a)
    &&& element_is(cs, vars.b, v.b)
    &&& element_is(cs, vars.beta, v.beta)
    &&& element_is(cs, vars.lambda, v.lambda)
    &&& element_is(cs, vars.beta_lambda, challenge_product(v.beta, v.lambda))
    &&& element_is(cs, vars.s, joined_answer(v.s_1, v.s_2, v.lambda))
}

/// Variables keep their numbers where the system grows.
pub proof fn lemma_element_kept(before: &TurboCS, after: &TurboCS, element: SimFrVar, n: nat)
    requires
        before.grown_into(after),
        element_is(before, element, n),
    ensures
        element_is(after, element, n),
{
    assert forall|i: int| 0 <= i < NUM_OF_LIMBS implies after.value(#[trigger] element.var@[i])
        == limbs_of(n)[i] by {
        assert(after.witness@[element.var@[i] as int] == before.witness@[element.var@[i] as int]);
        assert(before.value(element.var@[i]) == limbs_of(n)[i]);
    }
}

/// The variables keep their numbers where the system grows.
pub proof fn lemma_vars_kept(
    before: &TurboCS,
    after: &TurboCS,
    vars: ConversionVars,
    v: ConversionValues,
)
    requires
        before.grown_into(after),
        vars_are(before, vars, v),
    ensures
        vars_are(after, vars, v),
{
    lemma_element_kept(before, after, vars.x, v.x);
    lemma_element_kept(before, after, vars.y, v.y);
    lemma_element_kept(before, after, vars.a, v.a);
    lemma_element_kept(before, after, vars.b, v.b);
    lemma_element_kept(before, after, vars.beta, v.beta);
    lemma_element_kept(before, after, vars.lambda, v.lambda);
    lemma_element_kept(before, after, vars.beta_lambda, challenge_product(v.beta, v.lambda));
    lemma_element_kept(before, after, vars.s, joined_answer(v.s_1, v.s_2, v.lambda));
    assert(after.witness@[vars.amount as int] == before.witness@[vars.amount as int]);
    assert(after.witness@[vars.asset_type as int] == before.witness@[vars.asset_type as int]);
    assert(after.witness@[vars.blind_hash as int] == before.witness@[vars.blind_hash as int]);
    assert(after.witness@[vars.pubkey_x as int] == before.witness@[vars.pubkey_x as int]);
    assert(after.witness@[vars.comm as int] == before.witness@[vars.comm as int]);
    assert(after.witness@[vars.r as int] == before.witness@[vars.r as int]);
}

/// Variables that hold the limbs of a number below `2^258` are a simulated
/// element in normal form that stands for the number.
pub proof fn lemma_element_stands(cs: &TurboCS, element: SimFrVar, n: nat)
    requires
        element_is(cs, element, n),
        n < pow2(258),
    ensures
        element.wf(cs),
        element.int_value(cs) == n,
        element.limbs(cs) == ints_of_nat(limbs_of(n)),
{
    lemma_pow2_values();
    assert forall|i: int| 0 <= i < NUM_OF_LIMBS implies (#[trigger] element.limbs(cs)[i])
        == limbs_of(n)[i] && 0 <= element.limbs(cs)[i] < limb_radix() by {
        assert(cs.value(element.var@[i]) == limbs_of(n)[i]);
        assert(limbs_of(n)[i] == digit_of(n, limb_radix(), i as nat));
        lemma_digit_below(n, limb_radix(), i as nat);
    }
    assert(element.limbs(cs) =~= ints_of_nat(limbs_of(n)));
    lemma_number_is_its_digits(n, limb_radix(), NUM_OF_LIMBS as nat);
    assert(ints_of_nat(limbs_of(n)) =~= Seq::new(
        NUM_OF_LIMBS as nat,
        |i: int| digit_of(n, limb_radix(), i as nat) as int,
    ));
}

/// A digit is below the radix.
pub proof fn lemma_digit_below(n: nat, radix: nat, i: nat)
    requires
        radix > 0,
    ensures
        digit_of(n, radix, i) < radix,
    decreases i,
{
    if i > 0 {
        lemma_digit_below(n / radix, radix, (i - 1) as nat);
    } else {
        assert(n % radix < radix) by (nonlinear_arith)
            requires
                radix > 0,
        ;
    }
}

/// Variables for everything that a conversion is about: the amount below
/// `2^64`, the asset type below `2^240`, the other scalars in limbs of 43 bits.
fn allocate(
    cs: &mut TurboCS,
    amount: BLSScalar,
    asset_type: BLSScalar,
    blind_hash: BLSScalar,
    pubkey_x: BLSScalar,
    proof: &ZKPartProof,
    non_zk_state: &NonZKState,
    beta: &RistrettoScalar,
    lambda: &RistrettoScalar,
) -> (vars: ConversionVars)
    requires
        old(cs).assigned(),
        old(cs).has_room(60),
    ensures
        old(cs).grown_into(final(cs)),
        final(cs).num_vars == old(cs).num_vars + 54,
        final(cs).size == old(cs).size + 48,
        vars_are(
            final(cs),
            vars,
            conversion_values(
                amount,
                asset_type,
                blind_hash,
                pubkey_x,
                *proof,
                *non_zk_state,
                *beta,
                *lambda,
            ),
        ),
        in_range(
            conversion_values(
                amount,
                asset_type,
                blind_hash,
                pubkey_x,
                *proof,
                *non_zk_state,
                *beta,
                *lambda,
            ),
        ),
        final(cs).holds() == (old(cs).holds() && non_zk_state.x.value() < pow2(64)
            && non_zk_state.y.value() < pow2(240)),
        forall|w: Seq<nat>| #[trigger] final(cs).admits(w) ==> allocated_at(vars, w),
{
    let ghost v = conversion_values(
        amount,
        asset_type,
        blind_hash,
        pubkey_x,
        *proof,
        *non_zk_state,
        *beta,
        *lambda,
    );
    let _ = amount.as_bytes();
    let _ = asset_type.as_bytes();
    let _ = blind_hash.as_bytes();
    let _ = pubkey_x.as_bytes();
    let _ = proof.non_zk_part_state_commitment.as_bytes();
    let _ = non_zk_state.r.as_bytes();
    let _ = non_zk_state.x.as_bytes();
    let _ = non_zk_state.y.as_bytes();
    let _ = non_zk_state.a.as_bytes();
    let _ = non_zk_state.b.as_bytes();
    let _ = beta.as_bytes();
    let _ = lambda.as_bytes();
    let _ = proof.s_1.as_bytes();
    let _ = proof.s_2.as_bytes();
    let amount_var = cs.new_variable(amount);
    let at_var = cs.new_variable(asset_type);
    let blind_hash_var = cs.new_variable(blind_hash);
    let pubkey_x_var = cs.new_variable(pubkey_x);
    let ghost c1 = *cs;
    let x_sim_fr = sim_fr_of_scalar(&non_zk_state.x);
    let y_sim_fr = sim_fr_of_scalar(&non_zk_state.y);
    let a_sim_fr = sim_fr_of_scalar(&non_zk_state.a);
    let b_sim_fr = sim_fr_of_scalar(&non_zk_state.b);
    let beta_sim_fr = sim_fr_of_scalar(beta);
    let lambda_sim_fr = sim_fr_of_scalar(lambda);
    let (beta_lambda, s1_plus_lambda_s2) = joined_scalars(proof, beta, lambda);
    let beta_lambda_sim_fr = sim_fr_of_scalar(&beta_lambda);
    let s1_plus_lambda_s2_sim_fr = sim_fr_of_scalar(&s1_plus_lambda_s2);
    let x_sim_fr_var = SimFrVar::alloc_witness_bounded_total_bits(cs, &x_sim_fr, 64);
    let ghost c2 = *cs;
    let y_sim_fr_var = SimFrVar::alloc_witness_bounded_total_bits(cs, &y_sim_fr, 240);
    let ghost c3 = *cs;
    let a_sim_fr_var = SimFrVar::alloc_witness(cs, &a_sim_fr);
    let ghost c4 = *cs;
    let b_sim_fr_var = SimFrVar::alloc_witness(cs, &b_sim_fr);
    let ghost c5 = *cs;
    let comm_var = cs.new_variable(proof.non_zk_part_state_commitment);
    let r_var = cs.new_variable(non_zk_state.r);
    let ghost c6 = *cs;
    let beta_sim_fr_var = SimFrVar::alloc_input(cs, &beta_sim_fr);
    let ghost c7 = *cs;
    let lambda_sim_fr_var = SimFrVar::alloc_input(cs, &lambda_sim_fr);
    let ghost c8 = *cs;
    let beta_lambda_sim_fr_var = SimFrVar::alloc_input(cs, &beta_lambda_sim_fr);
    let ghost c9 = *cs;
    let s1_plus_lambda_s2_sim_fr_var = SimFrVar::alloc_input(cs, &s1_plus_lambda_s2_sim_fr);
    let vars = ConversionVars {
        amount: amount_var,
        asset_type: at_var,
        blind_hash: blind_hash_var,
        pubkey_x: pubkey_x_var,
        x: x_sim_fr_var,
        y: y_sim_fr_var,
        a: a_sim_fr_var,
        b: b_sim_fr_var,
        comm: comm_var,
        r: r_var,
        beta: beta_sim_fr_var,
        lambda: lambda_sim_fr_var,
        beta_lambda: beta_lambda_sim_fr_var,
        s: s1_plus_lambda_s2_sim_fr_var,
    };
    proof {
        assert(element_is(&c2, vars.x, v.x));
        assert(element_is(&c3, vars.y, v.y));
        assert(element_is(&c4, vars.a, v.a));
        assert(element_is(&c5, vars.b, v.b));
        assert(element_is(&c7, vars.beta, v.beta));
        assert(element_is(&c8, vars.lambda, v.lambda));
        assert(element_is(&c9, vars.beta_lambda, challenge_product(v.beta, v.lambda)));
        assert(element_is(cs, vars.s, joined_answer(v.s_1, v.s_2, v.lambda)));
        lemma_grown_twice(&c9, cs, cs);
        lemma_grown_twice(&c8, &c9, cs);
        lemma_grown_twice(&c7, &c8, cs);
        lemma_grown_twice(&c6, &c7, cs);
        lemma_grown_twice(&c5, &c6, cs);
        lemma_grown_twice(&c4, &c5, cs);
        lemma_grown_twice(&c3, &c4, cs);
        lemma_grown_twice(&c2, &c3, cs);
        lemma_grown_twice(&c1, &c2, cs);
        lemma_grown_twice(old(cs), &c1, cs);
        lemma_element_kept(&c2, cs, vars.x, v.x);
        lemma_element_kept(&c3, cs, vars.y, v.y);
        lemma_element_kept(&c4, cs, vars.a, v.a);
        lemma_element_kept(&c5, cs, vars.b, v.b);
        lemma_element_kept(&c7, cs, vars.beta, v.beta);
        lemma_element_kept(&c8, cs, vars.lambda, v.lambda);
        lemma_element_kept(&c9, cs, vars.beta_lambda, challenge_product(v.beta, v.lambda));
        assert(cs.witness@[amount_var as int] == c1.witness@[amount_var as int]);
        assert(cs.witness@[at_var as int] == c1.witness@[at_var as int]);
        assert(cs.witness@[blind_hash_var as int] == c1.witness@[blind_hash_var as int]);
        assert(cs.witness@[pubkey_x_var as int] == c1.witness@[pubkey_x_var as int]);
        assert(cs.witness@[comm_var as int] == c6.witness@[comm_var as int]);
        assert(cs.witness@[r_var as int] == c6.witness@[r_var as int]);
        assert forall|w: Seq<nat>| #[trigger] cs.admits(w) implies allocated_at(vars, w) by {
            lemma_admitted_before(&c9, cs, w);
            lemma_admitted_before(&c8, cs, w);
            lemma_admitted_before(&c7, cs, w);
            lemma_admitted_before(&c5, cs, w);
            lemma_admitted_before(&c4, cs, w);
            lemma_admitted_before(&c3, cs, w);
            lemma_admitted_before(&c2, cs, w);
        }
    }
    vars
}

/// Whether, in the assignment `w`, every limb of the simulated elements is
/// below `2^43`, the first value is below `2^64` and the second below `2^240`.
pub open spec fn allocated_at(vars: ConversionVars, w: Seq<nat>) -> bool {
    &&& vars.x.normal_at(w)
    &&& vars.y.normal_at(w)
    &&& vars.a.normal_at(w)
    &&& vars.b.normal_at(w)
    &&& vars.beta.normal_at(w)
    &&& vars.lambda.normal_at(w)
    &&& vars.beta_lambda.normal_at(w)
    &&& vars.s.normal_at(w)
    &&& vars.x.int_value_at(w) < pow2(64)
    &&& vars.y.int_value_at(w) < pow2(240)
}

/// The powers of the radix of the limbs that weigh the limbs of a group.
pub proof fn lemma_weights()
    ensures
        pow2(86) == 77371252455336267181195264,
        pow2(129) == 680564733841876926926749214863536422912,
        pow2(172) == 5986310706507378352962293074805895248510699696029696,
        pow2(215) == 52656145834278593348959013841835216159447547700274555627155488768,
        pow2(64) == 0x10000000000000000,
        pow2(240) == 0x1000000000000000000000000000000000000000000000000000000000000,
{
    lemma_pow2_values();
    vstd::arithmetic::power2::lemma_pow2_adds(43, 43);
    vstd::arithmetic::power2::lemma_pow2_adds(86, 43);
    vstd::arithmetic::power2::lemma_pow2_adds(129, 43);
    vstd::arithmetic::power2::lemma_pow2_adds(172, 43);
    vstd::arithmetic::power2::lemma_pow2_adds(128, 64);
    vstd::arithmetic::power2::lemma_pow2_adds(192, 48);
    vstd::arithmetic::power2::lemma2_to64_rest();
    assert(pow2(86) == 77371252455336267181195264) by (nonlinear_arith)
        requires
            pow2(43) == 8796093022208,
            pow2(86) == pow2(43) * pow2(43),
    ;
    assert(pow2(129) == 680564733841876926926749214863536422912) by (nonlinear_arith)
        requires
            pow2(43) == 8796093022208,
            pow2(86) == 77371252455336267181195264,
            pow2(129) == pow2(86) * pow2(43),
    ;
    assert(pow2(172) == 5986310706507378352962293074805895248510699696029696)
        by (nonlinear_arith)
        requires
            pow2(43) == 8796093022208,
            pow2(129) == 680564733841876926926749214863536422912,
            pow2(172) == pow2(129) * pow2(43),
    ;
    assert(pow2(215) == 52656145834278593348959013841835216159447547700274555627155488768)
        by (nonlinear_arith)
        requires
            pow2(43) == 8796093022208,
            pow2(172) == 5986310706507378352962293074805895248510699696029696,
            pow2(215) == pow2(172) * pow2(43),
    ;
    assert(pow2(192) == 0x1000000000000000000000000000000000000000000000000) by (nonlinear_arith)
        requires
            pow2(64) == 0x10000000000000000,
            pow2(128) == 0x100000000000000000000000000000000,
            pow2(192) == pow2(128) * pow2(64),
    ;
    assert(pow2(240) == 0x1000000000000000000000000000000000000000000000000000000000000)
        by (nonlinear_arith)
        requires
            pow2(48) == 0x1000000000000,
            pow2(192) == 0x1000000000000000000000000000000000000000000000000,
            pow2(240) == pow2(192) * pow2(48),
    ;
}

/// The field element `2^(43 k)`, for `k` up to five.
fn weight(k: usize) -> (r: BLSScalar)
    requires
        k <= 5,
    ensures
        r.value() == pow2((BIT_PER_LIMB * k) as nat),
        r.value() < bls_scalar_order(),
{
    let one: [u8; 1] = [1];
    proof {
        assert(le_value(one@) == 1) by {
            reveal_with_fuel(le_value, 2);
        }
        lemma_weights();
        vstd::arithmetic::power2::lemma2_to64();
        assert(pow2((BIT_PER_LIMB * k) as nat) <= pow2(215)) by {
            crate::turbo_cs::lemma_pow2_grows((BIT_PER_LIMB * k) as nat, 215);
        }
        lemma_small_mod(pow2((BIT_PER_LIMB * k) as nat), bls_scalar_order());
        assert(1 * pow2((BIT_PER_LIMB * k) as nat) == pow2((BIT_PER_LIMB * k) as nat));
    }
    let bytes = big_shl(&one, BIT_PER_LIMB * k);
    BLSScalar::from_le_bytes_mod_order(bytes.as_slice())
}

/// A variable that holds up to six limbs packed into one field element: the
/// first four limbs by one gate, the fifth and sixth by a second. Variable 0
/// stands in for a limb that is not there.
fn pack(cs: &mut TurboCS, limbs: &[VarIndex; 6], count: usize) -> (out: VarIndex)
    requires
        old(cs).assigned(),
        old(cs).has_room(2),
        4 <= count <= 6,
        forall|i: int| 0 <= i < 6 ==> (#[trigger] limbs@[i]) < old(cs).num_vars,
        forall|i: int| 0 <= i < count ==> old(cs).value(#[trigger] limbs@[i]) < limb_radix(),
        forall|i: int| count <= i < 6 ==> (#[trigger] limbs@[i]) == 0,
    ensures
        old(cs).grown_into(final(cs)),
        final(cs).num_vars == old(cs).num_vars + (if count == 4 {
            1int
        } else {
            2int
        }),
        final(cs).size == old(cs).size + (if count == 4 {
            1int
        } else {
            2int
        }),
        out < final(cs).num_vars,
        final(cs).holds() == old(cs).holds(),
        final(cs).value(out) == radix_value(
            ints_of_nat(values_at(limbs@, old(cs).values())),
            limb_radix() as int,
            0,
        ) % (bls_scalar_order() as int),
        forall|w: Seq<nat>| #[trigger]
            final(cs).admits(w) && small_at(limbs@, count as int, w) ==> w[out as int]
                == radix_value(ints_of_nat(values_at(limbs@, w)), limb_radix() as int, 0) % (
            bls_scalar_order() as int),
{
    let zero = BLSScalar::zero();
    let one = BLSScalar::one();
    let step_1 = weight(1);
    let step_2 = weight(2);
    let step_3 = weight(3);
    let step_4 = weight(4);
    let step_5 = weight(5);
    let ghost l = ints_of_nat(values_at(limbs@, old(cs).values()));
    proof {
        lemma_weights();
        lemma_pow2_values();
        reveal_with_fuel(radix_value, 8);
        assert forall|i: int| 0 <= i < 6 implies 0 <= #[trigger] l[i] < limb_radix() by {
            if i >= count {
                assert(limbs@[i] == 0);
            } else {
                assert(old(cs).value(limbs@[i]) < limb_radix());
            }
        }
        assert(forall|i: int| count <= i < 6 ==> l[i] == 0) by {
            assert forall|i: int| count <= i < 6 implies l[i] == 0 by {
                assert(limbs@[i] == 0);
            }
        }
    }
    let first = [limbs[0], limbs[1], limbs[2], limbs[3]];
    let low = cs.linear_combine(&first, one, step_1, step_2, step_3);
    proof {
        let sum = l[0] + 8796093022208 * l[1] + 77371252455336267181195264 * l[2]
            + 680564733841876926926749214863536422912 * l[3];
        let w0 = old(cs).value(first@[0]);
        let w1 = old(cs).value(first@[1]);
        let w2 = old(cs).value(first@[2]);
        let w3 = old(cs).value(first@[3]);
        assert(1 * w0 + step_1.value() * w1 + step_2.value() * w2 + step_3.value() * w3 == sum)
            by (nonlinear_arith)
            requires
                step_1.value() == 8796093022208,
                step_2.value() == 77371252455336267181195264,
                step_3.value() == 680564733841876926926749214863536422912,
                w0 == l[0],
                w1 == l[1],
                w2 == l[2],
                w3 == l[3],
                sum == l[0] + 8796093022208 * l[1] + 77371252455336267181195264 * l[2]
                    + 680564733841876926926749214863536422912 * l[3],
        ;
        lemma_small_mod(sum as nat, bls_scalar_order());
        assert(cs.value(low) == sum);
        lemma_packing(l);
        assert(sum == low_limbs(l));
        if count == 4 {
            assert(l[4] == 0 && l[5] == 0);
            assert(sum == radix_value(l, limb_radix() as int, 0));
        }
        assert forall|w: Seq<nat>| #[trigger]
            cs.admits(w) && small_at(limbs@, count as int, w) implies w[low as int]
            == low_limbs(ints_of_nat(values_at(limbs@, w))) && (count == 4 ==> w[low as int]
            == radix_value(ints_of_nat(values_at(limbs@, w)), limb_radix() as int, 0) % (
        bls_scalar_order() as int)) by {
            lemma_admitted_zero(cs, w);
            let lw = ints_of_nat(values_at(limbs@, w));
            assert forall|i: int| 0 <= i < 6 implies 0 <= #[trigger] lw[i] < limb_radix() by {
                if i >= count {
                    assert(limbs@[i] == 0);
                } else {
                    assert(w[limbs@[i] as int] < limb_radix());
                }
            }
            lemma_packing(lw);
            let w0 = w[first@[0] as int];
            let w1 = w[first@[1] as int];
            let w2 = w[first@[2] as int];
            let w3 = w[first@[3] as int];
            assert(one.value() * w0 + step_1.value() * w1 + step_2.value() * w2 + step_3.value()
                * w3 == low_limbs(lw)) by (nonlinear_arith)
                requires
                    one.value() == 1,
                    step_1.value() == 8796093022208,
                    step_2.value() == 77371252455336267181195264,
                    step_3.value() == 680564733841876926926749214863536422912,
                    w0 == lw[0],
                    w1 == lw[1],
                    w2 == lw[2],
                    w3 == lw[3],
                    low_limbs(lw) == lw[0] + 8796093022208 * lw[1] + 77371252455336267181195264
                        * lw[2] + 680564733841876926926749214863536422912 * lw[3],
            ;
            lemma_small_mod(low_limbs(lw) as nat, bls_scalar_order());
            if count == 4 {
                assert(lw[4] == 0 && lw[5] == 0);
                assert(limbs@[4] == 0 && limbs@[5] == 0);
            }
        }
    }
    if count == 4 {
        return low;
    }
    let ghost middle = *cs;
    let second = [low, limbs[4], limbs[5], 0];
    let out = cs.linear_combine(&second, one, step_4, step_5, zero);
    proof {
        let sum = l[0] + 8796093022208 * l[1] + 77371252455336267181195264 * l[2]
            + 680564733841876926926749214863536422912 * l[3];
        let total = sum + 5986310706507378352962293074805895248510699696029696 * l[4]
            + 52656145834278593348959013841835216159447547700274555627155488768 * l[5];
        assert(middle.witness@[limbs@[4] as int] == old(cs).witness@[limbs@[4] as int]);
        assert(middle.witness@[limbs@[5] as int] == old(cs).witness@[limbs@[5] as int]);
        let w0 = middle.value(second@[0]);
        let w1 = middle.value(second@[1]);
        let w2 = middle.value(second@[2]);
        let w3 = middle.value(second@[3]);
        assert(1 * w0 + step_4.value() * w1 + step_5.value() * w2 + zero.value() * w3 == total)
            by (nonlinear_arith)
            requires
                step_4.value() == 5986310706507378352962293074805895248510699696029696,
                step_5.value()
                    == 52656145834278593348959013841835216159447547700274555627155488768,
                zero.value() == 0,
                w0 == sum,
                w1 == l[4],
                w2 == l[5],
                total == sum + 5986310706507378352962293074805895248510699696029696 * l[4]
                    + 52656145834278593348959013841835216159447547700274555627155488768 * l[5],
        ;
        lemma_radix_value_bound(l, limb_radix() as int, 0);
        assert(l.len() == 6);
        assert(crate::radix::digits_in_range(l, limb_radix() as int));
        lemma_packing(l);
        assert(sum == low_limbs(l));
        assert(total == radix_value(l, limb_radix() as int, 0));
        lemma_grown_twice(old(cs), &middle, cs);
        assert forall|w: Seq<nat>| #[trigger]
            cs.admits(w) && small_at(limbs@, count as int, w) implies w[out as int]
            == radix_value(ints_of_nat(values_at(limbs@, w)), limb_radix() as int, 0) % (
        bls_scalar_order() as int) by {
            lemma_admitted_before(&middle, cs, w);
            lemma_admitted_zero(cs, w);
            let lw = ints_of_nat(values_at(limbs@, w));
            assert forall|i: int| 0 <= i < 6 implies 0 <= #[trigger] lw[i] < limb_radix() by {
                if i >= count {
                    assert(limbs@[i] == 0);
                } else {
                    assert(w[limbs@[i] as int] < limb_radix());
                }
            }
            lemma_packing(lw);
            let w0 = w[second@[0] as int];
            let w1 = w[second@[1] as int];
            let w2 = w[second@[2] as int];
            let w3 = w[second@[3] as int];
            assert(w0 == low_limbs(lw));
            assert(one.value() * w0 + step_4.value() * w1 + step_5.value() * w2 + zero.value() * w3
                == radix_value(lw, limb_radix() as int, 0)) by (nonlinear_arith)
                requires
                    one.value() == 1,
                    step_4.value() == 5986310706507378352962293074805895248510699696029696,
                    step_5.value()
                        == 52656145834278593348959013841835216159447547700274555627155488768,
                    zero.value() == 0,
                    w0 == low_limbs(lw),
                    w1 == lw[4],
                    w2 == lw[5],
                    radix_value(lw, limb_radix() as int, 0) == low_limbs(lw)
                        + 5986310706507378352962293074805895248510699696029696 * lw[4]
                        + 52656145834278593348959013841835216159447547700274555627155488768
                        * lw[5],
            ;
        }
    }
    out
}

/// Whether the first `count` of the variables have values below `2^43` in the
/// assignment `w`.
pub open spec fn small_at(limbs: Seq<VarIndex>, count: int, w: Seq<nat>) -> bool {
    forall|i: int| 0 <= i < count ==> w[(#[trigger] limbs[i]) as int] < limb_radix()
}

/// What the first four of six limbs stand for.
pub open spec fn low_limbs(l: Seq<int>) -> int {
    l[0] + 8796093022208 * l[1] + 77371252455336267181195264 * l[2]
        + 680564733841876926926749214863536422912 * l[3]
}

/// Six limbs below `2^43` stand for the first four and, weighted by `2^172` and
/// `2^215`, the other two; what the first four stand for is below the order of
/// the field.
pub proof fn lemma_packing(l: Seq<int>)
    requires
        l.len() == 6,
        forall|i: int| 0 <= i < 6 ==> 0 <= #[trigger] l[i] < limb_radix(),
    ensures
        0 <= low_limbs(l) < bls_scalar_order(),
        radix_value(l, limb_radix() as int, 0) == low_limbs(l)
            + 5986310706507378352962293074805895248510699696029696 * l[4]
            + 52656145834278593348959013841835216159447547700274555627155488768 * l[5],
        l[4] == 0 && l[5] == 0 ==> radix_value(l, limb_radix() as int, 0) == low_limbs(l),
{
    lemma_weights();
    lemma_pow2_values();
    reveal_with_fuel(radix_value, 8);
    let r = limb_radix() as int;
    let v5 = l[5] + r * 0;
    let v4 = l[4] + r * v5;
    let v3 = l[3] + r * v4;
    let v2 = l[2] + r * v3;
    let v1 = l[1] + r * v2;
    let v0 = l[0] + r * v1;
    assert(radix_value(l, r, 6) == 0);
    assert(radix_value(l, r, 5) == v5);
    assert(radix_value(l, r, 4) == v4);
    assert(radix_value(l, r, 3) == v3);
    assert(radix_value(l, r, 2) == v2);
    assert(radix_value(l, r, 1) == v1);
    assert(radix_value(l, r, 0) == v0);
    assert(v0 == low_limbs(l) + 5986310706507378352962293074805895248510699696029696 * l[4]
        + 52656145834278593348959013841835216159447547700274555627155488768 * l[5])
        by (nonlinear_arith)
        requires
            r == 8796093022208,
            v5 == l[5] + r * 0,
            v4 == l[4] + r * v5,
            v3 == l[3] + r * v4,
            v2 == l[2] + r * v3,
            v1 == l[1] + r * v2,
            v0 == l[0] + r * v1,
            low_limbs(l) == l[0] + 8796093022208 * l[1] + 77371252455336267181195264 * l[2]
                + 680564733841876926926749214863536422912 * l[3],
    ;
    assert(0 <= low_limbs(l) < bls_scalar_order()) by (nonlinear_arith)
        requires
            0 <= l[0] < 8796093022208,
            0 <= l[1] < 8796093022208,
            0 <= l[2] < 8796093022208,
            0 <= l[3] < 8796093022208,
            low_limbs(l) == l[0] + 8796093022208 * l[1] + 77371252455336267181195264 * l[2]
                + 680564733841876926926749214863536422912 * l[3],
            bls_scalar_order()
                == 52435875175126190479447740508185965837690552500527637822603658699938581184513nat,
    ;
}

/// Asks that the commitment of the equality proof opens to the limbs of the
/// two values and the two randomizers and to the blind: the limbs are packed
/// five to a field element, and the packed limbs and the blind go through the
/// permutation twice.
fn open_commitment(cs: &mut TurboCS, vars: &ConversionVars, Ghost(v): Ghost<ConversionValues>)
    requires
        old(cs).assigned(),
        old(cs).has_room(20),
        vars_are(old(cs), *vars, v),
    ensures
        old(cs).grown_into(final(cs)),
        final(cs).num_vars == old(cs).num_vars + 17,
        final(cs).size == old(cs).size + 12,
        final(cs).holds() == (old(cs).holds() && v.comm == state_commitment_value(
            old(cs).rescue,
            state_limbs(v.x, v.y, v.a, v.b),
            v.r,
        )),
        forall|w: Seq<nat>| #[trigger]
            final(cs).admits(w) && allocated_at(*vars, w) ==> w[vars.comm as int]
                == state_commitment_value(old(cs).rescue, limbs_read(*vars, w), w[vars.r as int]),
{
    let all: [VarIndex; 24] = [
        vars.x.var[0],
        vars.x.var[1],
        vars.x.var[2],
        vars.x.var[3],
        vars.x.var[4],
        vars.x.var[5],
        vars.y.var[0],
        vars.y.var[1],
        vars.y.var[2],
        vars.y.var[3],
        vars.y.var[4],
        vars.y.var[5],
        vars.a.var[0],
        vars.a.var[1],
        vars.a.var[2],
        vars.a.var[3],
        vars.a.var[4],
        vars.a.var[5],
        vars.b.var[0],
        vars.b.var[1],
        vars.b.var[2],
        vars.b.var[3],
        vars.b.var[4],
        vars.b.var[5],
    ];
    let ghost limbs = state_limbs(v.x, v.y, v.a, v.b);
    proof {
        lemma_pow2_values();
        assert forall|i: int| 0 <= i < 24 implies (#[trigger] all@[i]) < cs.num_vars && cs.value(
            all@[i],
        ) == limbs[i] && limbs[i] < limb_radix() by {
            if i < 6 {
                assert(all@[i] == vars.x.var@[i]);
                lemma_digit_below(v.x, limb_radix(), i as nat);
            } else if i < 12 {
                assert(all@[i] == vars.y.var@[i - 6]);
                lemma_digit_below(v.y, limb_radix(), (i - 6) as nat);
            } else if i < 18 {
                assert(all@[i] == vars.a.var@[i - 12]);
                lemma_digit_below(v.a, limb_radix(), (i - 12) as nat);
            } else {
                assert(all@[i] == vars.b.var@[i - 18]);
                lemma_digit_below(v.b, limb_radix(), (i - 18) as nat);
            }
        }
    }
    proof {
        assert(all@ =~= vars.x.var@ + vars.y.var@ + vars.a.var@ + vars.b.var@);
    }
    let mut packed: [VarIndex; 5] = [0, 0, 0, 0, 0];
    let mut g: usize = 0;
    while g < 5
        invariant
            g <= 5,
            old(cs).assigned(),
            old(cs).has_room(20),
            old(cs).grown_into(cs),
            limbs == state_limbs(v.x, v.y, v.a, v.b),
            limbs.len() == 24,
            cs.num_vars == old(cs).num_vars + (if g == 5 {
                9int
            } else {
                2 * g
            }),
            cs.size == old(cs).size + (if g == 5 {
                9int
            } else {
                2 * g
            }),
            cs.holds() == old(cs).holds(),
            forall|i: int|
                0 <= i < 24 ==> (#[trigger] all@[i]) < old(cs).num_vars && old(cs).value(all@[i])
                    == limbs[i] && limbs[i] < limb_radix(),
            forall|k: int|
                0 <= k < g ==> (#[trigger] packed@[k]) < cs.num_vars && cs.value(packed@[k])
                    == packed_group(limbs, k),
            all@ == vars.x.var@ + vars.y.var@ + vars.a.var@ + vars.b.var@,
            forall|w: Seq<nat>| #[trigger]
                cs.admits(w) && allocated_at(*vars, w) ==> forall|k: int|
                    0 <= k < g ==> w[(#[trigger] packed@[k]) as int] == packed_group(
                        limbs_read(*vars, w),
                        k,
                    ),
        decreases 5 - g,
    {
        let ghost before = *cs;
        let ghost earlier = packed@;
        let start = 5 * g;
        let count: usize = if g < 4 {
            5
        } else {
            4
        };
        let fifth: VarIndex = if g < 4 {
            all[start + 4]
        } else {
            0
        };
        let group = [all[start], all[start + 1], all[start + 2], all[start + 3], fifth, 0];
        proof {
            assert forall|i: int| 0 <= i < 6 implies (#[trigger] group@[i]) < cs.num_vars by {
                if i < count {
                    assert(group@[i] == all@[start + i]);
                }
            }
            assert forall|i: int| 0 <= i < count implies cs.value(#[trigger] group@[i])
                < limb_radix() by {
                assert(group@[i] == all@[start + i]);
                assert(cs.witness@[all@[start + i] as int] == old(cs).witness@[all@[start
                    + i] as int]);
            }
        }
        let out = pack(cs, &group, count);
        packed[g] = out;
        proof {
            lemma_grown_twice(old(cs), &before, cs);
            let held = ints_of_nat(values_at(group@, before.values()));
            let own = ints_of_nat(limb_group(limbs, g as int));
            assert(own.len() == count);
            assert forall|k: int| 0 <= k < own.len() implies own[k] == held[k] by {
                assert(group@[k] == all@[start + k]);
                assert(before.witness@[all@[start + k] as int] == old(cs).witness@[all@[start
                    + k] as int]);
                assert(limb_group(limbs, g as int)[k] == limbs[start + k]);
            }
            assert forall|k: int| own.len() <= k < held.len() implies held[k] == 0 by {
                assert(group@[k] == 0);
            }
            lemma_values_padded(own, held, limb_radix() as int, 0);
            assert forall|k: int| 0 <= k < g implies (#[trigger] packed@[k]) < cs.num_vars
                && cs.value(packed@[k]) == packed_group(limbs, k) by {
                assert(cs.witness@[packed@[k] as int] == before.witness@[packed@[k] as int]);
            }
            assert forall|w: Seq<nat>| #[trigger]
                cs.admits(w) && allocated_at(*vars, w) implies forall|k: int|
                0 <= k < g + 1 ==> w[(#[trigger] packed@[k]) as int] == packed_group(
                    limbs_read(*vars, w),
                    k,
                ) by {
                lemma_admitted_before(&before, cs, w);
                lemma_admitted_zero(cs, w);
                lemma_limbs_read(*vars, all@, w);
                let read = limbs_read(*vars, w);
                assert(small_at(group@, count as int, w)) by {
                    assert forall|i: int| 0 <= i < count implies w[(#[trigger] group@[i]) as int]
                        < limb_radix() by {
                        assert(group@[i] == all@[start + i]);
                        assert(w[all@[start + i] as int] == read[start + i]);
                    }
                }
                let held_w = ints_of_nat(values_at(group@, w));
                let own_w = ints_of_nat(limb_group(read, g as int));
                assert(own_w.len() == count);
                assert forall|k: int| 0 <= k < own_w.len() implies own_w[k] == held_w[k] by {
                    assert(group@[k] == all@[start + k]);
                    assert(w[all@[start + k] as int] == read[start + k]);
                    assert(limb_group(read, g as int)[k] == read[start + k]);
                }
                assert forall|k: int| own_w.len() <= k < held_w.len() implies held_w[k] == 0 by {
                    assert(group@[k] == 0);
                }
                lemma_values_padded(own_w, held_w, limb_radix() as int, 0);
                assert(w[out as int] == packed_group(read, g as int));
                assert forall|k: int| 0 <= k < g + 1 implies w[(#[trigger] packed@[k]) as int]
                    == packed_group(read, k) by {
                    if k < g {
                        assert(packed@[k] == earlier[k]);
                    }
                }
            }
        }
        g += 1;
    }
    let ghost second = *cs;
    let first_input = [packed[0], packed[1], packed[2], packed[3]];
    let h1 = cs.rescue_hash(&first_input);
    let ghost third = *cs;
    proof {
        assert(vars.r < old(cs).num_vars);
        assert(vars.comm < old(cs).num_vars);
    }
    let second_input = [h1[0], packed[4], vars.r, 0];
    let h2 = cs.rescue_hash(&second_input);
    let ghost fourth = *cs;
    cs.equal(h2[0], vars.comm);
    proof {
        lemma_grown_twice(old(cs), &second, &third);
        lemma_grown_twice(old(cs), &third, &fourth);
        lemma_grown_twice(old(cs), &fourth, cs);
        let rescue = old(cs).rescue;
        let in1 = values_at(first_input@, second.values());
        assert(in1 =~= seq![
            packed_group(limbs, 0),
            packed_group(limbs, 1),
            packed_group(limbs, 2),
            packed_group(limbs, 3),
        ]);
        let out1 = values_at(h1@, third.values());
        assert(out1 == rescue.permuted(in1));
        assert(out1[0] == third.value(h1@[0]));
        let in2 = values_at(second_input@, third.values());
        assert(third.witness@[packed@[4] as int] == second.witness@[packed@[4] as int]);
        assert(third.witness@[vars.r as int] == old(cs).witness@[vars.r as int]);
        assert(third.witness@[0] == old(cs).witness@[0]);
        assert(in2 =~= seq![out1[0], packed_group(limbs, 4), v.r, 0nat]);
        let out2 = values_at(h2@, fourth.values());
        assert(out2 == rescue.permuted(in2));
        assert(out2[0] == fourth.value(h2@[0]));
        assert(fourth.witness@[vars.comm as int] == old(cs).witness@[vars.comm as int]);
        assert(fourth.value(vars.comm) == v.comm);
        assert forall|w: Seq<nat>| #[trigger]
            cs.admits(w) && allocated_at(*vars, w) implies w[vars.comm as int]
            == state_commitment_value(rescue, limbs_read(*vars, w), w[vars.r as int]) by {
            lemma_admitted_before(&fourth, cs, w);
            lemma_admitted_before(&third, cs, w);
            lemma_admitted_before(&second, cs, w);
            lemma_admitted_zero(cs, w);
            let read = limbs_read(*vars, w);
            let wi1 = values_at(first_input@, w);
            assert(wi1 =~= seq![
                packed_group(read, 0),
                packed_group(read, 1),
                packed_group(read, 2),
                packed_group(read, 3),
            ]) by {
                assert(w[packed@[0] as int] == packed_group(read, 0));
                assert(w[packed@[1] as int] == packed_group(read, 1));
                assert(w[packed@[2] as int] == packed_group(read, 2));
                assert(w[packed@[3] as int] == packed_group(read, 3));
            }
            let wo1 = values_at(h1@, w);
            assert(wo1 == rescue.permuted(wi1));
            assert(wo1[0] == w[h1@[0] as int]);
            let wi2 = values_at(second_input@, w);
            assert(w[packed@[4] as int] == packed_group(read, 4));
            assert(wi2 =~= seq![wo1[0], packed_group(read, 4), w[vars.r as int], 0nat]);
            let wo2 = values_at(h2@, w);
            assert(wo2 == rescue.permuted(wi2));
            assert(wo2[0] == w[h2@[0] as int]);
        }
    }
}

/// The limbs that the two values and the two randomizers have in the
/// assignment `w`, one number after the other.
pub open spec fn limbs_read(vars: ConversionVars, w: Seq<nat>) -> Seq<nat> {
    values_at(vars.x.var@, w) + values_at(vars.y.var@, w) + values_at(vars.a.var@, w) + values_at(
        vars.b.var@,
        w,
    )
}

/// The number that a simulated element stands for in the assignment `w`.
pub open spec fn number_at(element: SimFrVar, w: Seq<nat>) -> nat {
    limbs_value(values_at(element.var@, w))
}

/// An element whose limbs are below `2^43` in the assignment `w` stands for a
/// number below `2^258`, and its limbs are the limbs of that number.
pub proof fn lemma_number_at(element: SimFrVar, w: Seq<nat>)
    requires
        element.normal_at(w),
    ensures
        element.bounded_at(w),
        number_at(element, w) == element.int_value_at(w),
        number_at(element, w) < pow2(258),
        values_at(element.var@, w) == limbs_of(number_at(element, w)),
{
    lemma_normal_at(element, w);
    let values = values_at(element.var@, w);
    assert(ints_of_nat(values) =~= element.limbs_at(w));
    assert forall|i: int| 0 <= i < NUM_OF_LIMBS implies values[i] < limb_radix() by {
        assert(w[element.var@[i] as int] < limb_radix());
    }
    lemma_limbs_round_trip(0, values);
    assert(values =~= limbs_of(number_at(element, w)));
}

/// The variables of the two values and the two randomizers, one after the
/// other, hold the limbs read, and each limb is below `2^43`.
proof fn lemma_limbs_read(vars: ConversionVars, all: Seq<VarIndex>, w: Seq<nat>)
    requires
        all == vars.x.var@ + vars.y.var@ + vars.a.var@ + vars.b.var@,
        allocated_at(vars, w),
    ensures
        limbs_read(vars, w).len() == 24,
        forall|i: int|
            0 <= i < 24 ==> w[(#[trigger] all[i]) as int] == limbs_read(vars, w)[i] && limbs_read(
                vars,
                w,
            )[i] < limb_radix(),
{
    assert forall|i: int| 0 <= i < 24 implies w[(#[trigger] all[i]) as int] == limbs_read(
        vars,
        w,
    )[i] && limbs_read(vars, w)[i] < limb_radix() by {
        if i < 6 {
            assert(all[i] == vars.x.var@[i]);
            assert(w[vars.x.var@[i] as int] < limb_radix());
        } else if i < 12 {
            assert(all[i] == vars.y.var@[i - 6]);
            assert(w[vars.y.var@[i - 6] as int] < limb_radix());
        } else if i < 18 {
            assert(all[i] == vars.a.var@[i - 12]);
            assert(w[vars.a.var@[i - 12] as int] < limb_radix());
        } else {
            assert(all[i] == vars.b.var@[i - 18]);
            assert(w[vars.b.var@[i - 18] as int] < limb_radix());
        }
    }
}

/// What remains of the relation between the answers, for the numbers of a
/// conversion.
pub open spec fn remainder_of(v: ConversionValues) -> int {
    sigma_remainder(v.beta, v.lambda, v.x, v.y, v.a, v.b, v.s_1, v.s_2)
}

/// Asks that the two answers of the equality proof are related as the protocol
/// has them, reckoning with the scalars as simulated elements:
/// `beta x + beta lambda y + lambda b - (s - a)` must be a multiple of the
/// order of the Ristretto group.
fn check_sigma(cs: &mut TurboCS, vars: &ConversionVars, Ghost(v): Ghost<ConversionValues>)
    requires
        old(cs).assigned(),
        old(cs).has_room(400),
        vars_are(old(cs), *vars, v),
        in_range(v),
    ensures
        old(cs).grown_into(final(cs)),
        final(cs).num_vars == old(cs).num_vars + 210,
        final(cs).size == old(cs).size + 221,
        final(cs).holds() == (old(cs).holds() && 0 <= remainder_of(v) && remainder_of(v) % (
        ristretto_order() as int) == 0 && remainder_of(v) / (ristretto_order() as int) < pow2(
            258,
        )),
        forall|w: Seq<nat>| #[trigger]
            final(cs).admits(w) && allocated_at(*vars, w) ==> remainder_at(*vars, w) % (
            ristretto_order() as int) == 0,
{
    let ghost bl = challenge_product(v.beta, v.lambda);
    let ghost s = joined_answer(v.s_1, v.s_2, v.lambda);
    proof {
        lemma_pow2_values();
        lemma_element_stands(cs, vars.beta, v.beta);
        lemma_element_stands(cs, vars.x, v.x);
    }
    let beta_x = vars.beta.mul(cs, &vars.x);
    let ghost c1 = *cs;
    proof {
        lemma_vars_kept(old(cs), cs, *vars, v);
        lemma_element_stands(cs, vars.beta_lambda, bl);
        lemma_element_stands(cs, vars.y, v.y);
    }
    let beta_lambda_y = vars.beta_lambda.mul(cs, &vars.y);
    let ghost c2 = *cs;
    proof {
        lemma_grown_twice(old(cs), &c1, cs);
        lemma_vars_kept(old(cs), cs, *vars, v);
        lemma_element_stands(cs, vars.lambda, v.lambda);
        lemma_element_stands(cs, vars.b, v.b);
    }
    let lambda_b = vars.lambda.mul(cs, &vars.b);
    let ghost c3 = *cs;
    proof {
        lemma_grown_twice(old(cs), &c2, cs);
        lemma_grown_twice(&c1, &c2, cs);
        lemma_product_grown(&c1, cs, beta_x);
        lemma_product_grown(&c2, cs, beta_lambda_y);
    }
    let first = beta_x.add(cs, &beta_lambda_y);
    let ghost c4 = *cs;
    proof {
        lemma_grown_twice(old(cs), &c3, cs);
        lemma_product_grown(&c3, cs, lambda_b);
    }
    let rhs = first.add(cs, &lambda_b);
    let ghost c5 = *cs;
    proof {
        lemma_grown_twice(old(cs), &c4, cs);
        lemma_vars_kept(old(cs), cs, *vars, v);
        lemma_element_stands(cs, vars.s, s);
        lemma_element_stands(cs, vars.a, v.a);
    }
    let lhs = vars.s.sub(cs, &vars.a);
    let ghost c6 = *cs;
    proof {
        lemma_grown_twice(old(cs), &c5, cs);
        lemma_product_grown(&c5, cs, rhs);
    }
    let eqn = rhs.sub(cs, &lhs);
    let ghost c7 = *cs;
    proof {
        lemma_grown_twice(old(cs), &c6, cs);
        assert(eqn.int_value(cs) == remainder_of(v));
    }
    eqn.enforce_zero(cs);
    proof {
        lemma_grown_twice(old(cs), &c7, cs);
        assert forall|w: Seq<nat>| #[trigger]
            cs.admits(w) && allocated_at(*vars, w) implies remainder_at(*vars, w) % (
        ristretto_order() as int) == 0 by {
            lemma_admitted_before(&c7, cs, w);
            lemma_admitted_before(&c6, &c7, w);
            lemma_admitted_before(&c5, &c6, w);
            lemma_admitted_before(&c4, &c5, w);
            lemma_admitted_before(&c3, &c4, w);
            lemma_admitted_before(&c2, &c3, w);
            lemma_admitted_before(&c1, &c2, w);
            lemma_number_at(vars.x, w);
            lemma_number_at(vars.y, w);
            lemma_number_at(vars.a, w);
            lemma_number_at(vars.b, w);
            lemma_number_at(vars.beta, w);
            lemma_number_at(vars.lambda, w);
            lemma_number_at(vars.beta_lambda, w);
            lemma_number_at(vars.s, w);
            assert(beta_x.bounded_at(w));
            assert(beta_lambda_y.bounded_at(w));
            assert(lambda_b.bounded_at(w));
            assert(first.bounded_at(w));
            assert(rhs.bounded_at(w));
            assert(lhs.bounded_at(w));
            assert(eqn.bounded_at(w));
            assert(eqn.int_value_at(w) == remainder_at(*vars, w));
        }
    }
}

/// What remains of the relation between the answers in the assignment `w`:
/// `beta x + beta_lambda y + lambda b - (s - a)`, each taken as the number that
/// its limbs stand for.
pub open spec fn remainder_at(vars: ConversionVars, w: Seq<nat>) -> int {
    number_at(vars.beta, w) * number_at(vars.x, w) + number_at(vars.beta_lambda, w) * number_at(
        vars.y,
        w,
    ) + number_at(vars.lambda, w) * number_at(vars.b, w) - (number_at(vars.s, w) - number_at(
        vars.a,
        w,
    ))
}

/// Asks that the amount and the asset type that go into the commitment of the
/// anonymous record are the two values of the equality proof: the limbs of
/// each value are packed into one field element, which must be the amount, or
/// the asset type.
fn bind_values(cs: &mut TurboCS, vars: &ConversionVars, Ghost(v): Ghost<ConversionValues>)
    requires
        old(cs).assigned(),
        old(cs).has_room(6),
        vars_are(old(cs), *vars, v),
        in_range(v),
    ensures
        old(cs).grown_into(final(cs)),
        final(cs).num_vars == old(cs).num_vars + 4,
        final(cs).size == old(cs).size + 6,
        final(cs).holds() == (old(cs).holds() && v.amount == v.x && v.asset_type == v.y),
        forall|w: Seq<nat>| #[trigger]
            final(cs).admits(w) && allocated_at(*vars, w) ==> w[vars.amount as int] == number_at(
                vars.x,
                w,
            ) && w[vars.asset_type as int] == number_at(vars.y, w),
{
    proof {
        lemma_pow2_values();
        assert forall|i: int| 0 <= i < 6 implies old(cs).value(#[trigger] vars.x.var@[i])
            < limb_radix() by {
            lemma_digit_below(v.x, limb_radix(), i as nat);
        }
    }
    let x_in_bls12_381 = pack(cs, &vars.x.var, 6);
    let ghost c1 = *cs;
    proof {
        lemma_vars_kept(old(cs), cs, *vars, v);
        assert forall|i: int| 0 <= i < 6 implies cs.value(#[trigger] vars.y.var@[i])
            < limb_radix() by {
            lemma_digit_below(v.y, limb_radix(), i as nat);
        }
    }
    let y_in_bls12_381 = pack(cs, &vars.y.var, 6);
    let ghost c2 = *cs;
    proof {
        lemma_grown_twice(old(cs), &c1, cs);
        lemma_vars_kept(old(cs), cs, *vars, v);
    }
    cs.equal(x_in_bls12_381, vars.amount);
    let ghost c3 = *cs;
    proof {
        lemma_grown_twice(old(cs), &c2, cs);
    }
    cs.equal(y_in_bls12_381, vars.asset_type);
    proof {
        lemma_grown_twice(old(cs), &c3, cs);
        lemma_element_stands(old(cs), vars.x, v.x);
        lemma_element_stands(&c1, vars.y, v.y);
        assert(values_at(vars.x.var@, old(cs).values()) =~= limbs_of(v.x));
        assert(values_at(vars.y.var@, c1.values()) =~= limbs_of(v.y));
        lemma_small_mod(v.x, bls_scalar_order());
        lemma_small_mod(v.y, bls_scalar_order());
        assert(c1.value(x_in_bls12_381) == v.x);
        assert(c2.value(y_in_bls12_381) == v.y);
        assert(c2.witness@[x_in_bls12_381 as int] == c1.witness@[x_in_bls12_381 as int]);
        assert(c3.witness@[y_in_bls12_381 as int] == c2.witness@[y_in_bls12_381 as int]);
        assert(c2.value(vars.amount) == v.amount);
        assert(c3.witness@[vars.asset_type as int] == c2.witness@[vars.asset_type as int]);
        assert forall|w: Seq<nat>| #[trigger]
            cs.admits(w) && allocated_at(*vars, w) implies w[vars.amount as int] == number_at(
            vars.x,
            w,
        ) && w[vars.asset_type as int] == number_at(vars.y, w) by {
            lemma_admitted_before(&c3, cs, w);
            lemma_admitted_before(&c2, &c3, w);
            lemma_admitted_before(&c1, &c2, w);
            lemma_number_at(vars.x, w);
            lemma_number_at(vars.y, w);
            lemma_weights();
            assert(small_at(vars.x.var@, 6, w));
            assert(small_at(vars.y.var@, 6, w));
            lemma_small_mod(number_at(vars.x, w), bls_scalar_order());
            lemma_small_mod(number_at(vars.y, w), bls_scalar_order());
            let xv = radix_value(ints_of_nat(values_at(vars.x.var@, w)), limb_radix() as int, 0);
            let yv = radix_value(ints_of_nat(values_at(vars.y.var@, w)), limb_radix() as int, 0);
            assert(ints_of_nat(values_at(vars.x.var@, w)) =~= vars.x.limbs_at(w));
            assert(ints_of_nat(values_at(vars.y.var@, w)) =~= vars.y.limbs_at(w));
            assert(xv == number_at(vars.x, w));
            assert(yv == number_at(vars.y, w));
            assert(xv % (bls_scalar_order() as int) == xv);
            assert(yv % (bls_scalar_order() as int) == yv);
            assert(w[x_in_bls12_381 as int] == number_at(vars.x, w));
            assert(w[y_in_bls12_381 as int] == number_at(vars.y, w));
        }
    }
}

/// A variable for the commitment of the anonymous record, reckoned in the
/// system from the blind, the amount, the asset type and the owner's key.
fn commit_to_record(cs: &mut TurboCS, vars: &ConversionVars, Ghost(v): Ghost<ConversionValues>) -> (out:
    VarIndex)
    requires
        old(cs).assigned(),
        old(cs).has_room(8),
        vars_are(old(cs), *vars, v),
    ensures
        old(cs).grown_into(final(cs)),
        final(cs).num_vars == old(cs).num_vars + 8,
        final(cs).size == old(cs).size + 2,
        final(cs).holds() == old(cs).holds(),
        out < final(cs).num_vars,
        final(cs).value(out) == abar_commitment_value(
            old(cs).rescue,
            v.blind_hash,
            v.amount,
            v.asset_type,
            v.pubkey_x,
        ),
        forall|w: Seq<nat>| #[trigger]
            final(cs).admits(w) ==> w[out as int] == abar_commitment_value(
                old(cs).rescue,
                w[vars.blind_hash as int],
                w[vars.amount as int],
                w[vars.asset_type as int],
                w[vars.pubkey_x as int],
            ),
{
    let first = [vars.blind_hash, vars.amount, vars.asset_type, 0];
    let cur = cs.rescue_hash(&first);
    let ghost c1 = *cs;
    let second = [cur[0], vars.pubkey_x, 0, 0];
    let out = cs.rescue_hash(&second);
    proof {
        lemma_grown_twice(old(cs), &c1, cs);
        let rescue = old(cs).rescue;
        let in1 = values_at(first@, old(cs).values());
        assert(in1 =~= seq![v.blind_hash, v.amount, v.asset_type, 0nat]);
        let out1 = values_at(cur@, c1.values());
        assert(out1[0] == c1.value(cur@[0]));
        let in2 = values_at(second@, c1.values());
        assert(c1.witness@[vars.pubkey_x as int] == old(cs).witness@[vars.pubkey_x as int]);
        assert(c1.witness@[0] == old(cs).witness@[0]);
        assert(in2 =~= seq![out1[0], v.pubkey_x, 0nat, 0nat]);
        let out2 = values_at(out@, cs.values());
        assert(out2[0] == cs.value(out@[0]));
        assert forall|w: Seq<nat>| #[trigger] cs.admits(w) implies w[out@[0] as int]
            == abar_commitment_value(
            rescue,
            w[vars.blind_hash as int],
            w[vars.amount as int],
            w[vars.asset_type as int],
            w[vars.pubkey_x as int],
        ) by {
            lemma_admitted_before(&c1, cs, w);
            lemma_admitted_zero(cs, w);
            let wi1 = values_at(first@, w);
            assert(wi1 =~= seq![
                w[vars.blind_hash as int],
                w[vars.amount as int],
                w[vars.asset_type as int],
                0nat,
            ]);
            let wo1 = values_at(cur@, w);
            assert(wo1[0] == w[cur@[0] as int]);
            let wi2 = values_at(second@, w);
            assert(wi2 =~= seq![wo1[0], w[vars.pubkey_x as int], 0nat, 0nat]);
            let wo2 = values_at(out@, w);
            assert(wo2[0] == w[out@[0] as int]);
        }
    }
    out[0]
}

/// Where the amount is below `2^64` and the asset type below `2^240`, what
/// remains of the relation between the answers is a multiple of the order that
/// is not negative and has a quotient below `2^258` as soon as it is a
/// multiple at all.
pub proof fn lemma_remainder_in_reach(v: ConversionValues)
    requires
        in_range(v),
        v.x < pow2(64),
        v.y < pow2(240),
    ensures
        (0 <= remainder_of(v) && remainder_of(v) % (ristretto_order() as int) == 0
            && remainder_of(v) / (ristretto_order() as int) < pow2(258)) == (remainder_of(v) % (
        ristretto_order() as int) == 0),
{
    let m = ristretto_order() as int;
    let e = remainder_of(v);
    let bl = challenge_product(v.beta, v.lambda) as int;
    let s = joined_answer(v.s_1, v.s_2, v.lambda) as int;
    lemma_weights();
    lemma_pow2_values();
    let t1 = (v.beta * v.x) as int;
    let t2 = bl * v.y;
    let t3 = (v.lambda * v.b) as int;
    assert(0 <= t1 < m * 0x10000000000000000) by (nonlinear_arith)
        requires
            t1 == v.beta * v.x,
            v.beta < m,
            v.x < 0x10000000000000000,
    ;
    assert(0 <= t2 < m * 0x1000000000000000000000000000000000000000000000000000000000000)
        by (nonlinear_arith)
        requires
            t2 == bl * v.y,
            0 <= bl < m,
            v.y < 0x1000000000000000000000000000000000000000000000000000000000000,
    ;
    assert(0 <= t3 < m * m) by (nonlinear_arith)
        requires
            t3 == v.lambda * v.b,
            v.lambda < m,
            v.b < m,
    ;
    assert(e == t1 + t2 + t3 - (s - v.a));
    assert(-m < e);
    let bound = 0x10000000000000000 + 0x1000000000000000000000000000000000000000000000000000000000000
        + m + 1;
    assert(e < m * bound) by (nonlinear_arith)
        requires
            e == t1 + t2 + t3 - (s - v.a),
            t1 < m * 0x10000000000000000,
            t2 < m * 0x1000000000000000000000000000000000000000000000000000000000000,
            t3 < m * m,
            0 <= s,
            v.a < m,
            bound == 0x10000000000000000
                + 0x1000000000000000000000000000000000000000000000000000000000000 + m + 1,
    ;
    if e % m == 0 {
        if e < 0 {
            lemma_small_mod((e + m) as nat, ristretto_order());
            vstd::arithmetic::div_mod::lemma_mod_multiples_vanish(1, e, m);
        }
        assert(e / m < bound) by (nonlinear_arith)
            requires
                0 <= e < m * bound,
                m > 0,
        ;
    }
}

/// The constraint system of a conversion, with its witness, and the number of
/// its gates.
///
/// The public variables are, in this order, the commitment of the anonymous
/// record, the commitment of the equality proof, and the limbs of `beta`, of
/// `lambda`, of their product and of the joined answer. The number of gates is
/// a power of two, and the same for every conversion, as is the number of
/// variables. The gates hold of the witness exactly where the numbers are as a
/// conversion has them.
pub fn build_bar_to_abar_cs(
    rescue: RescueInstance,
    amount: BLSScalar,
    asset_type: BLSScalar,
    blind_hash: BLSScalar,
    pubkey_x: BLSScalar,
    proof: &ZKPartProof,
    non_zk_state: &NonZKState,
    beta: &RistrettoScalar,
    lambda: &RistrettoScalar,
) -> (r: (TurboCS, usize))
    ensures
        r.0.assigned(),
        r.0.rescue == rescue,
        r.1 == r.0.size,
        r.0.size == CONVERSION_GATES,
        r.0.num_vars == CONVERSION_VARS,
        is_power_of_two(r.0.size as nat),
        r.0.public_vars_witness_indices@.len() == NUM_OF_ONLINE_INPUTS,
        values_at(r.0.public_vars_witness_indices@, r.0.values()) == online_inputs_of(
            abar_commitment_value(
                rescue,
                blind_hash.value(),
                amount.value(),
                asset_type.value(),
                pubkey_x.value(),
            ),
            proof.non_zk_part_state_commitment.value(),
            beta.value(),
            lambda.value(),
            proof.s_1.value(),
            proof.s_2.value(),
        ),
        r.0.holds() == conversion_holds(
            rescue,
            conversion_values(
                amount,
                asset_type,
                blind_hash,
                pubkey_x,
                *proof,
                *non_zk_state,
                *beta,
                *lambda,
            ),
        ),
        binds_a_conversion(&r.0),
{
    let ghost v = conversion_values(
        amount,
        asset_type,
        blind_hash,
        pubkey_x,
        *proof,
        *non_zk_state,
        *beta,
        *lambda,
    );
    let mut cs = TurboCS::new(rescue);
    let ghost c0 = cs;
    let vars = allocate(
        &mut cs,
        amount,
        asset_type,
        blind_hash,
        pubkey_x,
        proof,
        non_zk_state,
        beta,
        lambda,
    );
    let ghost c1 = cs;
    open_commitment(&mut cs, &vars, Ghost(v));
    let ghost c2 = cs;
    proof {
        lemma_vars_kept(&c1, &cs, vars, v);
    }
    check_sigma(&mut cs, &vars, Ghost(v));
    let ghost c3 = cs;
    proof {
        lemma_grown_twice(&c1, &c2, &cs);
        lemma_vars_kept(&c1, &cs, vars, v);
    }
    bind_values(&mut cs, &vars, Ghost(v));
    let ghost c4 = cs;
    proof {
        lemma_grown_twice(&c1, &c3, &cs);
        lemma_vars_kept(&c1, &cs, vars, v);
    }
    let rescue_comm_var = commit_to_record(&mut cs, &vars, Ghost(v));
    let ghost c5 = cs;
    proof {
        lemma_grown_twice(&c1, &c4, &cs);
        lemma_vars_kept(&c1, &cs, vars, v);
        if v.x < pow2(64) && v.y < pow2(240) {
            lemma_remainder_in_reach(v);
        }
    }
    cs.prepare_pi_variable(rescue_comm_var);
    cs.prepare_pi_variable(vars.comm);
    proof {
        assert(cs.public_vars_witness_indices@ =~= seq![rescue_comm_var, vars.comm]);
    }
    let ghost z = abar_commitment_value(rescue, v.blind_hash, v.amount, v.asset_type, v.pubkey_x);
    let ghost bl = challenge_product(v.beta, v.lambda);
    let ghost s = joined_answer(v.s_1, v.s_2, v.lambda);
    let ghost p0 = seq![z, v.comm];
    let ghost p1 = p0 + limbs_of(v.beta);
    let ghost p2 = p1 + limbs_of(v.lambda);
    let ghost p3 = p2 + limbs_of(bl);
    proof {
        assert(values_at(cs.public_vars_witness_indices@, cs.values()) =~= p0);
    }
    publish(&mut cs, &vars.beta, Ghost(v.beta), Ghost(p0));
    publish(&mut cs, &vars.lambda, Ghost(v.lambda), Ghost(p1));
    publish(&mut cs, &vars.beta_lambda, Ghost(bl), Ghost(p2));
    publish(&mut cs, &vars.s, Ghost(s), Ghost(p3));
    let ghost c6 = cs;
    cs.pad();
    proof {
        vstd::arithmetic::power2::lemma2_to64();
        lemma_least_power(c6.size as nat, cs.size as nat, 9);
        assert forall|w: Seq<nat>, online: Seq<nat>| #[trigger]
            cs.satisfied_by(w, online) && in_field(w) implies exists|o: Opening| #[trigger]
            opens(rescue, online, o) by {
            lemma_admitted_before(&c6, &cs, w);
            assert(c5.admits(w));
            lemma_admitted_before(&c4, &c5, w);
            lemma_admitted_before(&c3, &c4, w);
            lemma_admitted_before(&c2, &c3, w);
            lemma_admitted_before(&c1, &c2, w);
            lemma_opened(rescue, vars, rescue_comm_var, cs.public_vars_witness_indices@, w, online);
        }
    }
    let n_constraints = cs.size;
    (cs, n_constraints)
}

/// Whether the system is satisfied only with public inputs that numbers fit:
/// for every assignment of field elements that satisfies it with the public
/// inputs `online`, there are numbers that fit `online`.
pub open spec fn binds_a_conversion(cs: &TurboCS) -> bool {
    forall|w: Seq<nat>, online: Seq<nat>| #[trigger]
        cs.satisfied_by(w, online) && in_field(w) ==> exists|o: Opening| #[trigger]
            opens(cs.rescue, online, o)
}

/// The numbers that a conversion keeps to itself.
pub struct Opening {
    /// The first value of the equality proof: the amount.
    pub x: nat,
    /// The second value: the asset type.
    pub y: nat,
    /// The randomizer of the first value.
    pub a: nat,
    /// The randomizer of the second value.
    pub b: nat,
    /// The blind of the commitment of the equality proof.
    pub r: nat,
    /// The blind of the commitment of the anonymous record.
    pub blind_hash: nat,
    /// The first coordinate of the owner's key.
    pub pubkey_x: nat,
}

/// The number that the six limbs from place `from` on among the public inputs
/// stand for.
pub open spec fn input_element(online: Seq<nat>, from: int) -> nat {
    limbs_value(online.subrange(from, from + NUM_OF_LIMBS))
}

/// Whether the numbers `o` fit the public inputs of a conversion: the amount
/// is below `2^64` and the asset type below `2^240`, the first input is the
/// commitment of an anonymous record to them, the second input is the
/// commitment of the equality proof to their limbs and to the limbs of the
/// randomizers, and the relation between the answers, reckoned with the
/// challenges, their product and the joined answer as the inputs give them,
/// holds modulo the order of the Ristretto group.
pub open spec fn opens(rescue: RescueInstance, online: Seq<nat>, o: Opening) -> bool {
    &&& online.len() == NUM_OF_ONLINE_INPUTS
    &&& o.x < pow2(64)
    &&& o.y < pow2(240)
    &&& o.a < pow2(258)
    &&& o.b < pow2(258)
    &&& online[0] == abar_commitment_value(rescue, o.blind_hash, o.x, o.y, o.pubkey_x)
    &&& online[1] == state_commitment_value(rescue, state_limbs(o.x, o.y, o.a, o.b), o.r)
    &&& (input_element(online, 2) * o.x + input_element(online, 14) * o.y + input_element(
        online,
        8,
    ) * o.b - (input_element(online, 20) - o.a)) % (ristretto_order() as int) == 0
}

/// What numbers that fit the public inputs of a conversion are bound to, where
/// the inputs are those that the verifier makes of the commitment `z` of the
/// anonymous record, the commitment `comm` of the equality proof, the two
/// challenges and the two answers: the amount and the asset type are small
/// enough, `z` commits to them, `comm` commits to their limbs and to those of
/// the randomizers, and the relation between the answers holds modulo the
/// order of the Ristretto group.
pub proof fn lemma_inputs_bind_the_opening(
    rescue: RescueInstance,
    o: Opening,
    z: nat,
    comm: nat,
    beta: nat,
    lambda: nat,
    s_1: nat,
    s_2: nat,
)
    requires
        beta < ristretto_order(),
        lambda < ristretto_order(),
        opens(rescue, online_inputs_of(z, comm, beta, lambda, s_1, s_2), o),
    ensures
        o.x < pow2(64),
        o.y < pow2(240),
        z == abar_commitment_value(rescue, o.blind_hash, o.x, o.y, o.pubkey_x),
        comm == state_commitment_value(rescue, state_limbs(o.x, o.y, o.a, o.b), o.r),
        sigma_remainder(beta, lambda, o.x, o.y, o.a, o.b, s_1, s_2) % (ristretto_order() as int)
            == 0,
{
    let online = online_inputs_of(z, comm, beta, lambda, s_1, s_2);
    let bl = challenge_product(beta, lambda);
    let s = joined_answer(s_1, s_2, lambda);
    lemma_pow2_values();
    assert(online.subrange(2, 8) =~= limbs_of(beta));
    assert(online.subrange(8, 14) =~= limbs_of(lambda));
    assert(online.subrange(14, 20) =~= limbs_of(bl));
    assert(online.subrange(20, 26) =~= limbs_of(s));
    lemma_limbs_round_trip(beta, limbs_of(beta));
    lemma_limbs_round_trip(lambda, limbs_of(lambda));
    lemma_limbs_round_trip(bl, limbs_of(bl));
    lemma_limbs_round_trip(s, limbs_of(s));
    assert(input_element(online, 2) == beta);
    assert(input_element(online, 8) == lambda);
    assert(input_element(online, 14) == bl);
    assert(input_element(online, 20) == s);
    assert(online[0] == z);
    assert(online[1] == comm);
}

/// What the parts of the system ask of an assignment gives numbers that fit
/// the public inputs.
proof fn lemma_opened(
    rescue: RescueInstance,
    vars: ConversionVars,
    record: VarIndex,
    public: Seq<VarIndex>,
    w: Seq<nat>,
    online: Seq<nat>,
)
    requires
        public == seq![record, vars.comm] + vars.beta.var@ + vars.lambda.var@
            + vars.beta_lambda.var@ + vars.s.var@,
        online.len() == public.len(),
        forall|i: int| 0 <= i < online.len() ==> w[public[i] as int] == #[trigger] online[i],
        allocated_at(vars, w),
        w[vars.comm as int] == state_commitment_value(rescue, limbs_read(vars, w), w[vars.r as int]),
        remainder_at(vars, w) % (ristretto_order() as int) == 0,
        w[vars.amount as int] == number_at(vars.x, w),
        w[vars.asset_type as int] == number_at(vars.y, w),
        w[record as int] == abar_commitment_value(
            rescue,
            w[vars.blind_hash as int],
            w[vars.amount as int],
            w[vars.asset_type as int],
            w[vars.pubkey_x as int],
        ),
    ensures
        opens(
            rescue,
            online,
            (Opening {
                x: number_at(vars.x, w),
                y: number_at(vars.y, w),
                a: number_at(vars.a, w),
                b: number_at(vars.b, w),
                r: w[vars.r as int],
                blind_hash: w[vars.blind_hash as int],
                pubkey_x: w[vars.pubkey_x as int],
            }),
        ),
{
    lemma_number_at(vars.x, w);
    lemma_number_at(vars.y, w);
    lemma_number_at(vars.a, w);
    lemma_number_at(vars.b, w);
    assert(online[0] == w[public[0] as int]);
    assert(online[1] == w[public[1] as int]);
    assert(online.subrange(2, 8) =~= values_at(vars.beta.var@, w)) by {
        assert forall|i: int| 0 <= i < 6 implies online.subrange(2, 8)[i] == values_at(
            vars.beta.var@,
            w,
        )[i] by {
            assert(online[2 + i] == w[public[2 + i] as int]);
            assert(public[2 + i] == vars.beta.var@[i]);
        }
    }
    assert(online.subrange(8, 14) =~= values_at(vars.lambda.var@, w)) by {
        assert forall|i: int| 0 <= i < 6 implies online.subrange(8, 14)[i] == values_at(
            vars.lambda.var@,
            w,
        )[i] by {
            assert(online[8 + i] == w[public[8 + i] as int]);
            assert(public[8 + i] == vars.lambda.var@[i]);
        }
    }
    assert(online.subrange(14, 20) =~= values_at(vars.beta_lambda.var@, w)) by {
        assert forall|i: int| 0 <= i < 6 implies online.subrange(14, 20)[i] == values_at(
            vars.beta_lambda.var@,
            w,
        )[i] by {
            assert(online[14 + i] == w[public[14 + i] as int]);
            assert(public[14 + i] == vars.beta_lambda.var@[i]);
        }
    }
    assert(online.subrange(20, 26) =~= values_at(vars.s.var@, w)) by {
        assert forall|i: int| 0 <= i < 6 implies online.subrange(20, 26)[i] == values_at(
            vars.s.var@,
            w,
        )[i] by {
            assert(online[20 + i] == w[public[20 + i] as int]);
            assert(public[20 + i] == vars.s.var@[i]);
        }
    }
    assert(input_element(online, 2) == number_at(vars.beta, w));
    assert(input_element(online, 8) == number_at(vars.lambda, w));
    assert(input_element(online, 14) == number_at(vars.beta_lambda, w));
    assert(input_element(online, 20) == number_at(vars.s, w));
    assert(limbs_read(vars, w) == state_limbs(
        number_at(vars.x, w),
        number_at(vars.y, w),
        number_at(vars.a, w),
        number_at(vars.b, w),
    ));
}

/// Makes the six limbs of `element` public, after what is public already.
fn publish(
    cs: &mut TurboCS,
    element: &SimFrVar,
    Ghost(n): Ghost<nat>,
    Ghost(so_far): Ghost<Seq<nat>>,
)
    requires
        old(cs).assigned(),
        element_is(old(cs), *element, n),
        values_at(old(cs).public_vars_witness_indices@, old(cs).values()) == so_far,
    ensures
        final(cs).assigned(),
        final(cs).num_vars == old(cs).num_vars,
        final(cs).size == old(cs).size,
        final(cs).witness@ == old(cs).witness@,
        final(cs).gates@ == old(cs).gates@,
        final(cs).rescue == old(cs).rescue,
        final(cs).holds() == old(cs).holds(),
        final(cs).public_vars_witness_indices@.len() == old(cs).public_vars_witness_indices@.len()
            + NUM_OF_LIMBS,
        values_at(final(cs).public_vars_witness_indices@, final(cs).values()) == so_far + limbs_of(
            n,
        ),
        final(cs).public_vars_witness_indices@ == old(cs).public_vars_witness_indices@
            + element.var@,
{
    let mut i: usize = 0;
    proof {
        assert(cs.public_vars_witness_indices@ =~= old(cs).public_vars_witness_indices@
            + element.var@.take(0));
    }
    while i < NUM_OF_LIMBS
        invariant
            i <= NUM_OF_LIMBS,
            cs.assigned(),
            element_is(cs, *element, n),
            cs.num_vars == old(cs).num_vars,
            cs.size == old(cs).size,
            cs.witness@ == old(cs).witness@,
            cs.gates@ == old(cs).gates@,
            cs.rescue == old(cs).rescue,
            cs.holds() == old(cs).holds(),
            cs.public_vars_witness_indices@.len() == old(cs).public_vars_witness_indices@.len()
                + i,
            values_at(cs.public_vars_witness_indices@, cs.values()) == so_far + limbs_of(n).take(
                i as int,
            ),
            cs.public_vars_witness_indices@ == old(cs).public_vars_witness_indices@
                + element.var@.take(i as int),
        decreases NUM_OF_LIMBS - i,
    {
        let ghost before = *cs;
        cs.prepare_pi_variable(element.var[i]);
        proof {
            assert(values_at(cs.public_vars_witness_indices@, cs.values()) =~= values_at(
                before.public_vars_witness_indices@,
                before.values(),
            ).push(limbs_of(n)[i as int]));
            assert(limbs_of(n).take(i + 1) =~= limbs_of(n).take(i as int).push(
                limbs_of(n)[i as int],
            ));
            assert(values_at(cs.public_vars_witness_indices@, cs.values()) =~= so_far + limbs_of(
                n,
            ).take(i + 1));
            assert(cs.public_vars_witness_indices@ =~= old(cs).public_vars_witness_indices@
                + element.var@.take(i + 1));
        }
        i += 1;
    }
    proof {
        assert(limbs_of(n).take(NUM_OF_LIMBS as int) =~= limbs_of(n));
        assert(element.var@.take(NUM_OF_LIMBS as int) =~= element.var@);
    }
}

} // verus!

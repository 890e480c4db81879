//! The delegated Chaum-Pedersen proof: that two Pedersen commitments in the
//! Ristretto group open to two values `x` and `y` which a third commitment,
//! made with Rescue over another field, holds as well.
//!
//! The prover commits to randomizers `a` and `b`, is challenged with `beta`,
//! answers with `s_1 = beta x + a` and `s_2 = beta y + b` and the like for the
//! blinding scalars, and is challenged again with `lambda`, which joins the two
//! answers into one. That the answers are made of the values under the Rescue
//! commitment is not shown here: it is left to a constraint system.

use vstd::prelude::*;
use vstd::arithmetic::div_mod::{lemma_fundamental_div_mod, lemma_mod_multiples_basic};
use crate::bls12_381::BLSScalar;
use crate::bytes::le_value;
use crate::errors::ZeiError;
use crate::field_simulation::sim_fr_of_scalar;
use crate::group_laws::{group_acts, lemma_answer_combines, scalars_wrap};
use crate::groups::{Group, Scalar};
use crate::ristretto::ristretto_is_point;
use crate::pedersen::{commitment, RistrettoPedersenCommitment};
use crate::rescue::RescueInstance;
use crate::rescue_commitment::{state_commitment, state_commitment_value, state_limbs};
use crate::ristretto::{
    ristretto_multiple, ristretto_order, ristretto_sum, RistrettoPoint, RistrettoScalar,
};
use crate::transcript::{
    domain_separator, merlin_challenge, transcript_append, transcript_challenge, transcript_log,
    transcript_new, BAR_TO_ABAR_TRANSCRIPT,
};

verus! {

/// The label `PK`, for the generators.
pub const LABEL_GENERATORS: [u8; 2] = [0x50, 0x4b];

/// The label `Z`, for the Rescue commitment that the proof is bound to.
pub const LABEL_Z: [u8; 1] = [0x5a];

/// The label `P`, for the commitment to `x`.
pub const LABEL_P: [u8; 1] = [0x50];

/// The label `Q`, for the commitment to `y`.
pub const LABEL_Q: [u8; 1] = [0x51];

/// The label `R`, for the commitment to the randomizer `a`.
pub const LABEL_R: [u8; 1] = [0x52];

/// The label `S`, for the commitment to the randomizer `b`.
pub const LABEL_S: [u8; 1] = [0x53];

/// The label `comm`, for the commitment to what the prover keeps.
pub const LABEL_COMM: [u8; 4] = [0x63, 0x6f, 0x6d, 0x6d];

/// The label `beta`, for the first challenge.
pub const LABEL_BETA: [u8; 4] = [0x62, 0x65, 0x74, 0x61];

/// The label `s`, for the four answers.
pub const LABEL_ANSWER: [u8; 1] = [0x73];

/// The label `lambda`, for the second challenge.
pub const LABEL_LAMBDA: [u8; 6] = [0x6c, 0x61, 0x6d, 0x62, 0x64, 0x61];

/// The public part of the proof.
#[derive(Clone, Copy, Debug, PartialEq, Eq)]
pub struct ZKPartProof {
    /// The Rescue commitment to `x`, `y`, `a`, `b` and a blind.
    pub non_zk_part_state_commitment: BLSScalar,
    /// The Pedersen commitment to the randomizer `a`.
    pub point_r: RistrettoPoint,
    /// The Pedersen commitment to the randomizer `b`.
    pub point_s: RistrettoPoint,
    /// The answer `beta x + a`.
    pub s_1: RistrettoScalar,
    /// The answer `beta y + b`.
    pub s_2: RistrettoScalar,
    /// The answer `beta gamma + c`.
    pub s_3: RistrettoScalar,
    /// The answer `beta delta + d`.
    pub s_4: RistrettoScalar,
}

/// What the prover keeps: the witness of the constraint system.
#[derive(Clone, Copy, Debug, PartialEq, Eq)]
pub struct NonZKState {
    /// The first committed value.
    pub x: RistrettoScalar,
    /// The second committed value.
    pub y: RistrettoScalar,
    /// The randomizer of `x`.
    pub a: RistrettoScalar,
    /// The randomizer of `y`.
    pub b: RistrettoScalar,
    /// The blind of the Rescue commitment.
    pub r: BLSScalar,
}

/// The prover's random choices.
#[derive(Clone, Copy, Debug, PartialEq, Eq)]
pub struct Randomizers {
    /// The randomizer of `x`.
    pub a: RistrettoScalar,
    /// The randomizer of `y`.
    pub b: RistrettoScalar,
    /// The randomizer of the blinding scalar of `x`.
    pub c: RistrettoScalar,
    /// The randomizer of the blinding scalar of `y`.
    pub d: RistrettoScalar,
    /// The blind of the Rescue commitment.
    pub r: BLSScalar,
}

/// What the transcript holds when the first challenge is drawn.
pub open spec fn statement_log(
    generators: Seq<u8>,
    z: Seq<u8>,
    p: Seq<u8>,
    q: Seq<u8>,
    r: Seq<u8>,
    s: Seq<u8>,
    comm: Seq<u8>,
) -> Seq<(bool, Seq<u8>, Seq<u8>)> {
    seq![
        (false, domain_separator(), BAR_TO_ABAR_TRANSCRIPT@),
        (false, LABEL_GENERATORS@, generators),
        (false, LABEL_Z@, z),
        (false, LABEL_P@, p),
        (false, LABEL_Q@, q),
        (false, LABEL_R@, r),
        (false, LABEL_S@, s),
        (false, LABEL_COMM@, comm),
    ]
}

/// What the transcript holds when the second challenge is drawn.
pub open spec fn answered_log(
    statement: Seq<(bool, Seq<u8>, Seq<u8>)>,
    s_1: Seq<u8>,
    s_2: Seq<u8>,
    s_3: Seq<u8>,
    s_4: Seq<u8>,
) -> Seq<(bool, Seq<u8>, Seq<u8>)> {
    statement.push((true, LABEL_BETA@, Seq::<u8>::empty())).push((false, LABEL_ANSWER@, s_1)).push(
        (false, LABEL_ANSWER@, s_2),
    ).push((false, LABEL_ANSWER@, s_3)).push((false, LABEL_ANSWER@, s_4))
}

/// The scalar that a challenge of 64 bytes stands for.
pub open spec fn challenge_scalar(log: Seq<(bool, Seq<u8>, Seq<u8>)>, label: Seq<u8>) -> nat {
    le_value(merlin_challenge(log, label)) % ristretto_order()
}

/// The transcript of a proof for the given statement and commitments.
pub open spec fn proof_statement(
    b: Seq<u8>,
    b_blinding: Seq<u8>,
    point_p: Seq<u8>,
    point_q: Seq<u8>,
    z: BLSScalar,
    proof: ZKPartProof,
) -> Seq<(bool, Seq<u8>, Seq<u8>)> {
    statement_log(
        b + b_blinding,
        z.encoding(),
        point_p,
        point_q,
        proof.point_r.encoding(),
        proof.point_s.encoding(),
        proof.non_zk_part_state_commitment.encoding(),
    )
}

/// The first challenge of a proof.
pub open spec fn beta_of(
    b: Seq<u8>,
    b_blinding: Seq<u8>,
    point_p: Seq<u8>,
    point_q: Seq<u8>,
    z: BLSScalar,
    proof: ZKPartProof,
) -> nat {
    challenge_scalar(proof_statement(b, b_blinding, point_p, point_q, z, proof), LABEL_BETA@)
}

/// The second challenge of a proof.
pub open spec fn lambda_of(
    b: Seq<u8>,
    b_blinding: Seq<u8>,
    point_p: Seq<u8>,
    point_q: Seq<u8>,
    z: BLSScalar,
    proof: ZKPartProof,
) -> nat {
    challenge_scalar(
        answered_log(
            proof_statement(b, b_blinding, point_p, point_q, z, proof),
            proof.s_1.encoding(),
            proof.s_2.encoding(),
            proof.s_3.encoding(),
            proof.s_4.encoding(),
        ),
        LABEL_LAMBDA@,
    )
}

/// What is left of the relation between the two answers when the challenges
/// have been applied: `beta x + beta lambda y + lambda b - (s - a)`, where
/// `beta lambda` and `s = s_1 + lambda s_2` are taken as scalars. A constraint
/// system asks that this is a multiple of the order of the group.
pub open spec fn sigma_remainder(
    beta: nat,
    lambda: nat,
    x: nat,
    y: nat,
    a: nat,
    b: nat,
    s_1: nat,
    s_2: nat,
) -> int {
    beta * x + ((beta * lambda) % ristretto_order()) * y + lambda * b - (((s_1 + lambda * s_2)
        % ristretto_order()) - a)
}

/// With the answers made as the protocol has them, the relation between them
/// holds modulo the order of the group.
pub proof fn lemma_answers_are_related(beta: nat, lambda: nat, x: nat, y: nat, a: nat, b: nat)
    ensures
        sigma_remainder(
            beta,
            lambda,
            x,
            y,
            a,
            b,
            (beta * x + a) % ristretto_order(),
            (beta * y + b) % ristretto_order(),
        ) % (ristretto_order() as int) == 0,
{
    let m = ristretto_order() as int;
    let s_1 = ((beta * x + a) % ristretto_order()) as int;
    let s_2 = ((beta * y + b) % ristretto_order()) as int;
    let bl = ((beta * lambda) % ristretto_order()) as int;
    let s = ((s_1 + lambda * s_2) % m) as int;
    let k1 = (beta * lambda) as int / m;
    let k2 = (beta * x + a) as int / m;
    let k3 = (beta * y + b) as int / m;
    let k4 = (s_1 + lambda * s_2) / m;
    lemma_fundamental_div_mod((beta * lambda) as int, m);
    lemma_fundamental_div_mod((beta * x + a) as int, m);
    lemma_fundamental_div_mod((beta * y + b) as int, m);
    lemma_fundamental_div_mod(s_1 + lambda * s_2, m);
    let e = sigma_remainder(beta, lambda, x, y, a, b, s_1 as nat, s_2 as nat);
    let t1 = k1 * y;
    let t3 = lambda * k3;
    let k = -t1 + k2 + t3 + k4;
    let full = (beta * lambda) as int;
    assert(bl * y == full * y - m * t1) by (nonlinear_arith)
        requires
            full == m * k1 + bl,
            t1 == k1 * y,
    ;
    assert(full * y == lambda * (beta * y)) by (nonlinear_arith)
        requires
            full == beta * lambda,
    ;
    assert(lambda * s_2 == lambda * (beta * y) + lambda * b - m * t3) by (nonlinear_arith)
        requires
            beta * y + b == m * k3 + s_2,
            t3 == lambda * k3,
    ;
    assert(k * m == -(m * t1) + m * k2 + m * t3 + m * k4) by (nonlinear_arith)
        requires
            k == -t1 + k2 + t3 + k4,
    ;
    assert(e == beta * x + bl * y + lambda * b - (s - a));
    assert(e == k * m);
    lemma_mod_multiples_basic(k, m);
}

/// The transcript up to the first challenge, and that challenge.
fn first_challenge(
    pc_gens: &RistrettoPedersenCommitment,
    point_p: &RistrettoPoint,
    point_q: &RistrettoPoint,
    z: &BLSScalar,
    point_r: &RistrettoPoint,
    point_s: &RistrettoPoint,
    comm: &BLSScalar,
) -> (r: (merlin::Transcript, RistrettoScalar))
    ensures
        r.1.value() == challenge_scalar(
            statement_log(
                pc_gens.B.encoding() + pc_gens.B_blinding.encoding(),
                z.encoding(),
                point_p.encoding(),
                point_q.encoding(),
                point_r.encoding(),
                point_s.encoding(),
                comm.encoding(),
            ),
            LABEL_BETA@,
        ),
        transcript_log(r.0) == statement_log(
            pc_gens.B.encoding() + pc_gens.B_blinding.encoding(),
            z.encoding(),
            point_p.encoding(),
            point_q.encoding(),
            point_r.encoding(),
            point_s.encoding(),
            comm.encoding(),
        ).push((true, LABEL_BETA@, Seq::<u8>::empty())),
{
    let mut t = transcript_new(&BAR_TO_ABAR_TRANSCRIPT);
    let generators = pc_gens.to_bytes();
    proof {
        assert(generators@.len() == 64);
    }
    transcript_append(&mut t, &LABEL_GENERATORS, generators.as_slice());
    transcript_append(&mut t, &LABEL_Z, &z.as_bytes());
    transcript_append(&mut t, &LABEL_P, point_p.to_compressed_bytes().as_slice());
    transcript_append(&mut t, &LABEL_Q, point_q.to_compressed_bytes().as_slice());
    transcript_append(&mut t, &LABEL_R, point_r.to_compressed_bytes().as_slice());
    transcript_append(&mut t, &LABEL_S, point_s.to_compressed_bytes().as_slice());
    transcript_append(&mut t, &LABEL_COMM, &comm.as_bytes());
    proof {
        assert(transcript_log(t) =~= statement_log(
            pc_gens.B.encoding() + pc_gens.B_blinding.encoding(),
            z.encoding(),
            point_p.encoding(),
            point_q.encoding(),
            point_r.encoding(),
            point_s.encoding(),
            comm.encoding(),
        ));
    }
    let bytes = transcript_challenge(&mut t, &LABEL_BETA);
    let beta = RistrettoScalar::from_bytes_wide(&bytes);
    (t, beta)
}

/// The second challenge, from the transcript after the first and the answers.
fn second_challenge(
    t: merlin::Transcript,
    s_1: &RistrettoScalar,
    s_2: &RistrettoScalar,
    s_3: &RistrettoScalar,
    s_4: &RistrettoScalar,
) -> (lambda: RistrettoScalar)
    ensures
        lambda.value() == challenge_scalar(
            transcript_log(t).push((false, LABEL_ANSWER@, s_1.encoding())).push(
                (false, LABEL_ANSWER@, s_2.encoding()),
            ).push((false, LABEL_ANSWER@, s_3.encoding())).push(
                (false, LABEL_ANSWER@, s_4.encoding()),
            ),
            LABEL_LAMBDA@,
        ),
{
    let mut t = t;
    transcript_append(&mut t, &LABEL_ANSWER, &s_1.as_bytes());
    transcript_append(&mut t, &LABEL_ANSWER, &s_2.as_bytes());
    transcript_append(&mut t, &LABEL_ANSWER, &s_3.as_bytes());
    transcript_append(&mut t, &LABEL_ANSWER, &s_4.as_bytes());
    let bytes = transcript_challenge(&mut t, &LABEL_LAMBDA);
    RistrettoScalar::from_bytes_wide(&bytes)
}

/// The proof that `point_p` commits to `x` with `gamma` and `point_q` to `y`
/// with `delta`, bound to `z`, made with the given random choices. Beside the
/// proof it hands out what the prover keeps and the two challenges.
pub fn prove_delegated_chaum_pedersen(
    rescue: &RescueInstance,
    randomizers: &Randomizers,
    x: &RistrettoScalar,
    gamma: &RistrettoScalar,
    y: &RistrettoScalar,
    delta: &RistrettoScalar,
    pc_gens: &RistrettoPedersenCommitment,
    point_p: &RistrettoPoint,
    point_q: &RistrettoPoint,
    z: &BLSScalar,
) -> (r: (ZKPartProof, NonZKState, RistrettoScalar, RistrettoScalar))
    ensures
        r.1 == (NonZKState { x: *x, y: *y, a: randomizers.a, b: randomizers.b, r: randomizers.r }),
        r.0.point_r.encoding() == commitment(
            pc_gens.B.encoding(),
            pc_gens.B_blinding.encoding(),
            randomizers.a.value(),
            randomizers.c.value(),
        ),
        r.0.point_s.encoding() == commitment(
            pc_gens.B.encoding(),
            pc_gens.B_blinding.encoding(),
            randomizers.b.value(),
            randomizers.d.value(),
        ),
        r.0.non_zk_part_state_commitment.value() == state_commitment_value(
            *rescue,
            state_limbs(x.value(), y.value(), randomizers.a.value(), randomizers.b.value()),
            randomizers.r.value(),
        ),
        r.2.value() == beta_of(
            pc_gens.B.encoding(),
            pc_gens.B_blinding.encoding(),
            point_p.encoding(),
            point_q.encoding(),
            *z,
            r.0,
        ),
        r.3.value() == lambda_of(
            pc_gens.B.encoding(),
            pc_gens.B_blinding.encoding(),
            point_p.encoding(),
            point_q.encoding(),
            *z,
            r.0,
        ),
        r.0.s_1.value() == (r.2.value() * x.value() + randomizers.a.value()) % ristretto_order(),
        r.0.s_2.value() == (r.2.value() * y.value() + randomizers.b.value()) % ristretto_order(),
        r.0.s_3.value() == (r.2.value() * gamma.value() + randomizers.c.value())
            % ristretto_order(),
        r.0.s_4.value() == (r.2.value() * delta.value() + randomizers.d.value())
            % ristretto_order(),
        sigma_remainder(
            r.2.value(),
            r.3.value(),
            x.value(),
            y.value(),
            randomizers.a.value(),
            randomizers.b.value(),
            r.0.s_1.value(),
            r.0.s_2.value(),
        ) % (ristretto_order() as int) == 0,
{
    let point_r = pc_gens.commit(&randomizers.a, &randomizers.c);
    let point_s = pc_gens.commit(&randomizers.b, &randomizers.d);
    let xs = sim_fr_of_scalar(x);
    let ys = sim_fr_of_scalar(y);
    let a_s = sim_fr_of_scalar(&randomizers.a);
    let bs = sim_fr_of_scalar(&randomizers.b);
    let comm = state_commitment(rescue, &xs, &ys, &a_s, &bs, &randomizers.r);
    let (t, beta) = first_challenge(pc_gens, point_p, point_q, z, &point_r, &point_s, &comm);
    let s_1 = answer(&beta, x, &randomizers.a);
    let s_2 = answer(&beta, y, &randomizers.b);
    let s_3 = answer(&beta, gamma, &randomizers.c);
    let s_4 = answer(&beta, delta, &randomizers.d);
    let lambda = second_challenge(t, &s_1, &s_2, &s_3, &s_4);
    let proof = ZKPartProof {
        non_zk_part_state_commitment: comm,
        point_r,
        point_s,
        s_1,
        s_2,
        s_3,
        s_4,
    };
    let state = NonZKState { x: *x, y: *y, a: randomizers.a, b: randomizers.b, r: randomizers.r };
    proof {
        lemma_answers_are_related(
            beta.value(),
            lambda.value(),
            x.value(),
            y.value(),
            randomizers.a.value(),
            randomizers.b.value(),
        );
    }
    (proof, state, beta, lambda)
}

/// The answer `beta value + randomizer`.
fn answer(beta: &RistrettoScalar, value: &RistrettoScalar, randomizer: &RistrettoScalar) -> (s:
    RistrettoScalar)
    ensures
        s.value() == (beta.value() * value.value() + randomizer.value()) % ristretto_order(),
{
    let _ = randomizer.as_bytes();
    let s = beta.mul(value).add(randomizer);
    proof {
        vstd::arithmetic::div_mod::lemma_add_mod_noop(
            (beta.value() * value.value()) as int,
            randomizer.value() as int,
            ristretto_order() as int,
        );
        vstd::arithmetic::div_mod::lemma_small_mod(randomizer.value(), ristretto_order());
    }
    s
}

/// Whether the answers of `proof` fit its commitments under the challenge
/// `beta`: `s_1 B + s_3 B' = beta P + R` and `s_2 B + s_4 B' = beta Q + S`.
pub open spec fn answers_fit(
    b: Seq<u8>,
    b_blinding: Seq<u8>,
    point_p: Seq<u8>,
    point_q: Seq<u8>,
    proof: ZKPartProof,
    beta: nat,
) -> bool {
    &&& commitment(
        b,
        b_blinding,
        proof.s_1.value(),
        proof.s_3.value(),
    ) == ristretto_sum(ristretto_multiple(point_p, beta), proof.point_r.encoding())
    &&& commitment(
        b,
        b_blinding,
        proof.s_2.value(),
        proof.s_4.value(),
    ) == ristretto_sum(ristretto_multiple(point_q, beta), proof.point_s.encoding())
}

/// The hypothesis under which an honest proof is accepted: the Ristretto group
/// obeys the group laws, and its scalars count additions modulo the order.
pub open spec fn ristretto_acts() -> bool {
    group_acts::<RistrettoScalar, RistrettoPoint>() && scalars_wrap::<
        RistrettoScalar,
        RistrettoPoint,
    >()
}

/// A proof made as the prover makes it is accepted: where the two commitments
/// of the statement open to `x` with `gamma` and to `y` with `delta`, the
/// commitments of the proof are those to the randomizers, and the answers are
/// made of the challenge `beta` as the protocol has them, the answers fit.
pub proof fn lemma_honest_answers_fit(
    b: Seq<u8>,
    b_blinding: Seq<u8>,
    x: nat,
    gamma: nat,
    y: nat,
    delta: nat,
    randomizers: Randomizers,
    proof: ZKPartProof,
    beta: nat,
)
    requires
        ristretto_acts(),
        ristretto_is_point(b),
        ristretto_is_point(b_blinding),
        x < ristretto_order(),
        gamma < ristretto_order(),
        y < ristretto_order(),
        delta < ristretto_order(),
        beta < ristretto_order(),
        randomizers.a.value() < ristretto_order(),
        randomizers.b.value() < ristretto_order(),
        randomizers.c.value() < ristretto_order(),
        randomizers.d.value() < ristretto_order(),
        proof.point_r.encoding() == commitment(
            b,
            b_blinding,
            randomizers.a.value(),
            randomizers.c.value(),
        ),
        proof.point_s.encoding() == commitment(
            b,
            b_blinding,
            randomizers.b.value(),
            randomizers.d.value(),
        ),
        proof.s_1.value() == (beta * x + randomizers.a.value()) % ristretto_order(),
        proof.s_2.value() == (beta * y + randomizers.b.value()) % ristretto_order(),
        proof.s_3.value() == (beta * gamma + randomizers.c.value()) % ristretto_order(),
        proof.s_4.value() == (beta * delta + randomizers.d.value()) % ristretto_order(),
    ensures
        answers_fit(
            b,
            b_blinding,
            commitment(b, b_blinding, x, gamma),
            commitment(b, b_blinding, y, delta),
            proof,
            beta,
        ),
{
    lemma_answer_combines::<RistrettoScalar, RistrettoPoint>(
        b,
        b_blinding,
        beta,
        x,
        gamma,
        randomizers.a.value(),
        randomizers.c.value(),
    );
    lemma_answer_combines::<RistrettoScalar, RistrettoPoint>(
        b,
        b_blinding,
        beta,
        y,
        delta,
        randomizers.b.value(),
        randomizers.d.value(),
    );
}

/// Checks a proof against its statement. Where the answers fit the
/// commitments under the first challenge, the two challenges are handed out
/// for the constraint system; where they do not, the proof is refused.
pub fn verify_delegated_chaum_pedersen(
    pc_gens: &RistrettoPedersenCommitment,
    point_p: &RistrettoPoint,
    point_q: &RistrettoPoint,
    z: &BLSScalar,
    proof: &ZKPartProof,
) -> (r: Result<(RistrettoScalar, RistrettoScalar), ZeiError>)
    ensures
        r is Ok <==> answers_fit(
            pc_gens.B.encoding(),
            pc_gens.B_blinding.encoding(),
            point_p.encoding(),
            point_q.encoding(),
            *proof,
            beta_of(
                pc_gens.B.encoding(),
                pc_gens.B_blinding.encoding(),
                point_p.encoding(),
                point_q.encoding(),
                *z,
                *proof,
            ),
        ),
        r is Ok ==> r->Ok_0.0.value() == beta_of(
            pc_gens.B.encoding(),
            pc_gens.B_blinding.encoding(),
            point_p.encoding(),
            point_q.encoding(),
            *z,
            *proof,
        ) && r->Ok_0.1.value() == lambda_of(
            pc_gens.B.encoding(),
            pc_gens.B_blinding.encoding(),
            point_p.encoding(),
            point_q.encoding(),
            *z,
            *proof,
        ),
        r is Err ==> r->Err_0 == ZeiError::ZKProofVerificationError,
{
    let (t, beta) = first_challenge(
        pc_gens,
        point_p,
        point_q,
        z,
        &proof.point_r,
        &proof.point_s,
        &proof.non_zk_part_state_commitment,
    );
    let lambda = second_challenge(t, &proof.s_1, &proof.s_2, &proof.s_3, &proof.s_4);
    let left_x = pc_gens.commit(&proof.s_1, &proof.s_3);
    let right_x = point_p.mul(&beta).add(&proof.point_r);
    let left_y = pc_gens.commit(&proof.s_2, &proof.s_4);
    let right_y = point_q.mul(&beta).add(&proof.point_s);
    if left_x.is_equal(&right_x) && left_y.is_equal(&right_y) {
        Ok((beta, lambda))
    } else {
        Err(ZeiError::ZKProofVerificationError)
    }
}

} // verus!

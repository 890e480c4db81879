use rand_chacha::ChaChaRng;
use rand_core::{RngCore, SeedableRng};
use zei::bar_to_abar_cs::build_bar_to_abar_cs;
use zei::bls12_381::BLSScalar;
use zei::confidential_to_anonymous::{
    bar_to_abar, gen_bar_to_abar_body, prove_eq_committed_vals, u64_to_u32_pair,
    verify_bar_to_abar, verify_bar_to_abar_body, verify_eq_committed_vals, AXfrPlonkPf,
    AnonBlindAssetRecord, BlindAssetRecord, ConvertBarAbarProof, OpenAssetRecord, OwnerMemo,
    XfrAmount, XfrAssetType, NUM_OF_ONLINE_INPUTS, TWO_POW_32,
};
use zei::delegated_chaum_pedersen::{
    prove_delegated_chaum_pedersen, verify_delegated_chaum_pedersen, Randomizers,
};
use zei::errors::ZeiError;
use zei::field_simulation::{sim_fr_of_scalar, SimFr, NUM_OF_LIMBS};
use zei::groups::{Group, Scalar};
use zei::pedersen::RistrettoPedersenCommitment;
use zei::rescue::RescueInstance;
use zei::rescue_commitment::{abar_commitment, state_commitment};
use zei::ristretto::{CompressedRistretto, RistrettoPoint, RistrettoScalar};
use zei::turbo_cs::TurboCS;

fn rescue() -> RescueInstance {
    let mut mds = Vec::new();
    for i in 0..4u64 {
        for j in 0..4u64 {
            mds.push(BLSScalar::from_u64(1 + (i + 2) * (j + 3) + i * i * 7 + j));
        }
    }
    let num_rounds = 3;
    let mut keys = Vec::new();
    for k in 0..(4 * (2 * num_rounds + 1)) as u64 {
        keys.push(BLSScalar::from_u64(0x9e37_79b9_7f4a_7c15u64.wrapping_mul(k + 1)));
    }
    let alpha_inv = [
        0x33333332cccccccdu64,
        0x217f0e679998f199u64,
        0xe14a56699d73f002u64,
        0x2e5f0fbadd72321cu64,
    ];
    RescueInstance::new(mds, keys, num_rounds, 5, alpha_inv).unwrap()
}

fn random_ristretto(rng: &mut ChaChaRng) -> RistrettoScalar {
    let mut bytes = [0u8; 64];
    rng.fill_bytes(&mut bytes);
    RistrettoScalar::from_bytes_wide(&bytes)
}

fn random_bls(rng: &mut ChaChaRng) -> BLSScalar {
    let mut bytes = [0u8; 64];
    rng.fill_bytes(&mut bytes);
    BLSScalar::from_le_bytes_mod_order(&bytes)
}

fn randomizers(rng: &mut ChaChaRng) -> Randomizers {
    Randomizers {
        a: random_ristretto(rng),
        b: random_ristretto(rng),
        c: random_ristretto(rng),
        d: random_ristretto(rng),
        r: random_bls(rng),
    }
}

fn asset_type_scalar(byte: u8) -> RistrettoScalar {
    let mut bytes = [byte; 32];
    bytes[30] = 0;
    bytes[31] = 0;
    RistrettoScalar::from_bytes(&bytes).unwrap()
}

fn build_bar(
    rng: &mut ChaChaRng,
    pc_gens: &RistrettoPedersenCommitment,
    amount: u64,
    asset_type: RistrettoScalar,
    confidential: bool,
) -> OpenAssetRecord {
    let (low, high) = u64_to_u32_pair(amount);
    let blind_low = random_ristretto(rng);
    let blind_high = random_ristretto(rng);
    let type_blind = random_ristretto(rng);
    let zero = RistrettoScalar::zero();
    let record = if confidential {
        BlindAssetRecord {
            amount: XfrAmount::Confidential((
                pc_gens.commit(&RistrettoScalar::from_u32(low), &blind_low).compress(),
                pc_gens.commit(&RistrettoScalar::from_u32(high), &blind_high).compress(),
            )),
            asset_type: XfrAssetType::Confidential(
                pc_gens.commit(&asset_type, &type_blind).compress(),
            ),
        }
    } else {
        BlindAssetRecord {
            amount: XfrAmount::NonConfidential(amount),
            asset_type: XfrAssetType::NonConfidential(asset_type),
        }
    };
    OpenAssetRecord {
        blind_asset_record: record,
        amount,
        amount_blinds: if confidential { (blind_low, blind_high) } else { (zero, zero) },
        asset_type,
        type_blind: if confidential { type_blind } else { zero },
    }
}

fn convert(amount: u64, asset_type: RistrettoScalar, confidential: bool) -> Result<(), ZeiError> {
    let mut prng = ChaChaRng::from_seed([0u8; 32]);
    let pc_gens = RistrettoPedersenCommitment::default();
    let obar = build_bar(&mut prng, &pc_gens, amount, asset_type, confidential);
    let blind = random_bls(&mut prng);
    let pubkey_x = random_bls(&mut prng);
    let (abar, proof, cs, witness) =
        bar_to_abar(rescue(), &randomizers(&mut prng), &obar, blind, pubkey_x);
    let online_inputs = verify_bar_to_abar(&obar.blind_asset_record, &abar, &proof)?;
    cs.verify_witness(&witness, &online_inputs)
}

#[test]
fn test_bar_to_abar() {
    assert!(convert(10u64, asset_type_scalar(1u8), true).is_ok());
    assert!(convert(10u64, asset_type_scalar(1u8), false).is_ok());
}

#[test]
fn conversion_of_the_smallest_and_the_largest_amount() {
    assert!(convert(0, asset_type_scalar(1u8), true).is_ok());
    assert!(convert(u64::MAX, asset_type_scalar(1u8), true).is_ok());
    assert!(convert(0, asset_type_scalar(0xffu8), false).is_ok());
    assert!(convert(u64::MAX, asset_type_scalar(0xffu8), false).is_ok());
}

#[test]
fn conversion_of_an_asset_type_of_more_than_240_bits_is_not_satisfied() {
    let mut bytes = [0u8; 32];
    bytes[30] = 1;
    let large = RistrettoScalar::from_bytes(&bytes).unwrap();
    assert_eq!(convert(7, large, true), Err(ZeiError::ZKProofVerificationError));
    bytes[30] = 0;
    bytes[29] = 0x80;
    let fits = RistrettoScalar::from_bytes(&bytes).unwrap();
    assert_eq!(convert(7, fits, true), Ok(()));
}

#[test]
fn test_eq_committed_vals_cs() {
    let mut rng = ChaChaRng::from_seed([0u8; 32]);
    let pc_gens = RistrettoPedersenCommitment::default();

    let amount = BLSScalar::from_u32(71u32);
    let asset_type = BLSScalar::from_u32(52u32);

    let x = RistrettoScalar::from_bytes(&amount.to_bytes()).unwrap();
    let y = RistrettoScalar::from_bytes(&asset_type.to_bytes()).unwrap();

    let gamma = random_ristretto(&mut rng);
    let delta = random_ristretto(&mut rng);

    let point_p = pc_gens.commit(&x, &gamma);
    let point_q = pc_gens.commit(&y, &delta);

    let z_randomizer = random_bls(&mut rng);
    let z_instance = rescue();

    let x_in_bls12_381 = BLSScalar::from_le_bytes_mod_order(&x.to_bytes());
    let y_in_bls12_381 = BLSScalar::from_le_bytes_mod_order(&y.to_bytes());

    let pubkey_x = random_bls(&mut rng);

    let z = {
        let zero = BLSScalar::zero();
        let cur = z_instance.rescue(&[z_randomizer, x_in_bls12_381, y_in_bls12_381, zero])[0];
        z_instance.rescue(&[cur, pubkey_x, zero, zero])[0]
    };
    assert_eq!(z, abar_commitment(&z_instance, &z_randomizer, &amount, &asset_type, &pubkey_x));

    let (proof, non_zk_state, beta, lambda) = prove_delegated_chaum_pedersen(
        &z_instance,
        &randomizers(&mut rng),
        &x,
        &gamma,
        &y,
        &delta,
        &pc_gens,
        &point_p,
        &point_q,
        &z,
    );

    let (mut cs, n_constraints) = build_bar_to_abar_cs(
        rescue(),
        amount,
        asset_type,
        z_randomizer,
        pubkey_x,
        &proof,
        &non_zk_state,
        &beta,
        &lambda,
    );
    assert_eq!(n_constraints, cs.size);
    assert!(n_constraints.is_power_of_two());
    assert_eq!(cs.public_vars_witness_indices.len(), NUM_OF_ONLINE_INPUTS);
    let witness = cs.get_and_clear_witness();

    let mut online_inputs = Vec::with_capacity(2 + 3 * NUM_OF_LIMBS);
    online_inputs.push(z);
    online_inputs.push(proof.non_zk_part_state_commitment);

    let beta_sim_fr = SimFr::from_biguint(&beta.to_bytes()).unwrap();
    let lambda_sim_fr = SimFr::from_biguint(&lambda.to_bytes()).unwrap();

    let beta_lambda = beta.mul(&lambda);
    let beta_lambda_sim_fr = SimFr::from_biguint(&beta_lambda.to_bytes()).unwrap();

    let s1_plus_lambda_s2 = proof.s_1.add(&proof.s_2.mul(&lambda));
    let s1_plus_lambda_s2_sim_fr = SimFr::from_biguint(&s1_plus_lambda_s2.to_bytes()).unwrap();

    online_inputs.extend_from_slice(&beta_sim_fr.limbs);
    online_inputs.extend_from_slice(&lambda_sim_fr.limbs);
    online_inputs.extend_from_slice(&beta_lambda_sim_fr.limbs);
    online_inputs.extend_from_slice(&s1_plus_lambda_s2_sim_fr.limbs);
    assert_eq!(online_inputs, verify_eq_committed_vals(z, &proof, &beta, &lambda));

    // Check the constraints
    assert!(cs.verify_witness(&witness, &online_inputs).is_ok());
    online_inputs[0] = online_inputs[0].add(&BLSScalar::one());
    assert!(cs.verify_witness(&witness, &online_inputs).is_err());
}

#[test]
fn every_public_input_is_bound() {
    let mut prng = ChaChaRng::from_seed([0u8; 32]);
    let pc_gens = RistrettoPedersenCommitment::default();
    let obar = build_bar(&mut prng, &pc_gens, 10, asset_type_scalar(1), true);
    let blind = random_bls(&mut prng);
    let pubkey_x = random_bls(&mut prng);
    let (abar, proof, cs, witness) =
        bar_to_abar(rescue(), &randomizers(&mut prng), &obar, blind, pubkey_x);
    let online_inputs = verify_bar_to_abar(&obar.blind_asset_record, &abar, &proof).unwrap();
    assert_eq!(online_inputs.len(), 26);
    assert_eq!(cs.verify_witness(&witness, &online_inputs), Ok(()));
    for i in 0..online_inputs.len() {
        let mut changed = online_inputs.clone();
        changed[i] = changed[i].add(&BLSScalar::one());
        assert_eq!(
            cs.verify_witness(&witness, &changed),
            Err(ZeiError::ZKProofVerificationError)
        );
    }
    assert!(cs.verify_witness(&witness, &online_inputs[..25]).is_err());
    assert!(cs.verify_witness(&witness[..witness.len() - 1], &online_inputs).is_err());
}

#[test]
fn a_wrong_witness_value_is_found_out() {
    let mut prng = ChaChaRng::from_seed([0u8; 32]);
    let pc_gens = RistrettoPedersenCommitment::default();
    let obar = build_bar(&mut prng, &pc_gens, 12345, asset_type_scalar(9), true);
    let blind = random_bls(&mut prng);
    let pubkey_x = random_bls(&mut prng);
    let (abar, proof, cs, witness) =
        bar_to_abar(rescue(), &randomizers(&mut prng), &obar, blind, pubkey_x);
    let online_inputs = verify_bar_to_abar(&obar.blind_asset_record, &abar, &proof).unwrap();
    let mut found = 0;
    for i in (0..witness.len()).step_by(7) {
        let mut changed = witness.clone();
        changed[i] = changed[i].add(&BLSScalar::one());
        if cs.verify_witness(&changed, &online_inputs).is_err() {
            found += 1;
        }
    }
    assert_eq!(found, (witness.len() + 6) / 7);
}

#[test]
fn the_equality_proof_is_checked() {
    let mut prng = ChaChaRng::from_seed([0u8; 32]);
    let pc_gens = RistrettoPedersenCommitment::default();
    let obar = build_bar(&mut prng, &pc_gens, 10, asset_type_scalar(1), true);
    let blind = random_bls(&mut prng);
    let pubkey_x = random_bls(&mut prng);
    let (abar, proof, _cs, _witness) =
        bar_to_abar(rescue(), &randomizers(&mut prng), &obar, blind, pubkey_x);
    let bar = obar.blind_asset_record;
    assert!(verify_bar_to_abar(&bar, &abar, &proof).is_ok());

    let mut wrong = proof;
    wrong.s_1 = wrong.s_1.add(&RistrettoScalar::one());
    assert_eq!(verify_bar_to_abar(&bar, &abar, &wrong), Err(ZeiError::ZKProofVerificationError));

    let mut wrong = proof;
    wrong.s_4 = wrong.s_4.add(&RistrettoScalar::one());
    assert_eq!(verify_bar_to_abar(&bar, &abar, &wrong), Err(ZeiError::ZKProofVerificationError));

    let mut wrong = proof;
    wrong.point_r = wrong.point_r.add(&RistrettoPoint::get_base());
    assert_eq!(verify_bar_to_abar(&bar, &abar, &wrong), Err(ZeiError::ZKProofVerificationError));

    let mut wrong = proof;
    wrong.non_zk_part_state_commitment = wrong.non_zk_part_state_commitment.add(&BLSScalar::one());
    assert_eq!(verify_bar_to_abar(&bar, &abar, &wrong), Err(ZeiError::ZKProofVerificationError));

    let other = AnonBlindAssetRecord { commitment: abar.commitment.add(&BLSScalar::one()) };
    assert_eq!(verify_bar_to_abar(&bar, &other, &proof), Err(ZeiError::ZKProofVerificationError));

    let other_record = build_bar(&mut prng, &pc_gens, 11, asset_type_scalar(1), true);
    assert_eq!(
        verify_bar_to_abar(&other_record.blind_asset_record, &abar, &proof),
        Err(ZeiError::ZKProofVerificationError)
    );
}

#[test]
fn a_commitment_that_is_no_point_is_refused() {
    let mut prng = ChaChaRng::from_seed([0u8; 32]);
    let pc_gens = RistrettoPedersenCommitment::default();
    let obar = build_bar(&mut prng, &pc_gens, 10, asset_type_scalar(1), true);
    let blind = random_bls(&mut prng);
    let pubkey_x = random_bls(&mut prng);
    let (abar, proof, _cs, _witness) =
        bar_to_abar(rescue(), &randomizers(&mut prng), &obar, blind, pubkey_x);
    let no_point = CompressedRistretto([0xffu8; 32]);
    assert!(no_point.decompress().is_none());
    let good = obar.blind_asset_record;
    let (low, high) = match good.amount {
        XfrAmount::Confidential(pair) => pair,
        XfrAmount::NonConfidential(_) => unreachable!(),
    };
    let bad_low = BlindAssetRecord {
        amount: XfrAmount::Confidential((no_point, high)),
        asset_type: good.asset_type,
    };
    assert_eq!(verify_bar_to_abar(&bad_low, &abar, &proof), Err(ZeiError::DecompressElementError));
    let bad_high = BlindAssetRecord {
        amount: XfrAmount::Confidential((low, no_point)),
        asset_type: good.asset_type,
    };
    assert_eq!(verify_bar_to_abar(&bad_high, &abar, &proof), Err(ZeiError::DecompressElementError));
    let bad_type = BlindAssetRecord {
        amount: good.amount,
        asset_type: XfrAssetType::Confidential(no_point),
    };
    assert_eq!(verify_bar_to_abar(&bad_type, &abar, &proof), Err(ZeiError::DecompressElementError));
    let bad_type_clear_amount = BlindAssetRecord {
        amount: XfrAmount::NonConfidential(10),
        asset_type: XfrAssetType::Confidential(no_point),
    };
    assert_eq!(
        verify_bar_to_abar(&bad_type_clear_amount, &abar, &proof),
        Err(ZeiError::DecompressElementError)
    );
}

#[test]
fn the_body_is_checked_as_its_parts_are() {
    let mut prng = ChaChaRng::from_seed([0u8; 32]);
    let pc_gens = RistrettoPedersenCommitment::default();
    let obar = build_bar(&mut prng, &pc_gens, 10, asset_type_scalar(1), false);
    let blind = random_bls(&mut prng);
    let pubkey_x = random_bls(&mut prng);
    let (abar, proof, cs, witness) =
        bar_to_abar(rescue(), &randomizers(&mut prng), &obar, blind, pubkey_x);
    let body = gen_bar_to_abar_body(
        &obar,
        abar,
        ConvertBarAbarProof {
            commitment_eq_proof: proof,
            pc_rescue_commitments_eq_proof: AXfrPlonkPf(vec![1, 2, 3]),
        },
        OwnerMemo(vec![4, 5]),
    );
    assert_eq!(body.input, obar.blind_asset_record);
    assert_eq!(body.output, abar);
    assert_eq!(body.memo, OwnerMemo(vec![4, 5]));
    let online = verify_bar_to_abar_body(&body).unwrap();
    assert_eq!(online, verify_bar_to_abar(&body.input, &body.output, &proof).unwrap());
    assert!(cs.verify_witness(&witness, &online).is_ok());
}

#[test]
fn the_witness_is_taken_out_of_the_system() {
    let mut rng = ChaChaRng::from_seed([7u8; 32]);
    let pc_gens = RistrettoPedersenCommitment::default();
    let x = RistrettoScalar::from_u64(5);
    let y = RistrettoScalar::from_u64(6);
    let gamma = random_ristretto(&mut rng);
    let delta = random_ristretto(&mut rng);
    let point_p = pc_gens.commit(&x, &gamma);
    let point_q = pc_gens.commit(&y, &delta);
    let blind = random_bls(&mut rng);
    let pubkey_x = random_bls(&mut rng);
    let five = BLSScalar::from_u64(5);
    let six = BLSScalar::from_u64(6);
    let z = abar_commitment(&rescue(), &blind, &five, &six, &pubkey_x);
    let (proof, state, beta, lambda) = prove_delegated_chaum_pedersen(
        &rescue(),
        &randomizers(&mut rng),
        &x,
        &gamma,
        &y,
        &delta,
        &pc_gens,
        &point_p,
        &point_q,
        &z,
    );
    let (cs, witness) =
        prove_eq_committed_vals(rescue(), five, six, blind, pubkey_x, &proof, &state, &beta, &lambda);
    assert!(cs.witness.is_empty());
    assert_eq!(witness.len(), cs.num_vars);
    let online = verify_eq_committed_vals(z, &proof, &beta, &lambda);
    assert!(cs.verify_witness(&witness, &online).is_ok());

    // an amount that is not the committed value
    let (cs, witness) = prove_eq_committed_vals(
        rescue(),
        BLSScalar::from_u64(4),
        six,
        blind,
        pubkey_x,
        &proof,
        &state,
        &beta,
        &lambda,
    );
    let z4 = abar_commitment(&rescue(), &blind, &BLSScalar::from_u64(4), &six, &pubkey_x);
    let online = verify_eq_committed_vals(z4, &proof, &beta, &lambda);
    assert!(cs.verify_witness(&witness, &online).is_err());
}

#[test]
fn the_sigma_proof_verifies_and_gives_the_same_challenges() {
    let mut rng = ChaChaRng::from_seed([3u8; 32]);
    let pc_gens = RistrettoPedersenCommitment::default();
    let x = random_ristretto(&mut rng);
    let y = random_ristretto(&mut rng);
    let gamma = random_ristretto(&mut rng);
    let delta = random_ristretto(&mut rng);
    let point_p = pc_gens.commit(&x, &gamma);
    let point_q = pc_gens.commit(&y, &delta);
    let z = random_bls(&mut rng);
    let nonces = randomizers(&mut rng);
    let (proof, state, beta, lambda) = prove_delegated_chaum_pedersen(
        &rescue(),
        &nonces,
        &x,
        &gamma,
        &y,
        &delta,
        &pc_gens,
        &point_p,
        &point_q,
        &z,
    );
    assert_eq!(state.x, x);
    assert_eq!(state.y, y);
    assert_eq!(state.a, nonces.a);
    assert_eq!(state.b, nonces.b);
    assert_eq!(state.r, nonces.r);
    assert_eq!(proof.s_1, beta.mul(&x).add(&nonces.a));
    assert_eq!(proof.s_2, beta.mul(&y).add(&nonces.b));
    assert_eq!(proof.s_3, beta.mul(&gamma).add(&nonces.c));
    assert_eq!(proof.s_4, beta.mul(&delta).add(&nonces.d));
    assert_eq!(proof.point_r, pc_gens.commit(&nonces.a, &nonces.c));
    assert_eq!(proof.point_s, pc_gens.commit(&nonces.b, &nonces.d));
    assert_eq!(
        proof.non_zk_part_state_commitment,
        state_commitment(
            &rescue(),
            &sim_fr_of_scalar(&x),
            &sim_fr_of_scalar(&y),
            &sim_fr_of_scalar(&nonces.a),
            &sim_fr_of_scalar(&nonces.b),
            &nonces.r
        )
    );
    let checked = verify_delegated_chaum_pedersen(&pc_gens, &point_p, &point_q, &z, &proof);
    assert_eq!(checked, Ok((beta, lambda)));
    assert_ne!(beta, lambda);
    // the relation that the constraint system asks for
    let left = beta.mul(&x).add(&beta.mul(&lambda).mul(&y)).add(&lambda.mul(&nonces.b));
    let right = proof.s_1.add(&lambda.mul(&proof.s_2)).sub(&nonces.a);
    assert_eq!(left, right);
    // another statement gives other challenges
    let other = verify_delegated_chaum_pedersen(&pc_gens, &point_q, &point_p, &z, &proof);
    assert_eq!(other, Err(ZeiError::ZKProofVerificationError));
}

#[test]
fn constants_of_the_conversion() {
    assert_eq!(TWO_POW_32, 1u64 << 32);
    assert_eq!(NUM_OF_ONLINE_INPUTS, 26);
    assert_eq!(u64_to_u32_pair(0x1234_5678_9abc_def0), (0x9abc_def0, 0x1234_5678));
    assert_eq!(
        zei::transcript::BAR_TO_ABAR_TRANSCRIPT.to_vec(),
        b"BAR to ABAR proof".to_vec()
    );
    let cs = TurboCS::new(rescue());
    assert_eq!(cs.num_vars, 1);
    assert_eq!(cs.size, 1);
}

#[test]
fn the_system_is_the_same_whatever_is_converted() {
    let mut rng = ChaChaRng::from_seed([7u8; 32]);
    let pc_gens = RistrettoPedersenCommitment::default();
    let mut systems = Vec::new();
    for (amount, asset_type) in [(0u64, 1u64), (u64::MAX, 0xffff_ffff_ffffu64)] {
        let x = RistrettoScalar::from_u64(amount);
        let y = RistrettoScalar::from_u64(asset_type);
        let gamma = random_ristretto(&mut rng);
        let delta = random_ristretto(&mut rng);
        let blind = random_bls(&mut rng);
        let pubkey_x = random_bls(&mut rng);
        let amount_in_field = BLSScalar::from_u64(amount);
        let asset_type_in_field = BLSScalar::from_u64(asset_type);
        let z = abar_commitment(&rescue(), &blind, &amount_in_field, &asset_type_in_field, &pubkey_x);
        let (proof, non_zk_state, beta, lambda) = prove_delegated_chaum_pedersen(
            &rescue(),
            &randomizers(&mut rng),
            &x,
            &gamma,
            &y,
            &delta,
            &pc_gens,
            &pc_gens.commit(&x, &gamma),
            &pc_gens.commit(&y, &delta),
            &z,
        );
        let (cs, n_constraints) = build_bar_to_abar_cs(
            rescue(),
            amount_in_field,
            asset_type_in_field,
            blind,
            pubkey_x,
            &proof,
            &non_zk_state,
            &beta,
            &lambda,
        );
        assert_eq!(n_constraints, 512);
        assert_eq!(cs.size, 512);
        assert_eq!(cs.gates.len(), 512);
        assert_eq!(cs.num_vars, 294);
        assert_eq!(cs.witness.len(), 294);
        systems.push(cs);
    }
    assert_eq!(systems[0].gates, systems[1].gates);
    assert_eq!(
        systems[0].public_vars_witness_indices,
        systems[1].public_vars_witness_indices
    );
    assert_ne!(systems[0].witness, systems[1].witness);
}

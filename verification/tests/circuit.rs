use zei::bls12_381::BLSScalar;
use zei::errors::ZeiError;
use zei::field_simulation::{
    sim_fr_of_scalar, SimFr, BIT_PER_LIMB, NUM_OF_LIMBS, NUM_OF_LIMBS_MUL,
};
use zei::groups::Scalar;
use zei::rescue::RescueInstance;
use zei::rescue_commitment::{abar_commitment, pack_limbs, state_commitment};
use zei::ristretto::{ristretto_order_bytes, RistrettoScalar};
use zei::signed::{scalar_of_i64, signed_small};
use zei::sim_fr_var::{integer_gate, SimFrMulVar, SimFrVar};
use zei::turbo_cs::{gate_left, is_below_power_of_two, Gate, TurboCS};

fn rescue() -> RescueInstance {
    let mut mds = Vec::new();
    for i in 0..4u64 {
        for j in 0..4u64 {
            mds.push(BLSScalar::from_u64(1 + (i + 2) * (j + 3) + i * i * 7 + j));
        }
    }
    let num_rounds = 3;
    let mut keys = Vec::new();
    for k in 0..(4 * (2 * num_rounds + 1)) as u64 {
        keys.push(BLSScalar::from_u64(0x9e37_79b9_7f4a_7c15u64.wrapping_mul(k + 1)));
    }
    RescueInstance::new(mds, keys, num_rounds, 5, ALPHA_INV).unwrap()
}

const ALPHA_INV: [u64; 4] =
    [0x33333332cccccccdu64, 0x217f0e679998f199u64, 0xe14a56699d73f002u64, 0x2e5f0fbadd72321cu64];

fn number(bytes: &[u8]) -> SimFr {
    SimFr::from_biguint(bytes).unwrap()
}

fn bytes_of_u128(x: u128) -> Vec<u8> {
    x.to_le_bytes().to_vec()
}

#[test]
fn constants_of_the_simulation() {
    assert_eq!(NUM_OF_LIMBS, 6);
    assert_eq!(BIT_PER_LIMB, 43);
    assert_eq!(NUM_OF_LIMBS_MUL, 2 * NUM_OF_LIMBS - 1);
    // the order of the Ristretto group has 253 bits
    let order = ristretto_order_bytes();
    assert_eq!(order[31], 0x10);
    assert!(NUM_OF_LIMBS * BIT_PER_LIMB >= 253 + 2);
}

#[test]
fn limbs_of_numbers() {
    let x = number(&bytes_of_u128((5u128 << 86) + (3u128 << 43) + 7));
    assert_eq!(x.limbs[0], BLSScalar::from_u32(7));
    assert_eq!(x.limbs[1], BLSScalar::from_u32(3));
    assert_eq!(x.limbs[2], BLSScalar::from_u32(5));
    assert_eq!(x.limbs[3], BLSScalar::zero());
    assert_eq!(number(&[]).limbs, [BLSScalar::zero(); 6]);
    assert_eq!(number(&[0xff; 5]).limbs[0], BLSScalar::from_u64((1 << 40) - 1));
    let full = number(&[0xff; 32]);
    for i in 0..5 {
        assert_eq!(full.limbs[i], BLSScalar::from_u64((1 << 43) - 1));
    }
    assert_eq!(full.limbs[5], BLSScalar::from_u64((1 << 41) - 1));
}

#[test]
fn to_limbs_and_back_loses_nothing() {
    let mut bytes = vec![0u8; 33];
    for (i, b) in bytes.iter_mut().enumerate() {
        *b = (i as u8).wrapping_mul(37).wrapping_add(11);
    }
    bytes[32] = 3;
    let x = number(&bytes);
    assert_eq!(x.to_biguint(), bytes);
    assert_eq!(number(&x.to_biguint()), x);

    // the largest number that has limbs, and the smallest that has none
    let mut largest = vec![0xffu8; 33];
    largest[32] = 3;
    let x = number(&largest);
    assert_eq!(x.limbs, [BLSScalar::from_u64((1 << 43) - 1); 6]);
    assert_eq!(x.to_biguint(), largest);
    let mut too_large = vec![0u8; 33];
    too_large[32] = 4;
    assert_eq!(SimFr::from_biguint(&too_large), Err(ZeiError::DeserializationError));
    assert_eq!(SimFr::from_biguint(&[1u8; 40]), Err(ZeiError::DeserializationError));
    let mut padded = vec![0u8; 40];
    padded[0] = 9;
    assert_eq!(number(&padded), number(&[9]));
    assert_eq!(number(&[9]).to_biguint(), vec![9]);

    let scalar = RistrettoScalar::zero().sub(&RistrettoScalar::one());
    let limbs = sim_fr_of_scalar(&scalar);
    assert_eq!(limbs, number(&scalar.to_bytes()));
    assert_eq!(limbs.to_biguint(), scalar.to_bytes());
}

#[test]
fn the_permutation() {
    let instance = rescue();
    let input = [
        BLSScalar::from_u32(1),
        BLSScalar::from_u32(2),
        BLSScalar::from_u32(3),
        BLSScalar::from_u32(4),
    ];
    let output = instance.rescue(&input);
    assert_eq!(output, rescue().rescue(&input));
    assert_ne!(output, input);
    let mut other = input;
    other[3] = BLSScalar::from_u32(5);
    let changed = instance.rescue(&other);
    for i in 0..4 {
        assert_ne!(output[i], changed[i]);
    }

    // one round by hand: the first key, the inverse box, the matrix and a key,
    // the forward box, the matrix and a key
    let one = |value: u64| BLSScalar::from_u64(value);
    let mds = vec![one(2), one(3), one(5), one(7), one(11), one(13), one(17), one(19), one(23),
        one(29), one(31), one(37), one(41), one(43), one(47), one(53)];
    let keys: Vec<BLSScalar> = (1..=12u64).map(|k| one(100 * k)).collect();
    let small = RescueInstance::new(mds.clone(), keys.clone(), 1, 5, ALPHA_INV).unwrap();
    let mut state: Vec<BLSScalar> = (0..4).map(|i| input[i].add(&keys[i])).collect();
    for step in 1..=2 {
        let boxed: Vec<BLSScalar> = state
            .iter()
            .map(|s| if step == 1 { s.pow(&ALPHA_INV) } else { s.pow(&[5, 0, 0, 0]) })
            .collect();
        state = (0..4)
            .map(|i| {
                let mut acc = keys[4 * step + i];
                for j in 0..4 {
                    acc = acc.add(&mds[4 * i + j].mul(&boxed[j]));
                }
                acc
            })
            .collect();
    }
    assert_eq!(small.rescue(&input).to_vec(), state);

    assert!(RescueInstance::new(mds.clone(), keys.clone(), 2, 5, ALPHA_INV).is_none());
    assert!(RescueInstance::new(mds[..15].to_vec(), keys.clone(), 1, 5, ALPHA_INV).is_none());
    assert!(RescueInstance::new(mds, keys[..4].to_vec(), 0, 5, ALPHA_INV).is_some());
}

#[test]
fn commitments_with_the_permutation() {
    let instance = rescue();
    let zero = BLSScalar::zero();
    let blind = BLSScalar::from_u32(17);
    let amount = BLSScalar::from_u32(10);
    let asset_type = BLSScalar::from_u32(3);
    let pubkey_x = BLSScalar::from_u32(99);
    let cur = instance.rescue(&[blind, amount, asset_type, zero])[0];
    let z = instance.rescue(&[cur, pubkey_x, zero, zero])[0];
    assert_eq!(abar_commitment(&instance, &blind, &amount, &asset_type, &pubkey_x), z);

    let x = number(&bytes_of_u128((1u128 << 43) + 2));
    let y = number(&bytes_of_u128(3));
    let a = number(&[0xff; 32]);
    let b = number(&bytes_of_u128((7u128 << 86) + 5));
    let packed = pack_limbs(&x, &y, &a, &b);
    // x has the limbs 2, 1, 0, 0, 0, 0: the first group is its first five limbs
    assert_eq!(packed[0], BLSScalar::from_u64((1 << 43) + 2));
    // the second group: the last limb of x, then four limbs of y
    assert_eq!(packed[1], BLSScalar::from_u64(3 << 43));
    // the last group has the last four limbs of b only
    assert_eq!(packed[4], BLSScalar::from_u64(7));
    let r = BLSScalar::from_u32(1234);
    let h1 = instance.rescue(&[packed[0], packed[1], packed[2], packed[3]])[0];
    let comm = instance.rescue(&[h1, packed[4], r, zero])[0];
    assert_eq!(state_commitment(&instance, &x, &y, &a, &b, &r), comm);
}

#[test]
fn integers_around_zero() {
    assert_eq!(signed_small(&BLSScalar::from_u32(5)), Some(5));
    assert_eq!(signed_small(&BLSScalar::zero().sub(&BLSScalar::from_u32(5))), Some(-5));
    assert_eq!(signed_small(&scalar_of_i64(-1)), Some(-1));
    assert_eq!(signed_small(&scalar_of_i64(i64::MIN)), Some(i64::MIN as i128));
    assert_eq!(signed_small(&scalar_of_i64(i64::MAX)), Some(i64::MAX as i128));
    assert_eq!(scalar_of_i64(-3).add(&BLSScalar::from_u32(3)), BLSScalar::zero());
    let two_64 = BLSScalar::from_u64(1 << 32).mul(&BLSScalar::from_u64(1 << 32));
    let large = two_64.mul(&two_64);
    assert_eq!(signed_small(&large), None);
    assert_eq!(signed_small(&BLSScalar::zero().sub(&large)), None);
    assert!(is_below_power_of_two(&BLSScalar::from_u64(255), 8));
    assert!(!is_below_power_of_two(&BLSScalar::from_u64(256), 8));
    assert!(!is_below_power_of_two(&BLSScalar::one(), 0));
    assert!(is_below_power_of_two(&BLSScalar::zero(), 0));
    assert!(is_below_power_of_two(&scalar_of_i64(-1), 255));
    assert!(!is_below_power_of_two(&scalar_of_i64(-1), 254));
    assert!(is_below_power_of_two(&scalar_of_i64(-1), 100_000));
}

#[test]
fn gates_of_a_small_system() {
    let mut cs = TurboCS::new(rescue());
    assert_eq!(cs.zero_var(), 0);
    let three = cs.new_variable(BLSScalar::from_u32(3));
    let four = cs.new_variable(BLSScalar::from_u32(4));
    assert_eq!((three, four), (1, 2));
    let one = BLSScalar::one();
    let zero = BLSScalar::zero();
    let two = BLSScalar::from_u32(2);
    // 1*3 + 2*4 + 1*(3*4) + 2 = 25
    let out = cs.arithmetic_gate(&[three, four, 0, 0], &[one, two, zero, zero, one, zero, two]);
    assert_eq!(cs.witness[out], BLSScalar::from_u32(25));
    let combined = cs.linear_combine(&[three, four, out, 0], two, two, two, two);
    assert_eq!(cs.witness[combined], BLSScalar::from_u32(64));
    let product = integer_gate(&mut cs, &[0, 0, three, four], &[zero, zero, zero, zero, zero, one, zero]);
    assert_eq!(cs.witness[product], BLSScalar::from_u32(12));
    assert_eq!(
        gate_left(&[one, two, zero, zero, one, zero, two, one], &BLSScalar::from_u32(3), &BLSScalar::from_u32(4), &zero, &zero),
        BLSScalar::from_u32(25)
    );
    cs.range_check(out, 5);
    let hashed = cs.rescue_hash(&[three, four, out, 0]);
    let expected =
        rescue().rescue(&[BLSScalar::from_u32(3), BLSScalar::from_u32(4), BLSScalar::from_u32(25), zero]);
    for i in 0..4 {
        assert_eq!(cs.witness[hashed[i]], expected[i]);
    }
    cs.prepare_pi_variable(out);
    cs.prepare_pi_variable(hashed[0]);
    let gates = cs.size;
    assert_eq!(gates, cs.gates.len());
    assert_eq!(gates, 6);
    assert_eq!(cs.gates[4], Gate::Range { var: out, bits: 5 });
    cs.pad();
    assert_eq!(cs.size, 8);
    assert_eq!(cs.gates.len(), 8);
    cs.pad();
    assert_eq!(cs.size, 8);
    let witness = cs.witness.clone();
    let online = vec![BLSScalar::from_u32(25), expected[0]];
    assert_eq!(cs.verify_witness(&witness, &online), Ok(()));
    let taken = cs.get_and_clear_witness();
    assert_eq!(taken, witness);
    assert!(cs.witness.is_empty());
    assert_eq!(cs.verify_witness(&taken, &online), Ok(()));

    // a public input that is not the value
    let wrong = vec![BLSScalar::from_u32(26), expected[0]];
    assert_eq!(cs.verify_witness(&taken, &wrong), Err(ZeiError::ZKProofVerificationError));
    // a value that breaks the arithmetic, the range or the hash
    for (at, value) in [(out, 24u32), (three, 2), (hashed[1], 0), (0, 1)] {
        let mut changed = taken.clone();
        changed[at] = BLSScalar::from_u32(value);
        let mut inputs = online.clone();
        inputs[0] = changed[out];
        assert_eq!(cs.verify_witness(&changed, &inputs), Err(ZeiError::ZKProofVerificationError));
    }
    // a value out of range
    let mut cs = TurboCS::new(rescue());
    let v = cs.new_variable(BLSScalar::from_u32(32));
    cs.range_check(v, 5);
    assert!(cs.verify_witness(&cs.witness, &[]).is_err());
    let mut cs = TurboCS::new(rescue());
    let v = cs.new_variable(BLSScalar::from_u32(31));
    let w = cs.new_variable(BLSScalar::from_u32(31));
    cs.range_check(v, 5);
    cs.equal(v, w);
    assert!(cs.verify_witness(&cs.witness, &[]).is_ok());
    let u = cs.new_variable(BLSScalar::from_u32(30));
    cs.equal(v, u);
    assert!(cs.verify_witness(&cs.witness, &[]).is_err());
}

fn satisfied(cs: &TurboCS) -> bool {
    cs.verify_witness(&cs.witness, &[]).is_ok()
}

#[test]
fn witnesses_bounded_in_their_bits() {
    // 2^64 does not fit into 64 bits, 2^64 - 1 does
    let mut cs = TurboCS::new(rescue());
    SimFrVar::alloc_witness_bounded_total_bits(&mut cs, &number(&bytes_of_u128(1 << 64)), 64);
    assert!(!satisfied(&cs));
    let mut cs = TurboCS::new(rescue());
    SimFrVar::alloc_witness_bounded_total_bits(&mut cs, &number(&bytes_of_u128((1 << 64) - 1)), 64);
    assert!(satisfied(&cs));
    let mut cs = TurboCS::new(rescue());
    SimFrVar::alloc_witness_bounded_total_bits(&mut cs, &number(&bytes_of_u128(1 << 64)), 65);
    assert!(satisfied(&cs));

    let mut below = [0xffu8; 30];
    for (bits, bytes, fits) in [
        (240usize, below.to_vec(), true),
        (239, below.to_vec(), false),
        (258, vec![0xff; 32], true),
        (0, vec![], true),
        (0, vec![1], false),
        (43, bytes_of_u128((1 << 43) - 1), true),
        (43, bytes_of_u128(1 << 43), false),
        (300, vec![0xff; 32], true),
    ] {
        let mut cs = TurboCS::new(rescue());
        let var = SimFrVar::alloc_witness_bounded_total_bits(&mut cs, &number(&bytes), bits);
        assert_eq!(satisfied(&cs), fits);
        assert_eq!(var.var, [1, 2, 3, 4, 5, 6]);
        assert_eq!(cs.size, 7);
    }
    below[29] = 0x7f;
    let mut cs = TurboCS::new(rescue());
    SimFrVar::alloc_witness_bounded_total_bits(&mut cs, &number(&below), 239);
    assert!(satisfied(&cs));

    // limbs that are not in normal form
    let mut odd = number(&[1]);
    odd.limbs[2] = BLSScalar::from_u64(1 << 43);
    let mut cs = TurboCS::new(rescue());
    SimFrVar::alloc_witness(&mut cs, &odd);
    assert!(!satisfied(&cs));
    let mut cs = TurboCS::new(rescue());
    SimFrVar::alloc_input(&mut cs, &odd);
    assert!(!satisfied(&cs));
    let mut cs = TurboCS::new(rescue());
    let var = SimFrVar::alloc_input(&mut cs, &number(&[0xff; 32]));
    assert!(satisfied(&cs));
    assert_eq!(var.num_of_additions_over_normal_form, 0);
    assert!(cs.public_vars_witness_indices.is_empty());
}

fn limb(cs: &TurboCS, var: usize) -> i128 {
    signed_small(&cs.witness[var]).unwrap()
}

#[test]
fn sums_and_products_of_simulated_elements() {
    let mut cs = TurboCS::new(rescue());
    let a = SimFrVar::alloc_witness(&mut cs, &number(&bytes_of_u128((5u128 << 86) + (3 << 43) + 7)));
    let b = SimFrVar::alloc_witness(&mut cs, &number(&bytes_of_u128((2u128 << 86) + (9 << 43) + 1)));
    let sum = a.add(&mut cs, &b);
    assert_eq!(sum.num_of_additions_over_normal_form, 1);
    assert_eq!([limb(&cs, sum.var[0]), limb(&cs, sum.var[1]), limb(&cs, sum.var[2])], [8, 12, 7]);
    let difference = a.sub(&mut cs, &b);
    assert_eq!(difference.num_of_additions_over_normal_form, 1);
    assert_eq!(
        [limb(&cs, difference.var[0]), limb(&cs, difference.var[1]), limb(&cs, difference.var[2])],
        [6, -6, 3]
    );
    let product = a.mul(&mut cs, &b);
    assert_eq!(product.prod_of_num_of_additions, 1);
    let limbs: Vec<i128> = product.var.iter().map(|v| limb(&cs, *v)).collect();
    assert_eq!(limbs, vec![7, 63 + 3, 14 + 27 + 5, 6 + 45, 10, 0, 0, 0, 0, 0, 0]);
    let twice = product.add(&mut cs, &product);
    assert_eq!(twice.prod_of_num_of_additions, 2);
    assert_eq!(limb(&cs, twice.var[2]), 92);
    let less = twice.sub(&mut cs, &sum);
    assert_eq!(less.prod_of_num_of_additions, 4);
    let limbs: Vec<i128> = less.var.iter().map(|v| limb(&cs, *v)).collect();
    assert_eq!(limbs, vec![14 - 8, 132 - 12, 92 - 7, 102, 20, 0, 0, 0, 0, 0, 0]);
    let wide = sum.mul(&mut cs, &difference);
    assert_eq!(wide.prod_of_num_of_additions, 4);
    assert_eq!(limb(&cs, wide.var[1]), 8 * -6 + 12 * 6);
    assert!(satisfied(&cs));
}

fn checked(left: &[u8], right: &[u8], taken: &[u8]) -> bool {
    let mut cs = TurboCS::new(rescue());
    let a = SimFrVar::alloc_witness(&mut cs, &number(left));
    let b = SimFrVar::alloc_witness(&mut cs, &number(right));
    let c = SimFrVar::alloc_witness(&mut cs, &number(taken));
    let product: SimFrMulVar = a.mul(&mut cs, &b);
    let rest = product.sub(&mut cs, &c);
    rest.enforce_zero(&mut cs);
    satisfied(&cs)
}

#[test]
fn multiples_of_the_order_are_zero() {
    let order = ristretto_order_bytes();
    let mut twice = vec![0u8; 33];
    let mut carry = 0u16;
    for i in 0..32 {
        let doubled = 2 * order[i] as u16 + carry;
        twice[i] = doubled as u8;
        carry = doubled >> 8;
    }
    twice[32] = carry as u8;
    // a b - c for c = a b, and for c = a b less the order
    assert!(checked(&[6], &[7], &[42]));
    assert!(!checked(&[6], &[7], &[41]));
    assert!(!checked(&[6], &[7], &[43]));
    assert!(checked(&order, &[1], &[0]));
    assert!(checked(&order, &[2], &[0]));
    assert!(checked(&order, &order, &order));
    assert!(checked(&[2], &order, &order));
    assert!(checked(&twice, &[3], &order));
    assert!(!checked(&order, &[1], &[1]));
    // less than zero: 0 - the order is a multiple, but a negative one
    assert!(!checked(&[0], &[0], &order));
    assert!(checked(&[0], &[0], &[0]));
    // the product of two large scalars
    let largest = RistrettoScalar::zero().sub(&RistrettoScalar::one());
    let square = largest.mul(&largest);
    assert_eq!(square, RistrettoScalar::one());
    assert!(checked(&largest.to_bytes(), &largest.to_bytes(), &square.to_bytes()));
    assert!(!checked(&largest.to_bytes(), &largest.to_bytes(), &[2]));
    let x = RistrettoScalar::from_u64(0xdead_beef_0bad_cafe).mul(&largest);
    let y = RistrettoScalar::from_u64(0x1234_5678_9abc_def1).mul(&x);
    assert!(checked(&x.to_bytes(), &y.to_bytes(), &x.mul(&y).to_bytes()));
    assert!(!checked(&x.to_bytes(), &y.to_bytes(), &x.mul(&y).add(&RistrettoScalar::one()).to_bytes()));
}

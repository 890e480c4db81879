use ark_bls12_381::{Bls12_381, G1Affine, G2Affine};
use ark_ec::pairing::Pairing;
use ark_ec::AffineRepr;
use ark_serialize::CanonicalSerialize;
use core::cmp::Ordering;
use zei::bls12_381::{BLSScalar, BLSG1, BLSG2, BLSGt};
use zei::bytes::{order_of_bytes, same_bytes, small_value};
use zei::ed25519::{Ed25519Point, Ed25519Scalar, COFACTOR, UNCHECKED_SIZE};
use zei::errors::ZeiError;
use zei::groups::{scalar_to_radix_2_power_w, Group, Scalar};
use zei::multi_exp::MultiExp;
use zei::pedersen::RistrettoPedersenCommitment;
use zei::radix::{signed_digits, two_to_the, windows_of_bytes};
use zei::ristretto::{
    ristretto_order_bytes, CompressedRistretto, RistrettoPoint, RistrettoScalar,
};

fn test_scalar_operations<S: Scalar + PartialEq + std::fmt::Debug>() {
    let a = S::from_u32(40);
    let b = S::from_u32(60);
    assert_eq!(a.add(&b), S::from_u32(100));
    assert_eq!(a.mul(&b), S::from_u32(2400));
    assert_eq!(S::from_u64(1 << 40).mul(&S::from_u64(1 << 40)).to_bytes()[10], 1);
    assert_eq!(S::from_u64(u64::MAX).add(&S::from_u32(1)).to_bytes()[..9], [0, 0, 0, 0, 0, 0, 0, 0, 1]);
}

fn test_scalar_serialization<S: Scalar + PartialEq + std::fmt::Debug>() {
    let a = S::from_u32(100);
    let bytes = a.to_bytes();
    assert_eq!(bytes.len(), 32);
    assert_eq!(bytes[0], 100);
    assert_eq!(S::from_bytes(&bytes), Ok(a));
    assert_eq!(S::from_bytes(&bytes[..31]), Err(ZeiError::DeserializationError));
    assert_eq!(S::from_bytes(&[0xffu8; 32]), Err(ZeiError::DeserializationError));
}

#[test]
fn scalar_ops() {
    test_scalar_operations::<RistrettoScalar>();
    test_scalar_operations::<BLSScalar>();
    test_scalar_operations::<Ed25519Scalar>();
}

#[test]
fn scalar_serialization() {
    test_scalar_serialization::<RistrettoScalar>();
    test_scalar_serialization::<BLSScalar>();
    test_scalar_serialization::<Ed25519Scalar>();
}

#[test]
fn the_orders_of_the_fields() {
    // the order of the Ristretto group, and one less
    let order = ristretto_order_bytes();
    assert_eq!(order[0], 0xed);
    assert_eq!(order[31], 0x10);
    assert_eq!(RistrettoScalar::from_bytes(&order), Err(ZeiError::DeserializationError));
    assert_eq!(Ed25519Scalar::from_bytes(&order), Err(ZeiError::DeserializationError));
    let mut below = order;
    below[0] -= 1;
    let largest = RistrettoScalar::from_bytes(&below).unwrap();
    assert_eq!(largest.add(&RistrettoScalar::one()), RistrettoScalar::zero());
    assert_eq!(RistrettoScalar::zero().sub(&RistrettoScalar::one()), largest);
    assert_eq!(largest.mul(&largest), RistrettoScalar::one());
    let ed_largest = Ed25519Scalar::from_bytes(&below).unwrap();
    assert_eq!(ed_largest.add(&Ed25519Scalar::from_u32(1)), Ed25519Scalar::from_u32(0));
    assert_eq!(ed_largest.mul(&ed_largest), Ed25519Scalar::from_u32(1));

    // the order of the scalar field of BLS12-381, and one less
    let mut bls_order = [0u8; 32];
    let hex = "73eda753299d7d483339d80809a1d80553bda402fffe5bfeffffffff00000001";
    for i in 0..32 {
        bls_order[31 - i] = u8::from_str_radix(&hex[2 * i..2 * i + 2], 16).unwrap();
    }
    assert_eq!(BLSScalar::from_bytes(&bls_order), Err(ZeiError::DeserializationError));
    assert_eq!(BLSScalar::from_le_bytes_mod_order(&bls_order), BLSScalar::zero());
    bls_order[0] -= 1;
    let largest = BLSScalar::from_bytes(&bls_order).unwrap();
    assert_eq!(largest.add(&BLSScalar::one()), BLSScalar::zero());
    assert_eq!(BLSScalar::zero().sub(&BLSScalar::one()), largest);
    assert_eq!(largest.mul(&largest), BLSScalar::one());
    assert!(largest.is_equal(&largest));
    assert!(!largest.is_equal(&BLSScalar::one()));
}

#[test]
fn powers_in_the_field() {
    let three = BLSScalar::from_u32(3);
    assert_eq!(three.pow(&[0, 0, 0, 0]), BLSScalar::one());
    assert_eq!(three.pow(&[5, 0, 0, 0]), BLSScalar::from_u32(243));
    assert_eq!(three.pow(&[0, 1, 0, 0]), three.pow(&[1 << 63, 0, 0, 0]).pow(&[2, 0, 0, 0]));
    // the fifth root
    let inverse = [
        0x33333332cccccccdu64,
        0x217f0e679998f199u64,
        0xe14a56699d73f002u64,
        0x2e5f0fbadd72321cu64,
    ];
    assert_eq!(three.pow(&inverse).pow(&[5, 0, 0, 0]), three);
}

#[test]
fn scalars_of_wide_bytes() {
    let mut wide = [0u8; 64];
    wide[32] = 1;
    // 2^256 modulo the order
    let reduced = RistrettoScalar::from_bytes_wide(&wide);
    let two_128 = RistrettoScalar::from_u64(1 << 32).mul(&RistrettoScalar::from_u64(1 << 32));
    let two_128 = two_128.mul(&two_128);
    assert_eq!(reduced, two_128.mul(&two_128));
    let reduced = BLSScalar::from_le_bytes_mod_order(&wide);
    let two_64 = BLSScalar::from_u64(1 << 32).mul(&BLSScalar::from_u64(1 << 32));
    let two_128 = two_64.mul(&two_64);
    assert_eq!(reduced, two_128.mul(&two_128));
    assert_eq!(RistrettoScalar::from_u64(9).as_bytes()[0], 9);
    assert!(RistrettoScalar::from_u64(9).is_equal(&RistrettoScalar::from_u32(9)));
    assert!(!RistrettoScalar::from_u64(9).is_equal(&RistrettoScalar::from_u32(8)));
}

fn test_group<S: Scalar, G: Group<S> + PartialEq + std::fmt::Debug>() {
    let base = G::get_base();
    let zero = G::get_identity();
    assert_ne!(base, zero);
    assert_eq!(base.add(&zero), base);
    assert_eq!(base.sub(&base), zero);
    assert_eq!(base.mul(&S::from_u32(0)), zero);
    assert_eq!(base.mul(&S::from_u32(1)), base);
    let two = base.add(&base);
    assert_ne!(two, base);
    assert_eq!(base.mul(&S::from_u32(2)), two);
    assert_eq!(two.add(&base), base.mul(&S::from_u32(3)));
    assert_eq!(two.sub(&base), base);
    assert_eq!(base.mul(&S::from_u32(7)).mul(&S::from_u32(11)), base.mul(&S::from_u32(77)));
    let five = S::from_u32(5);
    let nine = S::from_u32(9);
    assert_eq!(G::naive_multi_exp(&[&five, &nine], &[&base, &two]), base.mul(&S::from_u32(23)));
    assert_eq!(G::multi_exp(&[&five, &nine], &[&base, &two]), base.mul(&S::from_u32(23)));
    assert_eq!(G::vartime_multi_exp(&[&five, &nine], &[&base, &two]), base.mul(&S::from_u32(23)));
}

#[test]
fn groups() {
    test_group::<RistrettoScalar, RistrettoPoint>();
    test_group::<BLSScalar, BLSG1>();
    test_group::<BLSScalar, BLSG2>();
    test_group::<BLSScalar, BLSGt>();
    test_group::<Ed25519Scalar, Ed25519Point>();
}

#[test]
fn test_multiexp_ed25519() {
    let base = Ed25519Point::get_base();
    let mut scalars = Vec::new();
    let mut points = Vec::new();
    let mut p = base;
    for i in 0..5u64 {
        scalars.push(Ed25519Scalar::from_u64(u64::MAX - 31 * i));
        p = p.double().add(&base);
        points.push(p);
    }
    let s: Vec<&Ed25519Scalar> = scalars.iter().collect();
    let e: Vec<&Ed25519Point> = points.iter().collect();
    assert_eq!(Ed25519Point::vartime_multi_exp(&s, &e), Ed25519Point::naive_multi_exp(&s, &e));
}

#[test]
fn ristretto_points_and_bytes() {
    let base = RistrettoPoint::get_base();
    let bytes = base.to_compressed_bytes();
    assert_eq!(bytes.len(), 32);
    assert_eq!(
        bytes,
        vec![
            0xe2, 0xf2, 0xae, 0x0a, 0x6a, 0xbc, 0x4e, 0x71, 0xa8, 0x84, 0xa9, 0x61, 0xc5, 0x00,
            0x51, 0x5f, 0x58, 0xe3, 0x0b, 0x6a, 0xa5, 0x82, 0xdd, 0x8d, 0xb6, 0xa6, 0x59, 0x45,
            0xe0, 0x8d, 0x2d, 0x76
        ]
    );
    assert_eq!(RistrettoPoint::from_compressed_bytes(&bytes), Some(base));
    assert_eq!(RistrettoPoint::from_compressed_bytes(&bytes[..31]), None);
    assert_eq!(RistrettoPoint::from_compressed_bytes(&[0xffu8; 32]), None);
    assert_eq!(base.compress().decompress(), Some(base));
    assert_eq!(base.compress().0.to_vec(), bytes);
    assert_eq!(CompressedRistretto([1u8; 32]).decompress(), None);
    assert_eq!(CompressedRistretto([0u8; 32]).decompress(), Some(RistrettoPoint::get_identity()));
    let c = CompressedRistretto::zei_from_bytes(&bytes).unwrap();
    assert_eq!(c.zei_to_bytes(), bytes);
    assert_eq!(c, base.compress());
    assert!(base.is_equal(&base));
    assert!(!base.is_equal(&base.add(&base)));
    let hashed = RistrettoPoint::hash_from_bytes(b"some bytes");
    assert_eq!(hashed, RistrettoPoint::hash_from_bytes(b"some bytes"));
    assert_ne!(hashed, RistrettoPoint::hash_from_bytes(b"some bytez"));
    let mut uniform = [0u8; 64];
    uniform[3] = 7;
    let mapped = RistrettoPoint::from_uniform_bytes(&uniform);
    assert_eq!(mapped, RistrettoPoint::from_uniform_bytes(&uniform));
    assert_ne!(mapped, RistrettoPoint::from_uniform_bytes(&[0u8; 64]));
}

#[test]
fn pedersen_commitments() {
    let gens = RistrettoPedersenCommitment::default();
    assert_eq!(gens.B, RistrettoPoint::get_base());
    assert_eq!(
        gens.B_blinding,
        RistrettoPoint::hash_from_bytes(&RistrettoPoint::get_base().to_compressed_bytes())
    );
    assert_eq!(
        gens.B_blinding.to_compressed_bytes(),
        vec![
            0x8c, 0x92, 0x40, 0xb4, 0x56, 0xa9, 0xe6, 0xdc, 0x65, 0xc3, 0x77, 0xa1, 0x04, 0x8d,
            0x74, 0x5f, 0x94, 0xa0, 0x8c, 0xdb, 0x7f, 0x44, 0xcb, 0xcd, 0x7b, 0x46, 0xf3, 0x40,
            0x48, 0x87, 0x11, 0x34
        ]
    );
    let m = RistrettoScalar::from_u32(12);
    let r = RistrettoScalar::from_u32(34);
    assert_eq!(gens.commit(&m, &r), gens.B.mul(&m).add(&gens.B_blinding.mul(&r)));
    assert_eq!(gens.commit(&m, &RistrettoScalar::zero()), gens.B.mul(&m));
    let mut both = gens.B.to_compressed_bytes();
    both.extend_from_slice(&gens.B_blinding.to_compressed_bytes());
    assert_eq!(gens.to_bytes(), both);
}

#[test]
fn ed25519_points() {
    let base = Ed25519Point::get_base();
    let mut expected = vec![0x66u8; 32];
    expected[0] = 0x58;
    assert_eq!(base.to_compressed_bytes(), expected);
    let mut one = vec![0u8; 32];
    one[0] = 1;
    assert_eq!(Ed25519Point::get_identity().to_compressed_bytes(), one);
    assert_eq!(Ed25519Point::default(), Ed25519Point::get_identity());
    assert_eq!(COFACTOR, 8);
    assert_eq!(base.mul_by_cofactor(), base.mul(&Ed25519Scalar::from_u32(8)));
    assert_eq!(base.double(), base.add(&base));
    assert_eq!(base.neg().add(&base), Ed25519Point::get_identity());
    assert_eq!(base.neg(), Ed25519Point::get_identity().sub(&base));
    let mut p = base;
    p.add_assign(&base);
    assert_eq!(p, base.double());
    p.sub_assign(&base);
    assert_eq!(p, base);

    assert_eq!(Ed25519Point::from_compressed_bytes(&expected), Ok(base));
    assert_eq!(
        Ed25519Point::from_compressed_bytes(&expected[..31]),
        Err(ZeiError::DecompressElementError)
    );
    // a point of order four is no point of the group
    let mut small_order = vec![0u8; 32];
    small_order[31] = 0x80;
    assert_eq!(
        Ed25519Point::from_compressed_bytes(&small_order),
        Err(ZeiError::DecompressElementError)
    );
    assert_eq!(
        Ed25519Point::from_compressed_bytes(&[0x02u8; 32]),
        Err(ZeiError::DecompressElementError)
    );
    assert_eq!(Ed25519Point::unchecked_size(), UNCHECKED_SIZE);
    let open = base.to_unchecked_bytes();
    assert_eq!(open.len(), 64);
    assert_eq!(open[32..], expected[..]);
    assert_eq!(Ed25519Point::from_unchecked_bytes(&open), Ok(base));
    assert_eq!(
        Ed25519Point::from_unchecked_bytes(&open[..63]),
        Err(ZeiError::DecompressElementError)
    );
    let mut other_x = open.clone();
    other_x[1] ^= 1;
    assert_eq!(
        Ed25519Point::from_unchecked_bytes(&other_x),
        Err(ZeiError::DecompressElementError)
    );
    let mut opposite = base.neg().to_unchecked_bytes();
    assert_eq!(Ed25519Point::from_unchecked_bytes(&opposite), Ok(base.neg()));
    assert_eq!(opposite[32..], open[32..]);
    opposite[..32].copy_from_slice(&open[..32]);
    assert_eq!(Ed25519Point::from_unchecked_bytes(&opposite), Ok(base));
    let seven = base.mul(&Ed25519Scalar::from_u32(7));
    assert_eq!(Ed25519Point::from_compressed_bytes(&seven.to_compressed_bytes()), Ok(seven));
    assert_eq!(Ed25519Point::from_unchecked_bytes(&seven.to_unchecked_bytes()), Ok(seven));
    // the neutral element with the sign of its first coordinate set is read as
    // the neutral element and held as it is written
    let mut signed_one = one.clone();
    signed_one[31] = 0x80;
    let read = Ed25519Point::from_compressed_bytes(&signed_one).unwrap();
    assert_eq!(read, Ed25519Point::get_identity());
    assert_eq!(read.to_compressed_bytes(), one);
    assert_eq!(base.add(&read), base);
    let mut no_point = open.clone();
    no_point[32] ^= 2;
    assert_eq!(
        Ed25519Point::from_unchecked_bytes(&no_point),
        Err(ZeiError::DecompressElementError)
    );

    assert_eq!(base.get_y().to_bytes(), expected);
    assert_eq!(base.get_x().to_bytes(), open[..32].to_vec());
    assert_eq!(base.neg().get_y(), base.get_y());
    assert_ne!(base.neg().get_x(), base.get_x());

    let two = base.double();
    assert_eq!(base.cmp(&base), Ordering::Equal);
    assert_eq!(base.partial_cmp(&base), Some(Ordering::Equal));
    assert_ne!(base.cmp(&two), Ordering::Equal);
    assert_eq!(base.cmp(&two), order(&base.text(), &two.text()));
    assert_eq!(two.cmp(&base), order(&two.text(), &base.text()));
    assert_eq!(base.partial_cmp(&two), Some(base.cmp(&two)));
    assert_ne!(base.cmp(&two), two.cmp(&base));
    assert!(!base.text().is_empty());
}

fn order(a: &[u8], b: &[u8]) -> Ordering {
    a.cmp(b)
}

#[test]
fn the_order_of_byte_strings() {
    assert_eq!(order_of_bytes(b"", b""), 0);
    assert_eq!(order_of_bytes(b"", b"a"), -1);
    assert_eq!(order_of_bytes(b"a", b""), 1);
    assert_eq!(order_of_bytes(b"abc", b"abd"), -1);
    assert_eq!(order_of_bytes(b"abd", b"abc"), 1);
    assert_eq!(order_of_bytes(b"ab", b"abc"), -1);
    assert_eq!(order_of_bytes(b"b", b"abc"), 1);
    assert_eq!(order_of_bytes(b"abc", b"abc"), 0);
    assert!(same_bytes(b"abc", b"abc"));
    assert!(!same_bytes(b"abc", b"abd"));
    assert!(!same_bytes(b"abc", b"ab"));
}

#[test]
fn small_values_of_bytes() {
    let mut bytes = [0u8; 32];
    assert_eq!(small_value(&bytes), Some(0));
    bytes[0] = 0x34;
    bytes[1] = 0x12;
    assert_eq!(small_value(&bytes), Some(0x1234));
    bytes[14] = 0xff;
    assert_eq!(small_value(&bytes), Some(0x1234 + (0xffu128 << 112)));
    bytes[15] = 1;
    assert_eq!(small_value(&bytes), None);
    bytes[15] = 0;
    bytes[31] = 1;
    assert_eq!(small_value(&bytes), None);
}

#[test]
fn windows_and_digits() {
    assert_eq!(two_to_the(0), 1);
    assert_eq!(two_to_the(43), 1 << 43);
    assert_eq!(two_to_the(63), 1 << 63);
    assert_eq!(windows_of_bytes(&[0xff, 0x01], 4), vec![0xf, 0xf, 0x1, 0x0]);
    assert_eq!(windows_of_bytes(&[0xff, 0x01], 6), vec![0x3f, 0x07, 0x00]);
    assert_eq!(windows_of_bytes(&[0xff, 0x01], 16), vec![0x1ff]);
    assert_eq!(windows_of_bytes(&[], 5), Vec::<u64>::new());
    assert_eq!(windows_of_bytes(&[1, 2, 3, 4, 5, 6, 7, 8, 9], 63), vec![0x0807060504030201, 9 << 1]);
    assert_eq!(signed_digits(&vec![0xf, 0xf, 0x1, 0x0], 4), vec![-1, 0, 2, 0, 0]);
    assert_eq!(signed_digits(&vec![7, 8], 4), vec![7, -8, 1]);
    assert_eq!(signed_digits(&vec![], 4), vec![0]);

    // with windows of one bit every one carries
    let digits = scalar_to_radix_2_power_w(&RistrettoScalar::from_u64(1), 1);
    assert_eq!(digits.len(), 257);
    assert_eq!(digits[..256], [-1i8; 256]);
    assert_eq!(digits[256], 1);
    for w in 2..=8usize {
        for value in [0u64, 1, 2, 31, 32, 33, 255, 256, 1000, u64::MAX, 0x8000_0000_0000_0000] {
            let digits = scalar_to_radix_2_power_w(&RistrettoScalar::from_u64(value), w);
            assert_eq!(digits.len(), (256 + w - 1) / w + 1);
            let mut total: i128 = 0;
            for (i, d) in digits.iter().enumerate().rev() {
                assert!((*d as i128) >= -(1 << (w - 1)) && (*d as i128) <= 1 << (w - 1));
                if w * i < 100 {
                    total += (*d as i128) << (w * i);
                } else {
                    assert_eq!(*d, 0);
                }
            }
            assert_eq!(total, value as i128);
        }
    }
    let largest = RistrettoScalar::zero().sub(&RistrettoScalar::one());
    let digits = scalar_to_radix_2_power_w(&largest, 8);
    assert_eq!(digits.len(), 33);
    assert_eq!(digits[0], -20);
    assert_eq!(digits[31], 16);
    assert_eq!(digits[32], 0);
}

#[test]
fn bls_elements_and_bytes() {
    let mut none = vec![0u8; 96];
    none[0] = 0x40;
    assert_eq!(BLSG1::get_identity().to_unchecked_bytes(), none);
    let base_1: Vec<u8> = vec![
        0x17, 0xf1, 0xd3, 0xa7, 0x31, 0x97, 0xd7, 0x94, 0x26, 0x95, 0x63, 0x8c,
        0x4f, 0xa9, 0xac, 0x0f, 0xc3, 0x68, 0x8c, 0x4f, 0x97, 0x74, 0xb9, 0x05,
        0xa1, 0x4e, 0x3a, 0x3f, 0x17, 0x1b, 0xac, 0x58, 0x6c, 0x55, 0xe8, 0x3f,
        0xf9, 0x7a, 0x1a, 0xef, 0xfb, 0x3a, 0xf0, 0x0a, 0xdb, 0x22, 0xc6, 0xbb,
        0x08, 0xb3, 0xf4, 0x81, 0xe3, 0xaa, 0xa0, 0xf1, 0xa0, 0x9e, 0x30, 0xed,
        0x74, 0x1d, 0x8a, 0xe4, 0xfc, 0xf5, 0xe0, 0x95, 0xd5, 0xd0, 0x0a, 0xf6,
        0x00, 0xdb, 0x18, 0xcb, 0x2c, 0x04, 0xb3, 0xed, 0xd0, 0x3c, 0xc7, 0x44,
        0xa2, 0x88, 0x8a, 0xe4, 0x0c, 0xaa, 0x23, 0x29, 0x46, 0xc5, 0xe7, 0xe1,
    ];
    assert_eq!(BLSG1::get_base().to_unchecked_bytes(), base_1);

    let mut none = vec![0u8; 192];
    none[0] = 0x40;
    assert_eq!(BLSG2::get_identity().to_unchecked_bytes(), none);
    let base_2: Vec<u8> = vec![
        0x13, 0xe0, 0x2b, 0x60, 0x52, 0x71, 0x9f, 0x60, 0x7d, 0xac, 0xd3, 0xa0,
        0x88, 0x27, 0x4f, 0x65, 0x59, 0x6b, 0xd0, 0xd0, 0x99, 0x20, 0xb6, 0x1a,
        0xb5, 0xda, 0x61, 0xbb, 0xdc, 0x7f, 0x50, 0x49, 0x33, 0x4c, 0xf1, 0x12,
        0x13, 0x94, 0x5d, 0x57, 0xe5, 0xac, 0x7d, 0x05, 0x5d, 0x04, 0x2b, 0x7e,
        0x02, 0x4a, 0xa2, 0xb2, 0xf0, 0x8f, 0x0a, 0x91, 0x26, 0x08, 0x05, 0x27,
        0x2d, 0xc5, 0x10, 0x51, 0xc6, 0xe4, 0x7a, 0xd4, 0xfa, 0x40, 0x3b, 0x02,
        0xb4, 0x51, 0x0b, 0x64, 0x7a, 0xe3, 0xd1, 0x77, 0x0b, 0xac, 0x03, 0x26,
        0xa8, 0x05, 0xbb, 0xef, 0xd4, 0x80, 0x56, 0xc8, 0xc1, 0x21, 0xbd, 0xb8,
        0x06, 0x06, 0xc4, 0xa0, 0x2e, 0xa7, 0x34, 0xcc, 0x32, 0xac, 0xd2, 0xb0,
        0x2b, 0xc2, 0x8b, 0x99, 0xcb, 0x3e, 0x28, 0x7e, 0x85, 0xa7, 0x63, 0xaf,
        0x26, 0x74, 0x92, 0xab, 0x57, 0x2e, 0x99, 0xab, 0x3f, 0x37, 0x0d, 0x27,
        0x5c, 0xec, 0x1d, 0xa1, 0xaa, 0xa9, 0x07, 0x5f, 0xf0, 0x5f, 0x79, 0xbe,
        0x0c, 0xe5, 0xd5, 0x27, 0x72, 0x7d, 0x6e, 0x11, 0x8c, 0xc9, 0xcd, 0xc6,
        0xda, 0x2e, 0x35, 0x1a, 0xad, 0xfd, 0x9b, 0xaa, 0x8c, 0xbd, 0xd3, 0xa7,
        0x6d, 0x42, 0x9a, 0x69, 0x51, 0x60, 0xd1, 0x2c, 0x92, 0x3a, 0xc9, 0xcc,
        0x3b, 0xac, 0xa2, 0x89, 0xe1, 0x93, 0x54, 0x86, 0x08, 0xb8, 0x28, 0x01,
    ];
    assert_eq!(BLSG2::get_base().to_unchecked_bytes(), base_2);

    let mut one = vec![0u8; 576];
    one[0] = 1;
    assert_eq!(BLSGt::get_identity().to_unchecked_bytes(), one);
    let paired = Bls12_381::pairing(G1Affine::generator(), G2Affine::generator());
    let mut bytes = Vec::new();
    paired.serialize_uncompressed(&mut bytes).unwrap();
    assert_eq!(BLSGt::get_base().to_unchecked_bytes(), bytes);
    assert_eq!(bytes.len(), 576);
}

use std::fmt::Debug;
use zei::bls12_381::{BLSScalar, BLSG1, BLSG2, BLSGt};
use zei::groups::{Group, Scalar};
use zei::multi_exp::{pippenger, MultiExp};
use zei::ristretto::{RistrettoPoint, RistrettoScalar};

fn run_multiexp_test<S: Scalar, G: Group<S> + PartialEq + Debug>() {
    let g1 = G::get_base();
    let zero = S::from_u32(0);
    let g = G::vartime_multi_exp(&[&zero], &[&g1]);
    assert_eq!(g, G::get_identity());

    let g1 = G::get_base();
    let one = S::from_u32(1);
    let g = G::vartime_multi_exp(&[&one], &[&g1]);
    assert_eq!(g, G::get_base());

    let g1 = G::get_base();
    let g1p = G::get_base();
    let one = S::from_u32(1);
    let zero = S::from_u32(0);
    let g = G::vartime_multi_exp(&[&one, &zero], &[&g1, &g1p]);
    assert_eq!(g, G::get_base());

    let g1 = G::get_base();
    let g2 = g1.add(&g1);
    let g3 = g1.mul(&S::from_u32(500));
    let thousand = S::from_u32(1000);
    let two = S::from_u32(2);
    let three = S::from_u32(3);
    let g = G::vartime_multi_exp(&[&thousand, &two, &three], &[&g1, &g2, &g3]);
    let expected = G::get_base().mul(&S::from_u32(1000 + 4 + 1500));
    assert_eq!(g, expected);
}

#[test]
fn test_multiexp_ristretto() {
    run_multiexp_test::<RistrettoScalar, RistrettoPoint>();
}

#[test]
fn test_multiexp_blsg1() {
    run_multiexp_test::<BLSScalar, BLSG1>();
}

#[test]
fn test_multiexp_blsg2() {
    run_multiexp_test::<BLSScalar, BLSG2>();
}

#[test]
fn test_multiexp_blsgt() {
    run_multiexp_test::<BLSScalar, BLSGt>();
}

#[test]
fn pippenger_of_nothing_is_the_identity() {
    let none: [&RistrettoScalar; 0] = [];
    let points: [&RistrettoPoint; 0] = [];
    assert_eq!(pippenger(&none, &points), RistrettoPoint::get_identity());
    assert_eq!(RistrettoPoint::naive_multi_exp(&none, &points), RistrettoPoint::get_identity());
}

#[test]
fn pippenger_agrees_with_the_naive_sum() {
    let base = RistrettoPoint::get_base();
    let mut scalars = Vec::new();
    let mut points = Vec::new();
    let mut p = base;
    for i in 0..20u64 {
        scalars.push(RistrettoScalar::from_u64(0xffff_ffff_ffff_ffff - 977 * i));
        p = p.add(&base).add(&p);
        points.push(p);
    }
    let minus_one = RistrettoScalar::zero().sub(&RistrettoScalar::one());
    scalars.push(minus_one);
    points.push(base);
    let s: Vec<&RistrettoScalar> = scalars.iter().collect();
    let e: Vec<&RistrettoPoint> = points.iter().collect();
    let fast = RistrettoPoint::vartime_multi_exp(&s, &e);
    let slow = RistrettoPoint::naive_multi_exp(&s, &e);
    assert_eq!(fast, slow);
    assert_eq!(RistrettoPoint::multi_exp(&s, &e), slow);
}

#[test]
fn pippenger_leaves_out_what_has_no_partner() {
    let base = RistrettoPoint::get_base();
    let two = RistrettoScalar::from_u32(2);
    let five = RistrettoScalar::from_u32(5);
    let got = pippenger(&[&two, &five], &[&base]);
    assert_eq!(got, base.add(&base));
}

#[test]
fn group_constants_are_encoded_as_stated() {
    assert_eq!(RistrettoPoint::get_identity().to_compressed_bytes(), vec![0u8; 32]);
    assert_eq!(RistrettoPoint::get_base().to_compressed_bytes()[..4], [0xe2, 0xf2, 0xae, 0x0a]);
    let mut id = vec![0u8; 96];
    id[0] = 0x40;
    assert_eq!(BLSG1::get_identity().to_unchecked_bytes(), id);
    let mut id = vec![0u8; 192];
    id[0] = 0x40;
    assert_eq!(BLSG2::get_identity().to_unchecked_bytes(), id);
    let mut id = vec![0u8; 576];
    id[0] = 1;
    assert_eq!(BLSGt::get_identity().to_unchecked_bytes(), id);
    assert_eq!(BLSG1::get_base().to_unchecked_bytes()[..4], [0x17, 0xf1, 0xd3, 0xa7]);
    assert_eq!(BLSG1::get_base().sub(&BLSG1::get_base()), BLSG1::get_identity());
}

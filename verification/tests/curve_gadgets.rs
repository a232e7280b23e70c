//! Point gadget behaviour against independent curve arithmetic from the
//! `jubjub` crate: curve membership, addition and doubling consistency,
//! conditional selection and small-order rejection.

use group::{Curve, Group};
use zk::boolean::{AllocatedBit, Boolean};
use zk::cs::{ConstraintSystem, SynthesisError};
use zk::ecc::{EdwardsPoint, PointValue};
use zk::field::{fq_from_bytes, Fq};

fn fq_of(s: bls12_381::Scalar) -> Fq {
    fq_from_bytes(&s.to_bytes()).unwrap()
}

fn point_of(p: jubjub::AffinePoint) -> PointValue {
    PointValue {
        u: fq_of(p.get_u()),
        v: fq_of(p.get_v()),
    }
}

fn generator() -> jubjub::ExtendedPoint {
    jubjub::ExtendedPoint::from(jubjub::SubgroupPoint::generator())
}

fn coords(p: &EdwardsPoint) -> (bls12_381::Scalar, bls12_381::Scalar) {
    let u = bls12_381::Scalar::from_bytes(&p.u.value.unwrap().to_bytes()).unwrap();
    let v = bls12_381::Scalar::from_bytes(&p.v.value.unwrap().to_bytes()).unwrap();
    (u, v)
}

#[test]
fn witnessed_curve_point_satisfies_membership() {
    let mut cs = ConstraintSystem::new();
    let g = generator().to_affine();
    let p = EdwardsPoint::witness(&mut cs, Some(point_of(g)));
    assert!(p.u.value.is_some());
    assert!(cs.is_satisfied());
}

#[test]
fn witnessed_off_curve_point_is_unsatisfiable() {
    let mut cs = ConstraintSystem::new();
    let g = generator().to_affine();
    let bad = PointValue {
        u: fq_of(g.get_u()),
        v: fq_of(g.get_v() + bls12_381::Scalar::one()),
    };
    let _ = EdwardsPoint::witness(&mut cs, Some(bad));
    assert!(!cs.is_satisfied());
}

#[test]
fn shape_only_witness_has_no_values() {
    let mut cs = ConstraintSystem::new();
    let p = EdwardsPoint::witness(&mut cs, None);
    assert!(p.u.value.is_none());
    assert!(p.v.value.is_none());
}

#[test]
fn addition_matches_curve_arithmetic() {
    let mut cs = ConstraintSystem::new();
    let g = generator();
    let a = g.to_affine();
    let b = (g + g + g).to_affine();
    let pa = EdwardsPoint::witness(&mut cs, Some(point_of(a)));
    let pb = EdwardsPoint::witness(&mut cs, Some(point_of(b)));
    let sum = pa.add(&mut cs, &pb).unwrap();
    let expected = (jubjub::ExtendedPoint::from(a) + jubjub::ExtendedPoint::from(b)).to_affine();
    let (u, v) = coords(&sum);
    assert_eq!(u, expected.get_u());
    assert_eq!(v, expected.get_v());
    assert!(cs.is_satisfied());
}

#[test]
fn doubling_matches_addition_to_self() {
    let mut cs = ConstraintSystem::new();
    let g = generator().to_affine();
    let p = EdwardsPoint::witness(&mut cs, Some(point_of(g)));
    let d = p.double(&mut cs).unwrap();
    let s = p.add(&mut cs, &p).unwrap();
    assert_eq!(coords(&d), coords(&s));
    let expected = generator().double().to_affine();
    assert_eq!(coords(&d).0, expected.get_u());
    assert_eq!(coords(&d).1, expected.get_v());
    assert!(cs.is_satisfied());
}

#[test]
fn conditional_select_true_keeps_the_point() {
    let mut cs = ConstraintSystem::new();
    let g = generator().to_affine();
    let p = EdwardsPoint::witness(&mut cs, Some(point_of(g)));
    let bit = Boolean::Is(AllocatedBit::allocate(&mut cs, Some(true)));
    let sel = p.conditionally_select(&mut cs, &bit);
    assert_eq!(coords(&sel).0, g.get_u());
    assert_eq!(coords(&sel).1, g.get_v());
    assert!(cs.is_satisfied());
}

#[test]
fn conditional_select_false_gives_the_neutral_element() {
    let mut cs = ConstraintSystem::new();
    let g = generator().to_affine();
    let p = EdwardsPoint::witness(&mut cs, Some(point_of(g)));
    let bit = Boolean::Is(AllocatedBit::allocate(&mut cs, Some(false)));
    let sel = p.conditionally_select(&mut cs, &bit);
    assert_eq!(coords(&sel).0, bls12_381::Scalar::zero());
    assert_eq!(coords(&sel).1, bls12_381::Scalar::one());
    assert!(cs.is_satisfied());
}

#[test]
fn small_order_points_are_rejected() {
    // The neutral element (0, 1) and the order-two point (0, -1) collapse
    // to a zero u-coordinate after three doublings.
    for v in [bls12_381::Scalar::one(), -bls12_381::Scalar::one()] {
        let mut cs = ConstraintSystem::new();
        let p = EdwardsPoint::witness(
            &mut cs,
            Some(PointValue {
                u: fq_of(bls12_381::Scalar::zero()),
                v: fq_of(v),
            }),
        );
        let r = p.assert_not_small_order(&mut cs);
        assert_eq!(r.unwrap_err(), SynthesisError::DivisionByZero);
    }
}

#[test]
fn large_order_points_pass_the_small_order_check() {
    let mut cs = ConstraintSystem::new();
    let g = generator().to_affine();
    let p = EdwardsPoint::witness(&mut cs, Some(point_of(g)));
    p.assert_not_small_order(&mut cs).unwrap();
    assert!(cs.is_satisfied());
}

#[test]
fn repr_matches_the_compressed_encoding() {
    let mut cs = ConstraintSystem::new();
    let g = (generator() + generator()).to_affine();
    let p = EdwardsPoint::witness(&mut cs, Some(point_of(g)));
    let bits = p.repr(&mut cs);
    assert_eq!(bits.len(), 256);
    let mut packed = [0u8; 32];
    for (i, b) in bits.iter().enumerate() {
        if b.get_value().unwrap() {
            packed[i / 8] |= 1 << (i % 8);
        }
    }
    assert_eq!(packed, g.to_bytes());
    assert!(cs.is_satisfied());
}

#[test]
fn inputize_exposes_both_coordinates_in_order() {
    let mut cs = ConstraintSystem::new();
    let g = generator().to_affine();
    let p = EdwardsPoint::witness(&mut cs, Some(point_of(g)));
    let inputs_before = cs.inputs.len();
    p.inputize(&mut cs);
    assert_eq!(cs.inputs.len(), inputs_before + 2);
    let u = cs.inputs[inputs_before].unwrap();
    let v = cs.inputs[inputs_before + 1].unwrap();
    assert_eq!(u.to_bytes(), g.get_u().to_bytes());
    assert_eq!(v.to_bytes(), g.get_v().to_bytes());
    assert!(cs.is_satisfied());
}

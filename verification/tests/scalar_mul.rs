//! Fixed-base and variable-base scalar multiplication against independent
//! curve arithmetic, including the all-zero scalar and a small golden
//! scalar.

use group::{Curve, Group};
use zk::boolean::{AllocatedBit, Boolean};
use zk::cs::{ConstraintSystem, SynthesisError};
use zk::ecc::{fixed_base_multiplication, EdwardsPoint, PointValue};
use zk::field::{fq_from_bytes, Fq};

fn fq_of(s: bls12_381::Scalar) -> Fq {
    fq_from_bytes(&s.to_bytes()).unwrap()
}

fn point_of(p: jubjub::AffinePoint) -> PointValue {
    PointValue {
        u: fq_of(p.get_u()),
        v: fq_of(p.get_v()),
    }
}

fn generator() -> jubjub::ExtendedPoint {
    jubjub::ExtendedPoint::from(jubjub::SubgroupPoint::generator())
}

fn coords(p: &EdwardsPoint) -> (bls12_381::Scalar, bls12_381::Scalar) {
    let u = bls12_381::Scalar::from_bytes(&p.u.value.unwrap().to_bytes()).unwrap();
    let v = bls12_381::Scalar::from_bytes(&p.v.value.unwrap().to_bytes()).unwrap();
    (u, v)
}

/// An Edwards window table for a base point: window `i`, entry `j` holds
/// the affine coordinates of `j * 8^i * base`.
fn edwards_table(base: jubjub::ExtendedPoint, windows: usize) -> Vec<Vec<(Fq, Fq)>> {
    let mut table = Vec::new();
    let mut window_base = base;
    for _ in 0..windows {
        let mut window = Vec::new();
        let mut entry = jubjub::ExtendedPoint::identity();
        for _ in 0..8 {
            let a = entry.to_affine();
            window.push((fq_of(a.get_u()), fq_of(a.get_v())));
            entry += window_base;
        }
        table.push(window);
        window_base = window_base.double().double().double();
    }
    table
}

fn witness_bits(cs: &mut ConstraintSystem, bits: &[bool]) -> Vec<Boolean> {
    bits.iter()
        .map(|b| Boolean::Is(AllocatedBit::allocate(cs, Some(*b))))
        .collect()
}

fn le_bits(mut k: u64, n: usize) -> Vec<bool> {
    let mut bits = Vec::new();
    for _ in 0..n {
        bits.push(k & 1 == 1);
        k >>= 1;
    }
    bits
}

#[test]
fn fixed_base_matches_curve_arithmetic() {
    let g = generator();
    let table = edwards_table(g, 4);
    for k in [1u64, 2, 3, 7, 100, 4095] {
        let mut cs = ConstraintSystem::new();
        let bits = witness_bits(&mut cs, &le_bits(k, 12));
        let r = fixed_base_multiplication(&mut cs, &table, &bits).unwrap();
        let expected = (g * jubjub::Fr::from(k)).to_affine();
        let (u, v) = coords(&r);
        assert_eq!(u, expected.get_u());
        assert_eq!(v, expected.get_v());
        assert!(cs.is_satisfied());
    }
}

#[test]
fn fixed_base_zero_scalar_gives_the_neutral_element() {
    let g = generator();
    let table = edwards_table(g, 2);
    let mut cs = ConstraintSystem::new();
    let bits = witness_bits(&mut cs, &le_bits(0, 6));
    let r = fixed_base_multiplication(&mut cs, &table, &bits).unwrap();
    let (u, v) = coords(&r);
    assert_eq!(u, bls12_381::Scalar::zero());
    assert_eq!(v, bls12_381::Scalar::one());
    assert!(cs.is_satisfied());
}

#[test]
fn fixed_base_golden_scalar_five() {
    let g = generator();
    let table = edwards_table(g, 1);
    let mut cs = ConstraintSystem::new();
    let bits = witness_bits(&mut cs, &[true, false, true]);
    let r = fixed_base_multiplication(&mut cs, &table, &bits).unwrap();
    let expected = (g * jubjub::Fr::from(5)).to_affine();
    let (u, v) = coords(&r);
    assert_eq!(u.to_bytes(), expected.get_u().to_bytes());
    assert_eq!(v.to_bytes(), expected.get_v().to_bytes());
    assert!(cs.is_satisfied());
}

#[test]
fn fixed_base_rejects_an_empty_bit_sequence() {
    let g = generator();
    let table = edwards_table(g, 1);
    let mut cs = ConstraintSystem::new();
    let bits: Vec<Boolean> = Vec::new();
    let r = fixed_base_multiplication(&mut cs, &table, &bits);
    assert_eq!(r.unwrap_err(), SynthesisError::AssignmentMissing);
}

#[test]
fn variable_base_matches_curve_arithmetic() {
    let g = generator();
    let base = (g + g + g).to_affine();
    for k in [1u64, 2, 5, 11, 255] {
        let mut cs = ConstraintSystem::new();
        let p = EdwardsPoint::witness(&mut cs, Some(point_of(base)));
        let bits = witness_bits(&mut cs, &le_bits(k, 8));
        let r = p.mul(&mut cs, &bits).unwrap();
        let expected = (jubjub::ExtendedPoint::from(base) * jubjub::Fr::from(k)).to_affine();
        let (u, v) = coords(&r);
        assert_eq!(u, expected.get_u());
        assert_eq!(v, expected.get_v());
        assert!(cs.is_satisfied());
    }
}

#[test]
fn variable_base_rejects_an_empty_bit_sequence() {
    let mut cs = ConstraintSystem::new();
    let p = EdwardsPoint::witness(&mut cs, Some(point_of(generator().to_affine())));
    let bits: Vec<Boolean> = Vec::new();
    let r = p.mul(&mut cs, &bits);
    assert_eq!(r.unwrap_err(), SynthesisError::AssignmentMissing);
}

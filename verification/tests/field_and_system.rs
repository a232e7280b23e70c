//! Field-element wrappers against the backing field implementation, and
//! the in-memory constraint system's satisfaction check.

use zk::boolean::{boolean_and, AllocatedBit, Boolean};
use zk::cs::{ConstraintSystem, LinComb};
use zk::field::{
    fq_add, fq_eq, fq_from_bytes, fq_invert, fq_is_zero, fq_mul, fq_neg, fq_one, fq_sub, fq_zero,
    Fq,
};
use zk::num::AllocatedNum;

fn fq_of(s: bls12_381::Scalar) -> Fq {
    fq_from_bytes(&s.to_bytes()).unwrap()
}

fn back(f: &Fq) -> bls12_381::Scalar {
    bls12_381::Scalar::from_bytes(&f.to_bytes()).unwrap()
}

#[test]
fn field_wrappers_agree_with_the_backing_field() {
    let a = fq_of(bls12_381::Scalar::from(123456789u64));
    let b = fq_of(-bls12_381::Scalar::from(5u64));
    assert_eq!(back(&fq_add(&a, &b)), back(&a) + back(&b));
    assert_eq!(back(&fq_sub(&a, &b)), back(&a) - back(&b));
    assert_eq!(back(&fq_mul(&a, &b)), back(&a) * back(&b));
    assert_eq!(back(&fq_neg(&a)), -back(&a));
    let inv = fq_invert(&a).unwrap();
    assert_eq!(back(&a) * back(&inv), bls12_381::Scalar::one());
    assert!(fq_invert(&fq_zero()).is_none());
    assert_eq!(back(&fq_one()), bls12_381::Scalar::one());
}

#[test]
fn field_equality_and_zero_tests() {
    let a = fq_of(bls12_381::Scalar::from(7u64));
    let b = fq_of(bls12_381::Scalar::from(7u64));
    let c = fq_of(bls12_381::Scalar::from(8u64));
    assert!(fq_eq(&a, &b));
    assert!(!fq_eq(&a, &c));
    assert!(fq_is_zero(&fq_zero()));
    assert!(!fq_is_zero(&fq_one()));
}

#[test]
fn noncanonical_encodings_are_rejected() {
    // The modulus itself is not a canonical encoding.
    let q_bytes: [u8; 32] = [
        1, 0, 0, 0, 255, 255, 255, 255, 254, 91, 254, 255, 2, 164, 189, 83, 5, 216, 161, 9, 8,
        216, 57, 51, 72, 125, 157, 41, 83, 167, 237, 115,
    ];
    assert!(fq_from_bytes(&q_bytes).is_none());
    let mut q_minus_one = q_bytes;
    q_minus_one[0] = 0;
    assert!(fq_from_bytes(&q_minus_one).is_some());
}

#[test]
fn a_true_product_constraint_is_satisfied() {
    let mut cs = ConstraintSystem::new();
    let a = AllocatedNum::allocate(&mut cs, Some(fq_of(bls12_381::Scalar::from(6u64))));
    let b = AllocatedNum::allocate(&mut cs, Some(fq_of(bls12_381::Scalar::from(7u64))));
    let p = a.mul(&mut cs, &b);
    assert_eq!(back(&p.value.unwrap()), bls12_381::Scalar::from(42u64));
    assert!(cs.is_satisfied());
}

#[test]
fn a_false_constraint_is_detected() {
    let mut cs = ConstraintSystem::new();
    let a = AllocatedNum::allocate(&mut cs, Some(fq_of(bls12_381::Scalar::from(6u64))));
    let one = fq_one();
    // Claim a * 1 = 1, which the assignment a = 6 falsifies.
    let a_lc = LinComb::of_term(a.var, one);
    let b_lc = LinComb::of_term(ConstraintSystem::one(), one);
    let c_lc = LinComb::of_term(ConstraintSystem::one(), one);
    cs.enforce(a_lc, b_lc, c_lc);
    assert!(!cs.is_satisfied());
}

#[test]
fn boolean_conjunction_folds_constants_and_constrains_bits() {
    let mut cs = ConstraintSystem::new();
    for x in [false, true] {
        for y in [false, true] {
            let a = Boolean::Is(AllocatedBit::allocate(&mut cs, Some(x)));
            let b = Boolean::Is(AllocatedBit::allocate(&mut cs, Some(y)));
            let c = boolean_and(&mut cs, &a, &b);
            assert_eq!(c.get_value(), Some(x && y));
            let nc = boolean_and(&mut cs, &a.negate(), &b);
            assert_eq!(nc.get_value(), Some(!x && y));
        }
    }
    let t = Boolean::constant(true);
    let f = Boolean::constant(false);
    let a = Boolean::Is(AllocatedBit::allocate(&mut cs, Some(true)));
    assert_eq!(boolean_and(&mut cs, &f, &a).get_value(), Some(false));
    assert_eq!(boolean_and(&mut cs, &t, &a).get_value(), Some(true));
    assert!(cs.is_satisfied());
}

//! The Pedersen hash gadget: agreement with an independent curve-side
//! evaluation, determinism, domain separation, and padding at segment
//! boundaries.

use group::{Curve, Group};
use zk::boolean::{AllocatedBit, Boolean};
use zk::cs::ConstraintSystem;
use zk::ecc::{montgomery_scale, EdwardsPoint};
use zk::field::{fq_from_bytes, Fq};
use zk::pedersen::{pedersen_hash, Personalization};

fn fq_of(s: bls12_381::Scalar) -> Fq {
    fq_from_bytes(&s.to_bytes()).unwrap()
}

fn generator() -> jubjub::ExtendedPoint {
    jubjub::ExtendedPoint::from(jubjub::SubgroupPoint::generator())
}

fn coords(p: &EdwardsPoint) -> (bls12_381::Scalar, bls12_381::Scalar) {
    let u = bls12_381::Scalar::from_bytes(&p.u.value.unwrap().to_bytes()).unwrap();
    let v = bls12_381::Scalar::from_bytes(&p.v.value.unwrap().to_bytes()).unwrap();
    (u, v)
}

/// The Montgomery coordinates of an Edwards point:
/// `x = (1 + v)/(1 - v)` and `y = scale x / u`.
fn to_montgomery(p: jubjub::AffinePoint) -> (bls12_381::Scalar, bls12_381::Scalar) {
    let scale = bls12_381::Scalar::from_bytes(&montgomery_scale().to_bytes()).unwrap();
    let u = p.get_u();
    let v = p.get_v();
    let x = (bls12_381::Scalar::one() + v) * (bls12_381::Scalar::one() - v).invert().unwrap();
    let y = scale * x * u.invert().unwrap();
    (x, y)
}

/// Segment tables of `segments` segments with `wn` windows each, together
/// with the curve points backing every entry: segment `s`, window `w`,
/// entry `j` holds `(j + 1) * 4^w * base_s`.
fn pedersen_tables(
    segments: usize,
    wn: usize,
) -> (Vec<Vec<Vec<(Fq, Fq)>>>, Vec<Vec<Vec<jubjub::ExtendedPoint>>>) {
    let g = generator();
    let mut gens = Vec::new();
    let mut points = Vec::new();
    for s in 0..segments {
        let base = g * jubjub::Fr::from(1000 * s as u64 + 7);
        let mut seg = Vec::new();
        let mut seg_points = Vec::new();
        let mut window_base = base;
        for _ in 0..wn {
            let mut window = Vec::new();
            let mut window_points = Vec::new();
            for j in 0..4 {
                let e = window_base * jubjub::Fr::from(j as u64 + 1);
                let a = e.to_affine();
                let (x, y) = to_montgomery(a);
                window.push((fq_of(x), fq_of(y)));
                window_points.push(e);
            }
            seg.push(window);
            seg_points.push(window_points);
            window_base = window_base.double().double();
        }
        gens.push(seg);
        points.push(seg_points);
    }
    (gens, points)
}

/// An independent curve-side evaluation of the hash over the combined
/// stream, padding missing bits of the final window with false.
fn expected_hash(
    points: &[Vec<Vec<jubjub::ExtendedPoint>>],
    personalization: &Personalization,
    bits: &[bool],
) -> jubjub::AffinePoint {
    let mut stream: Vec<bool> = Vec::new();
    match personalization {
        Personalization::NoteCommitment => {
            stream.extend([true; 6]);
        }
        Personalization::MerkleTree(d) => {
            for i in 0..6 {
                stream.push((d >> i) & 1 == 1);
            }
        }
    }
    stream.extend_from_slice(bits);
    let bit = |i: usize| -> bool {
        if i < stream.len() {
            stream[i]
        } else {
            false
        }
    };
    let chunks = (stream.len() + 2) / 3;
    let wn = points[0].len();
    let mut acc = jubjub::ExtendedPoint::identity();
    let mut c = 0;
    let mut s = 0;
    while c < chunks {
        let nw = wn.min(chunks - c);
        let mut seg = jubjub::ExtendedPoint::identity();
        for w in 0..nw {
            let idx = (bit(3 * (c + w)) as usize) + 2 * (bit(3 * (c + w) + 1) as usize);
            let mut e = points[s][w][idx];
            if bit(3 * (c + w) + 2) {
                e = -e;
            }
            seg += e;
        }
        acc += seg;
        c += nw;
        s += 1;
    }
    acc.to_affine()
}

fn witness_bits(cs: &mut ConstraintSystem, bits: &[bool]) -> Vec<Boolean> {
    bits.iter()
        .map(|b| Boolean::Is(AllocatedBit::allocate(cs, Some(*b))))
        .collect()
}

fn hash_coords(
    gens: &Vec<Vec<Vec<(Fq, Fq)>>>,
    personalization: Personalization,
    bits: &[bool],
) -> (bls12_381::Scalar, bls12_381::Scalar) {
    let mut cs = ConstraintSystem::new();
    let witnessed = witness_bits(&mut cs, bits);
    let r = pedersen_hash(&mut cs, &personalization, &witnessed, gens).unwrap();
    assert!(cs.is_satisfied());
    coords(&r)
}

#[test]
fn hash_matches_curve_side_evaluation() {
    let (gens, points) = pedersen_tables(4, 3);
    let cases: Vec<Vec<bool>> = vec![
        vec![],
        vec![true],
        vec![true, false, true, true],
        vec![false; 12],
        vec![true; 21],
    ];
    for bits in cases {
        let expected = expected_hash(&points, &Personalization::NoteCommitment, &bits);
        let (u, v) = hash_coords(&gens, Personalization::NoteCommitment, &bits);
        assert_eq!(u, expected.get_u());
        assert_eq!(v, expected.get_v());
    }
}

#[test]
fn padding_stays_inside_a_segment_boundary() {
    // Two-window segments: six prefix bits fill segment zero exactly, so a
    // single message bit opens a new segment whose only window carries two
    // padded bits.
    let (gens, points) = pedersen_tables(3, 2);
    for bits in [vec![], vec![true], vec![false], vec![true, true, false, true]] {
        let expected = expected_hash(&points, &Personalization::NoteCommitment, &bits);
        let (u, v) = hash_coords(&gens, Personalization::NoteCommitment, &bits);
        assert_eq!(u, expected.get_u());
        assert_eq!(v, expected.get_v());
    }
}

#[test]
fn identical_inputs_hash_identically() {
    let (gens, _) = pedersen_tables(3, 3);
    let bits = [true, false, true, true, false, false, true];
    let a = hash_coords(&gens, Personalization::MerkleTree(5), &bits);
    let b = hash_coords(&gens, Personalization::MerkleTree(5), &bits);
    assert_eq!(a, b);
}

#[test]
fn distinct_personalizations_hash_differently() {
    let (gens, _) = pedersen_tables(3, 3);
    let bits = [true, false, true, true];
    let a = hash_coords(&gens, Personalization::NoteCommitment, &bits);
    let b = hash_coords(&gens, Personalization::MerkleTree(0), &bits);
    let c = hash_coords(&gens, Personalization::MerkleTree(1), &bits);
    assert_ne!(a, b);
    assert_ne!(a, c);
    assert_ne!(b, c);
}

#[test]
fn merkle_tree_prefix_bits_encode_the_depth() {
    let bits = Personalization::MerkleTree(34).get_bits();
    let values: Vec<bool> = bits.iter().map(|b| b.get_value().unwrap()).collect();
    // 34 = 0b100010, little-endian.
    assert_eq!(values, vec![false, true, false, false, false, true]);
    let nc = Personalization::NoteCommitment.get_bits();
    assert_eq!(nc.len(), 6);
    for b in nc {
        assert_eq!(b.get_value(), Some(true));
    }
}

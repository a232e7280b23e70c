//! The fixed-layout record parsers, the decoding wrappers, the request
//! classification and the reply folding.

use group::{Curve, Group};
use zk::decode::{fr_from_bytes, point_from_bytes};
use zk::dispatch::{classify_request, respond, RequestKind};
use zk::error::Error;
use zk::field::{fq_eq, fq_from_bytes};
use zk::params::{
    output_from_bytes, parse_output_verify, parse_sapling_output, parse_sapling_spend,
    parse_spend_verify,
};

fn generator_bytes() -> [u8; 32] {
    jubjub::ExtendedPoint::from(jubjub::SubgroupPoint::generator())
        .to_affine()
        .to_bytes()
}

/// A spend record whose every field decodes.
fn valid_spend_record() -> Vec<u8> {
    let mut b = vec![0u8; 1288];
    b[0] = 42;  // value = 42
    let g = generator_bytes();
    b[40..72].copy_from_slice(&g);  // ak
    b[104..136].copy_from_slice(&g);  // payment address diversify hash
    for i in 0..32 {
        b[1224 + i] = (i % 2) as u8;  // auth path flags
    }
    b
}

#[test]
fn parse_sapling_spend_accepts_a_valid_record() {
    let b = valid_spend_record();
    let s = parse_sapling_spend(&b).unwrap();
    let vco = s.value_commitment_opening.unwrap();
    assert_eq!(vco.value, 42);
    assert_eq!(vco.randomness.to_bytes(), [0u8; 32]);
    assert!(s.ak.is_some());
    assert!(s.payment_address_diversify_hash.is_some());
    assert_eq!(s.auth_path.len(), 32);
    for (i, level) in s.auth_path.iter().enumerate() {
        let (scalar, flag) = level.unwrap();
        assert_eq!(scalar.to_bytes(), [0u8; 32]);
        assert_eq!(flag, i % 2 == 1);
    }
}

#[test]
fn parse_sapling_spend_rejects_a_wrong_length() {
    assert_eq!(
        parse_sapling_spend(&[0u8; 100]).unwrap_err(),
        Error::InvalidLength
    );
    assert_eq!(
        parse_sapling_spend(&valid_spend_record()[..1287]).unwrap_err(),
        Error::InvalidLength
    );
}

#[test]
fn parse_sapling_spend_rejects_a_noncanonical_auth_path_level() {
    let mut b = valid_spend_record();
    for i in 0..32 {
        b[200 + i] = 0xff;  // first auth path level far above the modulus
    }
    assert_eq!(
        parse_sapling_spend(&b).unwrap_err(),
        Error::SaplingInvalidAuthPath
    );
}

#[test]
fn parse_sapling_spend_rejects_a_noncanonical_randomness() {
    let mut b = valid_spend_record();
    for i in 0..32 {
        b[8 + i] = 0xff;
    }
    assert_eq!(
        parse_sapling_spend(&b).unwrap_err(),
        Error::SaplingInvalidRandomness
    );
}

#[test]
fn parse_sapling_spend_rejects_an_invalid_point() {
    let mut b = valid_spend_record();
    for i in 0..32 {
        b[40 + i] = 0xff;  // ak is no curve point
    }
    assert_eq!(
        parse_sapling_spend(&b).unwrap_err(),
        Error::InvalidPointEncoding
    );
}

#[test]
fn parse_sapling_output_accepts_a_valid_record() {
    let mut b = vec![0u8; 168];
    b[0] = 7;
    let g = generator_bytes();
    b[40..72].copy_from_slice(&g);
    b[72..104].copy_from_slice(&g);
    let o = parse_sapling_output(&b).unwrap();
    assert_eq!(o.value_commitment_opening.unwrap().value, 7);
    assert!(o.recipient_address_diversify_hash.is_some());
    assert!(o.recipient_address_pk_d.is_some());
    assert!(o.esk.is_some());
    assert!(o.commitment_randomness.is_some());
}

#[test]
fn parse_sapling_output_rejects_a_wrong_length() {
    assert_eq!(
        parse_sapling_output(&[0u8; 167]).unwrap_err(),
        Error::InvalidLength
    );
}

#[test]
fn parse_sapling_output_rejects_an_invalid_recipient() {
    let mut b = vec![0u8; 168];
    let g = generator_bytes();
    b[72..104].copy_from_slice(&g);
    for i in 0..32 {
        b[40 + i] = 0xff;
    }
    assert_eq!(
        parse_sapling_output(&b).unwrap_err(),
        Error::InvalidPointEncoding
    );
}

#[test]
fn output_from_bytes_splits_the_fields() {
    let mut b = vec![0u8; 168];
    b[0] = 1;
    b[1] = 2;  // value = 1 + 2 * 256
    b[8] = 9;
    b[136] = 5;
    let o = output_from_bytes(&b).unwrap();
    assert_eq!(o.value, 1 + 2 * 256);
    assert_eq!(o.randomness[0], 9);
    assert_eq!(o.esk[0], 5);
}

#[test]
fn parse_spend_verify_round_trips_proof_and_inputs() {
    let mut b = vec![0u8; 416];
    for i in 0..192 {
        b[i] = i as u8;
    }
    b[192] = 3;  // first public input = 3
    let v = parse_spend_verify(&b).unwrap();
    for i in 0..192 {
        assert_eq!(v.proof[i], i as u8);
    }
    let three = fq_from_bytes(&{
        let mut t = [0u8; 32];
        t[0] = 3;
        t
    })
    .unwrap();
    assert!(fq_eq(&v.public_inputs[0], &three));
    assert_eq!(parse_spend_verify(&[0u8; 10]).unwrap_err(), Error::InvalidLength);
}

#[test]
fn parse_output_verify_rejects_a_noncanonical_input() {
    let mut b = vec![0u8; 352];
    for i in 0..32 {
        b[192 + i] = 0xff;
    }
    assert_eq!(
        parse_output_verify(&b).unwrap_err(),
        Error::SaplingInvalidAuthPath
    );
    assert_eq!(parse_output_verify(&[0u8; 353]).unwrap_err(), Error::InvalidLength);
    assert!(parse_output_verify(&vec![0u8; 352]).is_ok());
}

#[test]
fn decode_wrappers_accept_and_reject_as_the_curve_does() {
    assert!(point_from_bytes(&generator_bytes()).is_some());
    assert!(point_from_bytes(&[0xff; 32]).is_none());
    assert!(fr_from_bytes(&[0u8; 32]).is_some());
    assert!(fr_from_bytes(&[0xff; 32]).is_none());
    assert!(fq_from_bytes(&[0u8; 32]).is_some());
    assert!(fq_from_bytes(&[0xff; 32]).is_none());
}

#[test]
fn request_identifiers_map_to_their_operations() {
    assert_eq!(classify_request(u32::MAX), RequestKind::Version);
    assert_eq!(classify_request(1), RequestKind::InitSpendParams);
    assert_eq!(classify_request(2), RequestKind::InitOutputParams);
    assert_eq!(classify_request(3), RequestKind::ProveSpend);
    assert_eq!(classify_request(4), RequestKind::ProveOutput);
    assert_eq!(classify_request(5), RequestKind::VerifyOutput);
    assert_eq!(classify_request(6), RequestKind::VerifySpend);
    assert_eq!(classify_request(8), RequestKind::VerifyOrchard);
    assert_eq!(classify_request(9), RequestKind::ProveOrchard);
    assert_eq!(classify_request(10), RequestKind::SpendParamsLoaded);
    assert_eq!(classify_request(11), RequestKind::OutputParamsLoaded);
    assert_eq!(classify_request(7), RequestKind::Unknown);
    assert_eq!(classify_request(12), RequestKind::Unknown);
    assert_eq!(classify_request(0), RequestKind::Unknown);
}

#[test]
fn replies_carry_the_protocol_codes() {
    let ok = respond(Ok(vec![1, 2, 3]));
    assert_eq!(ok.bytes, vec![1, 2, 3]);
    assert_eq!(ok.code, 0);
    let err = respond(Err(Error::UnknowRequestId));
    assert_eq!(err.bytes, vec![0]);
    assert_eq!(err.code, 7);
    assert_eq!(Error::SaplingInvalidProof.code(), 14);
    assert_eq!(Error::OrchardProofCreationFailed.code(), 30);
    assert_eq!(Error::InvalidPointEncoding.code(), 2);
}

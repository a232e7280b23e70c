//! Fixed-layout byte records carrying witness data for the spend and
//! output circuits, and their parsers: length-checked field extraction
//! followed by scalar and point decoding, with one protocol error per
//! rejected field.

use vstd::prelude::*;

use crate::decode::{fr_from_bytes, fr_r, jubjub_decode_ok, point_from_bytes, FrValue};
use crate::ecc::{on_curve, PointValue};
use crate::error::Error;
use crate::field::{fq_from_bytes, fq_q, le_val, Fq};

verus! {

/// The number of levels of a witness authentication path.
pub const MAX_AUTH_PATH: usize = 32;

/// The number of public inputs of a spend verification.
pub const MAX_SPEND_VERIFY_INPUTS: usize = 7;

/// The number of public inputs of an output verification.
pub const MAX_OUTPUT_VERIFY_INPUTS: usize = 5;

/// The byte length of an encoded proof.
pub const GROTH_PROOF_SIZE: usize = 192;

/// A 32-byte field of a record.
pub open spec fn sub32(b: Seq<u8>, off: int) -> Seq<u8> {
    b.subrange(off, off + 32)
}

/// Whether a 32-byte field is a canonical base-field encoding.
pub open spec fn fq_ok(b: Seq<u8>) -> bool {
    le_val(b) < fq_q()
}

/// Whether a 32-byte field is a canonical scalar-field encoding.
pub open spec fn fr_ok(b: Seq<u8>) -> bool {
    le_val(b) < fr_r()
}

/// The fixed-layout spend witness record.
#[derive(Clone, Copy, Debug)]
pub struct SpendBytes {
    pub value: u64,
    pub randomness: [u8; 32],
    pub ak: [u8; 32],
    pub nsk: [u8; 32],
    pub payment_address_diversify_hash: [u8; 32],
    pub commitment_randomness: [u8; 32],
    pub ar: [u8; 32],
    pub auth_path: [[u8; 32]; 32],
    pub auth_path_pos: [u8; 32],
    pub anchor: [u8; 32],
}

/// The fixed-layout output witness record.
#[derive(Clone, Copy, Debug)]
pub struct OutputBytes {
    pub value: u64,
    pub randomness: [u8; 32],
    pub recipient_address_diversify_hash: [u8; 32],
    pub recipient_address_pk_d: [u8; 32],
    pub commitment_randomness: [u8; 32],
    pub esk: [u8; 32],
}

/// The fixed-layout spend verification record.
#[derive(Clone, Copy, Debug)]
pub struct SpendVerifyBytes {
    pub proof: [u8; 192],
    pub public_inputs: [[u8; 32]; 7],
}

/// The fixed-layout output verification record.
#[derive(Clone, Copy, Debug)]
pub struct OutputVerifyBytes {
    pub proof: [u8; 192],
    pub public_inputs: [[u8; 32]; 5],
}

/// A spend verification request with its inputs decoded.
#[derive(Clone, Copy, Debug)]
pub struct SpendVerify {
    pub proof: [u8; 192],
    pub public_inputs: [Fq; 7],
}

/// An output verification request with its inputs decoded.
#[derive(Clone, Copy, Debug)]
pub struct OutputVerify {
    pub proof: [u8; 192],
    pub public_inputs: [Fq; 5],
}

/// The opened value commitment of a note.
#[derive(Clone, Copy, Debug)]
pub struct ValueCommitmentOpening {
    pub value: u64,
    pub randomness: FrValue,
}

/// The decoded witness of a spend circuit.
#[derive(Clone, Debug)]
pub struct Spend {
    pub value_commitment_opening: Option<ValueCommitmentOpening>,
    pub ak: Option<PointValue>,
    pub nsk: Option<FrValue>,
    pub payment_address_diversify_hash: Option<PointValue>,
    pub anchor: Option<Fq>,
    pub ar: Option<FrValue>,
    pub auth_path: Vec<Option<(Fq, bool)>>,
    pub commitment_randomness: Option<FrValue>,
}

/// The decoded witness of an output circuit.
#[derive(Clone, Debug)]
pub struct Output {
    pub value_commitment_opening: Option<ValueCommitmentOpening>,
    pub recipient_address_diversify_hash: Option<PointValue>,
    pub recipient_address_pk_d: Option<PointValue>,
    pub esk: Option<FrValue>,
    pub commitment_randomness: Option<FrValue>,
}

/// Copies one 32-byte field out of a record.
fn read_array32(b: &[u8], off: usize) -> (r: [u8; 32])
    requires
        off + 32 <= b@.len(),
    ensures
        r@ =~= b@.subrange(off as int, off as int + 32),
{
    let blen = b.len();
    let mut r: [u8; 32] = [0; 32];
    let mut i: usize = 0;
    while i < 32
        invariant
            0 <= i <= 32,
            off + 32 <= blen,
            blen == b@.len(),
            r@.len() == 32,
            forall|j: int| 0 <= j < i ==> r@[j] == b@[off + j],
        decreases 32 - i,
    {
        r[i] = b[off + i];
        i = i + 1;
    }
    r
}

/// The little-endian integer held by eight bytes.
proof fn lemma_le_val8(s: Seq<u8>)
    requires
        s.len() == 8,
    ensures
        le_val(s) == s[0] + 256 * (s[1] + 256 * (s[2] + 256 * (s[3] + 256 * (s[4] + 256 * (s[5]
            + 256 * (s[6] + 256 * s[7])))))),
    decreases s.len(),
{
    reveal_with_fuel(le_val, 10);
    let s1 = s.drop_first();
    let s2 = s1.drop_first();
    let s3 = s2.drop_first();
    let s4 = s3.drop_first();
    let s5 = s4.drop_first();
    let s6 = s5.drop_first();
    let s7 = s6.drop_first();
    assert(s7.drop_first().len() == 0);
    assert(s7[0] == s[7]);
    assert(s6[0] == s[6]);
    assert(s5[0] == s[5]);
    assert(s4[0] == s[4]);
    assert(s3[0] == s[3]);
    assert(s2[0] == s[2]);
    assert(s1[0] == s[1]);
}

/// Reads the little-endian 64-bit value at an offset.
fn read_u64_le(b: &[u8], off: usize) -> (r: u64)
    requires
        off + 8 <= b@.len(),
    ensures
        r == le_val(b@.subrange(off as int, off as int + 8)),
{
    let blen = b.len();
    proof {
        assert(off + 8 <= blen);
    }
    let x7: u64 = b[off + 7] as u64;
    let x6: u64 = b[off + 6] as u64 + 256 * x7;
    let x5: u64 = b[off + 5] as u64 + 256 * x6;
    let x4: u64 = b[off + 4] as u64 + 256 * x5;
    let x3: u64 = b[off + 3] as u64 + 256 * x4;
    let x2: u64 = b[off + 2] as u64 + 256 * x3;
    let x1: u64 = b[off + 1] as u64 + 256 * x2;
    let x0: u64 = b[off] as u64 + 256 * x1;
    proof {
        let s = b@.subrange(off as int, off as int + 8);
        lemma_le_val8(s);
        assert(forall|j: int| 0 <= j < 8 ==> s[j] == b@[off + j]);
    }
    x0
}

/// Copies the proof field out of a record.
fn read_array192(b: &[u8], off: usize) -> (r: [u8; 192])
    requires
        off + 192 <= b@.len(),
    ensures
        r@ =~= b@.subrange(off as int, off as int + 192),
{
    let blen = b.len();
    let mut r: [u8; 192] = [0; 192];
    let mut i: usize = 0;
    while i < 192
        invariant
            0 <= i <= 192,
            off + 192 <= blen,
            blen == b@.len(),
            r@.len() == 192,
            forall|j: int| 0 <= j < i ==> r@[j] == b@[off + j],
        decreases 192 - i,
    {
        r[i] = b[off + i];
        i = i + 1;
    }
    r
}

/// Whether every public input of a verification record is a canonical
/// base-field encoding.
pub open spec fn verify_inputs_ok(b: Seq<u8>, n: int) -> bool {
    forall|i: int| 0 <= i < n ==> fq_ok(#[trigger] sub32(b, 192 + 32 * i))
}

/// Parses a spend verification record: the proof bytes pass through and
/// each public input must be a canonical base-field encoding.
pub fn parse_spend_verify(bytes: &[u8]) -> (r: Result<SpendVerify, Error>)
    ensures
        bytes@.len() != 416 ==> r == Result::<SpendVerify, Error>::Err(Error::InvalidLength),
        (bytes@.len() == 416 && !verify_inputs_ok(bytes@, 7)) ==> r == Result::<
            SpendVerify,
            Error,
        >::Err(Error::SaplingInvalidAuthPath),
        (bytes@.len() == 416 && verify_inputs_ok(bytes@, 7)) ==> r is Ok && {
            let s = r.unwrap();
            &&& s.proof@ == bytes@.subrange(0, 192)
            &&& (forall|i: int|
                0 <= i < 7 ==> (#[trigger] s.public_inputs@[i]).val() == le_val(
                    sub32(bytes@, 192 + 32 * i),
                ))
        },
{
    if bytes.len() != 416 {
        return Err(Error::InvalidLength);
    }
    let proof = read_array192(bytes, 0);
    let zero = crate::field::fq_zero();
    let mut public_inputs: [Fq; 7] = [zero, zero, zero, zero, zero, zero, zero];
    let mut i: usize = 0;
    while i < 7
        invariant
            0 <= i <= 7,
            bytes@.len() == 416,
            public_inputs@.len() == 7,
            forall|j: int| 0 <= j < i ==> fq_ok(#[trigger] sub32(bytes@, 192 + 32 * j)),
            forall|j: int|
                0 <= j < i ==> (#[trigger] public_inputs@[j]).val() == le_val(
                    sub32(bytes@, 192 + 32 * j),
                ),
        decreases 7 - i,
    {
        let field = read_array32(bytes, 192 + 32 * i);
        let scalar = match fq_from_bytes(&field) {
            Some(f) => f,
            None => {
                proof {
                    assert(field@ == sub32(bytes@, 192 + 32 * (i as int)));
                    assert(!fq_ok(sub32(bytes@, 192 + 32 * (i as int))));
                }
                return Err(Error::SaplingInvalidAuthPath);
            },
        };
        public_inputs[i] = scalar;
        i = i + 1;
    }
    Ok(SpendVerify { proof, public_inputs })
}

/// Parses an output verification record: the proof bytes pass through and
/// each public input must be a canonical base-field encoding.
pub fn parse_output_verify(bytes: &[u8]) -> (r: Result<OutputVerify, Error>)
    ensures
        bytes@.len() != 352 ==> r == Result::<OutputVerify, Error>::Err(Error::InvalidLength),
        (bytes@.len() == 352 && !verify_inputs_ok(bytes@, 5)) ==> r == Result::<
            OutputVerify,
            Error,
        >::Err(Error::SaplingInvalidAuthPath),
        (bytes@.len() == 352 && verify_inputs_ok(bytes@, 5)) ==> r is Ok && {
            let s = r.unwrap();
            &&& s.proof@ == bytes@.subrange(0, 192)
            &&& (forall|i: int|
                0 <= i < 5 ==> (#[trigger] s.public_inputs@[i]).val() == le_val(
                    sub32(bytes@, 192 + 32 * i),
                ))
        },
{
    if bytes.len() != 352 {
        return Err(Error::InvalidLength);
    }
    let proof = read_array192(bytes, 0);
    let zero = crate::field::fq_zero();
    let mut public_inputs: [Fq; 5] = [zero, zero, zero, zero, zero];
    let mut i: usize = 0;
    while i < 5
        invariant
            0 <= i <= 5,
            bytes@.len() == 352,
            public_inputs@.len() == 5,
            forall|j: int| 0 <= j < i ==> fq_ok(#[trigger] sub32(bytes@, 192 + 32 * j)),
            forall|j: int|
                0 <= j < i ==> (#[trigger] public_inputs@[j]).val() == le_val(
                    sub32(bytes@, 192 + 32 * j),
                ),
        decreases 5 - i,
    {
        let field = read_array32(bytes, 192 + 32 * i);
        let scalar = match fq_from_bytes(&field) {
            Some(f) => f,
            None => {
                proof {
                    assert(field@ == sub32(bytes@, 192 + 32 * (i as int)));
                    assert(!fq_ok(sub32(bytes@, 192 + 32 * (i as int))));
                }
                return Err(Error::SaplingInvalidAuthPath);
            },
        };
        public_inputs[i] = scalar;
        i = i + 1;
    }
    Ok(OutputVerify { proof, public_inputs })
}

/// Splits a spend record into its fields; rejects any other length.
fn spend_from_bytes(bytes: &[u8]) -> (r: Result<SpendBytes, Error>)
    ensures
        bytes@.len() != 1288 ==> r == Result::<SpendBytes, Error>::Err(Error::InvalidLength),
        bytes@.len() == 1288 ==> r is Ok && {
            let s = r.unwrap();
            &&& s.value == le_val(bytes@.subrange(0, 8))
            &&& s.randomness@ == sub32(bytes@, 8)
            &&& s.ak@ == sub32(bytes@, 40)
            &&& s.nsk@ == sub32(bytes@, 72)
            &&& s.payment_address_diversify_hash@ == sub32(bytes@, 104)
            &&& s.commitment_randomness@ == sub32(bytes@, 136)
            &&& s.ar@ == sub32(bytes@, 168)
            &&& (forall|i: int| 0 <= i < 32 ==> (#[trigger] s.auth_path@[i])@ == sub32(
                bytes@,
                200 + 32 * i,
            ))
            &&& s.auth_path_pos@ == bytes@.subrange(1224, 1256)
            &&& s.anchor@ == sub32(bytes@, 1256)
        },
{
    if bytes.len() != 1288 {
        return Err(Error::InvalidLength);
    }
    let value = read_u64_le(bytes, 0);
    let randomness = read_array32(bytes, 8);
    let ak = read_array32(bytes, 40);
    let nsk = read_array32(bytes, 72);
    let payment_address_diversify_hash = read_array32(bytes, 104);
    let commitment_randomness = read_array32(bytes, 136);
    let ar = read_array32(bytes, 168);
    let mut auth_path: [[u8; 32]; 32] = [[0; 32]; 32];
    let mut i: usize = 0;
    while i < 32
        invariant
            0 <= i <= 32,
            bytes@.len() == 1288,
            auth_path@.len() == 32,
            forall|j: int| 0 <= j < i ==> (#[trigger] auth_path@[j])@ == sub32(bytes@, 200 + 32 * j),
        decreases 32 - i,
    {
        let e = read_array32(bytes, 200 + 32 * i);
        auth_path[i] = e;
        i = i + 1;
    }
    let auth_path_pos = read_array32(bytes, 1224);
    let anchor = read_array32(bytes, 1256);
    Ok(
        SpendBytes {
            value,
            randomness,
            ak,
            nsk,
            payment_address_diversify_hash,
            commitment_randomness,
            ar,
            auth_path,
            auth_path_pos,
            anchor,
        },
    )
}

/// Splits an output record into its fields; rejects any other length.
pub fn output_from_bytes(bytes: &[u8]) -> (r: Result<OutputBytes, Error>)
    ensures
        bytes@.len() != 168 ==> r == Result::<OutputBytes, Error>::Err(Error::InvalidLength),
        bytes@.len() == 168 ==> r is Ok && {
            let s = r.unwrap();
            &&& s.value == le_val(bytes@.subrange(0, 8))
            &&& s.randomness@ == sub32(bytes@, 8)
            &&& s.recipient_address_diversify_hash@ == sub32(bytes@, 40)
            &&& s.recipient_address_pk_d@ == sub32(bytes@, 72)
            &&& s.commitment_randomness@ == sub32(bytes@, 104)
            &&& s.esk@ == sub32(bytes@, 136)
        },
{
    if bytes.len() != 168 {
        return Err(Error::InvalidLength);
    }
    let value = read_u64_le(bytes, 0);
    let randomness = read_array32(bytes, 8);
    let recipient_address_diversify_hash = read_array32(bytes, 40);
    let recipient_address_pk_d = read_array32(bytes, 72);
    let commitment_randomness = read_array32(bytes, 104);
    let esk = read_array32(bytes, 136);
    Ok(
        OutputBytes {
            value,
            randomness,
            recipient_address_diversify_hash,
            recipient_address_pk_d,
            commitment_randomness,
            esk,
        },
    )
}

/// Parses an output witness record: fixed-offset extraction, then scalar
/// and point decoding, each failure mapped to its protocol error.
pub fn parse_sapling_output(bytes: &[u8]) -> (r: Result<Output, Error>)
    ensures
        bytes@.len() != 168 ==> r == Result::<Output, Error>::Err(Error::InvalidLength),
        bytes@.len() == 168 ==> {
            &&& !fr_ok(sub32(bytes@, 8)) ==> r == Result::<Output, Error>::Err(
                Error::SaplingInvalidRandomness,
            )
            &&& fr_ok(sub32(bytes@, 8)) && !jubjub_decode_ok(sub32(bytes@, 40)) ==> r
                == Result::<Output, Error>::Err(Error::InvalidPointEncoding)
            &&& fr_ok(sub32(bytes@, 8)) && jubjub_decode_ok(sub32(bytes@, 40))
                && !jubjub_decode_ok(sub32(bytes@, 72)) ==> r == Result::<Output, Error>::Err(
                Error::InvalidPointEncoding,
            )
            &&& fr_ok(sub32(bytes@, 8)) && jubjub_decode_ok(sub32(bytes@, 40))
                && jubjub_decode_ok(sub32(bytes@, 72)) && !fr_ok(sub32(bytes@, 136)) ==> r
                == Result::<Output, Error>::Err(Error::SaplingInvalidRandomness)
            &&& fr_ok(sub32(bytes@, 8)) && jubjub_decode_ok(sub32(bytes@, 40))
                && jubjub_decode_ok(sub32(bytes@, 72)) && fr_ok(sub32(bytes@, 136)) && !fr_ok(
                sub32(bytes@, 104),
            ) ==> r == Result::<Output, Error>::Err(Error::SaplingInvalidRandomness)
            &&& fr_ok(sub32(bytes@, 8)) && jubjub_decode_ok(sub32(bytes@, 40))
                && jubjub_decode_ok(sub32(bytes@, 72)) && fr_ok(sub32(bytes@, 136)) && fr_ok(
                sub32(bytes@, 104),
            ) ==> r is Ok && {
                let o = r.unwrap();
                &&& o.value_commitment_opening is Some
                &&& o.value_commitment_opening.unwrap().value == le_val(bytes@.subrange(0, 8))
                &&& o.value_commitment_opening.unwrap().randomness.val() == le_val(
                    sub32(bytes@, 8),
                )
                &&& o.recipient_address_diversify_hash is Some
                &&& on_curve(
                    o.recipient_address_diversify_hash.unwrap().u.val(),
                    o.recipient_address_diversify_hash.unwrap().v.val(),
                )
                &&& o.recipient_address_pk_d is Some
                &&& on_curve(
                    o.recipient_address_pk_d.unwrap().u.val(),
                    o.recipient_address_pk_d.unwrap().v.val(),
                )
                &&& o.esk is Some
                &&& o.esk.unwrap().val() == le_val(sub32(bytes@, 136))
                &&& o.commitment_randomness is Some
                &&& o.commitment_randomness.unwrap().val() == le_val(sub32(bytes@, 104))
            }
        },
{
    let ob = match output_from_bytes(bytes) {
        Ok(o) => o,
        Err(e) => {
            return Err(e);
        },
    };
    let randomness = match fr_from_bytes(&ob.randomness) {
        Some(f) => f,
        None => {
            return Err(Error::SaplingInvalidRandomness);
        },
    };
    let recipient_address_diversify_hash = match point_from_bytes(
        &ob.recipient_address_diversify_hash,
    ) {
        Some(p) => p,
        None => {
            return Err(Error::InvalidPointEncoding);
        },
    };
    let recipient_address_pk_d = match point_from_bytes(&ob.recipient_address_pk_d) {
        Some(p) => p,
        None => {
            return Err(Error::InvalidPointEncoding);
        },
    };
    let esk = match fr_from_bytes(&ob.esk) {
        Some(f) => f,
        None => {
            return Err(Error::SaplingInvalidRandomness);
        },
    };
    let commitment_randomness = match fr_from_bytes(&ob.commitment_randomness) {
        Some(f) => f,
        None => {
            return Err(Error::SaplingInvalidRandomness);
        },
    };
    Ok(
        Output {
            value_commitment_opening: Some(
                ValueCommitmentOpening { value: ob.value, randomness },
            ),
            recipient_address_diversify_hash: Some(recipient_address_diversify_hash),
            recipient_address_pk_d: Some(recipient_address_pk_d),
            esk: Some(esk),
            commitment_randomness: Some(commitment_randomness),
        },
    )
}

/// Whether every authentication-path level is a canonical base-field
/// encoding.
pub open spec fn auth_path_ok(b: Seq<u8>) -> bool {
    forall|i: int| 0 <= i < 32 ==> fq_ok(#[trigger] sub32(b, 200 + 32 * i))
}

/// Parses a spend witness record: fixed-offset extraction, the
/// authentication path first, then scalar and point decoding, each failure
/// mapped to its protocol error.
pub fn parse_sapling_spend(bytes: &[u8]) -> (r: Result<Spend, Error>)
    ensures
        bytes@.len() != 1288 ==> r == Result::<Spend, Error>::Err(Error::InvalidLength),
        bytes@.len() == 1288 ==> {
            &&& !auth_path_ok(bytes@) ==> r == Result::<Spend, Error>::Err(
                Error::SaplingInvalidAuthPath,
            )
            &&& auth_path_ok(bytes@) && !fr_ok(sub32(bytes@, 8)) ==> r == Result::<
                Spend,
                Error,
            >::Err(Error::SaplingInvalidRandomness)
            &&& auth_path_ok(bytes@) && fr_ok(sub32(bytes@, 8)) && !jubjub_decode_ok(
                sub32(bytes@, 40),
            ) ==> r == Result::<Spend, Error>::Err(Error::InvalidPointEncoding)
            &&& auth_path_ok(bytes@) && fr_ok(sub32(bytes@, 8)) && jubjub_decode_ok(
                sub32(bytes@, 40),
            ) && !fr_ok(sub32(bytes@, 72)) ==> r == Result::<Spend, Error>::Err(
                Error::SaplingInvalidRandomness,
            )
            &&& auth_path_ok(bytes@) && fr_ok(sub32(bytes@, 8)) && jubjub_decode_ok(
                sub32(bytes@, 40),
            ) && fr_ok(sub32(bytes@, 72)) && !jubjub_decode_ok(sub32(bytes@, 104)) ==> r
                == Result::<Spend, Error>::Err(Error::InvalidPointEncoding)
            &&& auth_path_ok(bytes@) && fr_ok(sub32(bytes@, 8)) && jubjub_decode_ok(
                sub32(bytes@, 40),
            ) && fr_ok(sub32(bytes@, 72)) && jubjub_decode_ok(sub32(bytes@, 104)) && !fq_ok(
                sub32(bytes@, 1256),
            ) ==> r == Result::<Spend, Error>::Err(Error::SaplingInvalidAuthPath)
            &&& auth_path_ok(bytes@) && fr_ok(sub32(bytes@, 8)) && jubjub_decode_ok(
                sub32(bytes@, 40),
            ) && fr_ok(sub32(bytes@, 72)) && jubjub_decode_ok(sub32(bytes@, 104)) && fq_ok(
                sub32(bytes@, 1256),
            ) && !fr_ok(sub32(bytes@, 168)) ==> r == Result::<Spend, Error>::Err(
                Error::SaplingInvalidRandomness,
            )
            &&& auth_path_ok(bytes@) && fr_ok(sub32(bytes@, 8)) && jubjub_decode_ok(
                sub32(bytes@, 40),
            ) && fr_ok(sub32(bytes@, 72)) && jubjub_decode_ok(sub32(bytes@, 104)) && fq_ok(
                sub32(bytes@, 1256),
            ) && fr_ok(sub32(bytes@, 168)) && !fr_ok(sub32(bytes@, 136)) ==> r == Result::<
                Spend,
                Error,
            >::Err(Error::SaplingInvalidRandomness)
            &&& auth_path_ok(bytes@) && fr_ok(sub32(bytes@, 8)) && jubjub_decode_ok(
                sub32(bytes@, 40),
            ) && fr_ok(sub32(bytes@, 72)) && jubjub_decode_ok(sub32(bytes@, 104)) && fq_ok(
                sub32(bytes@, 1256),
            ) && fr_ok(sub32(bytes@, 168)) && fr_ok(sub32(bytes@, 136)) ==> r is Ok && {
                let s = r.unwrap();
                &&& s.value_commitment_opening is Some
                &&& s.value_commitment_opening.unwrap().value == le_val(bytes@.subrange(0, 8))
                &&& s.value_commitment_opening.unwrap().randomness.val() == le_val(
                    sub32(bytes@, 8),
                )
                &&& s.ak is Some && on_curve(s.ak.unwrap().u.val(), s.ak.unwrap().v.val())
                &&& s.nsk is Some && s.nsk.unwrap().val() == le_val(sub32(bytes@, 72))
                &&& s.payment_address_diversify_hash is Some && on_curve(
                    s.payment_address_diversify_hash.unwrap().u.val(),
                    s.payment_address_diversify_hash.unwrap().v.val(),
                )
                &&& s.anchor is Some && s.anchor.unwrap().val() == le_val(sub32(bytes@, 1256))
                &&& s.ar is Some && s.ar.unwrap().val() == le_val(sub32(bytes@, 168))
                &&& s.commitment_randomness is Some && s.commitment_randomness.unwrap().val()
                    == le_val(sub32(bytes@, 136))
                &&& s.auth_path@.len() == 32
                &&& (forall|i: int|
                    0 <= i < 32 ==> (#[trigger] s.auth_path@[i]) is Some
                        && s.auth_path@[i].unwrap().0.val() == le_val(sub32(bytes@, 200 + 32 * i))
                        && s.auth_path@[i].unwrap().1 == (bytes@[1224 + i] != 0))
            }
        },
{
    let sb = match spend_from_bytes(bytes) {
        Ok(s) => s,
        Err(e) => {
            return Err(e);
        },
    };
    let mut auth_path: Vec<Option<(Fq, bool)>> = Vec::new();
    let mut i: usize = 0;
    while i < 32
        invariant
            0 <= i <= 32,
            bytes@.len() == 1288,
            auth_path@.len() == i,
            sb.auth_path@.len() == 32,
            sb.auth_path_pos@.len() == 32,
            forall|j: int| 0 <= j < 32 ==> (#[trigger] sb.auth_path@[j])@ == sub32(
                bytes@,
                200 + 32 * j,
            ),
            sb.auth_path_pos@ == bytes@.subrange(1224, 1256),
            forall|j: int| 0 <= j < i ==> fq_ok(#[trigger] sub32(bytes@, 200 + 32 * j)),
            forall|j: int|
                0 <= j < i ==> (#[trigger] auth_path@[j]) is Some && auth_path@[j].unwrap().0.val()
                    == le_val(sub32(bytes@, 200 + 32 * j)) && auth_path@[j].unwrap().1 == (bytes@[
                1224 + j] != 0),
        decreases 32 - i,
    {
        let scalar = match fq_from_bytes(&sb.auth_path[i]) {
            Some(f) => f,
            None => {
                return Err(Error::SaplingInvalidAuthPath);
            },
        };
        let flag = sb.auth_path_pos[i] != 0;
        auth_path.push(Some((scalar, flag)));
        i = i + 1;
    }
    let randomness = match fr_from_bytes(&sb.randomness) {
        Some(f) => f,
        None => {
            return Err(Error::SaplingInvalidRandomness);
        },
    };
    let ak = match point_from_bytes(&sb.ak) {
        Some(p) => p,
        None => {
            return Err(Error::InvalidPointEncoding);
        },
    };
    let nsk = match fr_from_bytes(&sb.nsk) {
        Some(f) => f,
        None => {
            return Err(Error::SaplingInvalidRandomness);
        },
    };
    let payment_address_diversify_hash = match point_from_bytes(
        &sb.payment_address_diversify_hash,
    ) {
        Some(p) => p,
        None => {
            return Err(Error::InvalidPointEncoding);
        },
    };
    let anchor = match fq_from_bytes(&sb.anchor) {
        Some(f) => f,
        None => {
            return Err(Error::SaplingInvalidAuthPath);
        },
    };
    let ar = match fr_from_bytes(&sb.ar) {
        Some(f) => f,
        None => {
            return Err(Error::SaplingInvalidRandomness);
        },
    };
    let commitment_randomness = match fr_from_bytes(&sb.commitment_randomness) {
        Some(f) => f,
        None => {
            return Err(Error::SaplingInvalidRandomness);
        },
    };
    Ok(
        Spend {
            value_commitment_opening: Some(
                ValueCommitmentOpening { value: sb.value, randomness },
            ),
            ak: Some(ak),
            nsk: Some(nsk),
            payment_address_diversify_hash: Some(payment_address_diversify_hash),
            anchor: Some(anchor),
            ar: Some(ar),
            auth_path,
            commitment_randomness: Some(commitment_randomness),
        },
    )
}

} // verus!

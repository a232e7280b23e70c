//! Decoding of witness material: Jubjub scalar-field elements and
//! compressed curve points, parsed by the `jubjub` crate behind trusted
//! wrappers.

use vstd::prelude::*;

use crate::ecc::{on_curve, PointValue};
use crate::field::{fq_from_canonical_bytes, le_val};

verus! {

/// The modulus of the Jubjub scalar field.
pub open spec fn fr_r() -> int {
    0x0e7db4ea6533afa906673b0101343b00a6682093ccc81082d0970e5ed6f72cb7int
}

/// An element of the Jubjub scalar field, stored as its canonical
/// little-endian encoding; carried as witness data only.
#[derive(Clone, Copy, Debug, PartialEq, Eq)]
pub struct FrValue {
    bytes: [u8; 32],
}

impl FrValue {
    /// The stored encoding denotes an integer below the modulus.
    #[verifier::type_invariant]
    pub closed spec fn canonical(self) -> bool {
        0 <= le_val(self.bytes@) < fr_r()
    }

    /// The integer value of this element.
    pub closed spec fn val(self) -> int {
        le_val(self.bytes@) % fr_r()
    }

    /// The canonical encoding of this element.
    pub fn to_bytes(&self) -> (r: [u8; 32])
        ensures
            le_val(r@) == self.val(),
    {
        proof {
            use_type_invariant(self);
            vstd::arithmetic::div_mod::lemma_small_mod(le_val(self.bytes@) as nat, fr_r() as nat);
        }
        self.bytes
    }
}

/// Parses a canonical scalar encoding. Relies on `jubjub::Fr::from_bytes`,
/// which succeeds exactly on little-endian encodings of integers below the
/// scalar-field modulus.
#[verifier::external_body]
pub fn fr_from_bytes(b: &[u8; 32]) -> (r: Option<FrValue>)
    ensures
        r is Some <==> le_val(b@) < fr_r(),
        r is Some ==> r.unwrap().val() == le_val(b@),
{
    let s: Option<jubjub::Fr> = jubjub::Fr::from_bytes(b).into();
    s.map(|_| FrValue { bytes: *b })
}

/// Whether a byte string is an encoding that Jubjub point decompression
/// accepts.
pub uninterp spec fn jubjub_decode_ok(b: Seq<u8>) -> bool;

/// Decompresses a curve point. Relies on `jubjub::AffinePoint::from_bytes`,
/// which recovers the `u` coordinate from the encoded `v` and sign bit and
/// fails when the bytes name no curve point; a decoded point therefore
/// satisfies the curve equation.
#[verifier::external_body]
pub fn point_from_bytes(b: &[u8; 32]) -> (r: Option<PointValue>)
    ensures
        r is Some <==> jubjub_decode_ok(b@),
        r is Some ==> on_curve(r.unwrap().u.val(), r.unwrap().v.val()),
{
    let p: Option<jubjub::AffinePoint> = jubjub::AffinePoint::from_bytes(*b).into();
    p.map(
        |a: jubjub::AffinePoint|
            PointValue {
                u: fq_from_canonical_bytes(a.get_u().to_bytes()),
                v: fq_from_canonical_bytes(a.get_v().to_bytes()),
            },
    )
}

} // verus!

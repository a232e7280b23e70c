//! Protocol error codes: every failure the request boundary can report,
//! with its fixed numeric code.

use vstd::prelude::*;

verus! {

/// A protocol-level failure, or success as code zero.
#[derive(Clone, Copy, Debug, PartialEq, Eq, Structural)]
pub enum Error {
    Success,
    InvalidLength,
    InvalidPointEncoding,
    SaplingInvalidParameters,
    UnexpectedError,
    SaplingSpendNotInitialized,
    SaplingOutputNotInitialized,
    UnknowRequestId,
    SaplingInvalidValue,
    SaplingInvalidRandomness,
    SaplingInvalidAuthPath,
    SaplingInvalidAnchor,
    SaplingInvalidProof,
    OrchardInvalidFvk,
    OrchardInvalidAddress,
    OrchardInvalidRho,
    OrchardInvalidRseed,
    OrchardInvalidAuthPath,
    OrchardInvalidScalar,
    OrchardInvalidNote,
    OrchardInvalidCommitment,
    OrchardInvalidSpend,
    OrchardInvalidCircuit,
    OrchardProofCreationFailed,
}

impl Error {
    /// The numeric code the boundary reports for this failure.
    pub open spec fn code_spec(self) -> u32 {
        match self {
            Error::Success => 0,
            Error::InvalidLength => 1,
            Error::InvalidPointEncoding => 2,
            Error::SaplingInvalidParameters => 3,
            Error::UnexpectedError => 4,
            Error::SaplingSpendNotInitialized => 5,
            Error::SaplingOutputNotInitialized => 6,
            Error::UnknowRequestId => 7,
            Error::SaplingInvalidValue => 10,
            Error::SaplingInvalidRandomness => 11,
            Error::SaplingInvalidAuthPath => 12,
            Error::SaplingInvalidAnchor => 13,
            Error::SaplingInvalidProof => 14,
            Error::OrchardInvalidFvk => 20,
            Error::OrchardInvalidAddress => 21,
            Error::OrchardInvalidRho => 22,
            Error::OrchardInvalidRseed => 23,
            Error::OrchardInvalidAuthPath => 24,
            Error::OrchardInvalidScalar => 25,
            Error::OrchardInvalidNote => 26,
            Error::OrchardInvalidCommitment => 27,
            Error::OrchardInvalidSpend => 28,
            Error::OrchardInvalidCircuit => 29,
            Error::OrchardProofCreationFailed => 30,
        }
    }

    /// The numeric code, as the boundary sends it.
    pub fn code(&self) -> (r: u32)
        ensures
            r == self.code_spec(),
    {
        match self {
            Error::Success => 0,
            Error::InvalidLength => 1,
            Error::InvalidPointEncoding => 2,
            Error::SaplingInvalidParameters => 3,
            Error::UnexpectedError => 4,
            Error::SaplingSpendNotInitialized => 5,
            Error::SaplingOutputNotInitialized => 6,
            Error::UnknowRequestId => 7,
            Error::SaplingInvalidValue => 10,
            Error::SaplingInvalidRandomness => 11,
            Error::SaplingInvalidAuthPath => 12,
            Error::SaplingInvalidAnchor => 13,
            Error::SaplingInvalidProof => 14,
            Error::OrchardInvalidFvk => 20,
            Error::OrchardInvalidAddress => 21,
            Error::OrchardInvalidRho => 22,
            Error::OrchardInvalidRseed => 23,
            Error::OrchardInvalidAuthPath => 24,
            Error::OrchardInvalidScalar => 25,
            Error::OrchardInvalidNote => 26,
            Error::OrchardInvalidCommitment => 27,
            Error::OrchardInvalidSpend => 28,
            Error::OrchardInvalidCircuit => 29,
            Error::OrchardProofCreationFailed => 30,
        }
    }
}

} // verus!

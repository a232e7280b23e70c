//! The decisions of the request boundary: which operation a numeric
//! request selects, and how a result is folded into the reply record.
//! The boundary itself, which performs the proving-system work these
//! decisions select, lives outside the verified library.

use vstd::prelude::*;

use crate::error::Error;

verus! {

/// The reply record of the boundary: a payload and a status code.
#[derive(Clone, Debug)]
pub struct OutputData {
    pub bytes: Vec<u8>,
    pub code: u32,
}

/// The operation a request identifier selects.
#[derive(Clone, Copy, Debug, PartialEq, Eq, Structural)]
pub enum RequestKind {
    Version,
    InitSpendParams,
    InitOutputParams,
    ProveSpend,
    ProveOutput,
    VerifyOutput,
    VerifySpend,
    VerifyOrchard,
    ProveOrchard,
    SpendParamsLoaded,
    OutputParamsLoaded,
    Unknown,
}

/// The operation each request identifier maps to.
pub open spec fn request_kind_spec(id: u32) -> RequestKind {
    if id == 0xffff_ffffu32 {
        RequestKind::Version
    } else if id == 1 {
        RequestKind::InitSpendParams
    } else if id == 2 {
        RequestKind::InitOutputParams
    } else if id == 3 {
        RequestKind::ProveSpend
    } else if id == 4 {
        RequestKind::ProveOutput
    } else if id == 5 {
        RequestKind::VerifyOutput
    } else if id == 6 {
        RequestKind::VerifySpend
    } else if id == 8 {
        RequestKind::VerifyOrchard
    } else if id == 9 {
        RequestKind::ProveOrchard
    } else if id == 10 {
        RequestKind::SpendParamsLoaded
    } else if id == 11 {
        RequestKind::OutputParamsLoaded
    } else {
        RequestKind::Unknown
    }
}

/// Decides which operation a request identifier selects.
pub fn classify_request(id: u32) -> (r: RequestKind)
    ensures
        r == request_kind_spec(id),
{
    if id == 0xffff_ffffu32 {
        RequestKind::Version
    } else if id == 1 {
        RequestKind::InitSpendParams
    } else if id == 2 {
        RequestKind::InitOutputParams
    } else if id == 3 {
        RequestKind::ProveSpend
    } else if id == 4 {
        RequestKind::ProveOutput
    } else if id == 5 {
        RequestKind::VerifyOutput
    } else if id == 6 {
        RequestKind::VerifySpend
    } else if id == 8 {
        RequestKind::VerifyOrchard
    } else if id == 9 {
        RequestKind::ProveOrchard
    } else if id == 10 {
        RequestKind::SpendParamsLoaded
    } else if id == 11 {
        RequestKind::OutputParamsLoaded
    } else {
        RequestKind::Unknown
    }
}

/// Folds an operation's outcome into the reply record: a success carries
/// its payload under code zero, a failure carries a single zero byte under
/// the failure's code.
pub fn respond(result: Result<Vec<u8>, Error>) -> (r: OutputData)
    ensures
        result is Ok ==> r.bytes@ == result.unwrap()@ && r.code == 0,
        result is Err ==> r.bytes@ =~= seq![0u8] && r.code == result.unwrap_err().code_spec(),
{
    match result {
        Ok(bytes) => OutputData { bytes, code: 0 },
        Err(err) => {
            let mut bytes: Vec<u8> = Vec::new();
            bytes.push(0);
            OutputData { bytes, code: err.code() }
        },
    }
}

} // verus!

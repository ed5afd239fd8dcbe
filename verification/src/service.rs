use vstd::prelude::*;

use crate::error::SdkError;

verus! {

/// How many inferences may run at once unless configured otherwise.
pub const DEFAULT_MAX_CONCURRENT_INFERENCES: usize = 32;
/// The largest request body accepted, in bytes.
pub const DEFAULT_MAX_BODY_BYTES: usize = 262_144;
/// How long one inference may take, in seconds.
pub const DEFAULT_INFERENCE_TIMEOUT_SECS: u64 = 5;

/// The body of an error answer.
#[derive(Debug, Clone)]
pub struct ErrorResponse {
    pub error: String,
}

/// Whether the answer to an inference that failed with `error` may describe
/// the error: only a shape mismatch between request and model is the
/// caller's concern.
pub fn discloses_detail(error: &SdkError) -> (r: bool)
    ensures
        r <==> (error is DimensionMismatch || error is DimensionLimit),
{
    match error {
        SdkError::DimensionMismatch { .. } => true,
        SdkError::DimensionLimit { .. } => true,
        _ => false,
    }
}

/// The number of inference permits: the requested number, and at least one.
pub fn permit_count(requested: usize) -> (r: usize)
    ensures
        r == if requested == 0 {
            1
        } else {
            requested
        },
{
    if requested == 0 {
        1
    } else {
        requested
    }
}

} // verus!

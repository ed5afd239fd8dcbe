use vstd::prelude::*;

verus! {

/// Errors reported by the SDK.
///
/// A rejected probability is carried as the IEEE-754 bit pattern of the
/// offending `f32`, so the value is kept exactly.
#[derive(Debug, Clone, PartialEq)]
pub enum SdkError {
    EmptyFeatures,
    NonFiniteValue { index: usize },
    DimensionLimit { actual: usize, max: usize },
    DimensionMismatch { expected: usize, actual: usize },
    InvalidProbability(u32),
    InvalidArgument(String),
    NotFitted,
    EmptyDataset,
    ArtifactTooLarge { actual: usize, max: usize },
    DigestMismatch,
    SchemaMismatch { expected: u32, actual: u32 },
    PayloadLengthMismatch { expected: usize, actual: usize },
    Io(String),
    Serialization(String),
}

} // verus!

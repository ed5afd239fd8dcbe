use vstd::prelude::*;
use vstd::string::*;

use crate::error::SdkError;
use crate::mixing::{mix, mix_word};

verus! {

pub const MAX_ENCODER_INPUT_DIM: usize = 65_536;
pub const MAX_ENCODER_OUTPUT_DIM: usize = 8_192;

/// A deterministic random projection from `input_dim` features to
/// `output_dim` embedding values, driven by `seed`.
#[derive(Debug, Clone, Copy)]
pub struct HashProjectionEncoder {
    input_dim: usize,
    output_dim: usize,
    seed: u64,
}

/// The encoder dimensions are accepted: both positive, input at most 65536,
/// output at most 8192.
pub open spec fn dims_ok(input_dim: usize, output_dim: usize) -> bool {
    input_dim > 0 && output_dim > 0 && input_dim <= MAX_ENCODER_INPUT_DIM && output_dim
        <= MAX_ENCODER_OUTPUT_DIM
}

/// The error that rejected dimensions get.
pub open spec fn dims_error(input_dim: usize, output_dim: usize, e: SdkError) -> bool {
    if input_dim == 0 || output_dim == 0 {
        e matches SdkError::InvalidArgument(m) && m@ == "encoder dimensions must be positive"@
    } else {
        e == SdkError::DimensionLimit {
            actual: if input_dim >= output_dim {
                input_dim
            } else {
                output_dim
            },
            max: MAX_ENCODER_INPUT_DIM,
        }
    }
}

fn check_dims(input_dim: usize, output_dim: usize) -> (r: Result<(), SdkError>)
    ensures
        r is Ok <==> dims_ok(input_dim, output_dim),
        r matches Err(e) ==> dims_error(input_dim, output_dim, e),
{
    if input_dim == 0 || output_dim == 0 {
        return Err(SdkError::InvalidArgument(String::from_str("encoder dimensions must be positive")));
    }
    if input_dim > MAX_ENCODER_INPUT_DIM || output_dim > MAX_ENCODER_OUTPUT_DIM {
        let actual = if input_dim >= output_dim {
            input_dim
        } else {
            output_dim
        };
        return Err(SdkError::DimensionLimit { actual, max: MAX_ENCODER_INPUT_DIM });
    }
    Ok(())
}

impl HashProjectionEncoder {
    pub closed spec fn spec_input_dim(&self) -> usize {
        self.input_dim
    }

    pub closed spec fn spec_output_dim(&self) -> usize {
        self.output_dim
    }

    pub closed spec fn spec_seed(&self) -> u64 {
        self.seed
    }

    /// An encoder with the given dimensions and seed.
    pub fn new(input_dim: usize, output_dim: usize, seed: u64) -> (r: Result<Self, SdkError>)
        ensures
            r is Ok <==> dims_ok(input_dim, output_dim),
            r matches Ok(enc) ==> enc.spec_input_dim() == input_dim && enc.spec_output_dim()
                == output_dim && enc.spec_seed() == seed,
            r matches Err(e) ==> dims_error(input_dim, output_dim, e),
    {
        check_dims(input_dim, output_dim)?;
        Ok(HashProjectionEncoder { input_dim, output_dim, seed })
    }

    /// Revalidates the dimensions, as after deserialization.
    pub fn validate(&self) -> (r: Result<(), SdkError>)
        ensures
            r is Ok <==> dims_ok(self.spec_input_dim(), self.spec_output_dim()),
            r matches Err(e) ==> dims_error(self.spec_input_dim(), self.spec_output_dim(), e),
    {
        check_dims(self.input_dim, self.output_dim)
    }

    /// An encoder from stored fields, unchecked; `validate` checks it.
    pub fn from_parts(input_dim: usize, output_dim: usize, seed: u64) -> (r: Self)
        ensures
            r.spec_input_dim() == input_dim && r.spec_output_dim() == output_dim && r.spec_seed()
                == seed,
    {
        HashProjectionEncoder { input_dim, output_dim, seed }
    }

    pub fn input_dim(&self) -> (r: usize)
        ensures
            r == self.spec_input_dim(),
    {
        self.input_dim
    }

    pub fn output_dim(&self) -> (r: usize)
        ensures
            r == self.spec_output_dim(),
    {
        self.output_dim
    }

    pub fn seed(&self) -> (r: u64)
        ensures
            r == self.spec_seed(),
    {
        self.seed
    }

    /// The pseudo-random word behind the weight from input `input` to output
    /// `output`; the weight is this word scaled to `[-1, 1]`.
    pub fn weight_word(&self, output: usize, input: usize) -> (r: u64)
        ensures
            r == mix_word(
                self.spec_seed(),
                output as u64,
                0x9E37_79B9_7F4A_7C15u64,
                input as u64,
                0xBF58_476D_1CE4_E5B9u64,
            ),
    {
        mix(self.seed, output as u64, 0x9E37_79B9_7F4A_7C15u64, input as u64, 0xBF58_476D_1CE4_E5B9u64)
    }
}

} // verus!

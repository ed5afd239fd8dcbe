use vstd::prelude::*;
use vstd::string::*;

use crate::error::SdkError;
use crate::mixing::{mix, mix_word};
use crate::text::{decimal, push_decimal_digits};

verus! {

pub const MAX_SYNTHETIC_DIMENSION: usize = 65_536;
pub const MAX_SYNTHETIC_COUNT: usize = 65_536;
pub const MAX_SYNTHETIC_ELEMENTS: usize = 4_194_304;

/// Generates deterministic pseudo-random feature rows.
#[derive(Debug, Clone, Copy)]
pub struct SyntheticFeatureGenerator {
    dimension: usize,
    seed: u64,
}

impl SyntheticFeatureGenerator {
    pub closed spec fn spec_dimension(&self) -> usize {
        self.dimension
    }

    pub closed spec fn spec_seed(&self) -> u64 {
        self.seed
    }

    /// A generator of rows of `dimension` features, 1 to 65536.
    pub fn new(dimension: usize, seed: u64) -> (r: Result<Self, SdkError>)
        ensures
            r is Ok <==> 1 <= dimension <= MAX_SYNTHETIC_DIMENSION,
            r matches Ok(g) ==> g.spec_dimension() == dimension && g.spec_seed() == seed,
            r is Err ==> r == Err::<Self, SdkError>(
                SdkError::DimensionLimit { actual: dimension, max: MAX_SYNTHETIC_DIMENSION },
            ),
    {
        if dimension == 0 || dimension > MAX_SYNTHETIC_DIMENSION {
            return Err(SdkError::DimensionLimit { actual: dimension, max: MAX_SYNTHETIC_DIMENSION });
        }
        Ok(SyntheticFeatureGenerator { dimension, seed })
    }

    pub fn dimension(&self) -> (r: usize)
        ensures
            r == self.spec_dimension(),
    {
        self.dimension
    }

    pub fn seed(&self) -> (r: u64)
        ensures
            r == self.spec_seed(),
    {
        self.seed
    }

    /// The number of feature values that generating `count` rows produces:
    /// `count` must be 1 to 65536 and the total at most 4,194,304.
    pub fn generation_size(&self, count: usize) -> (r: Result<usize, SdkError>)
        ensures
            ({
                let total = count * self.spec_dimension();
                &&& r is Ok <==> 1 <= count <= MAX_SYNTHETIC_COUNT && total <= MAX_SYNTHETIC_ELEMENTS
                &&& r matches Ok(n) ==> n == total
                &&& r matches Err(e) ==> if count == 0 || count > MAX_SYNTHETIC_COUNT {
                    e matches SdkError::InvalidArgument(m) && m@ == "synthetic count must be in 1..=65536"@
                } else if total > usize::MAX {
                    e matches SdkError::InvalidArgument(m) && m@ == "synthetic element count overflow"@
                } else {
                    e == SdkError::DimensionLimit { actual: total as usize, max: MAX_SYNTHETIC_ELEMENTS }
                }
            }),
    {
        if count == 0 || count > MAX_SYNTHETIC_COUNT {
            return Err(SdkError::InvalidArgument(String::from_str("synthetic count must be in 1..=65536")));
        }
        let elements = match count.checked_mul(self.dimension) {
            Some(n) => n,
            None => {
                return Err(SdkError::InvalidArgument(String::from_str("synthetic element count overflow")));
            },
        };
        if elements > MAX_SYNTHETIC_ELEMENTS {
            return Err(SdkError::DimensionLimit { actual: elements, max: MAX_SYNTHETIC_ELEMENTS });
        }
        Ok(elements)
    }

    /// The pseudo-random word behind the feature at `row`, `column`; the
    /// feature is this word scaled to `[-1, 1]`.
    pub fn feature_word(&self, row: usize, column: usize) -> (r: u64)
        ensures
            r == mix_word(
                self.spec_seed(),
                row as u64,
                0x9E37_79B9_7F4A_7C15u64,
                column as u64,
                0xD6E8_FEB8_6659_FD93u64,
            ),
    {
        mix(self.seed, row as u64, 0x9E37_79B9_7F4A_7C15u64, column as u64, 0xD6E8_FEB8_6659_FD93u64)
    }
}

/// The id of the synthetic observation in row `row`: `synthetic-` and the
/// row number.
pub fn synthetic_id(row: usize) -> (r: String)
    ensures
        r@ == "synthetic-"@ + decimal(row as nat),
{
    let mut s = String::from_str("synthetic-");
    proof {
        reveal_strlit("synthetic-");
    }
    push_decimal_digits(&mut s, row as u64);
    s
}

} // verus!

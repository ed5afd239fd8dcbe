use vstd::prelude::*;
use vstd::string::*;

use crate::error::SdkError;

verus! {

/// The longest quantized vector that can be dequantized.
pub const MAX_QUANTIZED_VALUES: usize = 8_192;

/// Symmetric linear quantization to signed integers of `bits` bits.
#[derive(Debug, Clone, Copy)]
pub struct SymmetricQuantizer {
    bits: u8,
}

/// The largest magnitude a signed integer of `bits` bits takes in symmetric
/// quantization: `2^(bits-1) - 1`.
pub open spec fn level_limit(bits: nat) -> int
    decreases bits,
{
    if bits <= 1 {
        0
    } else {
        2 * level_limit((bits - 1) as nat) + 1
    }
}

impl SymmetricQuantizer {
    #[verifier::type_invariant]
    spec fn well_formed(self) -> bool {
        2 <= self.bits <= 8
    }

    pub closed spec fn spec_bits(&self) -> u8 {
        self.bits
    }

    /// A quantizer with 2 to 8 bits.
    pub fn new(bits: u8) -> (r: Result<Self, SdkError>)
        ensures
            r is Ok <==> 2 <= bits <= 8,
            r matches Ok(q) ==> q.spec_bits() == bits,
            r matches Err(e) ==> e matches SdkError::InvalidArgument(m) && m@
                == "quantizer bits must be in 2..=8"@,
    {
        if bits < 2 || bits > 8 {
            return Err(SdkError::InvalidArgument(String::from_str("quantizer bits must be in 2..=8")));
        }
        Ok(SymmetricQuantizer { bits })
    }

    pub fn bits(&self) -> (r: u8)
        ensures
            r == self.spec_bits(),
            2 <= r <= 8,
    {
        proof {
            use_type_invariant(self);
        }
        self.bits
    }

    /// The largest quantized magnitude, `2^(bits-1) - 1`.
    pub fn max_integer(&self) -> (r: i32)
        ensures
            r == level_limit(self.spec_bits() as nat),
    {
        proof {
            use_type_invariant(self);
        }
        let mut m: i32 = 0;
        let mut k: u8 = 1;
        while k < self.bits
            invariant
                1 <= k <= self.bits,
                self.bits <= 8,
                m == level_limit(k as nat),
                0 <= m < 128,
            decreases self.bits - k,
        {
            proof {
                assert(level_limit((k + 1) as nat) == 2 * level_limit(k as nat) + 1);
                assert(k + 1 <= 8);
                reveal_with_fuel(level_limit, 9);
                assert(level_limit(8) == 127);
                lemma_level_limit_monotone((k + 1) as nat, 8);
            }
            m = 2 * m + 1;
            k += 1;
        }
        m
    }
}

proof fn lemma_level_limit_monotone(a: nat, b: nat)
    requires
        a <= b,
    ensures
        level_limit(a) <= level_limit(b),
    decreases b,
{
    if a < b {
        lemma_level_limit_monotone(a, (b - 1) as nat);
        if b >= 2 {
            lemma_level_limit_nonneg((b - 1) as nat);
        }
    }
}

proof fn lemma_level_limit_nonneg(a: nat)
    ensures
        level_limit(a) >= 0,
    decreases a,
{
    if a > 1 {
        lemma_level_limit_nonneg((a - 1) as nat);
    }
}

/// A quantized vector can be dequantized when it holds 1 to 8192 values.
pub fn validate_quantized_len(len: usize) -> (r: Result<(), SdkError>)
    ensures
        r is Ok <==> 1 <= len <= MAX_QUANTIZED_VALUES,
        len == 0 ==> r == Err::<(), SdkError>(SdkError::EmptyFeatures),
        len > MAX_QUANTIZED_VALUES ==> r == Err::<(), SdkError>(
            SdkError::DimensionLimit { actual: len, max: MAX_QUANTIZED_VALUES },
        ),
{
    if len == 0 {
        return Err(SdkError::EmptyFeatures);
    }
    if len > MAX_QUANTIZED_VALUES {
        return Err(SdkError::DimensionLimit { actual: len, max: MAX_QUANTIZED_VALUES });
    }
    Ok(())
}

} // verus!

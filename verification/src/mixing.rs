use vstd::prelude::*;

verus! {

/// Multiplication modulo 2^64.
pub open spec fn wrapping_mul64(x: u64, y: u64) -> u64 {
    ((x as nat * y as nat) % 0x1_0000_0000_0000_0000nat) as u64
}

/// The SplitMix64 finaliser applied to `seed ^ (a * ka) ^ (b * kb)`, all
/// products modulo 2^64: the pseudo-random word behind deterministic
/// projection weights and synthetic features.
pub open spec fn mix_word(seed: u64, a: u64, ka: u64, b: u64, kb: u64) -> u64 {
    let x0 = seed ^ wrapping_mul64(a, ka) ^ wrapping_mul64(b, kb);
    let x1 = x0 ^ (x0 >> 30u64);
    let x2 = wrapping_mul64(x1, 0xBF58_476D_1CE4_E5B9u64);
    let x3 = x2 ^ (x2 >> 27u64);
    let x4 = wrapping_mul64(x3, 0x94D0_49BB_1331_11EBu64);
    x4 ^ (x4 >> 31u64)
}

/// Computes `mix_word(seed, a, ka, b, kb)`.
pub fn mix(seed: u64, a: u64, ka: u64, b: u64, kb: u64) -> (r: u64)
    ensures
        r == mix_word(seed, a, ka, b, kb),
{
    let mut x = seed ^ a.wrapping_mul(ka) ^ b.wrapping_mul(kb);
    x = x ^ (x >> 30u64);
    x = x.wrapping_mul(0xBF58_476D_1CE4_E5B9u64);
    x = x ^ (x >> 27u64);
    x = x.wrapping_mul(0x94D0_49BB_1331_11EBu64);
    x ^ (x >> 31u64)
}

} // verus!

use sha2::Digest;
use vstd::prelude::*;

verus! {

/// The SHA-256 digest of a byte string, as the `sha2` crate computes it.
pub uninterp spec fn sha256_of(data: Seq<u8>) -> Seq<u8>;

/// `sha2::Sha256::digest`: the trusted item claims only that the 32 bytes
/// returned are the SHA-256 digest of `data` (a function of `data` alone).
#[verifier::external_body]
pub(crate) fn sha256(data: &[u8]) -> (out: [u8; 32])
    ensures
        out@ == sha256_of(data@),
{
    let digest = sha2::Sha256::digest(data);
    let mut out = [0u8; 32];
    out.copy_from_slice(&digest);
    out
}

/// The `n` low-order bytes of `x`, least significant first.
pub open spec fn le_bytes(x: nat, n: nat) -> Seq<u8>
    decreases n,
{
    if n == 0 {
        Seq::empty()
    } else {
        seq![(x % 256) as u8] + le_bytes(x / 256, (n - 1) as nat)
    }
}

/// A length-prefixed field: the length as eight little-endian bytes, then
/// the bytes.
pub open spec fn framed(bytes: Seq<u8>) -> Seq<u8> {
    le_bytes(bytes.len(), 8) + bytes
}

/// One byte for a flag: 1 for true, 0 for false.
pub open spec fn flag_byte(b: bool) -> Seq<u8> {
    if b {
        seq![1u8]
    } else {
        seq![0u8]
    }
}

/// The number of values that `n` bytes hold: `256^n`.
pub open spec fn byte_range(n: nat) -> nat
    decreases n,
{
    if n == 0 {
        1
    } else {
        256 * byte_range((n - 1) as nat)
    }
}

/// Eight bytes hold every `u64`.
pub proof fn lemma_u64_fits_eight_bytes(x: u64)
    ensures
        x < byte_range(8),
{
    reveal_with_fuel(byte_range, 9);
    assert(byte_range(8) == 0x1_0000_0000_0000_0000);
}

/// Four bytes hold every `u32`.
pub proof fn lemma_u32_fits_four_bytes(x: u32)
    ensures
        x < byte_range(4),
{
    reveal_with_fuel(byte_range, 5);
    assert(byte_range(4) == 0x1_0000_0000);
}

pub proof fn lemma_le_bytes_len(x: nat, n: nat)
    ensures
        le_bytes(x, n).len() == n,
    decreases n,
{
    if n > 0 {
        lemma_le_bytes_len(x / 256, (n - 1) as nat);
    }
}

/// Distinct values below `256^n` have distinct `n`-byte encodings.
pub proof fn lemma_le_bytes_injective(x: nat, y: nat, n: nat)
    requires
        x < byte_range(n),
        y < byte_range(n),
        le_bytes(x, n) == le_bytes(y, n),
    ensures
        x == y,
    decreases n,
{
    if n > 0 {
        let m = (n - 1) as nat;
        lemma_le_bytes_len(x / 256, m);
        lemma_le_bytes_len(y / 256, m);
        let lx = le_bytes(x, n);
        assert(lx[0] == (x % 256) as u8);
        assert(le_bytes(y, n)[0] == (y % 256) as u8);
        assert(x % 256 == y % 256);
        assert(le_bytes(x / 256, m) =~= lx.drop_first());
        assert(le_bytes(y / 256, m) =~= le_bytes(y, n).drop_first());
        assert(x / 256 < byte_range(m)) by (nonlinear_arith)
            requires
                x < 256 * byte_range(m),
        ;
        assert(y / 256 < byte_range(m)) by (nonlinear_arith)
            requires
                y < 256 * byte_range(m),
        ;
        lemma_le_bytes_injective(x / 256, y / 256, m);
        assert(x == 256 * (x / 256) + x % 256);
        assert(y == 256 * (y / 256) + y % 256);
    } else {
        assert(x == 0 && y == 0);
    }
}

/// Two concatenations with equally long first parts have equal parts.
pub proof fn lemma_split_front(a1: Seq<u8>, b1: Seq<u8>, a2: Seq<u8>, b2: Seq<u8>)
    requires
        a1.len() == a2.len(),
        a1 + b1 == a2 + b2,
    ensures
        a1 == a2,
        b1 == b2,
{
    assert(a1 =~= (a1 + b1).subrange(0, a1.len() as int));
    assert(a2 =~= (a2 + b2).subrange(0, a2.len() as int));
    assert(b1 =~= (a1 + b1).subrange(a1.len() as int, (a1 + b1).len() as int));
    assert(b2 =~= (a2 + b2).subrange(a2.len() as int, (a2 + b2).len() as int));
}

/// A framed field is read back from the front of a message: equal messages
/// that start with framed fields start with the same field.
pub proof fn lemma_framed_front(a1: Seq<u8>, b1: Seq<u8>, a2: Seq<u8>, b2: Seq<u8>)
    requires
        a1.len() < byte_range(8),
        a2.len() < byte_range(8),
        framed(a1) + b1 == framed(a2) + b2,
    ensures
        a1 == a2,
        b1 == b2,
{
    lemma_le_bytes_len(a1.len(), 8);
    lemma_le_bytes_len(a2.len(), 8);
    assert(framed(a1) + b1 =~= le_bytes(a1.len(), 8) + (a1 + b1));
    assert(framed(a2) + b2 =~= le_bytes(a2.len(), 8) + (a2 + b2));
    lemma_split_front(le_bytes(a1.len(), 8), a1 + b1, le_bytes(a2.len(), 8), a2 + b2);
    lemma_le_bytes_injective(a1.len(), a2.len(), 8);
    lemma_split_front(a1, b1, a2, b2);
}

/// Appends the `n` low-order bytes of `x`, least significant first.
pub fn push_le(buf: &mut Vec<u8>, x: u64, n: usize)
    requires
        n <= 8,
    ensures
        final(buf)@ == old(buf)@ + le_bytes(x as nat, n as nat),
{
    let ghost start = buf@;
    let mut rest: u64 = x;
    let mut i: usize = 0;
    while i < n
        invariant
            i <= n,
            start + le_bytes(x as nat, n as nat) == buf@ + le_bytes(rest as nat, (n - i) as nat),
        decreases n - i,
    {
        let ghost before = buf@;
        buf.push((rest % 256) as u8);
        proof {
            assert(le_bytes(rest as nat, (n - i) as nat) == seq![(rest % 256) as u8] + le_bytes(
                (rest / 256) as nat,
                (n - i - 1) as nat,
            ));
            assert(buf@ + le_bytes((rest / 256) as nat, (n - i - 1) as nat) =~= before
                + le_bytes(rest as nat, (n - i) as nat));
        }
        rest = rest / 256;
        i += 1;
    }
    proof {
        assert(le_bytes(rest as nat, 0) =~= Seq::<u8>::empty());
        assert(buf@ + Seq::<u8>::empty() =~= buf@);
    }
}

/// Appends `bytes` as they are.
pub fn push_bytes(buf: &mut Vec<u8>, bytes: &[u8])
    ensures
        final(buf)@ == old(buf)@ + bytes@,
{
    let ghost start = buf@;
    let mut i: usize = 0;
    while i < bytes.len()
        invariant
            i <= bytes@.len(),
            buf@ =~= start + bytes@.take(i as int),
        decreases bytes.len() - i,
    {
        buf.push(bytes[i]);
        i += 1;
        proof {
            assert(buf@ =~= start + bytes@.take(i as int));
        }
    }
    proof {
        assert(bytes@.take(i as int) =~= bytes@);
    }
}

/// Appends a length-prefixed field.
pub fn push_framed(buf: &mut Vec<u8>, bytes: &[u8])
    ensures
        final(buf)@ == old(buf)@ + framed(bytes@),
{
    let ghost start = buf@;
    push_le(buf, bytes.len() as u64, 8);
    push_bytes(buf, bytes);
    proof {
        assert(buf@ =~= start + framed(bytes@));
    }
}

/// Appends one flag byte.
pub fn push_flag(buf: &mut Vec<u8>, b: bool)
    ensures
        final(buf)@ == old(buf)@ + flag_byte(b),
{
    let ghost start = buf@;
    buf.push(if b { 1u8 } else { 0u8 });
    proof {
        assert(buf@ =~= start + flag_byte(b));
    }
}

} // verus!

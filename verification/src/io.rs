use vstd::prelude::*;
use vstd::string::*;

use crate::text::push_char;

verus! {

/// The lowercase hexadecimal digit for `v < 16`.
pub open spec fn hex_digit(v: nat) -> char {
    if v < 10 {
        (('0' as u32) + v) as char
    } else {
        (('a' as u32) + (v - 10)) as char
    }
}

/// Lowercase hexadecimal text of `bytes`: two digits per byte, high nibble first.
pub open spec fn hex_text(bytes: Seq<u8>) -> Seq<char> {
    Seq::new(
        2 * bytes.len(),
        |i: int|
            if i % 2 == 0 {
                hex_digit((bytes[i / 2] / 16) as nat)
            } else {
                hex_digit((bytes[i / 2] % 16) as nat)
            },
    )
}

/// The value of an ASCII hexadecimal digit (either case).
pub open spec fn hex_value(b: u8) -> Option<u8> {
    if 48 <= b <= 57 {
        Some((b - 48) as u8)
    } else if 97 <= b <= 102 {
        Some((b - 87) as u8)
    } else if 65 <= b <= 70 {
        Some((b - 55) as u8)
    } else {
        None
    }
}

/// ASCII lowercase of one byte.
pub open spec fn lower_byte(b: u8) -> u8 {
    if 65 <= b <= 90 {
        (b + 32) as u8
    } else {
        b
    }
}

fn hex_digit_of(v: u8) -> (c: char)
    requires
        v < 16,
    ensures
        c == hex_digit(v as nat),
{
    if v < 10 {
        (48u8 + v) as char
    } else {
        (87u8 + v) as char
    }
}

/// Lowercase hex encoding.
pub fn hex_encode(bytes: &[u8]) -> (r: String)
    ensures
        r@ == hex_text(bytes@),
{
    let mut out = String::new();
    let mut i: usize = 0;
    while i < bytes.len()
        invariant
            i <= bytes@.len(),
            out@ =~= hex_text(bytes@.take(i as int)),
        decreases bytes.len() - i,
    {
        let b = bytes[i];
        push_char(&mut out, hex_digit_of(b / 16));
        push_char(&mut out, hex_digit_of(b % 16));
        i += 1;
        proof {
            assert(bytes@.take(i as int).take((i - 1) as int) =~= bytes@.take((i - 1) as int));
            assert(out@ =~= hex_text(bytes@.take(i as int)));
        }
    }
    proof {
        assert(bytes@.take(i as int) =~= bytes@);
    }
    out
}

/// Compares two byte strings for equality, inspecting every byte when the
/// lengths agree.
pub fn constant_time_eq(left: &[u8], right: &[u8]) -> (r: bool)
    ensures
        r == (left@ == right@),
{
    if left.len() != right.len() {
        return false;
    }
    let mut difference: u8 = 0;
    let mut i: usize = 0;
    proof {
        assert(left@.take(0) =~= right@.take(0));
    }
    while i < left.len()
        invariant
            i <= left@.len(),
            left@.len() == right@.len(),
            (difference == 0) == (left@.take(i as int) == right@.take(i as int)),
        decreases left.len() - i,
    {
        let a = left[i];
        let b = right[i];
        let before = difference;
        difference = difference | (a ^ b);
        assert((before | (a ^ b)) == 0 <==> (before == 0 && a == b)) by (bit_vector);
        i += 1;
        proof {
            let l = left@.take(i as int);
            let rr = right@.take(i as int);
            assert(l.take((i - 1) as int) =~= left@.take((i - 1) as int));
            assert(rr.take((i - 1) as int) =~= right@.take((i - 1) as int));
            if l == rr {
                assert(l.take((i - 1) as int) == rr.take((i - 1) as int));
                assert(l[(i - 1) as int] == rr[(i - 1) as int]);
            }
            if before == 0 && a == b {
                assert(l =~= rr);
            }
        }
    }
    proof {
        assert(left@.take(i as int) =~= left@);
        assert(right@.take(i as int) =~= right@);
    }
    difference == 0
}

/// The value of one hexadecimal digit byte, or `None`.
pub fn hex_nibble(value: u8) -> (r: Option<u8>)
    ensures
        r == hex_value(value),
{
    if 48 <= value && value <= 57 {
        Some(value - 48)
    } else if 97 <= value && value <= 102 {
        Some(value - 87)
    } else if 65 <= value && value <= 70 {
        Some(value - 55)
    } else {
        None
    }
}

/// The bytes of `s` with ASCII capitals lowered (`to_ascii_lowercase`).
pub fn ascii_lowercase_bytes(s: &str) -> (r: Vec<u8>)
    ensures
        r@ == s.spec_bytes().map_values(|b: u8| lower_byte(b)),
{
    let bytes = s.as_bytes();
    let mut out: Vec<u8> = Vec::new();
    let mut i: usize = 0;
    while i < bytes.len()
        invariant
            i <= bytes@.len(),
            bytes@ == s.spec_bytes(),
            out@ =~= bytes@.take(i as int).map_values(|b: u8| lower_byte(b)),
        decreases bytes.len() - i,
    {
        let b = bytes[i];
        let l = if 65 <= b && b <= 90 { b + 32 } else { b };
        out.push(l);
        i += 1;
        proof {
            assert(out@ =~= bytes@.take(i as int).map_values(|b: u8| lower_byte(b)));
        }
    }
    proof {
        assert(bytes@.take(i as int) =~= bytes@);
    }
    out
}

} // verus!

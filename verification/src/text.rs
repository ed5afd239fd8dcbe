use vstd::prelude::*;
use vstd::string::*;
use vstd::utf8::encode_utf8;

use crate::error::SdkError;

verus! {

/// Unicode `White_Space` code points: the characters `str::trim` removes.
pub open spec fn is_white_space(c: char) -> bool {
    let v = c as u32;
    (0x09 <= v && v <= 0x0d) || v == 0x20 || v == 0x85 || v == 0xa0 || v == 0x1680
        || (0x2000 <= v && v <= 0x200a) || v == 0x2028 || v == 0x2029 || v == 0x202f
        || v == 0x205f || v == 0x3000
}

/// A text is blank when trimming white space leaves nothing.
pub open spec fn is_blank(s: Seq<char>) -> bool {
    forall|i: int| 0 <= i < s.len() ==> is_white_space(#[trigger] s[i])
}

/// A text accepted by the bounded-text rule: not blank, and at most `max`
/// bytes in UTF-8.
pub open spec fn text_ok(s: Seq<char>, max: nat) -> bool {
    !is_blank(s) && encode_utf8(s).len() <= max
}

/// The error that the bounded-text rule reports for `value`.
pub open spec fn text_error(field: Seq<char>, value: Seq<char>, max: usize, e: SdkError) -> bool {
    if is_blank(value) {
        e matches SdkError::InvalidArgument(m) && m@ == field + " must not be empty"@
    } else {
        e == SdkError::DimensionLimit { actual: encode_utf8(value).len() as usize, max }
    }
}

/// Whether `c` has the Unicode `White_Space` property.
pub fn white_space(c: char) -> (r: bool)
    ensures
        r == is_white_space(c),
{
    let v = c as u32;
    (0x09 <= v && v <= 0x0d) || v == 0x20 || v == 0x85 || v == 0xa0 || v == 0x1680
        || (0x2000 <= v && v <= 0x200a) || v == 0x2028 || v == 0x2029 || v == 0x202f
        || v == 0x205f || v == 0x3000
}

/// `value.trim().is_empty()`: every character of `value` is white space.
pub fn blank(value: &str) -> (r: bool)
    ensures
        r == is_blank(value@),
{
    let mut all = true;
    for c in it: value.chars()
        invariant
            it.seq() == value@,
            all == (forall|j: int| 0 <= j < it.index() ==> is_white_space(#[trigger] value@[j])),
    {
        if !white_space(c) {
            all = false;
        }
    }
    all
}

/// Checks that `value` is not blank and holds at most `max_bytes` bytes;
/// `field` names the value in the error message.
pub fn validate_text(field: &str, value: &str, max_bytes: usize) -> (r: Result<(), SdkError>)
    ensures
        r is Ok <==> text_ok(value@, max_bytes as nat),
        r matches Err(e) ==> text_error(field@, value@, max_bytes, e),
{
    if blank(value) {
        let message = String::from_str(field).concat(" must not be empty");
        return Err(SdkError::InvalidArgument(message));
    }
    let len = value.as_bytes().len();
    if len > max_bytes {
        return Err(SdkError::DimensionLimit { actual: len, max: max_bytes });
    }
    Ok(())
}

/// Appends one character (`String::push`).
#[verifier::external_body]
pub(crate) fn push_char(s: &mut String, c: char)
    ensures
        final(s)@ == old(s)@.push(c),
{
    s.push(c);
}

/// The decimal digits of `n`, most significant first, without leading zeros
/// (`"0"` for zero).
pub open spec fn decimal(n: nat) -> Seq<char>
    decreases n,
{
    if n < 10 {
        seq![digit_char(n)]
    } else {
        decimal(n / 10).push(digit_char(n % 10))
    }
}

pub open spec fn digit_char(d: nat) -> char {
    (('0' as u32) + d) as char
}

/// `n` in decimal, left-padded with zeros to at least `width` digits.
pub open spec fn decimal_padded(n: nat, width: nat) -> Seq<char> {
    let d = decimal(n);
    if d.len() >= width {
        d
    } else {
        Seq::new((width - d.len()) as nat, |i: int| '0') + d
    }
}

fn digit(d: u64) -> (c: char)
    requires
        d < 10,
    ensures
        c == digit_char(d as nat),
{
    let v: u8 = 48u8 + (d as u8);
    v as char
}

/// Appends the decimal digits of `n`.
pub fn push_decimal_digits(s: &mut String, n: u64)
    ensures
        final(s)@ == old(s)@ + decimal(n as nat),
    decreases n,
{
    if n < 10 {
        push_char(s, digit(n));
    } else {
        push_decimal_digits(s, n / 10);
        push_char(s, digit(n % 10));
        proof {
            assert(old(s)@ + decimal(n as nat) =~= old(s)@ + decimal((n / 10) as nat) + seq![
                digit_char((n % 10) as nat),
            ]);
        }
    }
}

/// The number of decimal digits of `n`.
pub fn decimal_len(n: u64) -> (r: usize)
    ensures
        r == decimal(n as nat).len(),
        1 <= r <= 20,
    decreases n,
{
    if n < 10 {
        1
    } else {
        let r = decimal_len(n / 10);
        proof {
            lemma_pow10_20();
            lemma_decimal_len_small(n as nat, 20);
        }
        r + 1
    }
}

proof fn lemma_decimal_len_small(n: nat, k: nat)
    requires
        n < pow10(k),
        k >= 1,
    ensures
        decimal(n).len() <= k,
    decreases n,
{
    if n >= 10 {
        assert(pow10(k) == 10 * pow10((k - 1) as nat));
        if k == 1 {
            assert(pow10(0) == 1);
        }
        assert(n / 10 < pow10((k - 1) as nat));
        lemma_decimal_len_small(n / 10, (k - 1) as nat);
    }
}

proof fn lemma_pow10_20()
    ensures
        pow10(20) == 100000000000000000000nat,
{
    reveal_with_fuel(pow10, 21);
}

pub open spec fn pow10(k: nat) -> nat
    decreases k,
{
    if k == 0 {
        1
    } else {
        10 * pow10((k - 1) as nat)
    }
}

/// Appends `n` in decimal, left-padded with zeros to `width` digits.
pub fn push_decimal(s: &mut String, n: u64, width: usize)
    ensures
        final(s)@ == old(s)@ + decimal_padded(n as nat, width as nat),
{
    let len = decimal_len(n);
    let ghost start = s@;
    let mut pad = len;
    while pad < width
        invariant
            len == decimal(n as nat).len(),
            len <= pad,
            pad <= width || pad == len,
            s@ == start + Seq::new((pad - len) as nat, |i: int| '0'),
        decreases width - pad,
    {
        push_char(s, '0');
        pad += 1;
        proof {
            assert(s@ =~= start + Seq::new((pad - len) as nat, |i: int| '0'));
        }
    }
    let ghost mid = s@;
    push_decimal_digits(s, n);
    proof {
        if len >= width {
            assert(pad == len);
            assert(mid =~= start);
        } else {
            assert(pad == width);
        }
        assert(s@ =~= start + decimal_padded(n as nat, width as nat));
    }
}

} // verus!

//! Byte-level encodings used by the encryption descriptor and the key derivation:
//! little-endian integers, UTF-16 text, UTF-8 text, decimal numbers and base64.

use vstd::prelude::*;
use vstd::utf8::{decode_utf8, valid_utf8};

use crate::error::DecryptError;

verus! {

// ---------------------------------------------------------------------------
// Byte strings
// ---------------------------------------------------------------------------

/// Appends `bytes` to `out`.
pub fn append_bytes(out: &mut Vec<u8>, bytes: &[u8])
    ensures
        final(out)@ == old(out)@ + bytes@,
{
    let mut i: usize = 0;
    while i < bytes.len()
        invariant
            i <= bytes@.len(),
            out@ == old(out)@ + bytes@.take(i as int),
        decreases bytes@.len() - i,
    {
        out.push(bytes[i]);
        i = i + 1;
        assert(out@ =~= old(out)@ + bytes@.take(i as int));
    }
    assert(bytes@.take(bytes@.len() as int) =~= bytes@);
}

/// Appends `n` zero bytes to `out`.
pub fn append_zeros(out: &mut Vec<u8>, n: usize)
    ensures
        final(out)@ == old(out)@ + Seq::new(n as nat, |_i: int| 0u8),
{
    let mut i: usize = 0;
    while i < n
        invariant
            i <= n,
            out@ == old(out)@ + Seq::new(i as nat, |_i: int| 0u8),
        decreases n - i,
    {
        out.push(0);
        i = i + 1;
        assert(out@ =~= old(out)@ + Seq::new(i as nat, |_i: int| 0u8));
    }
}

/// The concatenation of `a` and `b`.
pub fn concat_bytes(a: &[u8], b: &[u8]) -> (r: Vec<u8>)
    ensures
        r@ == a@ + b@,
{
    let mut r: Vec<u8> = Vec::new();
    append_bytes(&mut r, a);
    append_bytes(&mut r, b);
    assert(r@ =~= a@ + b@);
    r
}

/// Whether two byte strings are equal.
pub fn bytes_equal(a: &[u8], b: &[u8]) -> (r: bool)
    ensures
        r == (a@ == b@),
{
    if a.len() != b.len() {
        return false;
    }
    let mut i: usize = 0;
    while i < a.len()
        invariant
            a@.len() == b@.len(),
            i <= a@.len(),
            forall|j: int| 0 <= j < i ==> a@[j] == b@[j],
        decreases a@.len() - i,
    {
        if a[i] != b[i] {
            return false;
        }
        i = i + 1;
    }
    assert(a@ =~= b@);
    true
}

/// Whether `text` is the string `literal`.
pub fn string_equals(text: &String, literal: &str) -> (r: bool)
    ensures
        r == (text@ == literal@),
{
    *text == String::from_str(literal)
}

// ---------------------------------------------------------------------------
// Little-endian integers
// ---------------------------------------------------------------------------

/// The four little-endian bytes of `x`.
pub open spec fn le32(x: u32) -> Seq<u8> {
    seq![
        (x % 256) as u8,
        ((x / 256) % 256) as u8,
        ((x / 65536) % 256) as u8,
        (x / 16777216) as u8,
    ]
}

/// The value of the first four bytes of `b`, read as a little-endian integer.
pub open spec fn le32_value(b: Seq<u8>) -> int {
    b[0] + 256 * b[1] + 65536 * b[2] + 16777216 * b[3]
}

/// The little-endian bytes of `x`.
pub fn u32_to_le_bytes(x: u32) -> (bytes: Vec<u8>)
    ensures
        bytes@ == le32(x),
{
    let mut bytes: Vec<u8> = Vec::new();
    bytes.push((x % 256) as u8);
    bytes.push(((x / 256) % 256) as u8);
    bytes.push(((x / 65536) % 256) as u8);
    bytes.push((x / 16777216) as u8);
    assert(bytes@ =~= le32(x));
    bytes
}

/// Reads the first four bytes of `bytes` as a little-endian integer.
pub fn u32_from_le_bytes(bytes: &[u8]) -> (x: u32)
    requires
        bytes@.len() >= 4,
    ensures
        x as int == le32_value(bytes@),
{
    let b0 = bytes[0] as u32;
    let b1 = bytes[1] as u32;
    let b2 = bytes[2] as u32;
    let b3 = bytes[3] as u32;
    b0 + 256 * b1 + 65536 * b2 + 16777216 * b3
}

/// The four bytes of `le32(x)` read back as a little-endian integer give `x`.
pub proof fn law_le32_reads_back(x: u32)
    ensures
        le32(x).len() == 4,
        le32_value(le32(x)) == x,
{
    let b = le32(x);
    assert(b[0] == x % 256);
    assert(b[1] == (x / 256) % 256);
    assert(b[2] == (x / 65536) % 256);
    assert(b[3] == x / 16777216);
    assert(x == x % 256 + 256 * ((x / 256) % 256) + 65536 * ((x / 65536) % 256) + 16777216 * (x
        / 16777216)) by (nonlinear_arith);
}

// ---------------------------------------------------------------------------
// UTF-16 (little-endian) text
// ---------------------------------------------------------------------------

/// The UTF-16 code units of one character: the character itself when it lies in
/// the basic multilingual plane, otherwise a surrogate pair.
pub open spec fn utf16_units(c: char) -> Seq<u16> {
    let v = c as u32;
    if v < 0x10000 {
        seq![v as u16]
    } else {
        let w = (v - 0x10000) as u32;
        seq![(0xD800 + w / 1024) as u16, (0xDC00 + w % 1024) as u16]
    }
}

/// The little-endian bytes of a sequence of UTF-16 code units.
pub open spec fn units_le_bytes(units: Seq<u16>) -> Seq<u8>
    decreases units.len(),
{
    if units.len() == 0 {
        Seq::empty()
    } else {
        let u = units.last();
        units_le_bytes(units.drop_last()) + seq![(u % 256) as u8, (u / 256) as u8]
    }
}

/// The UTF-16LE encoding of a text.
pub open spec fn utf16le(text: Seq<char>) -> Seq<u8>
    decreases text.len(),
{
    if text.len() == 0 {
        Seq::empty()
    } else {
        utf16le(text.drop_last()) + units_le_bytes(utf16_units(text.last()))
    }
}

/// The UTF-16LE encoding of a concatenation is the concatenation of the encodings.
pub proof fn law_utf16le_concat(a: Seq<char>, b: Seq<char>)
    ensures
        utf16le(a + b) == utf16le(a) + utf16le(b),
    decreases b.len(),
{
    if b.len() == 0 {
        assert(a + b =~= a);
        assert(utf16le(b) =~= Seq::<u8>::empty());
        assert(utf16le(a) + utf16le(b) =~= utf16le(a));
    } else {
        law_utf16le_concat(a, b.drop_last());
        assert((a + b).drop_last() =~= a + b.drop_last());
        assert((a + b).last() == b.last());
        assert(utf16le(a + b) =~= utf16le(a) + utf16le(b));
    }
}

/// The UTF-16LE bytes of one character decode back to it: a character below
/// U+10000 is one little-endian code unit equal to it; any other is a high
/// surrogate followed by a low surrogate, which together give it back.
pub proof fn law_utf16le_char(c: char)
    ensures
        ({
            let b = utf16le(seq![c]);
            let v = c as u32;
            if v < 0x10000 {
                &&& b.len() == 2
                &&& b[0] + 256 * b[1] == v
            } else {
                let high = b[0] + 256 * b[1];
                let low = b[2] + 256 * b[3];
                &&& b.len() == 4
                &&& 0xD800 <= high < 0xDC00
                &&& 0xDC00 <= low < 0xE000
                &&& (high - 0xD800) * 1024 + (low - 0xDC00) + 0x10000 == v
            }
        }),
{
    let v = c as u32;
    reveal_with_fuel(units_le_bytes, 3);
    assert(seq![c].drop_last() =~= Seq::<char>::empty());
    assert(seq![c].last() == c);
    assert(utf16le(seq![c]) == utf16le(Seq::<char>::empty()) + units_le_bytes(utf16_units(c)));
    assert(utf16le(Seq::<char>::empty()) =~= Seq::<u8>::empty());
    let units = utf16_units(c);
    if v < 0x10000 {
        let u = v as u16;
        assert(units == seq![u]);
        assert(units.drop_last() =~= Seq::<u16>::empty());
        assert(utf16le(seq![c]) =~= seq![(u % 256) as u8, (u / 256) as u8]);
        assert(u % 256 + 256 * (u / 256) == u) by (nonlinear_arith);
    } else {
        assert(v <= 0x10FFFF) by {
            vstd::utf8::char_is_scalar(c);
        }
        let w = (v - 0x10000) as u32;
        let hi = (0xD800 + w / 1024) as u16;
        let lo = (0xDC00 + w % 1024) as u16;
        assert(units == seq![hi, lo]);
        assert(units.drop_last() =~= seq![hi]);
        assert(units.drop_last().drop_last() =~= Seq::<u16>::empty());
        assert(utf16le(seq![c]) =~= seq![(hi % 256) as u8, (hi / 256) as u8, (lo % 256) as u8, (lo / 256) as u8]);
        assert(hi % 256 + 256 * (hi / 256) == hi) by (nonlinear_arith);
        assert(lo % 256 + 256 * (lo / 256) == lo) by (nonlinear_arith);
        assert((w / 1024) * 1024 + w % 1024 == w) by (nonlinear_arith);
    }
}

fn push_unit_le(out: &mut Vec<u8>, unit: u16)
    ensures
        final(out)@ == old(out)@ + seq![(unit % 256) as u8, (unit / 256) as u8],
{
    out.push((unit % 256) as u8);
    out.push((unit / 256) as u8);
}

/// Encodes `text` as UTF-16 with little-endian code units.
pub fn encode_utf16le(text: &str) -> (bytes: Vec<u8>)
    ensures
        bytes@ == utf16le(text@),
{
    broadcast use vstd::string::group_string_axioms;

    let mut bytes: Vec<u8> = Vec::new();
    for c in it: text.chars()
        invariant
            it.seq() == text@,
            bytes@ == utf16le(text@.take(it.index() as int)),
    {
        let ghost before = text@.take(it.index() as int);
        let v = c as u32;
        if v < 0x10000 {
            push_unit_le(&mut bytes, v as u16);
            proof {
                reveal_with_fuel(units_le_bytes, 2);
            }
        } else {
            let w = v - 0x10000;
            push_unit_le(&mut bytes, (0xD800 + w / 1024) as u16);
            push_unit_le(&mut bytes, (0xDC00 + w % 1024) as u16);
            proof {
                reveal_with_fuel(units_le_bytes, 3);
            }
        }
        assert(text@.take(it.index() + 1).drop_last() =~= before);
    }
    assert(text@.take(text@.len() as int) =~= text@);
    bytes
}

// ---------------------------------------------------------------------------
// UTF-8 text and decimal numbers
// ---------------------------------------------------------------------------

/// The message of the error that `String::from_utf8` gives for `bytes` (it
/// names the position and length of the first invalid sequence).
pub uninterp spec fn utf8_error_message(bytes: Seq<u8>) -> Seq<char>;

/// Calls `String::from_utf8`. Claimed, as its documentation says: it succeeds
/// exactly when `bytes` are valid UTF-8, and then holds the decoded text; the
/// error is turned into its message, which depends on `bytes` alone.
#[verifier::external_body]
pub(crate) fn string_from_utf8(bytes: Vec<u8>) -> (r: Result<String, String>)
    ensures
        match r {
            Ok(text) => valid_utf8(bytes@) && text@ == decode_utf8(bytes@),
            Err(message) => !valid_utf8(bytes@) && message@ == utf8_error_message(bytes@),
        },
{
    match String::from_utf8(bytes) {
        Ok(text) => Ok(text),
        Err(e) => Err(format!("{e}")),
    }
}

/// Whether `c` is one of the ASCII digits `0` to `9`.
pub open spec fn is_decimal_digit(c: char) -> bool {
    48 <= (c as u32) <= 57
}

/// The value of a string of decimal digits.
pub open spec fn decimal_value(digits: Seq<char>) -> int
    decreases digits.len(),
{
    if digits.len() == 0 {
        0
    } else {
        decimal_value(digits.drop_last()) * 10 + ((digits.last() as u32) - 48)
    }
}

/// What `str::parse::<u32>` accepts: an optional `+` followed by at least one
/// decimal digit and nothing else, whose value fits in a `u32`.
pub open spec fn parse_u32_spec(text: Seq<char>) -> Option<u32> {
    let digits = if text.len() > 0 && text[0] == '+' {
        text.drop_first()
    } else {
        text
    };
    if digits.len() > 0 && (forall|i: int| 0 <= i < digits.len() ==> is_decimal_digit(digits[i]))
        && decimal_value(digits) <= u32::MAX {
        Some(decimal_value(digits) as u32)
    } else {
        None
    }
}

/// The message of the error that `str::parse::<u32>` gives for `text` (it
/// names the kind of the failure: empty text, invalid digit, or overflow).
pub uninterp spec fn parse_u32_error_message(text: Seq<char>) -> Seq<char>;

/// The value of a string of ASCII decimal digit bytes.
pub open spec fn ascii_decimal_value(digits: Seq<u8>) -> int
    decreases digits.len(),
{
    if digits.len() == 0 {
        0
    } else {
        ascii_decimal_value(digits.drop_last()) * 10 + (digits.last() - 48)
    }
}

/// Bytes that are ASCII decimal digits are valid UTF-8, and decode to the
/// digit characters with the same value.
pub proof fn lemma_ascii_digits_text(digits: Seq<u8>)
    requires
        forall|i: int| 0 <= i < digits.len() ==> 48 <= #[trigger] digits[i] <= 57,
    ensures
        valid_utf8(digits),
        forall|i: int| 0 <= i < digits.len() ==> is_decimal_digit(#[trigger] decode_utf8(digits)[i]),
        decode_utf8(digits).len() == digits.len(),
        decode_utf8(digits).len() > 0 ==> decode_utf8(digits)[0] != '+',
        decimal_value(decode_utf8(digits)) == ascii_decimal_value(digits),
{
    let chars = Seq::new(digits.len(), |i: int| digits[i] as char);
    assert(vstd::utf8::is_ascii_chars(chars));
    vstd::utf8::is_ascii_chars_encode_utf8(chars);
    assert(vstd::utf8::encode_utf8(chars) =~= digits);
    vstd::utf8::encode_utf8_valid_utf8(chars);
    vstd::utf8::encode_utf8_decode_utf8(chars);
    lemma_decimal_value_of_ascii(digits);
}

proof fn lemma_decimal_value_of_ascii(digits: Seq<u8>)
    requires
        forall|i: int| 0 <= i < digits.len() ==> 48 <= #[trigger] digits[i] <= 57,
    ensures
        decimal_value(Seq::new(digits.len(), |i: int| digits[i] as char)) == ascii_decimal_value(
            digits,
        ),
    decreases digits.len(),
{
    if digits.len() > 0 {
        lemma_decimal_value_of_ascii(digits.drop_last());
        let chars = Seq::new(digits.len(), |i: int| digits[i] as char);
        assert(chars.drop_last() =~= Seq::new(
            digits.drop_last().len(),
            |i: int| digits.drop_last()[i] as char,
        ));
    }
}

/// A string of decimal digits is read as its value whenever that fits in a
/// `u32`.
pub proof fn law_parse_u32_reads_decimal(digits: Seq<u8>, n: u32)
    requires
        digits.len() > 0,
        forall|i: int| 0 <= i < digits.len() ==> 48 <= #[trigger] digits[i] <= 57,
        ascii_decimal_value(digits) == n,
    ensures
        valid_utf8(digits),
        parse_u32_spec(decode_utf8(digits)) == Some(n),
{
    lemma_ascii_digits_text(digits);
}

/// Calls `str::parse::<u32>`. Claimed, as the documentation of
/// `u32::from_str_radix` says: the text must be an optional `+` sign followed by
/// decimal digits only, with a value that fits in a `u32`; the error is turned
/// into its message, which depends on `text` alone.
#[verifier::external_body]
pub(crate) fn parse_u32(text: &str) -> (r: Result<u32, String>)
    ensures
        match r {
            Ok(n) => parse_u32_spec(text@) == Some(n),
            Err(message) => parse_u32_spec(text@) is None && message@ == parse_u32_error_message(
                text@,
            ),
        },
{
    match text.parse::<u32>() {
        Ok(n) => Ok(n),
        Err(e) => Err(format!("{e}")),
    }
}

// ---------------------------------------------------------------------------
// Base64 (standard alphabet, padded, canonical)
// ---------------------------------------------------------------------------

/// The 6-bit value of a base64 character, or -1 for a byte outside the alphabet.
pub open spec fn b64_digit(c: u8) -> int {
    if 65 <= c <= 90 {
        c - 65
    } else if 97 <= c <= 122 {
        c - 71
    } else if 48 <= c <= 57 {
        c + 4
    } else if c == 43 {
        62
    } else if c == 47 {
        63
    } else {
        -1
    }
}

/// The padding character `=`.
pub open spec fn is_pad(c: u8) -> bool {
    c == 61
}

/// The three bytes encoded by four base64 digits.
pub open spec fn b64_three(d0: int, d1: int, d2: int, d3: int) -> Seq<u8> {
    seq![(d0 * 4 + d1 / 16) as u8, ((d1 % 16) * 16 + d2 / 4) as u8, ((d2 % 4) * 64 + d3) as u8]
}

/// Decoding of a group of four characters that is not the last: all four must be
/// base64 digits.
pub open spec fn b64_inner_group(q: Seq<u8>) -> Option<Seq<u8>> {
    let (d0, d1, d2, d3) = (b64_digit(q[0]), b64_digit(q[1]), b64_digit(q[2]), b64_digit(q[3]));
    if d0 >= 0 && d1 >= 0 && d2 >= 0 && d3 >= 0 {
        Some(b64_three(d0, d1, d2, d3))
    } else {
        None
    }
}

/// Decoding of the last group of four characters, which may end in one or two
/// padding characters; the bits that the padding leaves unused must be zero.
pub open spec fn b64_final_group(q: Seq<u8>) -> Option<Seq<u8>> {
    let (d0, d1, d2) = (b64_digit(q[0]), b64_digit(q[1]), b64_digit(q[2]));
    if is_pad(q[2]) && is_pad(q[3]) {
        if d0 >= 0 && d1 >= 0 && d1 % 16 == 0 {
            Some(b64_three(d0, d1, 0, 0).take(1))
        } else {
            None
        }
    } else if is_pad(q[3]) {
        if d0 >= 0 && d1 >= 0 && d2 >= 0 && d2 % 4 == 0 {
            Some(b64_three(d0, d1, d2, 0).take(2))
        } else {
            None
        }
    } else {
        b64_inner_group(q)
    }
}

/// Decoding of the first `k` groups of four characters of `s`.
pub open spec fn b64_groups(s: Seq<u8>, k: nat) -> Option<Seq<u8>>
    decreases k,
{
    if k == 0 {
        Some(Seq::empty())
    } else {
        match b64_groups(s, (k - 1) as nat) {
            None => None,
            Some(prefix) => {
                let q = s.subrange(4 * (k - 1), 4 * k as int);
                let part = if 4 * k == s.len() {
                    b64_final_group(q)
                } else {
                    b64_inner_group(q)
                };
                match part {
                    None => None,
                    Some(bytes) => Some(prefix + bytes),
                }
            },
        }
    }
}

/// Base64 decoding with the standard alphabet: the input is made of groups of four
/// characters, only the last of which may hold padding.
pub open spec fn b64_decode_spec(s: Seq<u8>) -> Option<Seq<u8>> {
    if s.len() % 4 != 0 {
        None
    } else {
        b64_groups(s, s.len() / 4)
    }
}

proof fn lemma_b64_groups_fail_later(s: Seq<u8>, k: nat, m: nat)
    requires
        k <= m,
        b64_groups(s, k) is None,
    ensures
        b64_groups(s, m) is None,
    decreases m - k,
{
    if k < m {
        lemma_b64_groups_fail_later(s, k, (m - 1) as nat);
    }
}

/// The base64 character of a 6-bit value: `A`-`Z`, `a`-`z`, `0`-`9`, `+`, `/`.
pub open spec fn b64_char(v: int) -> u8 {
    if v < 26 {
        (65 + v) as u8
    } else if v < 52 {
        (97 + (v - 26)) as u8
    } else if v < 62 {
        (48 + (v - 52)) as u8
    } else if v == 62 {
        43u8
    } else {
        47u8
    }
}

/// Standard base64 encoding of one group of one to three bytes, padded with
/// `=` to four characters.
pub open spec fn b64_encode_group(b: Seq<u8>) -> Seq<u8> {
    let x = b[0] as int;
    let y = if b.len() > 1 {
        b[1] as int
    } else {
        0
    };
    let z = if b.len() > 2 {
        b[2] as int
    } else {
        0
    };
    let c0 = b64_char(x / 4);
    let c1 = b64_char((x % 4) * 16 + y / 16);
    let c2 = b64_char((y % 16) * 4 + z / 64);
    let c3 = b64_char(z % 64);
    if b.len() == 1 {
        seq![c0, c1, 61u8, 61u8]
    } else if b.len() == 2 {
        seq![c0, c1, c2, 61u8]
    } else {
        seq![c0, c1, c2, c3]
    }
}

/// Standard, padded base64 encoding.
pub open spec fn b64_encode(b: Seq<u8>) -> Seq<u8>
    decreases b.len(),
{
    if b.len() == 0 {
        Seq::empty()
    } else if b.len() <= 3 {
        b64_encode_group(b)
    } else {
        b64_encode_group(b.take(3)) + b64_encode(b.skip(3))
    }
}

/// Each of the 64 characters of the alphabet decodes to its index, and none of
/// them is the padding character.
pub proof fn law_b64_alphabet(v: int)
    requires
        0 <= v < 64,
    ensures
        b64_digit(b64_char(v)) == v,
        !is_pad(b64_char(v)),
{
}

/// The group of `b` that starts at byte `3 * g`.
pub open spec fn b64_byte_group(b: Seq<u8>, g: int) -> Seq<u8> {
    let end = if 3 * g + 3 <= b.len() {
        3 * g + 3
    } else {
        b.len() as int
    };
    b.subrange(3 * g, end)
}

/// The number of groups of `b`.
pub open spec fn b64_group_count(b: Seq<u8>) -> int {
    (b.len() + 2) as int / 3
}

proof fn lemma_b64_encode_layout(b: Seq<u8>)
    ensures
        b64_encode(b).len() == 4 * b64_group_count(b),
        forall|g: int|
            0 <= g < b64_group_count(b) ==> #[trigger] b64_encode(b).subrange(4 * g, 4 * g + 4)
                == b64_encode_group(b64_byte_group(b, g)),
    decreases b.len(),
{
    if b.len() == 0 {
    } else if b.len() <= 3 {
        assert forall|g: int| 0 <= g < b64_group_count(b) implies #[trigger] b64_encode(b).subrange(
            4 * g,
            4 * g + 4,
        ) == b64_encode_group(b64_byte_group(b, g)) by {
            assert(g == 0);
            assert(b64_byte_group(b, 0) =~= b);
            assert(b64_encode(b).subrange(0, 4) =~= b64_encode(b));
        }
    } else {
        let rest = b.skip(3);
        lemma_b64_encode_layout(rest);
        let head = b64_encode_group(b.take(3));
        assert(b64_encode(b) == head + b64_encode(rest));
        assert forall|g: int| 0 <= g < b64_group_count(b) implies #[trigger] b64_encode(b).subrange(
            4 * g,
            4 * g + 4,
        ) == b64_encode_group(b64_byte_group(b, g)) by {
            if g == 0 {
                assert(b64_byte_group(b, 0) =~= b.take(3));
                assert(b64_encode(b).subrange(0, 4) =~= head);
            } else {
                assert(b64_byte_group(rest, g - 1) =~= b64_byte_group(b, g));
                assert(b64_encode(rest).subrange(4 * (g - 1), 4 * (g - 1) + 4) == b64_encode_group(
                    b64_byte_group(rest, g - 1),
                ));
                assert(b64_encode(b).subrange(4 * g, 4 * g + 4) =~= b64_encode(rest).subrange(
                    4 * (g - 1),
                    4 * (g - 1) + 4,
                ));
            }
        }
    }
}

proof fn lemma_b64_three_bytes(x: int, y: int, z: int)
    requires
        0 <= x < 256,
        0 <= y < 256,
        0 <= z < 256,
    ensures
        (x / 4) * 4 + ((x % 4) * 16 + y / 16) / 16 == x,
        (((x % 4) * 16 + y / 16) % 16) * 16 + ((y % 16) * 4 + z / 64) / 4 == y,
        (((y % 16) * 4 + z / 64) % 4) * 64 + z % 64 == z,
        0 <= x / 4 < 64,
        0 <= (x % 4) * 16 + y / 16 < 64,
        0 <= (y % 16) * 4 + z / 64 < 64,
        0 <= z % 64 < 64,
{
    assert((x / 4) * 4 + ((x % 4) * 16 + y / 16) / 16 == x) by (nonlinear_arith)
        requires
            0 <= x < 256,
            0 <= y < 256,
    ;
    assert((((x % 4) * 16 + y / 16) % 16) * 16 + ((y % 16) * 4 + z / 64) / 4 == y) by (nonlinear_arith)
        requires
            0 <= x < 256,
            0 <= y < 256,
            0 <= z < 256,
    ;
    assert((((y % 16) * 4 + z / 64) % 4) * 64 + z % 64 == z) by (nonlinear_arith)
        requires
            0 <= y < 256,
            0 <= z < 256,
    ;
}

/// Decoding the encoding of one group gives the group back.
proof fn lemma_b64_group_round_trip(b: Seq<u8>, last: bool)
    requires
        1 <= b.len() <= 3,
        b.len() < 3 ==> last,
    ensures
        (if last {
            b64_final_group(b64_encode_group(b))
        } else {
            b64_inner_group(b64_encode_group(b))
        }) == Some(b),
{
    let x = b[0] as int;
    let y = if b.len() > 1 {
        b[1] as int
    } else {
        0
    };
    let z = if b.len() > 2 {
        b[2] as int
    } else {
        0
    };
    lemma_b64_three_bytes(x, y, z);
    let d0 = x / 4;
    let d1 = (x % 4) * 16 + y / 16;
    let d2 = (y % 16) * 4 + z / 64;
    let d3 = z % 64;
    law_b64_alphabet(d0);
    law_b64_alphabet(d1);
    law_b64_alphabet(d2);
    law_b64_alphabet(d3);
    let q = b64_encode_group(b);
    if b.len() == 1 {
        assert(d1 % 16 == 0);
        assert(b64_three(d0, d1, 0, 0).take(1) =~= b);
    } else if b.len() == 2 {
        assert(d2 % 4 == 0);
        assert(b64_three(d0, d1, d2, 0).take(2) =~= b);
    } else {
        assert(b64_three(d0, d1, d2, d3) =~= b);
    }
}

proof fn lemma_b64_groups_of_encoding(b: Seq<u8>, k: nat)
    requires
        k <= b64_group_count(b),
    ensures
        b64_groups(b64_encode(b), k) == Some(b.take(if 3 * k <= b.len() { (3 * k) as int } else { b.len() as int })),
    decreases k,
{
    lemma_b64_encode_layout(b);
    if k > 0 {
        lemma_b64_groups_of_encoding(b, (k - 1) as nat);
        let s = b64_encode(b);
        let g = k - 1;
        let group = b64_byte_group(b, g);
        assert(s.subrange(4 * g, 4 * g + 4) == b64_encode_group(group));
        let last = 4 * k == s.len();
        lemma_b64_group_round_trip(group, last);
        assert(b.take(3 * g) + group =~= b.take(if 3 * k <= b.len() { (3 * k) as int } else { b.len() as int }));
    }
}

/// Base64 decoding inverts standard base64 encoding: every byte string comes
/// back from its encoding.
pub proof fn law_b64_decode_inverts_encode(b: Seq<u8>)
    ensures
        b64_decode_spec(b64_encode(b)) == Some(b),
{
    lemma_b64_encode_layout(b);
    let n = b64_group_count(b);
    assert(b64_encode(b).len() / 4 == n);
    lemma_b64_groups_of_encoding(b, n as nat);
    assert(b.take(b.len() as int) =~= b);
}

fn b64_digit_of(c: u8) -> (d: Option<u8>)
    ensures
        match d {
            Some(v) => b64_digit(c) == v as int && v < 64,
            None => b64_digit(c) < 0,
        },
{
    if 65 <= c && c <= 90 {
        Some(c - 65)
    } else if 97 <= c && c <= 122 {
        Some(c - 71)
    } else if 48 <= c && c <= 57 {
        Some(c + 4)
    } else if c == 43 {
        Some(62)
    } else if c == 47 {
        Some(63)
    } else {
        None
    }
}

fn b64_push_three(out: &mut Vec<u8>, d0: u8, d1: u8, d2: u8, d3: u8, count: usize)
    requires
        d0 < 64,
        d1 < 64,
        d2 < 64,
        d3 < 64,
        1 <= count <= 3,
    ensures
        final(out)@ == old(out)@ + b64_three(d0 as int, d1 as int, d2 as int, d3 as int).take(
            count as int,
        ),
{
    let ghost three = b64_three(d0 as int, d1 as int, d2 as int, d3 as int);
    out.push(d0 * 4 + d1 / 16);
    if count >= 2 {
        out.push((d1 % 16) * 16 + d2 / 4);
    }
    if count >= 3 {
        out.push((d2 % 4) * 64 + d3);
    }
    assert(final(out)@ =~= old(out)@ + three.take(count as int));
}

/// Decodes one group of four characters (`last` tells whether it is the final
/// group), appending the bytes to `out`.
fn b64_decode_group(q: &[u8], last: bool, out: &mut Vec<u8>) -> (ok: bool)
    requires
        q@.len() == 4,
    ensures
        ({
            let part = if last {
                b64_final_group(q@)
            } else {
                b64_inner_group(q@)
            };
            &&& ok <==> part is Some
            &&& ok ==> final(out)@ == old(out)@ + part->0
        }),
{
    let o0 = b64_digit_of(q[0]);
    let o1 = b64_digit_of(q[1]);
    let o2 = b64_digit_of(q[2]);
    let o3 = b64_digit_of(q[3]);
    if last && q[2] == 61 && q[3] == 61 {
        match (o0, o1) {
            (Some(d0), Some(d1)) => {
                if d1 % 16 == 0 {
                    b64_push_three(out, d0, d1, 0, 0, 1);
                    true
                } else {
                    false
                }
            },
            _ => false,
        }
    } else if last && q[3] == 61 {
        match (o0, o1, o2) {
            (Some(d0), Some(d1), Some(d2)) => {
                if d2 % 4 == 0 {
                    b64_push_three(out, d0, d1, d2, 0, 2);
                    true
                } else {
                    false
                }
            },
            _ => false,
        }
    } else {
        match (o0, o1, o2, o3) {
            (Some(d0), Some(d1), Some(d2), Some(d3)) => {
                b64_push_three(out, d0, d1, d2, d3, 3);
                assert(b64_three(d0 as int, d1 as int, d2 as int, d3 as int).take(3)
                    =~= b64_three(d0 as int, d1 as int, d2 as int, d3 as int));
                true
            },
            _ => false,
        }
    }
}

/// The message of a base64 decoding error.
pub open spec fn b64_error_message(s: Seq<u8>) -> Seq<char> {
    if s.len() % 4 != 0 {
        "base64: length is not a multiple of four"@
    } else {
        "base64: invalid character or padding"@
    }
}

/// Base64 decoding with its error message.
pub open spec fn b64_decode_result(s: Seq<u8>) -> Result<Seq<u8>, Seq<char>> {
    match b64_decode_spec(s) {
        Some(bytes) => Ok(bytes),
        None => Err(b64_error_message(s)),
    }
}

/// Decodes standard, padded base64. Fails with `InvalidStructure` exactly when
/// the input is not valid base64.
pub fn b64_decode(input: &[u8]) -> (r: Result<Vec<u8>, DecryptError>)
    ensures
        match r {
            Ok(bytes) => b64_decode_spec(input@) == Some(bytes@),
            Err(e) => e matches DecryptError::InvalidStructure(message) && b64_decode_result(input@)
                == Err::<Seq<u8>, Seq<char>>(message@),
        },
{
    if input.len() % 4 != 0 {
        return Err(
            DecryptError::InvalidStructure(String::from_str("base64: length is not a multiple of four")),
        );
    }
    let len = input.len();
    let n = len / 4;
    let mut out: Vec<u8> = Vec::new();
    let mut k: usize = 0;
    while k < n
        invariant
            k <= n,
            len == input@.len(),
            4 * n == len,
            b64_groups(input@, k as nat) == Some(out@),
        decreases n - k,
    {
        let q = vstd::slice::slice_subrange(input, 4 * k, 4 * k + 4);
        let last = 4 * k + 4 == len;
        let ok = b64_decode_group(q, last, &mut out);
        if !ok {
            proof {
                lemma_b64_groups_fail_later(input@, (k + 1) as nat, n as nat);
            }
            return Err(
                DecryptError::InvalidStructure(String::from_str("base64: invalid character or padding")),
            );
        }
        k = k + 1;
    }
    Ok(out)
}

} // verus!

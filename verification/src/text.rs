//! Byte-level text: ASCII constants, UTF-8 validity, and scalar encoding.

use vstd::prelude::*;
use vstd::string::StringSliceAdditionalSpecFns;
use vstd::utf8::{encode_scalar, is_scalar, valid_first_scalar, valid_utf8};

verus! {

pub const BACKSPACE: u8 = 0x08;

pub const TAB: u8 = 0x09;

pub const LINE_FEED: u8 = 0x0a;

pub const FORM_FEED: u8 = 0x0c;

pub const CARRIAGE_RETURN: u8 = 0x0d;

pub const SPACE: u8 = 0x20;

pub const QUOTE: u8 = 0x22;

pub const PLUS: u8 = 0x2b;

pub const COMMA: u8 = 0x2c;

pub const MINUS: u8 = 0x2d;

pub const DOT: u8 = 0x2e;

pub const SLASH: u8 = 0x2f;

pub const ZERO: u8 = 0x30;

pub const ONE: u8 = 0x31;

pub const NINE: u8 = 0x39;

pub const COLON: u8 = 0x3a;

pub const UPPER_E: u8 = 0x45;

pub const LEFT_BRACKET: u8 = 0x5b;

pub const BACKSLASH: u8 = 0x5c;

pub const RIGHT_BRACKET: u8 = 0x5d;

pub const LOWER_E: u8 = 0x65;

pub const LEFT_BRACE: u8 = 0x7b;

pub const RIGHT_BRACE: u8 = 0x7d;

/// Whether `byte` is one of the ASCII digits `0` to `9`.
pub open spec fn is_digit(byte: u8) -> bool {
    0x30 <= byte <= 0x39
}

/// Whether `byte` is JSON whitespace: space, tab, line feed, or carriage return.
pub open spec fn is_json_space(byte: u8) -> bool {
    byte == SPACE || byte == TAB || byte == LINE_FEED || byte == CARRIAGE_RETURN
}

/// Whether the byte of `bytes` at `at` exists and equals `byte`.
pub open spec fn byte_at(bytes: Seq<u8>, at: int, byte: u8) -> bool {
    0 <= at < bytes.len() && bytes[at] == byte
}

/// Whether the byte of `bytes` at `at` exists and is an ASCII digit.
pub open spec fn digit_at(bytes: Seq<u8>, at: int) -> bool {
    0 <= at < bytes.len() && is_digit(bytes[at])
}

/// Index of the first byte at or after `at` that is not an ASCII digit.
pub open spec fn skip_digits(bytes: Seq<u8>, at: int) -> int
    decreases bytes.len() - at,
{
    if digit_at(bytes, at) {
        skip_digits(bytes, at + 1)
    } else {
        at
    }
}

/// Index of the first byte at or after `at` that is not JSON whitespace.
pub open spec fn skip_space(bytes: Seq<u8>, at: int) -> int
    decreases bytes.len() - at,
{
    if 0 <= at < bytes.len() && is_json_space(bytes[at]) {
        skip_space(bytes, at + 1)
    } else {
        at
    }
}

/// `end` is the length of the longest prefix of `bytes` that is valid UTF-8.
pub open spec fn is_valid_up_to(bytes: Seq<u8>, end: int) -> bool {
    &&& 0 <= end <= bytes.len()
    &&& valid_utf8(bytes.take(end))
    &&& forall|longer: int|
        end < longer <= bytes.len() ==> !valid_utf8(#[trigger] bytes.take(longer))
}

/// Length of the longest prefix of `bytes` that is valid UTF-8.
pub open spec fn valid_up_to(bytes: Seq<u8>) -> int {
    choose|end: int| is_valid_up_to(bytes, end)
}

/// Value of an ASCII hexadecimal digit.
pub open spec fn hex_value(byte: u8) -> Option<u8> {
    if 0x30 <= byte <= 0x39 {
        Some((byte - 0x30) as u8)
    } else if 0x61 <= byte <= 0x66 {
        Some((byte - 0x61 + 10) as u8)
    } else if 0x41 <= byte <= 0x46 {
        Some((byte - 0x41 + 10) as u8)
    } else {
        None
    }
}

/// The four hexadecimal digits of `bytes` from `at` on, read as one number.
pub open spec fn hex_quad(bytes: Seq<u8>, at: int) -> Option<int>
    recommends
        0 <= at <= bytes.len() - 4,
{
    match (
        hex_value(bytes[at]),
        hex_value(bytes[at + 1]),
        hex_value(bytes[at + 2]),
        hex_value(bytes[at + 3]),
    ) {
        (Some(a), Some(b), Some(c), Some(d)) => Some(a * 4096 + b * 256 + c * 16 + d),
        _ => None,
    }
}

/// There is only one longest valid prefix.
pub proof fn lemma_valid_up_to_unique(bytes: Seq<u8>, end: int)
    requires
        is_valid_up_to(bytes, end),
    ensures
        valid_up_to(bytes) == end,
{
    let chosen = valid_up_to(bytes);
    assert(is_valid_up_to(bytes, chosen));
    if chosen < end {
        assert(!valid_utf8(bytes.take(end)));
    } else if end < chosen {
        assert(!valid_utf8(bytes.take(chosen)));
    }
}

/// Text made of ASCII bytes alone is valid UTF-8.
pub proof fn lemma_ascii_is_utf8(bytes: Seq<u8>)
    requires
        forall|i: int| 0 <= i < bytes.len() ==> #[trigger] bytes[i] < 0x80,
    ensures
        valid_utf8(bytes),
    decreases bytes.len(),
{
    if bytes.len() > 0 {
        let rest = vstd::utf8::pop_first_scalar(bytes);
        let first = bytes[0];
        assert(first & 0x7f == first) by (bit_vector)
            requires
                first < 0x80,
        ;
        assert(valid_first_scalar(bytes));
        assert(rest =~= bytes.subrange(1, bytes.len() as int));
        lemma_ascii_is_utf8(rest);
    }
}

/// Valid text stays valid when valid text follows it.
pub proof fn lemma_utf8_concat(left: Seq<u8>, right: Seq<u8>)
    requires
        valid_utf8(left),
        valid_utf8(right),
    ensures
        valid_utf8(left + right),
    decreases left.len(),
{
    if left.len() == 0 {
        assert(left + right =~= right);
    } else {
        let whole = left + right;
        let rest = vstd::utf8::pop_first_scalar(left);
        assert(vstd::utf8::length_of_first_scalar(left) <= left.len());
        assert(whole[0] == left[0]);
        assert(forall|i: int| 0 <= i < left.len() ==> whole[i] == left[i]);
        assert(valid_first_scalar(whole));
        assert(vstd::utf8::pop_first_scalar(whole) =~= rest + right);
        lemma_utf8_concat(rest, right);
    }
}

/// The encoding of one scalar is valid UTF-8.
pub proof fn lemma_encoded_scalar_is_utf8(scalar: u32)
    requires
        is_scalar(scalar),
    ensures
        valid_utf8(encode_scalar(scalar)),
{
    let character = scalar as char;
    let chars = seq![character];
    assert(chars[0] as u32 == scalar);
    vstd::utf8::encode_utf8_valid_utf8(chars);
    assert(chars.drop_first() =~= Seq::<char>::empty());
    assert(vstd::utf8::encode_utf8(chars.drop_first()) =~= Seq::<u8>::empty());
    assert(vstd::utf8::encode_utf8(chars) =~= encode_scalar(scalar));
}

/// Skipping digits never moves backwards nor past the end.
pub proof fn lemma_skip_digits(bytes: Seq<u8>, at: int)
    requires
        0 <= at <= bytes.len(),
    ensures
        at <= skip_digits(bytes, at) <= bytes.len(),
        !digit_at(bytes, skip_digits(bytes, at)),
        digit_at(bytes, at) ==> at < skip_digits(bytes, at),
        forall|i: int| at <= i < skip_digits(bytes, at) ==> is_digit(#[trigger] bytes[i]),
    decreases bytes.len() - at,
{
    if digit_at(bytes, at) {
        lemma_skip_digits(bytes, at + 1);
    }
}

/// Skipping whitespace never moves backwards nor past the end.
pub proof fn lemma_skip_space(bytes: Seq<u8>, at: int)
    requires
        0 <= at <= bytes.len(),
    ensures
        at <= skip_space(bytes, at) <= bytes.len(),
        forall|i: int| at <= i < skip_space(bytes, at) ==> is_json_space(#[trigger] bytes[i]),
        skip_space(bytes, at) < bytes.len() ==> !is_json_space(bytes[skip_space(bytes, at)]),
    decreases bytes.len() - at,
{
    if 0 <= at < bytes.len() && is_json_space(bytes[at]) {
        lemma_skip_space(bytes, at + 1);
    }
}

/// Where bytes stop being UTF-8.
#[derive(Clone, Copy, Debug, PartialEq, Eq, Structural)]
pub struct Utf8Fault {
    /// Length of the longest valid prefix.
    pub valid_up_to: usize,
    /// Length of the malformed sequence; absent where the bytes end within a sequence.
    pub error_len: Option<usize>,
}

/// Whether bytes that are no UTF-8 end within a character: what follows their longest valid prefix
/// is the beginning of one.
pub open spec fn is_cut_off(bytes: Seq<u8>) -> bool {
    exists|more: Seq<u8>|
        1 <= more.len() <= 3 && #[trigger] valid_utf8(bytes.skip(valid_up_to(bytes)) + more)
}

/// Length of the malformed sequence in bytes that are no UTF-8; none where they are cut off.
pub open spec fn fault_length(bytes: Seq<u8>) -> Option<usize> {
    if is_cut_off(bytes) {
        None
    } else {
        utf8_error_len(bytes)
    }
}

/// The length of the malformed sequence that `Utf8Error::error_len` reports for these bytes.
pub uninterp spec fn utf8_error_len(bytes: Seq<u8>) -> Option<usize>;

/// Calls `core::str::from_utf8`: the text when all of `bytes` is valid UTF-8, otherwise the length
/// of the longest valid prefix, as `Utf8Error::valid_up_to` gives it, and what
/// `Utf8Error::error_len` gives: the length of the malformed sequence, one to three bytes, or
/// nothing where the bytes end, one to three bytes later, within a sequence that more bytes could
/// complete.
#[verifier::external_body]
pub(crate) fn utf8_text(bytes: &[u8]) -> (result: Result<&str, Utf8Fault>)
    ensures
        match result {
            Ok(text) => valid_utf8(bytes@) && text.spec_bytes() == bytes@,
            Err(fault) => {
                &&& !valid_utf8(bytes@)
                &&& is_valid_up_to(bytes@, fault.valid_up_to as int)
                &&& fault.error_len == utf8_error_len(bytes@)
                &&& fault.error_len is None <==> exists|more: Seq<u8>|
                    1 <= more.len() <= 3 && #[trigger] valid_utf8(
                        bytes@.skip(fault.valid_up_to as int) + more,
                    )
                &&& match fault.error_len {
                    Some(length) => 1 <= length <= 3 && fault.valid_up_to + length <= bytes@.len(),
                    None => 1 <= bytes@.len() - fault.valid_up_to <= 3,
                }
            },
        },
{
    core::str::from_utf8(bytes).map_err(
        |source| Utf8Fault { valid_up_to: source.valid_up_to(), error_len: source.error_len() },
    )
}

/// Calls `Vec::capacity`: how many elements the vector holds without growing, which is no fewer
/// than it has. How many more is the allocator's answer.
#[verifier::external_body]
pub(crate) fn capacity_of<T>(buffer: &Vec<T>) -> (capacity: usize)
    ensures
        capacity >= buffer@.len(),
{
    buffer.capacity()
}

/// Whether `byte` is one of the ASCII digits `0` to `9`.
pub fn is_ascii_digit(byte: u8) -> (result: bool)
    ensures
        result == is_digit(byte),
{
    0x30 <= byte && byte <= 0x39
}

/// Whether `byte` is JSON whitespace.
pub fn is_json_whitespace(byte: u8) -> (result: bool)
    ensures
        result == is_json_space(byte),
{
    byte == SPACE || byte == TAB || byte == LINE_FEED || byte == CARRIAGE_RETURN
}

/// Value of one hexadecimal digit in either case.
pub fn hex_digit(byte: u8) -> (result: Option<u8>)
    ensures
        result == hex_value(byte),
        result matches Some(value) ==> value < 16,
{
    match byte {
        0x30..=0x39 => Some(byte - 0x30),
        0x61..=0x66 => Some(byte - 0x61 + 10),
        0x41..=0x46 => Some(byte - 0x41 + 10),
        _ => None,
    }
}

/// Length of the UTF-8 encoding of a scalar.
pub fn scalar_length(scalar: u32) -> (length: usize)
    requires
        is_scalar(scalar),
    ensures
        length == encode_scalar(scalar).len(),
{
    if scalar <= 0x7f {
        1
    } else if scalar <= 0x7ff {
        2
    } else if scalar <= 0xffff {
        3
    } else {
        4
    }
}

/// Appends the UTF-8 encoding of a scalar.
pub fn push_scalar(output: &mut Vec<u8>, scalar: u32)
    requires
        is_scalar(scalar),
    ensures
        final(output)@ == old(output)@ + encode_scalar(scalar),
{
    if scalar <= 0x7f {
        output.push((scalar & 0x7f) as u8);
    } else if scalar <= 0x7ff {
        output.push(0xc0 | ((scalar >> 6) & 0x1f) as u8);
        output.push(0x80 | (scalar & 0x3f) as u8);
    } else if scalar <= 0xffff {
        output.push(0xe0 | ((scalar >> 12) & 0x0f) as u8);
        output.push(0x80 | ((scalar >> 6) & 0x3f) as u8);
        output.push(0x80 | (scalar & 0x3f) as u8);
    } else {
        output.push(0xf0 | ((scalar >> 18) & 0x7) as u8);
        output.push(0x80 | ((scalar >> 12) & 0x3f) as u8);
        output.push(0x80 | ((scalar >> 6) & 0x3f) as u8);
        output.push(0x80 | (scalar & 0x3f) as u8);
    }
    assert(output@ =~= old(output)@ + encode_scalar(scalar));
}

/// Appends `bytes` whole.
pub fn append_slice(output: &mut Vec<u8>, bytes: &[u8])
    ensures
        final(output)@ == old(output)@ + bytes@,
{
    output.extend_from_slice(bytes);
    assert(output@ =~= old(output)@ + bytes@);
}

/// Whether two byte slices hold the same bytes.
pub fn bytes_equal(left: &[u8], right: &[u8]) -> (equal: bool)
    ensures
        equal == (left@ == right@),
{
    if left.len() != right.len() {
        return false;
    }
    let mut index: usize = 0;
    while index < left.len()
        invariant
            left@.len() == right@.len(),
            index <= left@.len(),
            forall|i: int| 0 <= i < index ==> left@[i] == right@[i],
        decreases left@.len() - index,
    {
        if left[index] != right[index] {
            return false;
        }
        index += 1;
    }
    assert(left@ =~= right@);
    true
}

} // verus!

//! Eight-bytes-at-a-time search for the bytes that end or interrupt a JSON string.

use vstd::prelude::*;
use vstd::std_specs::bits::axiom_u64_trailing_zeros;

use crate::text::{BACKSLASH, QUOTE};

verus! {

/// Bytes in one scan word.
pub const STRING_SCAN_WORD_BYTES: usize = 8;

const BYTE_ONES: u64 = 0x0101_0101_0101_0101;

const BYTE_HIGH_BITS: u64 = 0x8080_8080_8080_8080;

const QUOTE_BYTES: u64 = 0x2222_2222_2222_2222;

const BACKSLASH_BYTES: u64 = 0x5c5c_5c5c_5c5c_5c5c;

const CONTROL_LIMIT_BYTES: u64 = 0x2020_2020_2020_2020;

/// Byte `index` of a word, counted from its least significant byte.
pub open spec fn word_byte(word: u64, index: int) -> u8 {
    ((word >> ((8 * index) as u64)) & 0xff) as u8
}

/// Whether a byte ends a string, starts an escape, or must not stand in a string unescaped.
pub open spec fn is_special(byte: u8) -> bool {
    byte < 0x20 || byte == QUOTE || byte == BACKSLASH
}

/// Whether the low byte of `shifted` is special.
pub open spec fn low_byte_special(shifted: u64) -> bool {
    (shifted & 0xff) < 0x20 || (shifted & 0xff) == 0x22 || (shifted & 0xff) == 0x5c
}

pub open spec fn difference(left: u64, right: u64) -> u64 {
    if left >= right {
        (left - right) as u64
    } else {
        (left - right + 0x1_0000_0000_0000_0000) as u64
    }
}

/// High bit of each byte that may be zero; exact up to the first one that is.
pub open spec fn zero_marks(word: u64) -> u64 {
    difference(word, 0x0101_0101_0101_0101) & !word & 0x8080_8080_8080_8080
}

/// High bit of each byte that may be special; exact up to the first one that is.
pub open spec fn special_marks(word: u64) -> u64 {
    zero_marks(word ^ 0x2222_2222_2222_2222) | zero_marks(word ^ 0x5c5c_5c5c_5c5c_5c5c) | (
    difference(word, 0x2020_2020_2020_2020) & !word & 0x8080_8080_8080_8080)
}

proof fn lemma_marks_low(word: u64)
    by (bit_vector)
    ensures
        special_marks(word) & 0x7f7f_7f7f_7f7f_7f7f == 0,
        (special_marks(word) >> 7) & 1 == 1 <==> low_byte_special(word),
        special_marks(word) & 0xff == 0 ==> ((special_marks(word) >> 15) & 1 == 1
            <==> low_byte_special(word >> 8)),
        special_marks(word) & 0xffff == 0 ==> ((special_marks(word) >> 23) & 1 == 1
            <==> low_byte_special(word >> 16)),
        special_marks(word) & 0xff_ffff == 0 ==> ((special_marks(word) >> 31) & 1 == 1
            <==> low_byte_special(word >> 24)),
{
}

proof fn lemma_marks_high(word: u64)
    by (bit_vector)
    ensures
        special_marks(word) & 0xffff_ffff == 0 ==> ((special_marks(word) >> 39) & 1 == 1
            <==> low_byte_special(word >> 32)),
        special_marks(word) & 0xff_ffff_ffff == 0 ==> ((special_marks(word) >> 47) & 1 == 1
            <==> low_byte_special(word >> 40)),
        special_marks(word) & 0xffff_ffff_ffff == 0 ==> ((special_marks(word) >> 55) & 1 == 1
            <==> low_byte_special(word >> 48)),
        special_marks(word) & 0xff_ffff_ffff_ffff == 0 ==> ((special_marks(word) >> 63) & 1 == 1
            <==> low_byte_special(word >> 56)),
{
}

/// Bits below the lowest set bit are clear, and the lowest set bit of the marks ends a byte.
proof fn lemma_lowest_mark(marks: u64, zeros: u64)
    by (bit_vector)
    requires
        zeros < 64,
        marks & 0x7f7f_7f7f_7f7f_7f7f == 0,
        (marks >> zeros) & 1 == 1,
        marks << ((64 - zeros) as u64) == 0,
    ensures
        zeros == 7 || zeros == 15 || zeros == 23 || zeros == 31 || zeros == 39 || zeros == 47
            || zeros == 55 || zeros == 63,
        zeros >= 15 ==> marks & 0xff == 0 && (marks >> 7) & 1 == 0,
        zeros >= 23 ==> marks & 0xffff == 0 && (marks >> 15) & 1 == 0,
        zeros >= 31 ==> marks & 0xff_ffff == 0 && (marks >> 23) & 1 == 0,
        zeros >= 39 ==> marks & 0xffff_ffff == 0 && (marks >> 31) & 1 == 0,
        zeros >= 47 ==> marks & 0xff_ffff_ffff == 0 && (marks >> 39) & 1 == 0,
        zeros >= 55 ==> marks & 0xffff_ffff_ffff == 0 && (marks >> 47) & 1 == 0,
        zeros >= 63 ==> marks & 0xff_ffff_ffff_ffff == 0 && (marks >> 55) & 1 == 0,
{
}

proof fn lemma_no_marks()
    by (bit_vector)
    ensures
        forall|shift: u64| shift < 64 ==> #[trigger] (0u64 >> shift) & 1 == 0,
        0u64 & 0xff == 0,
        0u64 & 0xffff == 0,
        0u64 & 0xff_ffff == 0,
        0u64 & 0xffff_ffff == 0,
        0u64 & 0xff_ffff_ffff == 0,
        0u64 & 0xffff_ffff_ffff == 0,
        0u64 & 0xff_ffff_ffff_ffff == 0,
{
}

/// Byte `index` of a word is the low byte of the shifted word.
proof fn lemma_word_byte(word: u64, index: int)
    requires
        0 <= index < 8,
    ensures
        is_special(word_byte(word, index)) == low_byte_special(word >> ((8 * index) as u64)),
        index == 0 ==> word >> ((8 * index) as u64) == word,
{
    let shifted = word >> ((8 * index) as u64);
    assert(shifted & 0xff <= 0xff) by (bit_vector);
    assert(word >> 0 == word) by (bit_vector);
}

/// Position of the first special byte of a word, counted from its least significant byte.
pub fn first_string_special_position(word: u64) -> (position: Option<usize>)
    ensures
        match position {
            Some(position) => position < 8 && is_special(word_byte(word, position as int))
                && forall|i: int| 0 <= i < position ==> !is_special(#[trigger] word_byte(word, i)),
            None => forall|i: int| 0 <= i < 8 ==> !is_special(#[trigger] word_byte(word, i)),
        },
{
    let high_bits = word_zero_byte_high_bits(word ^ QUOTE_BYTES) | word_zero_byte_high_bits(
        word ^ BACKSLASH_BYTES,
    ) | (word.wrapping_sub(CONTROL_LIMIT_BYTES) & !word & BYTE_HIGH_BITS);
    proof {
        lemma_marks_low(word);
        lemma_marks_high(word);
        assert(high_bits == special_marks(word));
        assert forall|i: int| 0 <= i < 8 implies is_special(#[trigger] word_byte(word, i))
            == low_byte_special(word >> ((8 * i) as u64)) by {
            lemma_word_byte(word, i);
        }
        assert(word >> 0 == word) by (bit_vector);
    }
    if high_bits == 0 {
        proof {
            lemma_no_marks();
            assert forall|i: int| 0 <= i < 8 implies !is_special(#[trigger] word_byte(word, i)) by {
                assert(i == 0 || i == 1 || i == 2 || i == 3 || i == 4 || i == 5 || i == 6 || i
                    == 7);
            }
        }
        None
    } else {
        let zeros: u32 = high_bits.trailing_zeros();
        proof {
            axiom_u64_trailing_zeros(high_bits);
            lemma_lowest_mark(high_bits, zeros as u64);
            assert forall|i: int| 0 <= i < zeros as int / 8 implies !is_special(
                #[trigger] word_byte(word, i),
            ) by {
                assert(i == 0 || i == 1 || i == 2 || i == 3 || i == 4 || i == 5 || i == 6);
            }
        }
        Some(zeros as usize / 8)
    }
}

/// High bit of each byte that may be zero, exact up to the first one that is.
fn word_zero_byte_high_bits(word: u64) -> (marks: u64)
    ensures
        marks == zero_marks(word),
{
    word.wrapping_sub(BYTE_ONES) & !word & BYTE_HIGH_BITS
}

/// Whether one of the first `prefix_bytes` bytes of a word is not ASCII.
pub fn word_prefix_contains_high_bit(word: u64, prefix_bytes: usize) -> (result: bool)
    requires
        prefix_bytes <= 8,
    ensures
        result == exists|i: int| 0 <= i < prefix_bytes && #[trigger] word_byte(word, i) >= 0x80,
{
    if prefix_bytes == 0 {
        return false;
    }
    let unscanned_bits: u64 = (8 - prefix_bytes as u64) * 8;
    let marks = word & (BYTE_HIGH_BITS >> unscanned_bits);
    proof {
        lemma_high_bits(word, unscanned_bits);
        assert forall|i: int| 0 <= i < 8 implies (#[trigger] word_byte(word, i) >= 0x80) == (((word
            >> ((8 * i) as u64)) & 0xff) >= 0x80) by {
            let shifted = word >> ((8 * i) as u64);
            assert(shifted & 0xff <= 0xff) by (bit_vector);
        }
        if marks != 0 {
            assert(word_byte(word, 0) >= 0x80 || prefix_bytes > 1 && word_byte(word, 1) >= 0x80
                || prefix_bytes > 2 && word_byte(word, 2) >= 0x80 || prefix_bytes > 3 && word_byte(
                word,
                3,
            ) >= 0x80 || prefix_bytes > 4 && word_byte(word, 4) >= 0x80 || prefix_bytes > 5
                && word_byte(word, 5) >= 0x80 || prefix_bytes > 6 && word_byte(word, 6) >= 0x80
                || prefix_bytes > 7 && word_byte(word, 7) >= 0x80);
        } else {
            assert forall|i: int| 0 <= i < prefix_bytes implies word_byte(word, i) < 0x80 by {
                assert(i == 0 || i == 1 || i == 2 || i == 3 || i == 4 || i == 5 || i == 6 || i
                    == 7);
            }
        }
    }
    marks != 0
}

proof fn lemma_high_bits(word: u64, hidden: u64)
    by (bit_vector)
    requires
        hidden == 0 || hidden == 8 || hidden == 16 || hidden == 24 || hidden == 32 || hidden == 40
            || hidden == 48 || hidden == 56,
    ensures
        (word & (0x8080_8080_8080_8080u64 >> hidden) != 0) <==> ((word >> 0) & 0xff >= 0x80 || (
        hidden < 56 && (word >> 8) & 0xff >= 0x80) || (hidden < 48 && (word >> 16) & 0xff >= 0x80)
            || (hidden < 40 && (word >> 24) & 0xff >= 0x80) || (hidden < 32 && (word >> 32) & 0xff
            >= 0x80) || (hidden < 24 && (word >> 40) & 0xff >= 0x80) || (hidden < 16 && (word >> 48)
            & 0xff >= 0x80) || (hidden < 8 && (word >> 56) & 0xff >= 0x80)),
{
}

/// Reads eight bytes as one word, the first byte as the least significant.
pub fn load_word(source: &[u8], at: usize) -> (word: u64)
    requires
        at + 8 <= source@.len(),
    ensures
        forall|i: int| 0 <= i < 8 ==> #[trigger] word_byte(word, i) == source@[at + i],
{
    let b0 = source[at] as u64;
    let b1 = source[at + 1] as u64;
    let b2 = source[at + 2] as u64;
    let b3 = source[at + 3] as u64;
    let b4 = source[at + 4] as u64;
    let b5 = source[at + 5] as u64;
    let b6 = source[at + 6] as u64;
    let b7 = source[at + 7] as u64;
    let word = b0 | (b1 << 8) | (b2 << 16) | (b3 << 24) | (b4 << 32) | (b5 << 40) | (b6 << 48) | (b7
        << 56);
    proof {
        lemma_loaded(b0, b1, b2, b3, b4, b5, b6, b7);
        assert forall|i: int| 0 <= i < 8 implies #[trigger] word_byte(word, i) == source@[at + i] by {
            assert(i == 0 || i == 1 || i == 2 || i == 3 || i == 4 || i == 5 || i == 6 || i == 7);
        }
    }
    word
}

proof fn lemma_loaded(b0: u64, b1: u64, b2: u64, b3: u64, b4: u64, b5: u64, b6: u64, b7: u64)
    by (bit_vector)
    requires
        b0 < 256,
        b1 < 256,
        b2 < 256,
        b3 < 256,
        b4 < 256,
        b5 < 256,
        b6 < 256,
        b7 < 256,
    ensures
        ({
            let word = b0 | (b1 << 8) | (b2 << 16) | (b3 << 24) | (b4 << 32) | (b5 << 40) | (b6
                << 48) | (b7 << 56);
            &&& (word >> 0) & 0xff == b0
            &&& (word >> 8) & 0xff == b1
            &&& (word >> 16) & 0xff == b2
            &&& (word >> 24) & 0xff == b3
            &&& (word >> 32) & 0xff == b4
            &&& (word >> 40) & 0xff == b5
            &&& (word >> 48) & 0xff == b6
            &&& (word >> 56) & 0xff == b7
        }),
{
}

} // verus!

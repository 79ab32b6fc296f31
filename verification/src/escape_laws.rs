//! What the escapes of a JSON string name.

use vstd::prelude::*;
use vstd::utf8::{encode_scalar, encode_utf8, valid_utf8};

use crate::grammar::{escaped_scalar, next_backslash, unescaped};
use crate::json::escape_of;
use crate::parser::ParseFailure;
use crate::text::{hex_quad, BACKSLASH};

verus! {

/// Whether a byte is a hexadecimal digit, in either case, with this value.
pub open spec fn is_hex_digit(byte: u8, value: int) -> bool {
    ||| 0 <= value <= 9 && byte == 0x30 + value
    ||| 10 <= value <= 15 && byte == 0x61 + value - 10
    ||| 10 <= value <= 15 && byte == 0x41 + value - 10
}

/// Whether a backslash, a `u` and the four hexadecimal digits of a number stand at `at`.
pub open spec fn names_unit(source: Seq<u8>, at: int, unit: int) -> bool {
    &&& 0 <= at && at + 6 <= source.len()
    &&& 0 <= unit <= 0xffff
    &&& source[at] == 0x5c
    &&& source[at + 1] == 0x75
    &&& is_hex_digit(source[at + 2], unit / 4096)
    &&& is_hex_digit(source[at + 3], unit / 256 % 16)
    &&& is_hex_digit(source[at + 4], unit / 16 % 16)
    &&& is_hex_digit(source[at + 5], unit % 16)
}

/// Whether a number is a Unicode scalar value: no surrogate, and not too large.
pub open spec fn is_unicode_scalar(scalar: int) -> bool {
    0 <= scalar < 0xd800 || 0xe000 <= scalar <= 0x10_ffff
}

/// Whether escapes stand at `at` that name a scalar by its UTF-16 units: by itself below 0x10000,
/// and otherwise by two surrogates with ten bits each.
pub open spec fn names_scalar(source: Seq<u8>, at: int, scalar: int) -> bool {
    if scalar < 0x1_0000 {
        names_unit(source, at, scalar)
    } else {
        let bits = scalar - 0x1_0000;
        names_unit(source, at, 0xd800 + bits / 1024) && names_unit(
            source,
            at + 6,
            0xdc00 + bits % 1024,
        )
    }
}

/// Bytes of the escapes that name a scalar.
pub open spec fn escape_length(scalar: int) -> int {
    if scalar < 0x1_0000 {
        6
    } else {
        12
    }
}

proof fn lemma_unit(source: Seq<u8>, at: int, unit: int)
    requires
        names_unit(source, at, unit),
    ensures
        hex_quad(source, at + 2) == Some(unit),
        0 <= unit <= 0xffff,
{
    let a = unit / 4096;
    let b = unit / 256 % 16;
    let c = unit / 16 % 16;
    let d = unit % 16;
    assert(unit == a * 4096 + b * 256 + c * 16 + d);
}

pub proof fn lemma_scalar_quads(source: Seq<u8>, at: int, scalar: int)
    requires
        is_unicode_scalar(scalar),
        names_scalar(source, at, scalar),
    ensures
        scalar < 0x1_0000 ==> hex_quad(source, at + 2) == Some(scalar),
        scalar >= 0x1_0000 ==> hex_quad(source, at + 2) == Some(0xd800 + (scalar - 0x1_0000) / 1024)
            && hex_quad(source, at + 8) == Some(0xdc00 + (scalar - 0x1_0000) % 1024),
{
    if scalar < 0x1_0000 {
        lemma_unit(source, at, scalar);
    } else {
        let bits = scalar - 0x1_0000;
        lemma_unit(source, at, 0xd800 + bits / 1024);
        lemma_unit(source, at + 6, 0xdc00 + bits % 1024);
    }
}

/// The escapes of a scalar value decode to that scalar value, whichever of them it is and in
/// whichever case its digits are.
pub proof fn unicode_escapes_name_their_scalar(source: Seq<u8>, at: int, end: int, scalar: int)
    requires
        is_unicode_scalar(scalar),
        names_scalar(source, at, scalar),
        at + escape_length(scalar) <= end <= source.len(),
    ensures
        escaped_scalar(source, at, end) == Ok::<(int, int), ParseFailure>(
            (at + escape_length(scalar), scalar),
        ),
{
    if scalar < 0x1_0000 {
        lemma_unit(source, at, scalar);
    } else {
        let bits = scalar - 0x1_0000;
        lemma_unit(source, at, 0xd800 + bits / 1024);
        lemma_unit(source, at + 6, 0xdc00 + bits % 1024);
        assert(bits / 1024 * 1024 + bits % 1024 == bits);
    }
}

/// A `\u` escape that names half of a surrogate pair, without the other half behind it, names
/// nothing, and so does one without four hexadecimal digits.
pub proof fn lone_surrogates_name_nothing(source: Seq<u8>, at: int, end: int, unit: int)
    requires
        at + 6 <= end <= source.len(),
        names_unit(source, at, unit),
        0xd800 <= unit <= 0xdfff,
        unit <= 0xdbff ==> !(at + 12 <= end && exists|low: int|
            0xdc00 <= low <= 0xdfff && #[trigger] names_unit(source, at + 6, low)),
    ensures
        escaped_scalar(source, at, end) is Err,
{
    lemma_unit(source, at, unit);
    if unit <= 0xdbff && at + 12 <= end && source[at + 6] == BACKSLASH && source[at + 7] == 0x75 {
        match hex_quad(source, at + 8) {
            Some(low) => {
                if 0xdc00 <= low <= 0xdfff {
                    lemma_quad_is_unit(source, at + 6, low);
                }
            },
            None => {},
        }
    }
}

proof fn lemma_four_digits(a: int, b: int, c: int, d: int)
    requires
        0 <= a < 16,
        0 <= b < 16,
        0 <= c < 16,
        0 <= d < 16,
    ensures
        ({
            let unit = a * 4096 + b * 256 + c * 16 + d;
            unit / 4096 == a && unit / 256 % 16 == b && unit / 16 % 16 == c && unit % 16 == d
                && 0 <= unit <= 0xffff
        }),
{
    let unit = a * 4096 + b * 256 + c * 16 + d;
    assert(unit / 256 == a * 16 + b);
    assert(unit / 16 == a * 256 + b * 16 + c);
}

proof fn lemma_character(character: char)
    ensures
        is_unicode_scalar(character as u32 as int),
{
}

proof fn lemma_quad_is_unit(source: Seq<u8>, at: int, unit: int)
    requires
        0 <= at && at + 6 <= source.len(),
        source[at] == 0x5c,
        source[at + 1] == 0x75,
        hex_quad(source, at + 2) == Some(unit),
    ensures
        names_unit(source, at, unit),
{
    let a = crate::text::hex_value(source[at + 2])->0 as int;
    let b = crate::text::hex_value(source[at + 3])->0 as int;
    let c = crate::text::hex_value(source[at + 4])->0 as int;
    let d = crate::text::hex_value(source[at + 5])->0 as int;
    lemma_four_digits(a, b, c, d);
}

/// The character that a backslash with this byte behind it names, if it names one by itself.
pub open spec fn short_escape(byte: u8) -> Option<char> {
    if byte == '"' as u8 {
        Some('"')
    } else if byte == '\\' as u8 {
        Some('\\')
    } else if byte == '/' as u8 {
        Some('/')
    } else if byte == 'b' as u8 {
        Some('\u{8}')
    } else if byte == 'f' as u8 {
        Some('\u{c}')
    } else if byte == 'n' as u8 {
        Some('\n')
    } else if byte == 'r' as u8 {
        Some('\r')
    } else if byte == 't' as u8 {
        Some('\t')
    } else {
        None
    }
}

/// The short escapes name the characters that JSON says they name, and no others exist.
pub proof fn short_escapes_name_their_characters(source: Seq<u8>, at: int, end: int)
    requires
        0 <= at && at + 2 <= end <= source.len(),
    ensures
        match short_escape(source[at + 1]) {
            Some(character) => escaped_scalar(source, at, end) == Ok::<(int, int), ParseFailure>(
                (at + 2, character as int),
            ),
            None => source[at + 1] != 'u' as u8 ==> escaped_scalar(source, at, end) is Err,
        },
{
}

/// Escaping writes a byte as itself or as an escape that names it: the short one where it has one
/// and needs one, and otherwise the `\u` one.
pub proof fn written_escapes_name_their_bytes(byte: u8, rest: Seq<u8>)
    ensures
        ({
            let text = escape_of(byte);
            let needs_escape = byte == '"' as u8 || byte == '\\' as u8 || byte < 0x20;
            &&& !needs_escape ==> text == seq![byte]
            &&& needs_escape ==> text.len() >= 2 && text[0] == '\\' as u8 && (if text.len() == 2 {
                short_escape(text[1]) matches Some(character) && character as int == byte
            } else {
                text.len() == 6 && names_unit(text, 0, byte as int)
            })
            &&& needs_escape && text.len() > 2 ==> forall|letter: u8|
                (#[trigger] short_escape(letter) matches Some(character) ==> character as int
                    != byte)
        }),
{
    let text = escape_of(byte);
    if byte >= 0x20 && byte != 0x22 && byte != 0x5c {
        assert(text =~= seq![byte]);
    }
    if byte < 0x20 && text.len() == 6 {
        assert(names_unit(text, 0, byte as int));
    }
}

/// The byte of a hexadecimal digit in lower case.
pub open spec fn lower_digit(value: int) -> u8 {
    if value < 10 {
        (0x30 + value) as u8
    } else {
        (0x61 + value - 10) as u8
    }
}

/// The `\\u` escape of a number below 0x10000.
pub open spec fn unit_escape(unit: int) -> Seq<u8> {
    seq![
        0x5c,
        0x75,
        lower_digit(unit / 4096),
        lower_digit(unit / 256 % 16),
        lower_digit(unit / 16 % 16),
        lower_digit(unit % 16),
    ]
}

/// The escapes of a scalar value.
pub open spec fn scalar_escape(scalar: int) -> Seq<u8> {
    if scalar < 0x1_0000 {
        unit_escape(scalar)
    } else {
        let bits = scalar - 0x1_0000;
        unit_escape(0xd800 + bits / 1024) + unit_escape(0xdc00 + bits % 1024)
    }
}

/// A text with every character escaped.
pub open spec fn all_escaped(text: Seq<char>) -> Seq<u8>
    decreases text.len(),
{
    if text.len() == 0 {
        Seq::empty()
    } else {
        scalar_escape(text[0] as u32 as int) + all_escaped(text.drop_first())
    }
}

proof fn lemma_unit_escape(source: Seq<u8>, at: int, unit: int)
    requires
        0 <= unit <= 0xffff,
        0 <= at && at + 6 <= source.len(),
        source.subrange(at, at + 6) == unit_escape(unit),
    ensures
        names_unit(source, at, unit),
{
    let own = source.subrange(at, at + 6);
    assert(own[0] == source[at] && own[1] == source[at + 1]);
    assert(own[2] == source[at + 2] && own[3] == source[at + 3]);
    assert(own[4] == source[at + 4] && own[5] == source[at + 5]);
    assert(0 <= unit / 4096 < 16);
}

proof fn lemma_scalar_escape(source: Seq<u8>, at: int, scalar: int)
    requires
        is_unicode_scalar(scalar),
        0 <= at && at + escape_length(scalar) <= source.len(),
        source.subrange(at, at + escape_length(scalar)) == scalar_escape(scalar),
    ensures
        names_scalar(source, at, scalar),
        source[at] == BACKSLASH,
{
    let escape = source.subrange(at, at + escape_length(scalar));
    assert(source.subrange(at, at + 6) =~= escape.subrange(0, 6));
    assert(source[at] == escape[0]);
    if scalar < 0x1_0000 {
        assert(escape.subrange(0, 6) =~= escape);
        lemma_unit_escape(source, at, scalar);
    } else {
        let bits = scalar - 0x1_0000;
        assert(escape.subrange(0, 6) =~= unit_escape(0xd800 + bits / 1024));
        assert(escape.subrange(6, 12) =~= unit_escape(0xdc00 + bits % 1024));
        assert(source.subrange(at + 6, at + 12) =~= escape.subrange(6, 12));
        lemma_unit_escape(source, at, 0xd800 + bits / 1024);
        lemma_unit_escape(source, at + 6, 0xdc00 + bits % 1024);
    }
}

/// A text with every character escaped decodes to that text, whatever stands before and behind it.
#[verifier::rlimit(40)]
#[verifier::spinoff_prover]
pub proof fn escaped_texts_decode(
    source: Seq<u8>,
    at: int,
    end: int,
    text: Seq<char>,
    before: Seq<u8>,
)
    requires
        0 <= at <= end <= source.len(),
        source.subrange(at, end) == all_escaped(text),
    ensures
        unescaped(source, at, end, before) == Ok::<Seq<u8>, ParseFailure>(
            before + encode_utf8(text),
        ),
    decreases text.len(),
{
    let own = source.subrange(at, end);
    let empty = source.subrange(at, at);
    assert(empty =~= Seq::<u8>::empty());
    assert(valid_utf8(empty));
    if text.len() == 0 {
        assert(own.len() == 0);
        assert(before + empty =~= before + encode_utf8(text));
    } else {
        let scalar = text[0] as u32 as int;
        lemma_character(text[0]);
        let escape = scalar_escape(scalar);
        let others = text.drop_first();
        let next = at + escape_length(scalar);
        assert(own.len() == escape.len() + all_escaped(others).len());
        assert(source.subrange(at, next) =~= own.take(escape.len() as int));
        assert(own.take(escape.len() as int) =~= escape);
        lemma_scalar_escape(source, at, scalar);
        assert(next_backslash(source, at, end) == at);
        unicode_escapes_name_their_scalar(source, at, end, scalar);
        assert(escape.len() == escape_length(scalar));
        assert(source.subrange(next, end) =~= own.skip(escape.len() as int));
        assert(own.skip(escape.len() as int) =~= all_escaped(others));
        let decoded = before + empty + encode_scalar(scalar as u32);
        escaped_texts_decode(source, next, end, others, decoded);
        assert(decoded + encode_utf8(others) =~= before + encode_utf8(text));
    }
}

} // verus!

//! Escaped strings read back as what they were made from.

use vstd::prelude::*;
use vstd::utf8::{
    encode_scalar, is_char_boundary_iff_not_is_continuation_byte, is_continuation_byte,
    valid_utf8, valid_utf8_split,
};

use crate::grammar::{
    document, escaped_scalar, fresh_progress, has_backslash, lemma_next_backslash, next_backslash,
    string_end, string_token, unescaped, value, Progress,
};
use crate::json::{
    escape_of, escaped, framed_text, hex_character, lemma_escape_step, lemma_escaped_length,
    lemma_plain_run, JsonFraming,
};
use crate::ndjson::NdjsonLimits;
use crate::parser::{ParseFailure, StoredEvent};
use crate::text::{hex_quad, hex_value, skip_space, BACKSLASH, QUOTE};

verus! {

/// Offset of the first byte at or after `at` that needs an escape, or the end.
spec fn plain_until(source: Seq<u8>, at: int) -> int
    decreases source.len() - at,
{
    if 0 <= at < source.len() && escape_of(source[at]) == seq![source[at]] {
        plain_until(source, at + 1)
    } else {
        at
    }
}

proof fn lemma_plain_until(source: Seq<u8>, at: int)
    requires
        0 <= at <= source.len(),
    ensures
        at <= plain_until(source, at) <= source.len(),
        forall|i: int|
            at <= i < plain_until(source, at) ==> escape_of(#[trigger] source[i]) == seq![
                source[i],
            ],
        plain_until(source, at) < source.len() ==> escape_of(source[plain_until(source, at)])
            != seq![source[plain_until(source, at)]],
    decreases source.len() - at,
{
    if at < source.len() && escape_of(source[at]) == seq![source[at]] {
        lemma_plain_until(source, at + 1);
    }
}

/// A byte that needs no escape is none of the bytes that end a run in a string.
proof fn lemma_plain_byte(byte: u8)
    ensures
        (escape_of(byte) == seq![byte]) == (byte != QUOTE && byte != BACKSLASH && byte >= 0x20),
        escape_of(byte) != seq![byte] ==> byte < 0x80 && escape_of(byte).len() > 1
            && escape_of(byte)[0] == BACKSLASH,
{
    if byte != QUOTE && byte != BACKSLASH && byte >= 0x20 {
        assert(escape_of(byte) == seq![byte]);
    } else {
        assert(escape_of(byte).len() > 1);
        assert(seq![byte].len() == 1);
    }
}

/// Whether some bytes stand at an offset.
pub open spec fn stands_at(text: Seq<u8>, at: int, bytes: Seq<u8>) -> bool {
    &&& 0 <= at
    &&& at + bytes.len() <= text.len()
    &&& forall|i: int| 0 <= i < bytes.len() ==> text[at + i] == #[trigger] bytes[i]
}

pub proof fn lemma_stands_apart(text: Seq<u8>, at: int, first: Seq<u8>, second: Seq<u8>)
    requires
        stands_at(text, at, first + second),
    ensures
        stands_at(text, at, first),
        stands_at(text, at + first.len(), second),
{
    let whole = first + second;
    assert forall|i: int| 0 <= i < first.len() implies text[at + i] == #[trigger] first[i] by {
        assert(whole[i] == first[i]);
    }
    assert forall|i: int| 0 <= i < second.len() implies text[at + first.len() + i]
        == #[trigger] second[i] by {
        assert(whole[first.len() + i] == second[i]);
    }
}

/// The end of a string does not depend on content before it.
proof fn lemma_end_after_content(text: Seq<u8>, at: int, to: int)
    requires
        0 <= at <= to <= text.len(),
        forall|i: int|
            at <= i < to ==> #[trigger] text[i] != QUOTE && text[i] != BACKSLASH && text[i] >= 0x20,
    ensures
        string_end(text, at) == string_end(text, to),
    decreases to - at,
{
    if at < to {
        assert(text[at] != QUOTE && text[at] != BACKSLASH && text[at] >= 0x20);
        lemma_end_after_content(text, at + 1, to);
    }
}

proof fn lemma_hex_value(value: int)
    requires
        0 <= value < 16,
    ensures
        hex_value(hex_character(value)) == Some(value as u8),
        hex_character(value) != QUOTE,
        hex_character(value) != BACKSLASH,
        0x20 <= hex_character(value) < 0x80,
{
}

/// An escape reads as the byte it was made from.
proof fn lemma_escape_reads_back(text: Seq<u8>, at: int, end: int, byte: u8)
    requires
        stands_at(text, at, escape_of(byte)),
        escape_of(byte) != seq![byte],
        at + escape_of(byte).len() <= end < text.len(),
    ensures
        text[at] == BACKSLASH,
        byte < 0x80,
        escaped_scalar(text, at, end) == Ok::<(int, int), ParseFailure>(
            (at + escape_of(byte).len(), byte as int),
        ),
        string_end(text, at) == string_end(text, at + escape_of(byte).len()),
{
    lemma_plain_byte(byte);
    let escape = escape_of(byte);
    assert(text[at + 0] == escape[0]);
    assert(text[at + 1] == escape[1]);
    if escape.len() == 6 {
        let high = byte as int / 16;
        let low = byte as int % 16;
        lemma_hex_value(0);
        lemma_hex_value(high);
        lemma_hex_value(low);
        assert(text[at + 2] == escape[2]);
        assert(text[at + 3] == escape[3]);
        assert(text[at + 4] == escape[4]);
        assert(text[at + 5] == escape[5]);
        assert(hex_quad(text, at + 2) == Some(high * 16 + low));
        assert(high * 16 + low == byte);
        lemma_end_after_content(text, at + 2, at + 6);
    }
}

/// A run within a valid text that ends before an ASCII byte is valid.
proof fn lemma_run_is_valid(rest: Seq<u8>, at: int)
    requires
        valid_utf8(rest),
        0 <= at < rest.len(),
        rest[at] < 0x80,
    ensures
        valid_utf8(rest.subrange(0, at)),
        valid_utf8(rest.subrange(at + 1, rest.len() as int)),
{
    assert(!is_continuation_byte(rest[at]));
    is_char_boundary_iff_not_is_continuation_byte(rest, at);
    valid_utf8_split(rest, at);
    let tail = rest.subrange(at, rest.len() as int);
    assert(valid_utf8(tail));
    assert(tail[0] == rest[at]);
    assert(vstd::utf8::pop_first_scalar(tail) =~= rest.subrange(at + 1, rest.len() as int));
}

pub proof fn lemma_ascii_scalar(byte: u8)
    requires
        byte < 0x80,
    ensures
        encode_scalar(byte as u32) == seq![byte],
{
    let scalar = byte as u32;
    assert(scalar < 0x80 ==> (scalar & 0x7f) == scalar) by (bit_vector);
    assert(encode_scalar(scalar) =~= seq![byte]) by {
        assert(vstd::utf8::has_width_1_encoding(scalar));
        assert(vstd::utf8::leading_byte_width_1(scalar) == byte);
    }
}

/// The escaped rest of a string ends it, and reads as the rest.
pub proof fn lemma_rest_reads_back(
    text: Seq<u8>,
    at: int,
    end: int,
    rest: Seq<u8>,
    before: Seq<u8>,
)
    requires
        stands_at(text, at, escaped(rest)),
        end == at + escaped(rest).len(),
        end < text.len(),
        text[end] == QUOTE,
        valid_utf8(rest),
    ensures
        string_end(text, at) == Ok::<int, ParseFailure>(end + 1),
        unescaped(text, at, end, before) == Ok::<Seq<u8>, ParseFailure>(before + rest),
    decreases rest.len(),
{
    let stop = plain_until(rest, 0);
    lemma_plain_until(rest, 0);
    let run = rest.take(stop);
    assert forall|i: int| 0 <= i < run.len() implies escape_of(#[trigger] run[i]) == seq![
        run[i],
    ] by {
        assert(run[i] == rest[i]);
    }
    if stop == rest.len() {
        assert(run =~= rest);
        lemma_plain_run(rest);
        lemma_content_of_run(text, at, rest);
        lemma_end_after_content(text, at, end);
        lemma_backslash_at(text, at, end, end);
        assert(text.subrange(at, end) =~= rest);
    } else {
        let byte = rest[stop];
        let after = rest.subrange(stop + 1, rest.len() as int);
        lemma_plain_byte(byte);
        assert(rest =~= run + seq![byte] + after);
        lemma_escape_step(rest, run, byte, after);
        let escape = escape_of(byte);
        lemma_stands_apart(text, at, run + escape, escaped(after));
        lemma_stands_apart(text, at, run, escape);
        lemma_content_of_run(text, at, run);
        let mark = at + run.len();
        lemma_end_after_content(text, at, mark as int);
        lemma_escape_reads_back(text, mark as int, end, byte);
        lemma_backslash_at(text, at, mark as int, end);
        lemma_run_is_valid(rest, stop);
        assert(rest.subrange(0, stop) =~= run);
        assert(text.subrange(at, mark as int) =~= run);
        lemma_ascii_scalar(byte);
        let next = before + run + encode_scalar(byte as u32);
        lemma_rest_reads_back(text, mark + escape.len(), end, after, next);
        assert(next + after =~= before + rest);
    }
}

/// A run that needs no escape is content where it stands.
proof fn lemma_content_of_run(text: Seq<u8>, at: int, run: Seq<u8>)
    requires
        stands_at(text, at, run),
        forall|i: int| 0 <= i < run.len() ==> escape_of(#[trigger] run[i]) == seq![run[i]],
    ensures
        forall|i: int|
            at <= i < at + run.len() ==> #[trigger] text[i] != QUOTE && text[i] != BACKSLASH
                && text[i] >= 0x20,
{
    assert forall|i: int| at <= i < at + run.len() implies #[trigger] text[i] != QUOTE && text[i]
        != BACKSLASH && text[i] >= 0x20 by {
        assert(text[at + (i - at)] == run[i - at]);
        lemma_plain_byte(run[i - at]);
    }
}

/// The first backslash is where the bytes before it are none.
proof fn lemma_backslash_at(text: Seq<u8>, at: int, mark: int, end: int)
    requires
        0 <= at <= mark <= end <= text.len(),
        mark < end ==> text[mark] == BACKSLASH,
        forall|i: int|
            at <= i < mark ==> #[trigger] text[i] != QUOTE && text[i] != BACKSLASH && text[i]
                >= 0x20,
    ensures
        next_backslash(text, at, end) == mark,
    decreases mark - at,
{
    if at < mark {
        assert(text[at] != BACKSLASH);
        lemma_backslash_at(text, at + 1, mark, end);
    }
}

/// The text of the one event of a document that is a string.
pub open spec fn string_of(progress: Progress, source: Seq<u8>) -> Option<Seq<u8>> {
    if progress.events.len() != 1 {
        None
    } else {
        match progress.events[0] {
            StoredEvent::StringSource(raw) => Some(source.subrange(raw.start + 1, raw.end - 1)),
            StoredEvent::StringDecoded { decoded, .. } => Some(
                progress.decoded.subrange(decoded.start as int, decoded.end as int),
            ),
            _ => None,
        }
    }
}

/// A quoted and escaped text is a JSON document, within the limits, that reads as that text.
pub proof fn escaped_strings_read_back(source: Seq<u8>, limits: NdjsonLimits)
    requires
        valid_utf8(source),
        framed_text(source, JsonFraming::String).len() <= usize::MAX,
        framed_text(source, JsonFraming::String).len() <= limits.scalar_token_bytes,
        1 <= limits.values,
    ensures
        ({
            let text = framed_text(source, JsonFraming::String);
            document(text, limits) matches Ok(progress) && string_of(progress, text) == Some(
                source,
            )
        }),
{
    let text = framed_text(source, JsonFraming::String);
    let end = text.len() - 1;
    assert(stands_at(text, 1, escaped(source)));
    assert(text[end] == QUOTE);
    assert(text[0] == QUOTE);
    lemma_rest_reads_back(text, 1, end, source, Seq::empty());
    assert(Seq::<u8>::empty() + source =~= source);
    assert(skip_space(text, 0) == 0);
    let start = Progress { values: 1, ..fresh_progress() };
    assert(crate::grammar::counted(limits, fresh_progress()) == Ok::<Progress, ParseFailure>(
        start,
    ));
    if !has_backslash(text, 1, end) {
        assert forall|i: int| 1 <= i < end implies #[trigger] text[i] != BACKSLASH by {}
        lemma_next_backslash(text, 1, end);
        assert(next_backslash(text, 1, end) == end) by {
            if next_backslash(text, 1, end) < end {
                assert(text[next_backslash(text, 1, end)] == BACKSLASH);
            }
        }
        assert(Seq::<u8>::empty() + text.subrange(1, end) =~= text.subrange(1, end));
        assert(text.subrange(1, end) == source);
    } else {
        assert(source.subrange(0, source.len() as int) =~= source);
        lemma_escaped_length(source, 0);
        assert(escaped(source.take(0)) =~= Seq::<u8>::empty()) by {
            assert(source.take(0) =~= Seq::<u8>::empty());
        }
        assert(source.len() <= usize::MAX);
    }
    assert(string_token(text, limits, start) is Ok);
    assert(value(text, limits, fresh_progress(), 0) is Ok);
    assert(skip_space(text, text.len() as int) == text.len());
}

} // verus!

//! What an input is told by, and what its lines are.

use vstd::prelude::*;
use vstd::utf8::valid_utf8;

use crate::grammar::document;
use crate::kv_ir::KvIrEncoding;
use crate::ndjson::{
    lemma_line_end, line_meaning, taken_line, trimmed, trimmed_end, JsonEvent, EventView,
    LineMeaning, LineState, NdjsonInvalidRecordKind, NdjsonLimitResource, NdjsonLimits, TakenLine,
};
use crate::structured_stream::{first_visible, kind_of, StructuredInputKind};
use crate::text::{
    is_cut_off, is_json_space, is_valid_up_to, lemma_skip_space, skip_space, valid_up_to,
};

verus! {

/// Whether an input begins with whitespace, if any, and then an opening brace.
pub open spec fn begins_with_brace(bytes: Seq<u8>, at: int) -> bool {
    &&& 0 <= at < bytes.len()
    &&& bytes[at] == 0x7b
    &&& forall|i: int|
        0 <= i < at ==> (#[trigger] bytes[i] == 0x20 || bytes[i] == 0x09 || bytes[i] == 0x0a
            || bytes[i] == 0x0c || bytes[i] == 0x0d)
}

proof fn lemma_first_visible(bytes: Seq<u8>, at: int, place: int)
    requires
        begins_with_brace(bytes, place),
        0 <= at <= place,
    ensures
        first_visible(bytes, at) == Some(0x7bu8),
    decreases place - at,
{
    if at < place {
        assert(bytes[at] == 0x20 || bytes[at] == 0x09 || bytes[at] == 0x0a || bytes[at] == 0x0c
            || bytes[at] == 0x0d);
        lemma_first_visible(bytes, at + 1, place);
    }
}

proof fn lemma_visible_place(bytes: Seq<u8>, at: int) -> (place: int)
    requires
        0 <= at,
        first_visible(bytes, at) == Some(0x7bu8),
    ensures
        at <= place < bytes.len(),
        bytes[place] == 0x7b,
        forall|i: int|
            at <= i < place ==> (#[trigger] bytes[i] == 0x20 || bytes[i] == 0x09 || bytes[i]
                == 0x0a || bytes[i] == 0x0c || bytes[i] == 0x0d),
    decreases bytes.len() - at,
{
    if at < bytes.len() && (bytes[at] == 0x20 || bytes[at] == 0x09 || bytes[at] == 0x0a
        || bytes[at] == 0x0c || bytes[at] == 0x0d) {
        lemma_visible_place(bytes, at + 1)
    } else {
        at
    }
}

/// The class of an input is told by its beginning: nothing, a magic number, an opening brace behind
/// whitespace, text, or anything else.
pub proof fn inputs_are_told_by_their_beginning(bytes: Seq<u8>, place: int)
    requires
        bytes.len() <= usize::MAX,
    ensures
        kind_of(bytes) is Empty <==> bytes.len() == 0,
        kind_of(bytes) == StructuredInputKind::KvIr(KvIrEncoding::FourByte) <==> bytes.len() >= 4
            && bytes[0] == 0xfd && bytes[1] == 0x2f && bytes[2] == 0xb5 && bytes[3] == 0x29,
        kind_of(bytes) == StructuredInputKind::KvIr(KvIrEncoding::EightByte) <==> bytes.len() >= 4
            && bytes[0] == 0xfd && bytes[1] == 0x2f && bytes[2] == 0xb5 && bytes[3] == 0x30,
        begins_with_brace(bytes, place) ==> kind_of(bytes) is Json,
        kind_of(bytes) is Json ==> exists|at: int| #[trigger] begins_with_brace(bytes, at),
        kind_of(bytes) is LogText || kind_of(bytes) is Unknown ==> !begins_with_brace(bytes, place),
        valid_utf8(bytes) ==> !(kind_of(bytes) is Unknown),
        kind_of(bytes) is LogText && !valid_utf8(bytes) ==> valid_up_to(bytes) > 0,
        kind_of(bytes) is Unknown ==> !(is_cut_off(bytes) && valid_up_to(bytes) > 0),
{
    let magic = if bytes.len() >= 4 {
        bytes.take(4)
    } else {
        bytes
    };
    if !valid_utf8(bytes) {
        lemma_valid_up_to_bounds(bytes);
    }
    let four = seq![0xfdu8, 0x2f, 0xb5, 0x29];
    let eight = seq![0xfdu8, 0x2f, 0xb5, 0x30];
    if bytes.len() >= 4 {
        assert(magic[0] == bytes[0] && magic[1] == bytes[1] && magic[2] == bytes[2] && magic[3]
            == bytes[3]);
    }
    if bytes.len() >= 4 && bytes[0] == 0xfd && bytes[1] == 0x2f && bytes[2] == 0xb5 {
        assert(bytes[3] == 0x29 ==> magic =~= four);
        assert(bytes[3] == 0x30 ==> magic =~= eight);
    }
    assert(four[3] == 0x29 && eight[3] == 0x30);
    if begins_with_brace(bytes, place) {
        lemma_first_visible(bytes, 0, place);
        assert(bytes[0] != 0xfd);
    }
    if first_visible(bytes, 0) == Some(0x7bu8) {
        let at = lemma_visible_place(bytes, 0);
        assert(begins_with_brace(bytes, at));
    }
}

proof fn lemma_valid_up_to_bounds(bytes: Seq<u8>)
    ensures
        0 <= valid_up_to(bytes) <= bytes.len(),
{
    lemma_longest_valid(bytes, bytes.len() as int);
}

proof fn lemma_longest_valid(bytes: Seq<u8>, end: int)
    requires
        0 <= end <= bytes.len(),
        forall|longer: int|
            end < longer <= bytes.len() ==> !valid_utf8(#[trigger] bytes.take(longer)),
    ensures
        is_valid_up_to(bytes, valid_up_to(bytes)),
    decreases end,
{
    if valid_utf8(bytes.take(end)) {
        assert(is_valid_up_to(bytes, end));
    } else {
        if end == 0 {
            assert(bytes.take(0) =~= Seq::<u8>::empty());
        }
        lemma_longest_valid(bytes, end - 1);
    }
}

/// What is left of a line is the line without the whitespace around it: only whitespace stands
/// before and behind it, and it neither begins nor ends with any; nothing is left of whitespace.
pub proof fn lines_are_trimmed(line: Seq<u8>)
    ensures
        match trimmed(line) {
            Some((start, end)) => {
                &&& 0 <= start < end <= line.len()
                &&& forall|i: int|
                    0 <= i < start || end <= i < line.len() ==> is_blank(#[trigger] line[i])
                &&& !is_blank(line[start])
                &&& !is_blank(line[end - 1])
            },
            None => forall|i: int| 0 <= i < line.len() ==> is_blank(#[trigger] line[i]),
        },
{
    lemma_skip_space(line, 0);
    lemma_blank_run(line, 0);
    let start = skip_space(line, 0);
    if start < line.len() {
        lemma_blank_end(line, line.len() as int, start);
    }
}

/// Whether a byte is JSON whitespace.
pub open spec fn is_blank(byte: u8) -> bool {
    byte == 0x20 || byte == 0x09 || byte == 0x0a || byte == 0x0d
}

proof fn lemma_blank_run(line: Seq<u8>, at: int)
    requires
        0 <= at <= line.len(),
    ensures
        at <= skip_space(line, at) <= line.len(),
        forall|i: int| at <= i < skip_space(line, at) ==> is_blank(#[trigger] line[i]),
        skip_space(line, at) < line.len() ==> !is_blank(line[skip_space(line, at)]),
    decreases line.len() - at,
{
    if at < line.len() && is_json_space(line[at]) {
        lemma_blank_run(line, at + 1);
    }
}

proof fn lemma_blank_end(line: Seq<u8>, end: int, start: int)
    requires
        0 <= start < end <= line.len(),
        !is_blank(line[start]),
    ensures
        start < trimmed_end(line, end) <= end,
        forall|i: int| trimmed_end(line, end) <= i < end ==> is_blank(#[trigger] line[i]),
        !is_blank(line[trimmed_end(line, end) - 1]),
    decreases end,
{
    if is_json_space(line[end - 1]) {
        lemma_blank_end(line, end - 1, start);
    }
}

/// A line is blank where it is whitespace alone, too long where it has more bytes than the limit
/// allows, whatever they are, and otherwise the one document within its whitespace.
pub proof fn lines_mean_their_document(line: Seq<u8>, limits: NdjsonLimits)
    ensures
        match line_meaning(line, limits) {
            LineMeaning::Blank => line.len() <= limits.record_bytes && forall|i: int|
                0 <= i < line.len() ==> is_blank(#[trigger] line[i]),
            LineMeaning::Record { start, end, progress } => {
                &&& line.len() <= limits.record_bytes
                &&& 0 <= start < end <= line.len()
                &&& !is_blank(line[start]) && !is_blank(line[end - 1])
                &&& forall|i: int|
                    0 <= i < start || end <= i < line.len() ==> is_blank(#[trigger] line[i])
                &&& document(line.subrange(start, end), limits) matches Ok(read) && read
                    == progress
            },
            LineMeaning::Invalid(kind) => line.len() > limits.record_bytes ==> (kind
                matches NdjsonInvalidRecordKind::Limit(violation) && violation.resource
                == NdjsonLimitResource::RecordBytes && violation.limit == limits.record_bytes),
            LineMeaning::SizeOverflow => line.len() <= limits.record_bytes,
        },
        line.len() > limits.record_bytes ==> line_meaning(line, limits) is Invalid,
{
    lines_are_trimmed(line);
}

/// A line ends before the first line feed, or at the end of the stream: no byte of it is one, and
/// together with what is left it is what was there.
pub proof fn lines_end_at_line_feeds(state: LineState)
    requires
        forall|i: int| 0 <= i < state.line.len() ==> #[trigger] state.line[i] != 0x0a,
        state.line.len() <= state.stats.input_bytes,
    ensures
        match taken_line(state) {
            TakenLine::Line { line, input_offset, after } => {
                &&& forall|i: int| 0 <= i < line.len() ==> #[trigger] line[i] != 0x0a
                &&& state.line + state.pending == line + seq![0x0au8] + after.pending || (
                state.ended && after.pending.len() == 0 && line == state.line + state.pending
                    && line.len() > 0)
                &&& after.line.len() == 0
                &&& input_offset == state.stats.input_bytes - state.line.len()
                &&& after.stats.input_bytes == state.stats.input_bytes + state.pending.len()
                    - after.pending.len()
            },
            TakenLine::NeedInput(waiting) => {
                &&& !state.ended
                &&& waiting.pending.len() == 0
                &&& waiting.line == state.line + state.pending
                &&& forall|i: int| 0 <= i < waiting.line.len() ==> #[trigger] waiting.line[i] != 0x0a
                &&& waiting.stats.input_bytes == state.stats.input_bytes + state.pending.len()
            },
            TakenLine::End(_) => state.ended && state.line.len() == 0 && state.pending.len() == 0,
            TakenLine::SizeOverflow => state.stats.input_bytes + state.pending.len() > u64::MAX,
        },
{
    let end = line_end_of(state);
    lemma_line_end(state.pending, 0);
    match taken_line(state) {
        TakenLine::Line { line, after, .. } => {
            assert(line =~= state.line + state.pending.take(end));
            if end < state.pending.len() {
                assert(state.line + state.pending =~= line + seq![0x0au8] + after.pending);
            } else {
                assert(state.pending.take(end) =~= state.pending);
                assert(after.pending =~= Seq::<u8>::empty());
            }
        },
        TakenLine::NeedInput(waiting) => {
            assert(state.pending.take(end) =~= state.pending);
            assert(waiting.line =~= state.line + state.pending);
        },
        _ => {},
    }
}

spec fn line_end_of(state: LineState) -> int {
    crate::ndjson::line_end(state.pending, 0)
}

/// What an event shows is what it holds.
pub proof fn events_show_what_they_hold(event: JsonEvent<'_>)
    ensures
        match event {
            JsonEvent::ObjectStart => event@ is ObjectStart,
            JsonEvent::ObjectEnd => event@ is ObjectEnd,
            JsonEvent::ArrayStart(array) => event@ matches EventView::ArrayStart { raw } && raw
                == array.raw(),
            JsonEvent::ArrayEnd => event@ is ArrayEnd,
            JsonEvent::ObjectKey(key) => event@ matches EventView::ObjectKey { raw, text } && raw
                == key.raw() && text == key.text(),
            JsonEvent::String(string) => event@ matches EventView::String { raw, text } && raw
                == string.raw() && text == string.text(),
            JsonEvent::Number(number) => event@ matches EventView::Number { raw } && raw == number@,
            JsonEvent::Boolean(truth) => event@ matches EventView::Boolean(same) && same == truth,
            JsonEvent::Null => event@ is Null,
        },
{
}

} // verus!

//! Iterative JSON parser over a byte slice, with an explicit stack and hard limits.

use vstd::prelude::*;
use vstd::slice::slice_subrange;
use vstd::utf8::{encode_scalar, is_scalar, valid_utf8};

use crate::grammar::{
    array_closed, array_element, array_rest, array_start, counted, depth_failure, document,
    document_prefix, escaped_scalar, false_literal, fresh_progress, has_backslash,
    lemma_next_backslash, limit_failure, literal_at, literal_cut_off, literal_value, next_backslash,
    null_literal, number_value, object_colon, object_key, object_member, object_rest, object_start,
    object_value, string_end, string_token, string_value, syntax_failure, token_too_long,
    true_literal, unescaped, unicode_quad, unicode_scalar, value, value_head, with_event, Head,
    Progress,
};
use crate::ndjson::{
    JsonSyntaxError, JsonSyntaxErrorKind, NdjsonInvalidRecordKind, NdjsonLimitResource,
    NdjsonLimitViolation, NdjsonLimits, NdjsonResource,
};
use crate::number::{
    lemma_number_token_is_validated, scan_number, validated_number, JsonNumberClassificationError,
    ValidatedJsonNumberSyntax,
};
use crate::parse_memory::{
    document_request, head_request, is_request, is_text_piece, is_text_refused, refused,
    string_request,
};
use crate::text::{
    append_slice, byte_at, hex_digit, hex_quad, hex_value, is_ascii_digit, is_json_whitespace,
    lemma_ascii_is_utf8, lemma_encoded_scalar_is_utf8, lemma_skip_space, lemma_utf8_concat,
    lemma_valid_up_to_unique, push_scalar, scalar_length, skip_space, utf8_text, BACKSLASH, COLON,
    COMMA, LEFT_BRACE, LEFT_BRACKET, MINUS, QUOTE, RIGHT_BRACE, RIGHT_BRACKET,
};
use crate::word_scan::{
    first_string_special_position, is_special, load_word, word_byte, word_prefix_contains_high_bit,
};

verus! {

/// A half-open byte range.
#[derive(Clone, Copy, Debug, PartialEq, Eq, Structural)]
pub struct Span {
    pub start: usize,
    pub end: usize,
}

/// One event of the flat traversal, by its place in the source or in the decoded text.
#[derive(Clone, Copy, Debug, PartialEq, Eq, Structural)]
pub enum StoredEvent {
    ObjectStart,
    ObjectEnd,
    ArrayStart(Span),
    ArrayEnd,
    ObjectKeySource(Span),
    ObjectKeyDecoded { raw: Span, decoded: Span },
    StringSource(Span),
    StringDecoded { raw: Span, decoded: Span },
    Number { raw: Span, syntax: ValidatedJsonNumberSyntax },
    Boolean(bool),
    Null,
}

/// What an open object expects next.
#[derive(Clone, Copy, Debug, PartialEq, Eq, Structural)]
pub enum ObjectState {
    FirstKeyOrEnd,
    KeyAfterComma,
    Colon,
    Value,
    CommaOrEnd,
}

/// What an open array expects next.
#[derive(Clone, Copy, Debug, PartialEq, Eq, Structural)]
pub enum ArrayState {
    FirstValueOrEnd,
    ValueAfterComma,
    CommaOrEnd,
}

/// An open array and the index of its start event.
#[derive(Clone, Copy, Debug, PartialEq, Eq, Structural)]
pub struct ArrayFrame {
    pub state: ArrayState,
    pub start_event_index: usize,
}

/// One open container.
#[derive(Clone, Copy, Debug, PartialEq, Eq, Structural)]
pub enum Frame {
    Object(ObjectState),
    Array(ArrayFrame),
}

/// Why a document could not be parsed.
#[derive(Clone, Copy, Debug, PartialEq, Eq, Structural)]
pub enum ParseFailure {
    Invalid(NdjsonInvalidRecordKind),
    AllocationFailed { resource: NdjsonResource, requested_additional: usize },
    SizeOverflow,
}

/// Reusable buffers that a parse fills.
pub struct ParserBuffers {
    /// Text of the strings that have escapes, one after the other.
    pub decoded: Vec<u8>,
    /// Flat events in depth-first order.
    pub events: Vec<StoredEvent>,
    /// Open containers; empty after a successful parse.
    pub stack: Vec<Frame>,
}

impl ParserBuffers {
    /// Creates empty buffers.
    pub fn new() -> (buffers: Self)
        ensures
            buffers.decoded@ == Seq::<u8>::empty(),
            buffers.events@ == Seq::<StoredEvent>::empty(),
            buffers.stack@ == Seq::<Frame>::empty(),
    {
        ParserBuffers { decoded: Vec::new(), events: Vec::new(), stack: Vec::new() }
    }

    /// Empties the buffers and keeps their storage.
    pub fn clear(&mut self)
        ensures
            final(self).decoded@ == Seq::<u8>::empty(),
            final(self).events@ == Seq::<StoredEvent>::empty(),
            final(self).stack@ == Seq::<Frame>::empty(),
    {
        self.decoded.clear();
        self.events.clear();
        self.stack.clear();
    }
}

/// Whether a span is the raw token of a quoted string within `length` bytes.
pub open spec fn quoted_span(span: Span, length: int) -> bool {
    span.start + 2 <= span.end <= length
}

/// Whether a span lies within `length` bytes.
pub open spec fn span_within(span: Span, length: int) -> bool {
    span.start <= span.end <= length
}

/// Whether an event's spans lie in the buffers, its text is valid UTF-8, and its number is valid.
pub open spec fn event_ok(event: StoredEvent, source: Seq<u8>, decoded: Seq<u8>) -> bool {
    match event {
        StoredEvent::ArrayStart(span) => span_within(span, source.len() as int),
        StoredEvent::ObjectKeySource(raw) | StoredEvent::StringSource(raw) => quoted_span(
            raw,
            source.len() as int,
        ) && valid_utf8(source.subrange(raw.start + 1, raw.end - 1)),
        StoredEvent::ObjectKeyDecoded { raw, decoded: text } | StoredEvent::StringDecoded {
            raw,
            decoded: text,
        } => quoted_span(raw, source.len() as int) && span_within(text, decoded.len() as int)
            && valid_utf8(decoded.subrange(text.start as int, text.end as int)),
        StoredEvent::Number { raw, syntax } => span_within(raw, source.len() as int)
            && validated_number(source.subrange(raw.start as int, raw.end as int)) == Ok::<
            _,
            JsonNumberClassificationError,
        >(syntax),
        _ => true,
    }
}

/// Whether all events are sound for their buffers.
pub open spec fn events_ok(events: Seq<StoredEvent>, source: Seq<u8>, decoded: Seq<u8>) -> bool {
    forall|i: int| 0 <= i < events.len() ==> event_ok(#[trigger] events[i], source, decoded)
}

/// End of the bytes that an event refers to.
pub open spec fn event_end(event: StoredEvent) -> int {
    match event {
        StoredEvent::ArrayStart(span) => span.end as int,
        StoredEvent::ObjectKeySource(raw) => raw.end as int,
        StoredEvent::StringSource(raw) => raw.end as int,
        StoredEvent::ObjectKeyDecoded { raw, .. } => raw.end as int,
        StoredEvent::StringDecoded { raw, .. } => raw.end as int,
        StoredEvent::Number { raw, .. } => raw.end as int,
        _ => 0,
    }
}

/// Whether all events refer to bytes before `offset`.
pub open spec fn events_before(events: Seq<StoredEvent>, offset: int) -> bool {
    forall|i: int| 0 <= i < events.len() ==> event_end(#[trigger] events[i]) <= offset
}

/// Whether an array frame points at the start event of an array opened before `offset`.
pub open spec fn frame_ok(frame: Frame, events: Seq<StoredEvent>, offset: int) -> bool {
    match frame {
        Frame::Object(_) => true,
        Frame::Array(array) => {
            &&& array.start_event_index < events.len()
            &&& events[array.start_event_index as int] matches StoredEvent::ArrayStart(span)
                && span.start <= offset
        },
    }
}

pub open spec fn frames_ok(stack: Seq<Frame>, events: Seq<StoredEvent>, offset: int) -> bool {
    forall|i: int| 0 <= i < stack.len() ==> frame_ok(#[trigger] stack[i], events, offset)
}

/// The rest of the innermost open container.
pub open spec fn frame_rest(
    source: Seq<u8>,
    limits: NdjsonLimits,
    frame: Frame,
    progress: Progress,
    depth: int,
) -> Result<Progress, ParseFailure> {
    match frame {
        Frame::Object(ObjectState::FirstKeyOrEnd) => object_start(source, limits, progress, depth),
        Frame::Object(ObjectState::KeyAfterComma) => object_member(source, limits, progress, depth),
        Frame::Object(ObjectState::Colon) => object_colon(source, limits, progress, depth),
        Frame::Object(ObjectState::Value) => object_value(source, limits, progress, depth),
        Frame::Object(ObjectState::CommaOrEnd) => object_rest(source, limits, progress, depth),
        Frame::Array(array) => {
            let start_event = array.start_event_index as int;
            match array.state {
                ArrayState::FirstValueOrEnd => array_start(
                    source,
                    limits,
                    progress,
                    depth,
                    start_event,
                ),
                ArrayState::ValueAfterComma => array_element(
                    source,
                    limits,
                    progress,
                    depth,
                    start_event,
                ),
                ArrayState::CommaOrEnd => array_rest(source, limits, progress, depth, start_event),
            }
        },
    }
}

/// The rest of the root value, given its open containers.
pub open spec fn resumed(
    source: Seq<u8>,
    limits: NdjsonLimits,
    stack: Seq<Frame>,
    progress: Progress,
) -> Result<Progress, ParseFailure>
    decreases stack.len(),
{
    if stack.len() == 0 {
        Ok(progress)
    } else {
        match frame_rest(source, limits, stack.last(), progress, stack.len() as int) {
            Err(failure) => Err(failure),
            Ok(next) => resumed(source, limits, stack.drop_last(), next),
        }
    }
}

/// A closed string ends past its start and within the source.
proof fn lemma_string_end(source: Seq<u8>, at: int)
    requires
        0 <= at,
    ensures
        string_end(source, at) matches Ok(end) ==> at < end <= source.len() && source[end - 1]
            == QUOTE,
    decreases source.len() - at + 1,
{
    if at < source.len() {
        if source[at] == QUOTE {
        } else if source[at] == BACKSLASH {
            lemma_string_end(source, at + 2);
        } else if source[at] >= 0x20 {
            lemma_string_end(source, at + 1);
        }
    }
}

/// Skipping bytes that are not special does not change where the string ends.
proof fn lemma_string_end_skips(source: Seq<u8>, at: int, to: int)
    requires
        0 <= at <= to <= source.len(),
        forall|i: int| at <= i < to ==> !is_special(#[trigger] source[i]),
    ensures
        string_end(source, at) == string_end(source, to),
    decreases to - at,
{
    if at < to {
        assert(!is_special(source[at]));
        lemma_string_end_skips(source, at + 1, to);
    }
}

/// Within a closed string, a run without backslashes has no special byte at all.
proof fn lemma_run_is_plain(source: Seq<u8>, at: int, to: int, end: int)
    requires
        0 <= at <= to <= end < source.len(),
        string_end(source, at) == Ok::<int, ParseFailure>(end + 1),
        forall|i: int| at <= i < to ==> #[trigger] source[i] != BACKSLASH,
    ensures
        string_end(source, to) == Ok::<int, ParseFailure>(end + 1),
    decreases to - at,
{
    if at < to {
        assert(source[at] != BACKSLASH);
        lemma_run_is_plain(source, at + 1, to, end);
    }
}

proof fn lemma_string_end_failure(source: Seq<u8>, at: int)
    ensures
        string_end(source, at) matches Err(failure) ==> !(failure is AllocationFailed),
    decreases source.len() - at + 1,
{
    if 0 <= at < source.len() && source[at] != QUOTE {
        if source[at] == BACKSLASH {
            lemma_string_end_failure(source, at + 2);
        } else if source[at] >= 0x20 {
            lemma_string_end_failure(source, at + 1);
        }
    }
}

proof fn lemma_unescaped_failure(source: Seq<u8>, at: int, end: int, before: Seq<u8>)
    ensures
        unescaped(source, at, end, before) matches Err(failure) ==> !(failure is AllocationFailed),
    decreases end - at + 1,
{
    let escape = next_backslash(source, at, end);
    let run = source.subrange(at, escape);
    lemma_next_backslash(source, at, end);
    if escape < end {
        match escaped_scalar(source, escape, end) {
            Ok((next, scalar)) => {
                lemma_unescaped_failure(
                    source,
                    next,
                    end,
                    before + run + encode_scalar(scalar as u32),
                );
            },
            Err(_) => {},
        }
    }
}

proof fn lemma_string_failure(source: Seq<u8>, limits: NdjsonLimits, progress: Progress)
    ensures
        string_token(source, limits, progress) matches Err(failure) ==> !(failure
            is AllocationFailed),
{
    let start = progress.offset;
    lemma_string_end_failure(source, start + 1);
    match string_end(source, start + 1) {
        Ok(end) => {
            lemma_unescaped_failure(source, start + 1, end - 1, progress.decoded);
        },
        Err(_) => {},
    }
}

proof fn lemma_head_failure(source: Seq<u8>, limits: NdjsonLimits, before: Progress, depth: int)
    ensures
        value_head(source, limits, before, depth) matches Head::Failed(failure) ==> !(failure
            is AllocationFailed),
{
    let at = skip_space(source, before.offset);
    match counted(limits, Progress { offset: at, ..before }) {
        Ok(progress) => {
            lemma_string_failure(source, limits, progress);
        },
        Err(_) => {},
    }
}

/// A parsed value is not empty and lies within the source, and the grammar refuses no memory.
pub proof fn lemma_value_progress(
    source: Seq<u8>,
    limits: NdjsonLimits,
    before: Progress,
    depth: int,
)
    requires
        0 <= before.offset <= source.len(),
    ensures
        value(source, limits, before, depth) matches Ok(after) ==> before.offset < after.offset
            <= source.len(),
        value(source, limits, before, depth) matches Err(failure) ==> !(failure is AllocationFailed),
    decreases source.len() - before.offset, 2int,
{
    lemma_skip_space(source, before.offset);
    match value_head(source, limits, before, depth) {
        Head::Failed(_) => {
            lemma_head_failure(source, limits, before, depth);
        },
        Head::Scalar(_) => {
            lemma_scalar_progress(source, limits, before, depth);
        },
        Head::Object(opened) => {
            if before.offset < opened.offset <= source.len() {
                lemma_object_start_progress(source, limits, opened, depth + 1);
            }
        },
        Head::Array(opened, start_event) => {
            if before.offset < opened.offset <= source.len() {
                lemma_array_start_progress(source, limits, opened, depth + 1, start_event);
            }
        },
    }
}

proof fn lemma_scalar_progress(
    source: Seq<u8>,
    limits: NdjsonLimits,
    before: Progress,
    depth: int,
)
    requires
        0 <= before.offset <= source.len(),
    ensures
        value_head(source, limits, before, depth) matches Head::Scalar(after) ==> before.offset
            < after.offset <= source.len(),
{
    let at = skip_space(source, before.offset);
    lemma_skip_space(source, before.offset);
    if at < source.len() {
        lemma_string_end(source, at + 1);
        crate::number::lemma_number_token_bounds(source, at);
    }
}

proof fn lemma_object_start_progress(
    source: Seq<u8>,
    limits: NdjsonLimits,
    before: Progress,
    depth: int,
)
    requires
        0 <= before.offset <= source.len(),
    ensures
        object_start(source, limits, before, depth) matches Ok(after) ==> before.offset
            < after.offset <= source.len(),
        object_start(source, limits, before, depth) matches Err(failure) ==> !(failure is AllocationFailed),
    decreases source.len() - before.offset, 1int,
{
    lemma_skip_space(source, before.offset);
    lemma_object_member_progress(source, limits, before, depth);
}

proof fn lemma_object_member_progress(
    source: Seq<u8>,
    limits: NdjsonLimits,
    before: Progress,
    depth: int,
)
    requires
        0 <= before.offset <= source.len(),
    ensures
        object_member(source, limits, before, depth) matches Ok(after) ==> before.offset
            < after.offset <= source.len(),
        object_member(source, limits, before, depth) matches Err(failure) ==> !(failure is AllocationFailed),
    decreases source.len() - before.offset, 0int,
{
    let progress = Progress { offset: skip_space(source, before.offset), ..before };
    lemma_string_failure(source, limits, progress);
    match object_key(source, limits, progress) {
        Err(_) => {},
        Ok(keyed) => {
            if before.offset < keyed.offset <= source.len() {
                lemma_object_colon_progress(source, limits, keyed, depth);
            }
        },
    }
}

proof fn lemma_object_colon_progress(
    source: Seq<u8>,
    limits: NdjsonLimits,
    before: Progress,
    depth: int,
)
    requires
        0 <= before.offset <= source.len(),
    ensures
        object_colon(source, limits, before, depth) matches Ok(after) ==> before.offset
            < after.offset <= source.len(),
        object_colon(source, limits, before, depth) matches Err(failure) ==> !(failure is AllocationFailed),
    decreases source.len() - before.offset, 0int,
{
    let at = skip_space(source, before.offset);
    if byte_at(source, at, COLON) && at + 1 > before.offset {
        lemma_object_value_progress(source, limits, Progress { offset: at + 1, ..before }, depth);
    }
}

proof fn lemma_object_value_progress(
    source: Seq<u8>,
    limits: NdjsonLimits,
    before: Progress,
    depth: int,
)
    requires
        0 <= before.offset <= source.len(),
    ensures
        object_value(source, limits, before, depth) matches Ok(after) ==> before.offset
            < after.offset <= source.len(),
        object_value(source, limits, before, depth) matches Err(failure) ==> !(failure is AllocationFailed),
    decreases source.len() - before.offset, 3int,
{
    lemma_value_progress(source, limits, before, depth);
    match value(source, limits, before, depth) {
        Err(_) => {},
        Ok(progress) => {
            if before.offset < progress.offset <= source.len() {
                lemma_object_rest_progress(source, limits, progress, depth);
            }
        },
    }
}

proof fn lemma_object_rest_progress(
    source: Seq<u8>,
    limits: NdjsonLimits,
    before: Progress,
    depth: int,
)
    requires
        0 <= before.offset <= source.len(),
    ensures
        object_rest(source, limits, before, depth) matches Ok(after) ==> before.offset
            < after.offset <= source.len(),
        object_rest(source, limits, before, depth) matches Err(failure) ==> !(failure is AllocationFailed),
    decreases source.len() - before.offset, 1int,
{
    let progress = Progress { offset: skip_space(source, before.offset), ..before };
    lemma_skip_space(source, before.offset);
    if byte_at(source, progress.offset, COMMA) {
        lemma_object_member_progress(
            source,
            limits,
            Progress { offset: progress.offset + 1, ..progress },
            depth,
        );
    }
}

proof fn lemma_array_start_progress(
    source: Seq<u8>,
    limits: NdjsonLimits,
    before: Progress,
    depth: int,
    start_event: int,
)
    requires
        0 <= before.offset <= source.len(),
    ensures
        array_start(source, limits, before, depth, start_event) matches Ok(after) ==> before.offset
            < after.offset <= source.len(),
        array_start(source, limits, before, depth, start_event) matches Err(failure) ==> !(failure is AllocationFailed),
    decreases source.len() - before.offset, 4int,
{
    lemma_skip_space(source, before.offset);
    lemma_array_element_progress(source, limits, before, depth, start_event);
}

proof fn lemma_array_element_progress(
    source: Seq<u8>,
    limits: NdjsonLimits,
    before: Progress,
    depth: int,
    start_event: int,
)
    requires
        0 <= before.offset <= source.len(),
    ensures
        array_element(source, limits, before, depth, start_event) matches Ok(after)
            ==> before.offset < after.offset <= source.len(),
        array_element(source, limits, before, depth, start_event) matches Err(failure) ==> !(failure is AllocationFailed),
    decreases source.len() - before.offset, 3int,
{
    lemma_value_progress(source, limits, before, depth);
    match value(source, limits, before, depth) {
        Err(_) => {},
        Ok(progress) => {
            if before.offset < progress.offset <= source.len() {
                lemma_array_rest_progress(source, limits, progress, depth, start_event);
            }
        },
    }
}

proof fn lemma_array_rest_progress(
    source: Seq<u8>,
    limits: NdjsonLimits,
    before: Progress,
    depth: int,
    start_event: int,
)
    requires
        0 <= before.offset <= source.len(),
    ensures
        array_rest(source, limits, before, depth, start_event) matches Ok(after) ==> before.offset
            < after.offset <= source.len(),
        array_rest(source, limits, before, depth, start_event) matches Err(failure) ==> !(failure is AllocationFailed),
    decreases source.len() - before.offset, 1int,
{
    let progress = Progress { offset: skip_space(source, before.offset), ..before };
    lemma_skip_space(source, before.offset);
    if byte_at(source, progress.offset, COMMA) {
        lemma_array_element_progress(
            source,
            limits,
            Progress { offset: progress.offset + 1, ..progress },
            depth,
            start_event,
        );
    }
}

/// A parse in progress.
struct Parser<'a> {
    source: &'a [u8],
    limits: NdjsonLimits,
    decoded: Vec<u8>,
    events: Vec<StoredEvent>,
    stack: Vec<Frame>,
    offset: usize,
    values: u64,
}

/// A sound event stays sound while the decoded text only grows.
proof fn lemma_event_ok_grows(
    event: StoredEvent,
    source: Seq<u8>,
    decoded: Seq<u8>,
    longer: Seq<u8>,
)
    requires
        event_ok(event, source, decoded),
        decoded.len() <= longer.len(),
        longer.take(decoded.len() as int) == decoded,
    ensures
        event_ok(event, source, longer),
{
    match event {
        StoredEvent::ObjectKeyDecoded { raw, decoded: text } | StoredEvent::StringDecoded {
            raw,
            decoded: text,
        } => {
            assert(longer.subrange(text.start as int, text.end as int) =~= decoded.subrange(
                text.start as int,
                text.end as int,
            )) by {
                assert forall|i: int| 0 <= i < decoded.len() implies longer[i] == decoded[i] by {
                    assert(longer.take(decoded.len() as int)[i] == longer[i]);
                }
            }
        },
        _ => {},
    }
}

proof fn lemma_events_ok_grows(
    events: Seq<StoredEvent>,
    source: Seq<u8>,
    decoded: Seq<u8>,
    longer: Seq<u8>,
)
    requires
        events_ok(events, source, decoded),
        decoded.len() <= longer.len(),
        longer.take(decoded.len() as int) == decoded,
    ensures
        events_ok(events, source, longer),
{
    assert forall|i: int| 0 <= i < events.len() implies event_ok(
        #[trigger] events[i],
        source,
        longer,
    ) by {
        lemma_event_ok_grows(events[i], source, decoded, longer);
    }
}

/// Events that refer to bytes before an offset are sound for those bytes alone.
pub proof fn lemma_events_fit(
    events: Seq<StoredEvent>,
    source: Seq<u8>,
    end: int,
    decoded: Seq<u8>,
)
    requires
        events_ok(events, source, decoded),
        events_before(events, end),
        0 <= end <= source.len(),
    ensures
        events_ok(events, source.take(end), decoded),
{
    let cut = source.take(end);
    assert forall|i: int| 0 <= i < events.len() implies event_ok(
        #[trigger] events[i],
        cut,
        decoded,
    ) by {
        assert(event_ok(events[i], source, decoded));
        assert(event_end(events[i]) <= end);
        match events[i] {
            StoredEvent::ObjectKeySource(raw) | StoredEvent::StringSource(raw) => {
                assert(cut.subrange(raw.start + 1, raw.end - 1) =~= source.subrange(
                    raw.start + 1,
                    raw.end - 1,
                ));
            },
            StoredEvent::Number { raw, .. } => {
                assert(cut.subrange(raw.start as int, raw.end as int) =~= source.subrange(
                    raw.start as int,
                    raw.end as int,
                ));
            },
            _ => {},
        }
    }
}

fn syntax(kind: JsonSyntaxErrorKind, offset: usize) -> (failure: ParseFailure)
    ensures
        failure == syntax_failure(kind, offset as int),
{
    ParseFailure::Invalid(NdjsonInvalidRecordKind::Syntax(JsonSyntaxError::new(offset, kind)))
}

fn limit(resource: NdjsonLimitResource, actual: u64, maximum: u64) -> (failure: ParseFailure)
    ensures
        failure == limit_failure(resource, actual as int, maximum),
{
    ParseFailure::Invalid(
        NdjsonInvalidRecordKind::Limit(NdjsonLimitViolation::new(resource, actual, maximum)),
    )
}

/// Finds the end of the string that opens at `start`, and whether it has escapes and bytes that
/// are not ASCII.
fn find_string_end(source: &[u8], start: usize) -> (result: Result<
    (usize, bool, bool),
    ParseFailure,
>)
    requires
        start < source@.len(),
    ensures
        match result {
            Ok((end, contains_escape, contains_non_ascii)) => {
                &&& string_end(source@, start + 1) == Ok::<int, ParseFailure>(end as int)
                &&& start + 2 <= end <= source@.len()
                &&& contains_escape == has_backslash(source@, start + 1, end - 1)
                &&& !contains_escape && !contains_non_ascii ==> forall|i: int|
                    start < i < end - 1 ==> #[trigger] source@[i] < 0x80
            },
            Err(failure) => string_end(source@, start + 1) == Err::<int, ParseFailure>(failure),
        },
{
    assert(source@.len() == source.len());
    let mut cursor: usize = start + 1;
    let mut contains_escape = false;
    let mut contains_non_ascii = false;
    while cursor < source.len()
        invariant
            start < cursor <= source@.len(),
            string_end(source@, cursor as int) == string_end(source@, start + 1),
            contains_escape == has_backslash(source@, start + 1, cursor as int),
            !contains_escape && !contains_non_ascii ==> forall|i: int|
                start < i < cursor ==> #[trigger] source@[i] < 0x80,
        decreases source@.len() - cursor,
    {
        let ghost before = cursor as int;
        let ghost escape_before = contains_escape;
        if source.len() - cursor >= 8 {
            let word = load_word(source, cursor);
            match first_string_special_position(word) {
                None => {
                    let high = word_prefix_contains_high_bit(word, 8);
                    contains_non_ascii = contains_non_ascii || high;
                    proof {
                        assert forall|i: int| before <= i < before + 8 implies !is_special(
                            #[trigger] source@[i],
                        ) && (!high ==> source@[i] < 0x80) by {
                            assert(word_byte(word, i - before) == source@[before + (i - before)]);
                        }
                        lemma_string_end_skips(source@, before, before + 8);
                        if has_backslash(source@, start + 1, before + 8) {
                            let at = choose|i: int|
                                start < i < before + 8 && #[trigger] source@[i] == BACKSLASH;
                            assert(source@[at] == BACKSLASH);
                            assert(at < before);
                        }
                    }
                    cursor += 8;
                    continue;
                },
                Some(special_position) => {
                    let high = word_prefix_contains_high_bit(word, special_position);
                    contains_non_ascii = contains_non_ascii || high;
                    proof {
                        assert forall|i: int| before <= i < before + special_position implies
                            !is_special(#[trigger] source@[i]) && (!high ==> source@[i] < 0x80) by {
                            assert(word_byte(word, i - before) == source@[before + (i - before)]);
                        }
                        assert(word_byte(word, special_position as int) == source@[before
                            + special_position]);
                        lemma_string_end_skips(source@, before, before + special_position);
                        if has_backslash(source@, start + 1, before + special_position) {
                            let at = choose|i: int|
                                start < i < before + special_position && #[trigger] source@[i]
                                    == BACKSLASH;
                            assert(source@[at] == BACKSLASH);
                            assert(at < before);
                        }
                    }
                    cursor += special_position;
                },
            }
        }
        let byte = source[cursor];
        let ghost here = cursor as int;
        assert(contains_escape == has_backslash(source@, start + 1, here));
        if byte == QUOTE {
            return Ok((cursor + 1, contains_escape, contains_non_ascii));
        }
        if byte == BACKSLASH {
            contains_escape = true;
            assert(source@[here] == BACKSLASH);
            assert(string_end(source@, here) == string_end(source@, here + 2));
            if source.len() - cursor < 2 {
                cursor = source.len();
            } else {
                cursor += 2;
            }
        } else if byte < 0x20 {
            return Err(syntax(JsonSyntaxErrorKind::UnescapedControlCharacter, cursor));
        } else {
            contains_non_ascii = contains_non_ascii || byte >= 0x80;
            assert(string_end(source@, here) == string_end(source@, here + 1));
            cursor += 1;
            proof {
                if has_backslash(source@, start + 1, here + 1) {
                    let at = choose|i: int| start < i < here + 1 && #[trigger] source@[i]
                        == BACKSLASH;
                    assert(source@[at] == BACKSLASH);
                    assert(at < here);
                }
                if has_backslash(source@, start + 1, here) {
                    let at = choose|i: int| start < i < here && #[trigger] source@[i] == BACKSLASH;
                    assert(source@[at] == BACKSLASH);
                    assert(has_backslash(source@, start + 1, here + 1));
                }
            }
        }
    }
    Err(syntax(JsonSyntaxErrorKind::UnexpectedEnd, source.len()))
}

/// Index of the first backslash in `source[at..end]`, or `end`.
fn find_backslash(source: &[u8], at: usize, end: usize) -> (position: usize)
    requires
        at <= end <= source@.len(),
    ensures
        position == next_backslash(source@, at as int, end as int),
        at <= position <= end,
{
    let mut position: usize = at;
    while position < end && source[position] != BACKSLASH
        invariant
            at <= position <= end <= source@.len(),
            next_backslash(source@, position as int, end as int) == next_backslash(
                source@,
                at as int,
                end as int,
            ),
        decreases end - position,
    {
        position += 1;
    }
    position
}

/// Reads four hexadecimal digits that must lie before `string_end`.
fn parse_hex_quad(
    source: &[u8],
    start: usize,
    string_end: usize,
    error_offset: usize,
) -> (result: Result<u32, ParseFailure>)
    requires
        start <= string_end <= source@.len(),
    ensures
        match result {
            Ok(quad) => quad <= 0xffff && unicode_quad(
                source@,
                start as int,
                string_end as int,
                error_offset as int,
            ) == Ok::<int, ParseFailure>(quad as int),
            Err(failure) => unicode_quad(
                source@,
                start as int,
                string_end as int,
                error_offset as int,
            ) == Err::<int, ParseFailure>(failure),
        },
{
    if string_end - start < 4 {
        return Err(syntax(JsonSyntaxErrorKind::InvalidUnicodeEscape, error_offset));
    }
    match (
        hex_digit(source[start]),
        hex_digit(source[start + 1]),
        hex_digit(source[start + 2]),
        hex_digit(source[start + 3]),
    ) {
        (Some(a), Some(b), Some(c), Some(d)) => Ok(
            a as u32 * 4096 + b as u32 * 256 + c as u32 * 16 + d as u32,
        ),
        _ => Err(syntax(JsonSyntaxErrorKind::InvalidUnicodeEscape, error_offset)),
    }
}

/// Reads the `\u` escape, or the pair of them, at `at`: the offset after it, and its scalar.
fn parse_unicode_escape(source: &[u8], at: usize, end: usize) -> (result: Result<
    (usize, u32),
    ParseFailure,
>)
    requires
        at + 2 <= end < source@.len(),
        source@[at as int] == BACKSLASH,
        source@[at + 1] == 0x75,
        string_end(source@, at + 2) == Ok::<int, ParseFailure>(end + 1),
    ensures
        match result {
            Ok((next, scalar)) => {
                &&& unicode_scalar(source@, at as int, end as int) == Ok::<
                    (int, int),
                    ParseFailure,
                >((next as int, scalar as int))
                &&& is_scalar(scalar)
                &&& at < next <= end
                &&& string_end(source@, next as int) == Ok::<int, ParseFailure>(end + 1)
            },
            Err(failure) => unicode_scalar(source@, at as int, end as int) == Err::<
                (int, int),
                ParseFailure,
            >(failure),
        },
{
    let first = match parse_hex_quad(source, at + 2, end, at) {
        Ok(first) => first,
        Err(failure) => return Err(failure),
    };
    proof {
        lemma_quad_is_plain(source@, at + 2, end as int, at as int);
        lemma_run_is_plain(source@, at + 2, at + 6, end as int);
    }
    if 0xd800 <= first && first <= 0xdbff {
        if end - at < 12 || source[at + 6] != BACKSLASH || source[at + 7] != 0x75 {
            return Err(syntax(JsonSyntaxErrorKind::UnpairedSurrogate, at));
        }
        let second = match parse_hex_quad(source, at + 8, end, at + 6) {
            Ok(second) => second,
            Err(failure) => return Err(failure),
        };
        if second < 0xdc00 || second > 0xdfff {
            return Err(syntax(JsonSyntaxErrorKind::UnpairedSurrogate, at));
        }
        proof {
            assert(string_end(source@, at + 8) == Ok::<int, ParseFailure>(end + 1));
            lemma_quad_is_plain(source@, at + 8, end as int, at + 6);
            lemma_run_is_plain(source@, at + 8, at + 12, end as int);
        }
        return Ok((at + 12, 0x1_0000 + (first - 0xd800) * 0x400 + (second - 0xdc00)));
    }
    if 0xdc00 <= first && first <= 0xdfff {
        return Err(syntax(JsonSyntaxErrorKind::UnpairedSurrogate, at));
    }
    Ok((at + 6, first))
}

/// Hexadecimal digits are no backslashes.
proof fn lemma_quad_is_plain(source: Seq<u8>, at: int, end: int, error_offset: int)
    requires
        0 <= at,
        end < source.len(),
        unicode_quad(source, at, end, error_offset) is Ok,
    ensures
        at + 4 <= end,
        forall|i: int| at <= i < at + 4 ==> #[trigger] source[i] != BACKSLASH,
{
    assert(hex_quad(source, at) is Some);
    assert forall|i: int| at <= i < at + 4 implies #[trigger] source[i] != BACKSLASH by {
        assert(i == at || i == at + 1 || i == at + 2 || i == at + 3);
        assert(hex_value(source[i]) is Some);
    }
}

/// Reads the escape at `at`: the offset after it, and its scalar.
fn parse_escape(source: &[u8], at: usize, end: usize) -> (result: Result<
    (usize, u32),
    ParseFailure,
>)
    requires
        at + 2 <= end < source@.len(),
        source@[at as int] == BACKSLASH,
        string_end(source@, at + 2) == Ok::<int, ParseFailure>(end + 1),
    ensures
        match result {
            Ok((next, scalar)) => {
                &&& escaped_scalar(source@, at as int, end as int) == Ok::<
                    (int, int),
                    ParseFailure,
                >((next as int, scalar as int))
                &&& is_scalar(scalar)
                &&& at < next <= end
                &&& string_end(source@, next as int) == Ok::<int, ParseFailure>(end + 1)
            },
            Err(failure) => escaped_scalar(source@, at as int, end as int) == Err::<
                (int, int),
                ParseFailure,
            >(failure),
        },
{
    match source[at + 1] {
        0x22 => Ok((at + 2, 0x22)),
        0x5c => Ok((at + 2, 0x5c)),
        0x2f => Ok((at + 2, 0x2f)),
        0x62 => Ok((at + 2, 0x08)),
        0x66 => Ok((at + 2, 0x0c)),
        0x6e => Ok((at + 2, 0x0a)),
        0x72 => Ok((at + 2, 0x0d)),
        0x74 => Ok((at + 2, 0x09)),
        0x75 => parse_unicode_escape(source, at, end),
        _ => Err(syntax(JsonSyntaxErrorKind::InvalidEscape, at)),
    }
}

impl<'a> Parser<'a> {
    spec fn progress(&self) -> Progress {
        Progress {
            offset: self.offset as int,
            values: self.values as int,
            events: self.events@,
            decoded: self.decoded@,
        }
    }

    spec fn wf(&self) -> bool {
        &&& self.offset <= self.source@.len()
        &&& self.stack@.len() <= self.offset
        &&& events_ok(self.events@, self.source@, self.decoded@)
        &&& events_before(self.events@, self.offset as int)
        &&& frames_ok(self.stack@, self.events@, self.offset as int)
    }

    /// The inputs of the parse are the same as in `other`.
    spec fn same_input(&self, other: &Parser<'a>) -> bool {
        self.source@ == other.source@ && self.limits == other.limits
    }

    /// All but the decoded text is the same as in `other`.
    spec fn same_but_decoded(&self, other: &Parser<'a>) -> bool {
        &&& self.same_input(other)
        &&& self.events@ == other.events@
        &&& self.stack@ == other.stack@
        &&& self.offset == other.offset
        &&& self.values == other.values
    }

    fn peek(&self) -> (byte: Option<u8>)
        ensures
            byte == (if self.offset < self.source@.len() {
                Some(self.source@[self.offset as int])
            } else {
                None
            }),
    {
        if self.offset < self.source.len() {
            Some(self.source[self.offset])
        } else {
            None
        }
    }

    fn skip_whitespace(&mut self)
        requires
            old(self).wf(),
        ensures
            final(self).wf(),
            final(self).same_input(old(self)),
            final(self).stack@ == old(self).stack@,
            final(self).progress() == (Progress {
                offset: skip_space(old(self).source@, old(self).offset as int),
                ..old(self).progress()
            }),
            final(self).offset >= old(self).offset,
    {
        while self.offset < self.source.len() && is_json_whitespace(self.source[self.offset])
            invariant
                self.wf(),
                self.same_input(old(self)),
                self.stack@ == old(self).stack@,
                self.events@ == old(self).events@,
                self.decoded@ == old(self).decoded@,
                self.values == old(self).values,
                self.offset >= old(self).offset,
                skip_space(self.source@, self.offset as int) == skip_space(
                    old(self).source@,
                    old(self).offset as int,
                ),
            decreases self.source@.len() - self.offset,
        {
            self.offset = self.offset + 1;
        }
    }

    fn consume_if(&mut self, expected: u8) -> (consumed: bool)
        requires
            old(self).wf(),
        ensures
            final(self).wf(),
            final(self).same_input(old(self)),
            final(self).stack@ == old(self).stack@,
            consumed == byte_at(old(self).source@, old(self).offset as int, expected),
            final(self).progress() == (Progress {
                offset: old(self).offset + if consumed {
                    1int
                } else {
                    0
                },
                ..old(self).progress()
            }),
    {
        if self.offset < self.source.len() && self.source[self.offset] == expected {
            self.offset = self.offset + 1;
            true
        } else {
            false
        }
    }

    /// Adds an event, given whether there is memory for it.
    fn push_reserved_event(&mut self, event: StoredEvent, reserved: bool) -> (result: Result<
        (),
        ParseFailure,
    >)
        requires
            old(self).wf(),
            event_ok(event, old(self).source@, old(self).decoded@),
            event_end(event) <= old(self).offset,
        ensures
            final(self).same_input(old(self)),
            match result {
                Ok(_) => {
                    &&& reserved
                    &&& final(self).wf()
                    &&& final(self).stack@ == old(self).stack@
                    &&& final(self).progress() == with_event(old(self).progress(), event)
                },
                Err(failure) => {
                    &&& !reserved
                    &&& failure == refused(NdjsonResource::Events, 1)
                    &&& *final(self) == *old(self)
                },
            },
    {
        if !reserved {
            return Err(
                ParseFailure::AllocationFailed {
                    resource: NdjsonResource::Events,
                    requested_additional: 1,
                },
            );
        }
        self.events.push(event);
        Ok(())
    }

    fn push_event(&mut self, event: StoredEvent) -> (result: Result<(), ParseFailure>)
        requires
            old(self).wf(),
            event_ok(event, old(self).source@, old(self).decoded@),
            event_end(event) <= old(self).offset,
        ensures
            final(self).same_input(old(self)),
            match result {
                Ok(_) => {
                    &&& final(self).wf()
                    &&& final(self).stack@ == old(self).stack@
                    &&& final(self).progress() == with_event(old(self).progress(), event)
                },
                Err(failure) => failure == refused(NdjsonResource::Events, 1),
            },
    {
        let reserved = self.events.try_reserve(1).is_ok();
        self.push_reserved_event(event, reserved)
    }

    fn add_value(&mut self) -> (result: Result<(), ParseFailure>)
        requires
            old(self).wf(),
        ensures
            final(self).same_input(old(self)),
            match result {
                Ok(_) => {
                    &&& final(self).wf()
                    &&& final(self).stack@ == old(self).stack@
                    &&& counted(old(self).limits, old(self).progress()) == Ok::<
                        Progress,
                        ParseFailure,
                    >(final(self).progress())
                },
                Err(failure) => counted(old(self).limits, old(self).progress()) == Err::<
                    Progress,
                    ParseFailure,
                >(failure),
            },
    {
        if self.values == u64::MAX {
            return Err(ParseFailure::SizeOverflow);
        }
        let actual = self.values + 1;
        let limit_values = self.limits.max_values();
        if actual > limit_values {
            return Err(limit(NdjsonLimitResource::Values, actual, limit_values));
        }
        self.values = actual;
        Ok(())
    }

    fn check_scalar_token(&self, start: usize, end: usize) -> (result: Result<(), ParseFailure>)
        requires
            start <= end,
        ensures
            match result {
                Ok(_) => !token_too_long(self.limits, start as int, end as int),
                Err(failure) => token_too_long(self.limits, start as int, end as int) && failure
                    == limit_failure(
                    NdjsonLimitResource::ScalarTokenBytes,
                    end - start,
                    self.limits.scalar_token_bytes,
                ),
            },
    {
        let actual = (end - start) as u64;
        let limit_bytes = self.limits.max_scalar_token_bytes();
        if actual > limit_bytes {
            return Err(limit(NdjsonLimitResource::ScalarTokenBytes, actual, limit_bytes));
        }
        Ok(())
    }

    /// Appends one run of source bytes, which must be valid UTF-8, to the decoded text.
    fn append_utf8_run(&mut self, start: usize, end: usize) -> (result: Result<(), ParseFailure>)
        requires
            start <= end <= old(self).source@.len(),
        ensures
            final(self).same_but_decoded(old(self)),
            ({
                let run = old(self).source@.subrange(start as int, end as int);
                match result {
                    Ok(_) => valid_utf8(run) && final(self).decoded@ == old(self).decoded@ + run,
                    Err(failure) => (valid_utf8(run) && 0 < run.len() && failure == refused(
                        NdjsonResource::DecodedStrings,
                        run.len() as int,
                    )) || (!valid_utf8(run) && failure == syntax_failure(
                        JsonSyntaxErrorKind::InvalidUtf8,
                        start + crate::text::valid_up_to(run),
                    )),
                }
            }),
    {
        let run = slice_subrange(self.source, start, end);
        match utf8_text(run) {
            Ok(_) => {},
            Err(fault) => {
                let valid = fault.valid_up_to;
                proof {
                    lemma_valid_up_to_unique(run@, valid as int);
                }
                return Err(syntax(JsonSyntaxErrorKind::InvalidUtf8, start + valid));
            },
        }
        let reserved = run.len() == 0 || self.decoded.try_reserve(run.len()).is_ok();
        self.append_reserved_run(run, reserved)
    }

    /// Appends a run to the decoded text, given whether there is memory for it.
    fn append_reserved_run(&mut self, run: &[u8], reserved: bool) -> (result: Result<
        (),
        ParseFailure,
    >)
        ensures
            final(self).same_but_decoded(old(self)),
            match result {
                Ok(_) => reserved && final(self).decoded@ == old(self).decoded@ + run@,
                Err(failure) => {
                    &&& !reserved
                    &&& final(self).decoded@ == old(self).decoded@
                    &&& failure == refused(NdjsonResource::DecodedStrings, run@.len() as int)
                },
            },
    {
        if !reserved {
            return Err(
                ParseFailure::AllocationFailed {
                    resource: NdjsonResource::DecodedStrings,
                    requested_additional: run.len(),
                },
            );
        }
        append_slice(&mut self.decoded, run);
        Ok(())
    }

    /// Appends a character to the decoded text, given whether there is memory for it.
    fn push_reserved_scalar(&mut self, scalar: u32, reserved: bool) -> (result: Result<
        (),
        ParseFailure,
    >)
        requires
            is_scalar(scalar),
        ensures
            final(self).same_but_decoded(old(self)),
            match result {
                Ok(_) => reserved && final(self).decoded@ == old(self).decoded@ + encode_scalar(
                    scalar,
                ),
                Err(failure) => {
                    &&& !reserved
                    &&& final(self).decoded@ == old(self).decoded@
                    &&& failure == refused(
                        NdjsonResource::DecodedStrings,
                        encode_scalar(scalar).len() as int,
                    )
                },
            },
    {
        if !reserved {
            return Err(
                ParseFailure::AllocationFailed {
                    resource: NdjsonResource::DecodedStrings,
                    requested_additional: scalar_length(scalar),
                },
            );
        }
        push_scalar(&mut self.decoded, scalar);
        Ok(())
    }

    fn push_decoded_scalar(&mut self, scalar: u32) -> (result: Result<(), ParseFailure>)
        requires
            is_scalar(scalar),
        ensures
            final(self).same_but_decoded(old(self)),
            match result {
                Ok(_) => final(self).decoded@ == old(self).decoded@ + encode_scalar(scalar),
                Err(failure) => failure == refused(
                    NdjsonResource::DecodedStrings,
                    encode_scalar(scalar).len() as int,
                ),
            },
    {
        let reserved = self.decoded.try_reserve(scalar_length(scalar)).is_ok();
        self.push_reserved_scalar(scalar, reserved)
    }

    /// Resolves the escapes of the string content `source[start..end]`.
    fn decode_string(&mut self, start: usize, end: usize) -> (result: Result<(), ParseFailure>)
        requires
            start <= end < old(self).source@.len(),
            string_end(old(self).source@, start as int) == Ok::<int, ParseFailure>(end + 1),
            has_backslash(old(self).source@, start as int, end as int),
        ensures
            final(self).same_but_decoded(old(self)),
            match result {
                Ok(_) => {
                    &&& unescaped(
                        old(self).source@,
                        start as int,
                        end as int,
                        old(self).decoded@,
                    ) == Ok::<Seq<u8>, ParseFailure>(final(self).decoded@)
                    &&& old(self).decoded@.len() <= final(self).decoded@.len()
                    &&& final(self).decoded@.take(old(self).decoded@.len() as int) == old(self).decoded@
                    &&& valid_utf8(
                        final(self).decoded@.subrange(
                            old(self).decoded@.len() as int,
                            final(self).decoded@.len() as int,
                        ),
                    )
                },
                Err(failure) => (is_request(old(self).source@, failure)
                    && is_text_refused(failure) && valid_utf8(
                    old(self).source@.subrange(
                        start as int,
                        next_backslash(old(self).source@, start as int, end as int),
                    ),
                )) || unescaped(
                    old(self).source@,
                    start as int,
                    end as int,
                    old(self).decoded@,
                ) == Err::<Seq<u8>, ParseFailure>(failure),
            },
    {
        let ghost base = self.decoded@;
        let ghost source = self.source@;
        let ghost mut text: Seq<u8> = Seq::empty();
        proof {
            assert(base + text =~= base);
        }
        let mut at: usize = start;
        loop
            invariant
                self.same_but_decoded(old(self)),
                source == self.source@,
                source == old(self).source@,
                base == old(self).decoded@,
                start <= at <= end < source.len(),
                has_backslash(source, start as int, end as int),
                at > start ==> valid_utf8(
                    source.subrange(
                        start as int,
                        next_backslash(source, start as int, end as int),
                    ),
                ),
                string_end(source, at as int) == Ok::<int, ParseFailure>(end + 1),
                self.decoded@ == base + text,
                valid_utf8(text),
                unescaped(source, at as int, end as int, self.decoded@) == unescaped(
                    source,
                    start as int,
                    end as int,
                    base,
                ),
            decreases end - at,
        {
            let escape = find_backslash(self.source, at, end);
            let ghost run = source.subrange(at as int, escape as int);
            proof {
                lemma_next_backslash(source, at as int, end as int);
                assert(!has_backslash(source, at as int, escape as int));
                assert(0 < run.len() ==> is_text_piece(source, run.len() as int));
                assert(has_backslash(source, 0, source.len() as int));
            }
            match self.append_utf8_run(at, escape) {
                Ok(_) => {},
                Err(failure) => {
                    return Err(failure);
                },
            }
            proof {
                lemma_utf8_concat(text, run);
                assert(base + text + run =~= base + (text + run));
                text = text + run;
            }
            if escape == end {
                proof {
                    assert(self.decoded@.take(base.len() as int) =~= base);
                    assert(self.decoded@.subrange(
                        base.len() as int,
                        self.decoded@.len() as int,
                    ) =~= text);
                }
                return Ok(());
            }
            proof {
                lemma_run_is_plain(source, at as int, escape as int, end as int);
                lemma_string_end(source, escape + 2);
            }
            match parse_escape(self.source, escape, end) {
                Ok((next, scalar)) => {
                    proof {
                        lemma_scalar_length(scalar);
                    }
                    match self.push_decoded_scalar(scalar) {
                        Ok(_) => {},
                        Err(failure) => {
                            return Err(failure);
                        },
                    }
                    proof {
                        lemma_encoded_scalar_is_utf8(scalar);
                        lemma_utf8_concat(text, encode_scalar(scalar));
                        assert(base + text + encode_scalar(scalar) =~= base + (text
                            + encode_scalar(scalar)));
                        text = text + encode_scalar(scalar);
                    }
                    at = next;
                },
                Err(failure) => {
                    return Err(failure);
                },
            }
        }
    }

    /// Reads the string token at the current offset.
    fn parse_string(&mut self) -> (result: Result<(Span, Option<Span>), ParseFailure>)
        requires
            old(self).wf(),
            byte_at(old(self).source@, old(self).offset as int, QUOTE),
        ensures
            final(self).same_input(old(self)),
            match result {
                Ok((raw, decoded)) => {
                    &&& final(self).wf()
                    &&& final(self).stack@ == old(self).stack@
                    &&& string_token(old(self).source@, old(self).limits, old(self).progress())
                        == Ok::<_, ParseFailure>((final(self).progress(), raw, decoded))
                    &&& final(self).offset > old(self).offset
                    &&& quoted_span(raw, old(self).source@.len() as int)
                    &&& match decoded {
                        Some(text) => span_within(text, final(self).decoded@.len() as int)
                            && valid_utf8(
                            final(self).decoded@.subrange(text.start as int, text.end as int),
                        ),
                        None => valid_utf8(
                            old(self).source@.subrange(raw.start + 1, raw.end - 1),
                        ),
                    }
                },
                Err(failure) => string_request(
                    old(self).source@,
                    old(self).limits,
                    old(self).offset as int,
                    failure,
                ) || string_token(
                    old(self).source@,
                    old(self).limits,
                    old(self).progress(),
                ) == Err::<(Progress, Span, Option<Span>), ParseFailure>(failure),
            },
    {
        let raw_start = self.offset;
        let (raw_end, contains_escape, contains_non_ascii) = match find_string_end(
            self.source,
            raw_start,
        ) {
            Ok(found) => found,
            Err(failure) => return Err(failure),
        };
        match self.check_scalar_token(raw_start, raw_end) {
            Ok(_) => {},
            Err(failure) => return Err(failure),
        }
        let raw = Span { start: raw_start, end: raw_end };
        let ghost content = self.source@.subrange(raw_start + 1, raw_end - 1);
        if contains_escape {
            let decoded_start = self.decoded.len();
            match self.decode_string(raw_start + 1, raw_end - 1) {
                Ok(_) => {},
                Err(failure) => return Err(failure),
            }
            proof {
                lemma_events_ok_grows(
                    self.events@,
                    self.source@,
                    old(self).decoded@,
                    self.decoded@,
                );
            }
            self.offset = raw_end;
            let decoded_end = self.decoded.len();
            return Ok((raw, Some(Span { start: decoded_start, end: decoded_end })));
        }
        if contains_non_ascii {
            match utf8_text(slice_subrange(self.source, raw_start + 1, raw_end - 1)) {
                Ok(_) => {},
                Err(fault) => {
                    let valid = fault.valid_up_to;
                    proof {
                        lemma_valid_up_to_unique(content, valid as int);
                    }
                    return Err(syntax(JsonSyntaxErrorKind::InvalidUtf8, raw_start + 1 + valid));
                },
            }
        } else {
            proof {
                assert forall|i: int| 0 <= i < content.len() implies #[trigger] content[i]
                    < 0x80 by {
                    assert(content[i] == self.source@[raw_start + 1 + i]);
                }
                lemma_ascii_is_utf8(content);
            }
        }
        self.offset = raw_end;
        Ok((raw, None))
    }

    fn parse_object_key(&mut self) -> (result: Result<(), ParseFailure>)
        requires
            old(self).wf(),
        ensures
            final(self).same_input(old(self)),
            match result {
                Ok(_) => {
                    &&& final(self).wf()
                    &&& final(self).stack@ == old(self).stack@
                    &&& final(self).offset > old(self).offset
                    &&& object_key(old(self).source@, old(self).limits, old(self).progress())
                        == Ok::<Progress, ParseFailure>(final(self).progress())
                },
                Err(failure) => is_request(old(self).source@, failure) || object_key(
                    old(self).source@,
                    old(self).limits,
                    old(self).progress(),
                ) == Err::<Progress, ParseFailure>(failure),
            },
    {
        if self.offset >= self.source.len() || self.source[self.offset] != QUOTE {
            return Err(syntax(JsonSyntaxErrorKind::ExpectedObjectKey, self.offset));
        }
        match self.parse_string() {
            Err(failure) => Err(failure),
            Ok((raw, None)) => self.push_event(StoredEvent::ObjectKeySource(raw)),
            Ok((raw, Some(decoded))) => self.push_event(
                StoredEvent::ObjectKeyDecoded { raw, decoded },
            ),
        }
    }

    fn parse_string_value(&mut self) -> (result: Result<(), ParseFailure>)
        requires
            old(self).wf(),
            byte_at(old(self).source@, old(self).offset as int, QUOTE),
        ensures
            final(self).same_input(old(self)),
            match result {
                Ok(_) => {
                    &&& final(self).wf()
                    &&& final(self).stack@ == old(self).stack@
                    &&& final(self).offset > old(self).offset
                    &&& string_value(old(self).source@, old(self).limits, old(self).progress())
                        == Ok::<Progress, ParseFailure>(final(self).progress())
                },
                Err(failure) => string_request(
                    old(self).source@,
                    old(self).limits,
                    old(self).offset as int,
                    failure,
                ) || (failure == refused(NdjsonResource::Events, 1) && string_value(
                    old(self).source@,
                    old(self).limits,
                    old(self).progress(),
                ) is Ok) || string_value(
                    old(self).source@,
                    old(self).limits,
                    old(self).progress(),
                ) == Err::<Progress, ParseFailure>(failure),
            },
    {
        match self.parse_string() {
            Err(failure) => Err(failure),
            Ok((raw, None)) => self.push_event(StoredEvent::StringSource(raw)),
            Ok((raw, Some(decoded))) => self.push_event(
                StoredEvent::StringDecoded { raw, decoded },
            ),
        }
    }

    fn parse_number_value(&mut self) -> (result: Result<(), ParseFailure>)
        requires
            old(self).wf(),
            old(self).offset < old(self).source@.len(),
        ensures
            final(self).same_input(old(self)),
            match result {
                Ok(_) => {
                    &&& final(self).wf()
                    &&& final(self).stack@ == old(self).stack@
                    &&& final(self).offset > old(self).offset
                    &&& number_value(old(self).source@, old(self).limits, old(self).progress())
                        == Ok::<Progress, ParseFailure>(final(self).progress())
                },
                Err(failure) => (failure == refused(NdjsonResource::Events, 1) && number_value(
                    old(self).source@,
                    old(self).limits,
                    old(self).progress(),
                ) is Ok) || number_value(
                    old(self).source@,
                    old(self).limits,
                    old(self).progress(),
                ) == Err::<Progress, ParseFailure>(failure),
            },
    {
        let start = self.offset;
        match scan_number(self.source, start) {
            Err(offset) => {
                if offset >= self.source.len() {
                    Err(syntax(JsonSyntaxErrorKind::UnexpectedEnd, offset))
                } else {
                    Err(syntax(JsonSyntaxErrorKind::InvalidNumber, offset))
                }
            },
            Ok((end, number_syntax)) => {
                match self.check_scalar_token(start, end) {
                    Ok(_) => {},
                    Err(failure) => return Err(failure),
                }
                self.offset = end;
                proof {
                    lemma_number_token_is_validated(
                        self.source@,
                        start as int,
                        end as int,
                        number_syntax,
                    );
                }
                self.push_event(
                    StoredEvent::Number { raw: Span { start, end }, syntax: number_syntax },
                )
            },
        }
    }

    fn parse_literal(&mut self, literal: &[u8], event: StoredEvent) -> (result: Result<
        (),
        ParseFailure,
    >)
        requires
            old(self).wf(),
            literal@.len() > 0,
            event is Boolean || event is Null,
        ensures
            final(self).same_input(old(self)),
            match result {
                Ok(_) => {
                    &&& final(self).wf()
                    &&& final(self).stack@ == old(self).stack@
                    &&& final(self).offset > old(self).offset
                    &&& literal_value(
                        old(self).source@,
                        old(self).limits,
                        old(self).progress(),
                        literal@,
                        event,
                    ) == Ok::<Progress, ParseFailure>(final(self).progress())
                },
                Err(failure) => (failure == refused(NdjsonResource::Events, 1) && literal_value(
                    old(self).source@,
                    old(self).limits,
                    old(self).progress(),
                    literal@,
                    event,
                ) is Ok) || literal_value(
                    old(self).source@,
                    old(self).limits,
                    old(self).progress(),
                    literal@,
                    event,
                ) == Err::<Progress, ParseFailure>(failure),
            },
    {
        let start = self.offset;
        let mut matched: usize = 0;
        while matched < literal.len() && matched < self.source.len() - start && self.source[start
            + matched] == literal[matched]
            invariant
                self.wf(),
                self.same_input(old(self)),
                self.stack@ == old(self).stack@,
                self.progress() == old(self).progress(),
                start == self.offset,
                matched <= literal@.len(),
                start + matched <= self.source@.len(),
                forall|i: int| 0 <= i < matched ==> self.source@[start + i] == literal@[i],
            decreases literal@.len() - matched,
        {
            matched += 1;
        }
        let ghost source = self.source@;
        if matched < literal.len() {
            if matched == self.source.len() - start {
                proof {
                    assert(source.subrange(start as int, source.len() as int) =~= literal@.take(
                        source.len() - start,
                    ));
                }
                return Err(syntax(JsonSyntaxErrorKind::UnexpectedEnd, start));
            }
            proof {
                assert(source[start + matched] != literal@[matched as int]);
                if literal_at(source, start as int, literal@) {
                    assert(source.subrange(start as int, start + literal@.len())[matched as int]
                        == source[start + matched]);
                }
                if literal_cut_off(source, start as int, literal@) {
                    assert(source.subrange(start as int, source.len() as int)[matched as int]
                        == source[start + matched]);
                    assert(literal@.take(source.len() - start)[matched as int]
                        == literal@[matched as int]);
                }
            }
            return Err(syntax(JsonSyntaxErrorKind::InvalidLiteral, start));
        }
        assert(self.source@.len() == self.source.len());
        let end = start + matched;
        assert(source.subrange(start as int, end as int) =~= literal@);
        match self.check_scalar_token(start, end) {
            Ok(_) => {},
            Err(failure) => return Err(failure),
        }
        self.offset = end;
        self.push_event(event)
    }

    /// Opens a container whose bracket stands at the current offset.
    fn open_container(&mut self, event: StoredEvent, frame: Frame) -> (result: Result<
        (),
        ParseFailure,
    >)
        requires
            old(self).wf(),
            old(self).offset < old(self).source@.len(),
            event_ok(event, old(self).source@, old(self).decoded@),
            event_end(event) <= old(self).offset,
            frame_ok(frame, old(self).events@.push(event), old(self).offset as int),
        ensures
            final(self).same_input(old(self)),
            match result {
                Ok(_) => {
                    &&& final(self).wf()
                    &&& old(self).stack@.len() + 1 <= old(self).limits.nesting_depth
                    &&& final(self).stack@ == old(self).stack@.push(frame)
                    &&& final(self).progress() == with_event(
                        Progress { offset: old(self).offset + 1, ..old(self).progress() },
                        event,
                    )
                },
                Err(failure) => (old(self).stack@.len() + 1 <= old(self).limits.nesting_depth && (
                failure == refused(NdjsonResource::ParserStack, 1) || failure == refused(
                    NdjsonResource::Events,
                    1,
                ))) || (old(self).stack@.len() + 1 > old(self).limits.nesting_depth && failure == depth_failure(
                    old(self).limits,
                    old(self).stack@.len() as int,
                )),
            },
    {
        assert(self.source@.len() == self.source.len());
        let depth = self.stack.len() as u64 + 1;
        let limit_depth = self.limits.max_nesting_depth();
        if depth > limit_depth {
            return Err(limit(NdjsonLimitResource::NestingDepth, depth, limit_depth));
        }
        let frame_reserved = self.stack.try_reserve(1).is_ok();
        let event_reserved = frame_reserved && self.events.try_reserve(1).is_ok();
        self.open_reserved_container(event, frame, frame_reserved, event_reserved)
    }

    /// Opens a container, given whether there is memory for its frame and for its event.
    fn open_reserved_container(
        &mut self,
        event: StoredEvent,
        frame: Frame,
        frame_reserved: bool,
        event_reserved: bool,
    ) -> (result: Result<(), ParseFailure>)
        requires
            old(self).wf(),
            old(self).offset < old(self).source@.len(),
            event_ok(event, old(self).source@, old(self).decoded@),
            event_end(event) <= old(self).offset,
            frame_ok(frame, old(self).events@.push(event), old(self).offset as int),
        ensures
            final(self).same_input(old(self)),
            match result {
                Ok(_) => {
                    &&& frame_reserved
                    &&& event_reserved
                    &&& final(self).wf()
                    &&& final(self).stack@ == old(self).stack@.push(frame)
                    &&& final(self).progress() == with_event(
                        Progress { offset: old(self).offset + 1, ..old(self).progress() },
                        event,
                    )
                },
                Err(failure) => {
                    &&& *final(self) == *old(self)
                    &&& if frame_reserved {
                        &&& !event_reserved
                        &&& failure == refused(NdjsonResource::Events, 1)
                    } else {
                        failure == refused(NdjsonResource::ParserStack, 1)
                    }
                },
            },
    {
        assert(self.source@.len() == self.source.len());
        if !frame_reserved {
            return Err(
                ParseFailure::AllocationFailed {
                    resource: NdjsonResource::ParserStack,
                    requested_additional: 1,
                },
            );
        }
        match self.push_reserved_event(event, event_reserved) {
            Ok(_) => {},
            Err(failure) => return Err(failure),
        }
        self.offset = self.offset + 1;
        self.stack.push(frame);
        Ok(())
    }

    /// Reads a scalar, or opens a container.
    fn parse_value(&mut self) -> (result: Result<(), ParseFailure>)
        requires
            old(self).wf(),
        ensures
            final(self).same_input(old(self)),
            ({
                let head = value_head(
                    old(self).source@,
                    old(self).limits,
                    old(self).progress(),
                    old(self).stack@.len() as int,
                );
                match result {
                    Ok(_) => {
                        &&& final(self).wf()
                        &&& final(self).offset > old(self).offset
                        &&& match head {
                            Head::Scalar(progress) => final(self).progress() == progress && final(self).stack@ == old(self).stack@,
                            Head::Object(progress) => final(self).progress() == progress && final(self).stack@ == old(self).stack@.push(
                                Frame::Object(ObjectState::FirstKeyOrEnd),
                            ),
                            Head::Array(progress, start_event) => final(self).progress()
                                == progress && final(self).stack@ == old(self).stack@.push(
                                Frame::Array(
                                    ArrayFrame {
                                        state: ArrayState::FirstValueOrEnd,
                                        start_event_index: start_event as usize,
                                    },
                                ),
                            ) && 0 <= start_event <= usize::MAX,
                            Head::Failed(_) => false,
                        }
                    },
                    Err(failure) => head_request(
                        old(self).source@,
                        old(self).limits,
                        old(self).progress(),
                        old(self).stack@.len() as int,
                        failure,
                    ) || head == Head::Failed(failure),
                }
            }),
    {
        self.skip_whitespace();
        let first = match self.peek() {
            Some(first) => first,
            None => {
                return Err(syntax(JsonSyntaxErrorKind::ExpectedValue, self.offset));
            },
        };
        if !(first == LEFT_BRACE || first == LEFT_BRACKET || first == QUOTE || first == MINUS
            || is_ascii_digit(first) || first == 0x74 || first == 0x66 || first == 0x6e) {
            return Err(syntax(JsonSyntaxErrorKind::ExpectedValue, self.offset));
        }
        match self.add_value() {
            Ok(_) => {},
            Err(failure) => return Err(failure),
        }
        if first == LEFT_BRACE {
            self.open_container(
                StoredEvent::ObjectStart,
                Frame::Object(ObjectState::FirstKeyOrEnd),
            )
        } else if first == LEFT_BRACKET {
            let start = self.offset;
            let start_event_index = self.events.len();
            self.open_container(
                StoredEvent::ArrayStart(Span { start, end: start }),
                Frame::Array(ArrayFrame { state: ArrayState::FirstValueOrEnd, start_event_index }),
            )
        } else if first == QUOTE {
            self.parse_string_value()
        } else if first == 0x74 {
            let literal: [u8; 4] = [0x74, 0x72, 0x75, 0x65];
            assert(literal@ =~= true_literal());
            self.parse_literal(&literal, StoredEvent::Boolean(true))
        } else if first == 0x66 {
            let literal: [u8; 5] = [0x66, 0x61, 0x6c, 0x73, 0x65];
            assert(literal@ =~= false_literal());
            self.parse_literal(&literal, StoredEvent::Boolean(false))
        } else if first == 0x6e {
            let literal: [u8; 4] = [0x6e, 0x75, 0x6c, 0x6c];
            assert(literal@ =~= null_literal());
            self.parse_literal(&literal, StoredEvent::Null)
        } else {
            self.parse_number_value()
        }
    }

    /// Closes the innermost array, whose bracket has just been consumed.
    fn close_array(&mut self, start_event_index: usize) -> (result: Result<(), ParseFailure>)
        requires
            old(self).wf(),
            old(self).offset > 0,
            old(self).stack@.len() > 0,
            old(self).stack@.last() matches Frame::Array(array) && array.start_event_index
                == start_event_index,
        ensures
            final(self).same_input(old(self)),
            match result {
                Ok(_) => {
                    &&& final(self).wf()
                    &&& final(self).stack@ == old(self).stack@.drop_last()
                    &&& final(self).progress() == array_closed(
                        Progress { offset: old(self).offset - 1, ..old(self).progress() },
                        start_event_index as int,
                    )
                },
                Err(failure) => failure == refused(NdjsonResource::Events, 1),
            },
    {
        assert(frame_ok(self.stack@.last(), self.events@, self.offset as int));
        let ghost frames = self.stack@;
        let _ = self.stack.pop();
        match self.events[start_event_index] {
            StoredEvent::ArrayStart(span) => {
                let end = self.offset;
                let ghost before = self.events@;
                self.events.set(
                    start_event_index,
                    StoredEvent::ArrayStart(Span { start: span.start, end }),
                );
                proof {
                    assert forall|i: int| 0 <= i < self.events@.len() implies event_ok(
                        #[trigger] self.events@[i],
                        self.source@,
                        self.decoded@,
                    ) by {
                        assert(event_ok(before[i], self.source@, self.decoded@));
                    }
                    assert forall|i: int| 0 <= i < self.stack@.len() implies frame_ok(
                        #[trigger] self.stack@[i],
                        self.events@,
                        self.offset as int,
                    ) by {
                        assert(frame_ok(frames[i], before, self.offset as int));
                    }
                }
                self.push_event(StoredEvent::ArrayEnd)
            },
            _ => {
                assert(false);
                Ok(())
            },
        }
    }

    fn replace_top(&mut self, frame: Frame)
        requires
            old(self).wf(),
            old(self).stack@.len() > 0,
            frame_ok(frame, old(self).events@, old(self).offset as int),
        ensures
            final(self).wf(),
            final(self).same_input(old(self)),
            final(self).progress() == old(self).progress(),
            final(self).stack@ == old(self).stack@.drop_last().push(frame),
    {
        let top = self.stack.len() - 1;
        self.stack.set(top, frame);
        assert(self.stack@ =~= old(self).stack@.drop_last().push(frame));
        assert forall|i: int| 0 <= i < self.stack@.len() implies frame_ok(
            #[trigger] self.stack@[i],
            self.events@,
            self.offset as int,
        ) by {
            if i < top {
                assert(frame_ok(old(self).stack@[i], self.events@, self.offset as int));
            }
        }
    }

    /// Advances an open array by one token.
    #[verifier::rlimit(30)]
    fn parse_array_step(&mut self, array: ArrayFrame) -> (result: Result<(), ParseFailure>)
        requires
            old(self).wf(),
            old(self).stack@.len() > 0,
            old(self).stack@.last() == Frame::Array(array),
        ensures
            final(self).same_input(old(self)),
            ({
                let before = resumed(
                    old(self).source@,
                    old(self).limits,
                    old(self).stack@,
                    old(self).progress(),
                );
                match result {
                    Ok(_) => {
                        &&& final(self).wf()
                        &&& final(self).offset > old(self).offset
                        &&& before == resumed(
                            final(self).source@,
                            final(self).limits,
                            final(self).stack@,
                            final(self).progress(),
                        )
                    },
                    Err(failure) => is_request(old(self).source@, failure) || before == Err::<
                        Progress,
                        ParseFailure,
                    >(failure),
                }
            }),
    {
        let ghost source = self.source@;
        let ghost limits = self.limits;
        let ghost stack = self.stack@;
        let ghost rest = stack.drop_last();
        let ghost depth = stack.len() as int;
        let ghost start = self.progress();
        proof {
            assert(frame_ok(stack.last(), self.events@, self.offset as int));
            lemma_skip_space(source, start.offset);
        }
        let start_event_index = array.start_event_index;
        match array.state {
            ArrayState::FirstValueOrEnd => {
                self.skip_whitespace();
                if self.consume_if(RIGHT_BRACKET) {
                    return self.close_array(start_event_index);
                }
                let ghost spaced = self.progress();
                self.replace_top(
                    Frame::Array(
                        ArrayFrame { state: ArrayState::CommaOrEnd, start_event_index },
                    ),
                );
                let ghost waiting = self.stack@;
                proof {
                    lemma_top(
                        rest,
                        Frame::Array(
                            ArrayFrame { state: ArrayState::CommaOrEnd, start_event_index },
                        ),
                    );
                    lemma_value_after_space(source, limits, start, depth);
                }
                let result = self.parse_value();
                proof {
                    if result is Ok {
                        lemma_value_entered(
                            source,
                            limits,
                            waiting,
                            spaced,
                            self.stack@,
                            self.progress(),
                        );
                    }
                }
                result
            },
            ArrayState::ValueAfterComma => {
                self.replace_top(
                    Frame::Array(
                        ArrayFrame { state: ArrayState::CommaOrEnd, start_event_index },
                    ),
                );
                let ghost waiting = self.stack@;
                proof {
                    lemma_top(
                        rest,
                        Frame::Array(
                            ArrayFrame { state: ArrayState::CommaOrEnd, start_event_index },
                        ),
                    );
                }
                let result = self.parse_value();
                proof {
                    if result is Ok {
                        lemma_value_entered(
                            source,
                            limits,
                            waiting,
                            start,
                            self.stack@,
                            self.progress(),
                        );
                    }
                }
                result
            },
            ArrayState::CommaOrEnd => {
                self.skip_whitespace();
                if self.consume_if(COMMA) {
                    self.replace_top(
                        Frame::Array(
                            ArrayFrame {
                                state: ArrayState::ValueAfterComma,
                                start_event_index,
                            },
                        ),
                    );
                    proof {
                        lemma_top(
                            rest,
                            Frame::Array(
                                ArrayFrame {
                                    state: ArrayState::ValueAfterComma,
                                    start_event_index,
                                },
                            ),
                        );
                    }
                    return Ok(());
                }
                if self.consume_if(RIGHT_BRACKET) {
                    return self.close_array(start_event_index);
                }
                Err(syntax(JsonSyntaxErrorKind::ExpectedCommaOrEnd, self.offset))
            },
        }
    }

    /// Advances the innermost open container by one token.
    #[verifier::rlimit(30)]
    fn parse_step(&mut self) -> (result: Result<(), ParseFailure>)
        requires
            old(self).wf(),
            old(self).stack@.len() > 0,
        ensures
            final(self).same_input(old(self)),
            ({
                let before = resumed(
                    old(self).source@,
                    old(self).limits,
                    old(self).stack@,
                    old(self).progress(),
                );
                match result {
                    Ok(_) => {
                        &&& final(self).wf()
                        &&& final(self).offset > old(self).offset
                        &&& before == resumed(
                            final(self).source@,
                            final(self).limits,
                            final(self).stack@,
                            final(self).progress(),
                        )
                    },
                    Err(failure) => is_request(old(self).source@, failure) || before == Err::<
                        Progress,
                        ParseFailure,
                    >(failure),
                }
            }),
    {
        let ghost source = self.source@;
        let ghost limits = self.limits;
        let ghost stack = self.stack@;
        let ghost rest = stack.drop_last();
        let ghost depth = stack.len() as int;
        let ghost start = self.progress();
        let top = self.stack.len() - 1;
        let frame = self.stack[top];
        proof {
            assert(frame == stack.last());
            assert(frame_ok(stack.last(), self.events@, self.offset as int));
            lemma_skip_space(source, start.offset);
        }
        match frame {
            Frame::Object(ObjectState::FirstKeyOrEnd) => {
                self.skip_whitespace();
                if self.consume_if(RIGHT_BRACE) {
                    let _ = self.stack.pop();
                    proof {
                        assert(self.stack@ =~= rest);
                        lemma_frames_prefix(stack, self.events@, self.offset as int);
                    }
                    return self.push_event(StoredEvent::ObjectEnd);
                }
                match self.parse_object_key() {
                    Ok(_) => {},
                    Err(failure) => return Err(failure),
                }
                self.replace_top(Frame::Object(ObjectState::Colon));
                proof {
                    lemma_top(rest, Frame::Object(ObjectState::Colon));
                }
                Ok(())
            },
            Frame::Object(ObjectState::KeyAfterComma) => {
                self.skip_whitespace();
                match self.parse_object_key() {
                    Ok(_) => {},
                    Err(failure) => return Err(failure),
                }
                self.replace_top(Frame::Object(ObjectState::Colon));
                proof {
                    lemma_top(rest, Frame::Object(ObjectState::Colon));
                }
                Ok(())
            },
            Frame::Object(ObjectState::Colon) => {
                self.skip_whitespace();
                if !self.consume_if(COLON) {
                    return Err(syntax(JsonSyntaxErrorKind::ExpectedColon, self.offset));
                }
                self.replace_top(Frame::Object(ObjectState::Value));
                proof {
                    lemma_top(rest, Frame::Object(ObjectState::Value));
                }
                Ok(())
            },
            Frame::Object(ObjectState::Value) => {
                self.replace_top(Frame::Object(ObjectState::CommaOrEnd));
                proof {
                    lemma_top(rest, Frame::Object(ObjectState::CommaOrEnd));
                }
                let ghost waiting = self.stack@;
                let result = self.parse_value();
                proof {
                    if result is Ok {
                        lemma_value_entered(
                            source,
                            limits,
                            waiting,
                            start,
                            self.stack@,
                            self.progress(),
                        );
                    }
                }
                result
            },
            Frame::Object(ObjectState::CommaOrEnd) => {
                self.skip_whitespace();
                if self.consume_if(COMMA) {
                    self.replace_top(Frame::Object(ObjectState::KeyAfterComma));
                    proof {
                        lemma_top(rest, Frame::Object(ObjectState::KeyAfterComma));
                    }
                    return Ok(());
                }
                if self.consume_if(RIGHT_BRACE) {
                    let _ = self.stack.pop();
                    proof {
                        assert(self.stack@ =~= rest);
                        lemma_frames_prefix(stack, self.events@, self.offset as int);
                    }
                    return self.push_event(StoredEvent::ObjectEnd);
                }
                Err(syntax(JsonSyntaxErrorKind::ExpectedCommaOrEnd, self.offset))
            },
            Frame::Array(array) => self.parse_array_step(array),
        }
    }

    /// Reads the root value and stops at its end.
    fn parse_prefix(&mut self) -> (result: Result<usize, ParseFailure>)
        requires
            old(self).wf(),
            old(self).stack@.len() == 0,
            old(self).progress() == fresh_progress(),
        ensures
            final(self).same_input(old(self)),
            match result {
                Ok(end) => {
                    &&& final(self).wf()
                    &&& final(self).stack@.len() == 0
                    &&& end == final(self).offset
                    &&& document_prefix(old(self).source@, old(self).limits) == Ok::<
                        Progress,
                        ParseFailure,
                    >(final(self).progress())
                },
                Err(failure) => document_request(
                    old(self).source@,
                    old(self).limits,
                    failure,
                ) || document_prefix(
                    old(self).source@,
                    old(self).limits,
                ) == Err::<Progress, ParseFailure>(failure),
            },
    {
        match self.parse_value() {
            Ok(_) => {},
            Err(failure) => return Err(failure),
        }
        proof {
            assert(old(self).stack@ =~= Seq::<Frame>::empty());
            lemma_root_entered(self.source@, self.limits, self.stack@, self.progress());
        }
        while self.stack.len() > 0
            invariant
                self.wf(),
                self.same_input(old(self)),
                resumed(self.source@, self.limits, self.stack@, self.progress())
                    == document_prefix(self.source@, self.limits),
                self.stack@.len() > 0 ==> (value_head(
                    self.source@,
                    self.limits,
                    fresh_progress(),
                    0,
                ) is Object || value_head(self.source@, self.limits, fresh_progress(), 0) is Array),
            decreases self.source@.len() - self.offset,
        {
            match self.parse_step() {
                Ok(_) => {},
                Err(failure) => return Err(failure),
            }
        }
        Ok(self.offset)
    }
}

proof fn lemma_scalar_length(scalar: u32)
    requires
        is_scalar(scalar),
    ensures
        1 <= encode_scalar(scalar).len() <= 4,
{
}

/// Dropping the innermost frame keeps the others sound.
proof fn lemma_frames_prefix(stack: Seq<Frame>, events: Seq<StoredEvent>, offset: int)
    requires
        stack.len() > 0,
        frames_ok(stack, events, offset),
    ensures
        frames_ok(stack.drop_last(), events, offset),
{
    assert forall|i: int| 0 <= i < stack.len() - 1 implies frame_ok(
        #[trigger] stack.drop_last()[i],
        events,
        offset,
    ) by {
        assert(frame_ok(stack[i], events, offset));
    }
}

/// The top of a pushed stack.
proof fn lemma_top(rest: Seq<Frame>, frame: Frame)
    ensures
        rest.push(frame).last() == frame,
        rest.push(frame).drop_last() == rest,
        rest.push(frame).len() == rest.len() + 1,
{
    assert(rest.push(frame).drop_last() =~= rest);
}

/// Whitespace before a value belongs to it.
proof fn lemma_value_after_space(
    source: Seq<u8>,
    limits: NdjsonLimits,
    before: Progress,
    depth: int,
)
    requires
        0 <= before.offset <= source.len(),
    ensures
        ({
            let spaced = Progress { offset: skip_space(source, before.offset), ..before };
            &&& value(source, limits, spaced, depth) == value(source, limits, before, depth)
            &&& value_head(source, limits, spaced, depth) == value_head(
                source,
                limits,
                before,
                depth,
            )
        }),
{
    lemma_skip_space(source, before.offset);
    let spaced = Progress { offset: skip_space(source, before.offset), ..before };
    assert(skip_space(source, spaced.offset) == spaced.offset);
    assert(value_head(source, limits, spaced, depth) == value_head(source, limits, before, depth));
}

/// Entering a value inside the containers of `waiting` leads to the rest of that value followed
/// by the rest of those containers.
proof fn lemma_value_entered(
    source: Seq<u8>,
    limits: NdjsonLimits,
    waiting: Seq<Frame>,
    before: Progress,
    stack: Seq<Frame>,
    progress: Progress,
)
    requires
        0 <= before.offset <= source.len(),
        before.offset < progress.offset <= source.len(),
        match value_head(source, limits, before, waiting.len() as int) {
            Head::Scalar(after) => progress == after && stack == waiting,
            Head::Object(after) => progress == after && stack == waiting.push(
                Frame::Object(ObjectState::FirstKeyOrEnd),
            ),
            Head::Array(after, start_event) => progress == after && 0 <= start_event <= usize::MAX
                && stack == waiting.push(
                Frame::Array(
                    ArrayFrame {
                        state: ArrayState::FirstValueOrEnd,
                        start_event_index: start_event as usize,
                    },
                ),
            ),
            Head::Failed(_) => false,
        },
    ensures
        resumed(source, limits, stack, progress) == (match value(
            source,
            limits,
            before,
            waiting.len() as int,
        ) {
            Ok(after) => resumed(source, limits, waiting, after),
            Err(failure) => Err(failure),
        }),
        value(source, limits, before, waiting.len() as int) matches Ok(after) ==> before.offset
            < after.offset <= source.len(),
{
    lemma_value_progress(source, limits, before, waiting.len() as int);
    match value_head(source, limits, before, waiting.len() as int) {
        Head::Scalar(_) => {},
        Head::Object(_) => {
            lemma_top(waiting, Frame::Object(ObjectState::FirstKeyOrEnd));
        },
        Head::Array(_, start_event) => {
            lemma_top(
                waiting,
                Frame::Array(
                    ArrayFrame {
                        state: ArrayState::FirstValueOrEnd,
                        start_event_index: start_event as usize,
                    },
                ),
            );
        },
        Head::Failed(_) => {},
    }
}

/// After its first token, the root value is what its open containers lead to.
proof fn lemma_root_entered(
    source: Seq<u8>,
    limits: NdjsonLimits,
    stack: Seq<Frame>,
    progress: Progress,
)
    requires
        0 < progress.offset <= source.len(),
        match value_head(source, limits, fresh_progress(), 0) {
            Head::Scalar(after) => progress == after && stack == Seq::<Frame>::empty(),
            Head::Object(after) => progress == after && stack == Seq::<Frame>::empty().push(
                Frame::Object(ObjectState::FirstKeyOrEnd),
            ),
            Head::Array(after, start_event) => progress == after && 0 <= start_event <= usize::MAX
                && stack == Seq::<Frame>::empty().push(
                Frame::Array(
                    ArrayFrame {
                        state: ArrayState::FirstValueOrEnd,
                        start_event_index: start_event as usize,
                    },
                ),
            ),
            Head::Failed(_) => false,
        },
    ensures
        resumed(source, limits, stack, progress) == document_prefix(source, limits),
{
    lemma_value_entered(source, limits, Seq::empty(), fresh_progress(), stack, progress);
}

/// Whether the buffers hold exactly what a parse produced.
pub open spec fn buffers_hold(
    buffers: ParserBuffers,
    source: Seq<u8>,
    progress: Progress,
) -> bool {
    &&& buffers.events@ == progress.events
    &&& buffers.decoded@ == progress.decoded
    &&& buffers.stack@ == Seq::<Frame>::empty()
    &&& events_ok(buffers.events@, source, buffers.decoded@)
    &&& events_before(buffers.events@, progress.offset)
}

/// Parses one root value and returns its exclusive end without inspecting trailing bytes.
///
/// The buffers are emptied first. Unless memory is refused that the parse asks for, the outcome is
/// the one that the grammar gives.
pub fn parse_document_prefix(
    source: &[u8],
    limits: NdjsonLimits,
    buffers: &mut ParserBuffers,
) -> (result: Result<usize, ParseFailure>)
    ensures
        match result {
            Ok(end) => document_prefix(source@, limits) matches Ok(progress) && end
                == progress.offset && end <= source@.len() && buffers_hold(
                *final(buffers),
                source@,
                progress,
            ),
            Err(failure) => if failure is AllocationFailed {
                document_request(source@, limits, failure)
            } else {
                document_prefix(source@, limits) == Err::<Progress, ParseFailure>(failure)
            },
        },
{
    buffers.clear();
    let mut parser = Parser {
        source,
        limits,
        decoded: Vec::new(),
        events: Vec::new(),
        stack: Vec::new(),
        offset: 0,
        values: 0,
    };
    core::mem::swap(&mut parser.decoded, &mut buffers.decoded);
    core::mem::swap(&mut parser.events, &mut buffers.events);
    core::mem::swap(&mut parser.stack, &mut buffers.stack);
    let result = parser.parse_prefix();
    proof {
        lemma_value_progress(source@, limits, fresh_progress(), 0);
    }
    core::mem::swap(&mut parser.decoded, &mut buffers.decoded);
    core::mem::swap(&mut parser.events, &mut buffers.events);
    core::mem::swap(&mut parser.stack, &mut buffers.stack);
    assert(result is Ok ==> buffers.stack@ =~= Seq::<Frame>::empty());
    result
}

/// Parses the one JSON value that `source` holds.
///
/// The buffers are emptied first. Unless memory is refused that the parse asks for, the outcome is
/// the one that the grammar gives.
pub fn parse_document(
    source: &[u8],
    limits: NdjsonLimits,
    buffers: &mut ParserBuffers,
) -> (result: Result<(), ParseFailure>)
    ensures
        match result {
            Ok(_) => document(source@, limits) matches Ok(progress) && buffers_hold(
                *final(buffers),
                source@,
                progress,
            ),
            Err(failure) => if failure is AllocationFailed {
                document_request(source@, limits, failure)
            } else {
                document(source@, limits) == Err::<Progress, ParseFailure>(failure)
            },
        },
{
    let mut end: usize = match parse_document_prefix(source, limits, buffers) {
        Ok(end) => end,
        Err(failure) => return Err(failure),
    };
    let ghost value_end = end as int;
    while end < source.len() && is_json_whitespace(source[end])
        invariant
            end <= source@.len(),
            skip_space(source@, end as int) == skip_space(source@, value_end),
        decreases source@.len() - end,
    {
        end += 1;
    }
    if end == source.len() {
        Ok(())
    } else {
        Err(syntax(JsonSyntaxErrorKind::TrailingCharacters, end))
    }
}

} // verus!

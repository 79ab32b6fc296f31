//! What a JSON document means: its flat events, its decoded strings, and its first error.

use vstd::prelude::*;
use vstd::utf8::{encode_scalar, valid_utf8};

use crate::ndjson::{
    JsonSyntaxError, JsonSyntaxErrorKind, NdjsonInvalidRecordKind, NdjsonLimitResource,
    NdjsonLimitViolation, NdjsonLimits,
};
use crate::number::number_token;
use crate::parser::{ParseFailure, Span, StoredEvent};
use crate::text::{
    byte_at, digit_at, hex_quad, skip_space, valid_up_to, BACKSLASH, COLON, COMMA, LEFT_BRACE,
    LEFT_BRACKET, MINUS, QUOTE, RIGHT_BRACE, RIGHT_BRACKET,
};

verus! {

/// Progress of a parse: how far it is, how many values it has seen, and what it has produced.
pub struct Progress {
    pub offset: int,
    pub values: int,
    pub events: Seq<StoredEvent>,
    pub decoded: Seq<u8>,
}

/// Syntax failure at an offset.
pub open spec fn syntax_failure(kind: JsonSyntaxErrorKind, offset: int) -> ParseFailure {
    ParseFailure::Invalid(
        NdjsonInvalidRecordKind::Syntax(JsonSyntaxError { offset: offset as usize, kind }),
    )
}

/// Limit failure.
pub open spec fn limit_failure(
    resource: NdjsonLimitResource,
    actual: int,
    limit: u64,
) -> ParseFailure {
    ParseFailure::Invalid(
        NdjsonInvalidRecordKind::Limit(
            NdjsonLimitViolation { resource, actual: actual as u64, limit },
        ),
    )
}

/// Offset just past the quote that closes the string whose content continues at `at`.
pub open spec fn string_end(source: Seq<u8>, at: int) -> Result<int, ParseFailure>
    decreases source.len() - at + 1,
{
    if at < 0 || at >= source.len() {
        Err(syntax_failure(JsonSyntaxErrorKind::UnexpectedEnd, source.len() as int))
    } else if source[at] == QUOTE {
        Ok(at + 1)
    } else if source[at] == BACKSLASH {
        string_end(source, at + 2)
    } else if source[at] < 0x20 {
        Err(syntax_failure(JsonSyntaxErrorKind::UnescapedControlCharacter, at))
    } else {
        string_end(source, at + 1)
    }
}

/// First backslash in `source[at..end]`, or `end`.
pub open spec fn next_backslash(source: Seq<u8>, at: int, end: int) -> int
    decreases end - at,
{
    if 0 <= at < end && source[at] != BACKSLASH {
        next_backslash(source, at + 1, end)
    } else {
        at
    }
}

/// Whether `source[start..end]` holds a backslash.
pub open spec fn has_backslash(source: Seq<u8>, start: int, end: int) -> bool {
    exists|i: int| start <= i < end && #[trigger] source[i] == BACKSLASH
}

/// Number of the four hexadecimal digits at `at`, which must lie before `end`.
pub open spec fn unicode_quad(source: Seq<u8>, at: int, end: int, error_offset: int) -> Result<
    int,
    ParseFailure,
> {
    if at + 4 > end {
        Err(syntax_failure(JsonSyntaxErrorKind::InvalidUnicodeEscape, error_offset))
    } else {
        match hex_quad(source, at) {
            Some(value) => Ok(value),
            None => Err(syntax_failure(JsonSyntaxErrorKind::InvalidUnicodeEscape, error_offset)),
        }
    }
}

pub open spec fn is_high_surrogate(value: int) -> bool {
    0xd800 <= value <= 0xdbff
}

pub open spec fn is_low_surrogate(value: int) -> bool {
    0xdc00 <= value <= 0xdfff
}

/// Scalar of a surrogate pair.
pub open spec fn surrogate_pair(high: int, low: int) -> int {
    0x1_0000 + (high - 0xd800) * 0x400 + (low - 0xdc00)
}

/// Scalar named by the escape at `at`, and the offset that follows it.
pub open spec fn escaped_scalar(source: Seq<u8>, at: int, end: int) -> Result<
    (int, int),
    ParseFailure,
> {
    let escape = source[at + 1];
    if escape == 0x22 {
        Ok((at + 2, 0x22))
    } else if escape == 0x5c {
        Ok((at + 2, 0x5c))
    } else if escape == 0x2f {
        Ok((at + 2, 0x2f))
    } else if escape == 0x62 {
        Ok((at + 2, 0x08))
    } else if escape == 0x66 {
        Ok((at + 2, 0x0c))
    } else if escape == 0x6e {
        Ok((at + 2, 0x0a))
    } else if escape == 0x72 {
        Ok((at + 2, 0x0d))
    } else if escape == 0x74 {
        Ok((at + 2, 0x09))
    } else if escape == 0x75 {
        unicode_scalar(source, at, end)
    } else {
        Err(syntax_failure(JsonSyntaxErrorKind::InvalidEscape, at))
    }
}

/// Scalar named by the `\u` escape, or the pair of them, at `at`.
pub open spec fn unicode_scalar(source: Seq<u8>, at: int, end: int) -> Result<
    (int, int),
    ParseFailure,
> {
    match unicode_quad(source, at + 2, end, at) {
        Err(failure) => Err(failure),
        Ok(first) => if is_high_surrogate(first) {
            if at + 12 > end || source[at + 6] != BACKSLASH || source[at + 7] != 0x75 {
                Err(syntax_failure(JsonSyntaxErrorKind::UnpairedSurrogate, at))
            } else {
                match unicode_quad(source, at + 8, end, at + 6) {
                    Err(failure) => Err(failure),
                    Ok(second) => if is_low_surrogate(second) {
                        Ok((at + 12, surrogate_pair(first, second)))
                    } else {
                        Err(syntax_failure(JsonSyntaxErrorKind::UnpairedSurrogate, at))
                    },
                }
            }
        } else if is_low_surrogate(first) {
            Err(syntax_failure(JsonSyntaxErrorKind::UnpairedSurrogate, at))
        } else {
            Ok((at + 6, first))
        },
    }
}

/// Text of the string content `source[at..end]` with its escapes resolved, after `before`.
pub open spec fn unescaped(source: Seq<u8>, at: int, end: int, before: Seq<u8>) -> Result<
    Seq<u8>,
    ParseFailure,
>
    decreases end - at + 1,
{
    let escape = next_backslash(source, at, end);
    let run = source.subrange(at, escape);
    if !valid_utf8(run) {
        Err(syntax_failure(JsonSyntaxErrorKind::InvalidUtf8, at + valid_up_to(run)))
    } else if escape >= end {
        Ok(before + run)
    } else {
        match escaped_scalar(source, escape, end) {
            Err(failure) => Err(failure),
            Ok((next, scalar)) => {
                proof {
                    lemma_next_backslash(source, at, end);
                }
                unescaped(source, next, end, before + run + encode_scalar(scalar as u32))
            },
        }
    }
}

/// The scan for a backslash moves forward and stops at the end or at a backslash.
pub proof fn lemma_next_backslash(source: Seq<u8>, at: int, end: int)
    ensures
        at <= next_backslash(source, at, end),
        at <= end ==> next_backslash(source, at, end) <= end,
        0 <= at && next_backslash(source, at, end) < end ==> source[next_backslash(
            source,
            at,
            end,
        )] == BACKSLASH,
        forall|i: int|
            0 <= at <= i < next_backslash(source, at, end) ==> #[trigger] source[i] != BACKSLASH,
    decreases end - at,
{
    if 0 <= at < end && source[at] != BACKSLASH {
        lemma_next_backslash(source, at + 1, end);
    }
}

/// Failure when a scalar token is longer than the limit allows.
pub open spec fn token_too_long(limits: NdjsonLimits, start: int, end: int) -> bool {
    end - start > limits.scalar_token_bytes
}

/// The string token at `at`: its raw span, and the span of its text when it has escapes.
pub open spec fn string_token(
    source: Seq<u8>,
    limits: NdjsonLimits,
    progress: Progress,
) -> Result<(Progress, Span, Option<Span>), ParseFailure> {
    let start = progress.offset;
    match string_end(source, start + 1) {
        Err(failure) => Err(failure),
        Ok(end) => {
            let raw = Span { start: start as usize, end: end as usize };
            let content = source.subrange(start + 1, end - 1);
            if token_too_long(limits, start, end) {
                Err(
                    limit_failure(
                        NdjsonLimitResource::ScalarTokenBytes,
                        end - start,
                        limits.scalar_token_bytes,
                    ),
                )
            } else if has_backslash(source, start + 1, end - 1) {
                match unescaped(source, start + 1, end - 1, progress.decoded) {
                    Err(failure) => Err(failure),
                    Ok(decoded) => Ok(
                        (
                            Progress { offset: end, decoded, ..progress },
                            raw,
                            Some(
                                Span {
                                    start: progress.decoded.len() as usize,
                                    end: decoded.len() as usize,
                                },
                            ),
                        ),
                    ),
                }
            } else if valid_utf8(content) {
                Ok((Progress { offset: end, ..progress }, raw, None))
            } else {
                Err(
                    syntax_failure(
                        JsonSyntaxErrorKind::InvalidUtf8,
                        start + 1 + valid_up_to(content),
                    ),
                )
            }
        },
    }
}

/// Adds one event.
pub open spec fn with_event(progress: Progress, event: StoredEvent) -> Progress {
    Progress { events: progress.events.push(event), ..progress }
}

/// The string value at the current offset.
pub open spec fn string_value(
    source: Seq<u8>,
    limits: NdjsonLimits,
    progress: Progress,
) -> Result<Progress, ParseFailure> {
    match string_token(source, limits, progress) {
        Err(failure) => Err(failure),
        Ok((next, raw, None)) => Ok(with_event(next, StoredEvent::StringSource(raw))),
        Ok((next, raw, Some(decoded))) => Ok(
            with_event(next, StoredEvent::StringDecoded { raw, decoded }),
        ),
    }
}

/// The object key at the current offset.
pub open spec fn object_key(
    source: Seq<u8>,
    limits: NdjsonLimits,
    progress: Progress,
) -> Result<Progress, ParseFailure> {
    if !byte_at(source, progress.offset, QUOTE) {
        Err(syntax_failure(JsonSyntaxErrorKind::ExpectedObjectKey, progress.offset))
    } else {
        match string_token(source, limits, progress) {
            Err(failure) => Err(failure),
            Ok((next, raw, None)) => Ok(with_event(next, StoredEvent::ObjectKeySource(raw))),
            Ok((next, raw, Some(decoded))) => Ok(
                with_event(next, StoredEvent::ObjectKeyDecoded { raw, decoded }),
            ),
        }
    }
}

/// The number value at the current offset.
pub open spec fn number_value(
    source: Seq<u8>,
    limits: NdjsonLimits,
    progress: Progress,
) -> Result<Progress, ParseFailure> {
    let start = progress.offset;
    match number_token(source, start) {
        Err(offset) => Err(
            syntax_failure(
                if offset >= source.len() {
                    JsonSyntaxErrorKind::UnexpectedEnd
                } else {
                    JsonSyntaxErrorKind::InvalidNumber
                },
                offset,
            ),
        ),
        Ok((end, syntax)) => if token_too_long(limits, start, end) {
            Err(
                limit_failure(
                    NdjsonLimitResource::ScalarTokenBytes,
                    end - start,
                    limits.scalar_token_bytes,
                ),
            )
        } else {
            Ok(
                with_event(
                    Progress { offset: end, ..progress },
                    StoredEvent::Number {
                        raw: Span { start: start as usize, end: end as usize },
                        syntax,
                    },
                ),
            )
        },
    }
}

/// Whether `literal` stands at `at`.
pub open spec fn literal_at(source: Seq<u8>, at: int, literal: Seq<u8>) -> bool {
    at + literal.len() <= source.len() && source.subrange(at, at + literal.len()) == literal
}

/// Whether the source ends at a proper prefix of `literal` that stands at `at`.
pub open spec fn literal_cut_off(source: Seq<u8>, at: int, literal: Seq<u8>) -> bool {
    at + literal.len() > source.len() && source.subrange(at, source.len() as int)
        == literal.take(source.len() - at)
}

/// The literal value at the current offset.
pub open spec fn literal_value(
    source: Seq<u8>,
    limits: NdjsonLimits,
    progress: Progress,
    literal: Seq<u8>,
    event: StoredEvent,
) -> Result<Progress, ParseFailure> {
    let start = progress.offset;
    let end = start + literal.len();
    if literal_at(source, start, literal) {
        if token_too_long(limits, start, end) {
            Err(
                limit_failure(
                    NdjsonLimitResource::ScalarTokenBytes,
                    end - start,
                    limits.scalar_token_bytes,
                ),
            )
        } else {
            Ok(with_event(Progress { offset: end, ..progress }, event))
        }
    } else if literal_cut_off(source, start, literal) {
        Err(syntax_failure(JsonSyntaxErrorKind::UnexpectedEnd, start))
    } else {
        Err(syntax_failure(JsonSyntaxErrorKind::InvalidLiteral, start))
    }
}

pub open spec fn true_literal() -> Seq<u8> {
    seq![0x74u8, 0x72, 0x75, 0x65]
}

pub open spec fn false_literal() -> Seq<u8> {
    seq![0x66u8, 0x61, 0x6c, 0x73, 0x65]
}

pub open spec fn null_literal() -> Seq<u8> {
    seq![0x6eu8, 0x75, 0x6c, 0x6c]
}

/// Counts one more value.
pub open spec fn counted(limits: NdjsonLimits, progress: Progress) -> Result<
    Progress,
    ParseFailure,
> {
    let values = progress.values + 1;
    if values > u64::MAX {
        Err(ParseFailure::SizeOverflow)
    } else if values > limits.values {
        Err(limit_failure(NdjsonLimitResource::Values, values, limits.values))
    } else {
        Ok(Progress { values, ..progress })
    }
}

/// What stands at the current offset: a complete scalar, or a container just opened.
pub enum Head {
    Scalar(Progress),
    Object(Progress),
    Array(Progress, int),
    Failed(ParseFailure),
}

pub open spec fn scalar_head(result: Result<Progress, ParseFailure>) -> Head {
    match result {
        Ok(progress) => Head::Scalar(progress),
        Err(failure) => Head::Failed(failure),
    }
}

/// Depth failure of a container opened inside `depth` others.
pub open spec fn depth_failure(limits: NdjsonLimits, depth: int) -> ParseFailure {
    limit_failure(NdjsonLimitResource::NestingDepth, depth + 1, limits.nesting_depth)
}

/// Reads a scalar, or opens a container, inside `depth` open containers.
pub open spec fn value_head(
    source: Seq<u8>,
    limits: NdjsonLimits,
    before: Progress,
    depth: int,
) -> Head {
    let at = skip_space(source, before.offset);
    if at >= source.len() {
        Head::Failed(syntax_failure(JsonSyntaxErrorKind::ExpectedValue, at))
    } else {
        let first = source[at];
        let is_value = first == LEFT_BRACE || first == LEFT_BRACKET || first == QUOTE || first
            == MINUS || digit_at(source, at) || first == 0x74 || first == 0x66 || first == 0x6e;
        if !is_value {
            Head::Failed(syntax_failure(JsonSyntaxErrorKind::ExpectedValue, at))
        } else {
            match counted(limits, Progress { offset: at, ..before }) {
                Err(failure) => Head::Failed(failure),
                Ok(progress) => if first == LEFT_BRACE {
                    if depth + 1 > limits.nesting_depth {
                        Head::Failed(depth_failure(limits, depth))
                    } else {
                        Head::Object(
                            with_event(
                                Progress { offset: at + 1, ..progress },
                                StoredEvent::ObjectStart,
                            ),
                        )
                    }
                } else if first == LEFT_BRACKET {
                    if depth + 1 > limits.nesting_depth {
                        Head::Failed(depth_failure(limits, depth))
                    } else {
                        Head::Array(
                            with_event(
                                Progress { offset: at + 1, ..progress },
                                StoredEvent::ArrayStart(
                                    Span { start: at as usize, end: at as usize },
                                ),
                            ),
                            progress.events.len() as int,
                        )
                    }
                } else if first == QUOTE {
                    scalar_head(string_value(source, limits, progress))
                } else if first == 0x74 {
                    scalar_head(
                        literal_value(
                            source,
                            limits,
                            progress,
                            true_literal(),
                            StoredEvent::Boolean(true),
                        ),
                    )
                } else if first == 0x66 {
                    scalar_head(
                        literal_value(
                            source,
                            limits,
                            progress,
                            false_literal(),
                            StoredEvent::Boolean(false),
                        ),
                    )
                } else if first == 0x6e {
                    scalar_head(
                        literal_value(source, limits, progress, null_literal(), StoredEvent::Null),
                    )
                } else {
                    scalar_head(number_value(source, limits, progress))
                },
            }
        }
    }
}

/// One JSON value inside `depth` open containers.
pub open spec fn value(
    source: Seq<u8>,
    limits: NdjsonLimits,
    before: Progress,
    depth: int,
) -> Result<Progress, ParseFailure>
    decreases source.len() - before.offset, 2int,
{
    match value_head(source, limits, before, depth) {
        Head::Failed(failure) => Err(failure),
        Head::Scalar(progress) => Ok(progress),
        Head::Object(opened) => if before.offset < opened.offset <= source.len() {
            object_start(source, limits, opened, depth + 1)
        } else {
            Err(ParseFailure::SizeOverflow)
        },
        Head::Array(opened, start_event) => if before.offset < opened.offset <= source.len() {
            array_start(source, limits, opened, depth + 1, start_event)
        } else {
            Err(ParseFailure::SizeOverflow)
        },
    }
}

/// An object after its opening brace: its end, or its first member.
pub open spec fn object_start(
    source: Seq<u8>,
    limits: NdjsonLimits,
    before: Progress,
    depth: int,
) -> Result<Progress, ParseFailure>
    decreases source.len() - before.offset, 1int,
{
    let progress = Progress { offset: skip_space(source, before.offset), ..before };
    if byte_at(source, progress.offset, RIGHT_BRACE) {
        Ok(object_closed(progress))
    } else {
        object_member(source, limits, before, depth)
    }
}

/// Closes an object at its brace.
pub open spec fn object_closed(progress: Progress) -> Progress {
    with_event(Progress { offset: progress.offset + 1, ..progress }, StoredEvent::ObjectEnd)
}

/// An object from a member's key on.
pub open spec fn object_member(
    source: Seq<u8>,
    limits: NdjsonLimits,
    before: Progress,
    depth: int,
) -> Result<Progress, ParseFailure>
    decreases source.len() - before.offset, 0int,
{
    let progress = Progress { offset: skip_space(source, before.offset), ..before };
    match object_key(source, limits, progress) {
        Err(failure) => Err(failure),
        Ok(keyed) => if before.offset < keyed.offset <= source.len() {
            object_colon(source, limits, keyed, depth)
        } else {
            Err(ParseFailure::SizeOverflow)
        },
    }
}

/// An object from the colon after a key on.
pub open spec fn object_colon(
    source: Seq<u8>,
    limits: NdjsonLimits,
    before: Progress,
    depth: int,
) -> Result<Progress, ParseFailure>
    decreases source.len() - before.offset, 0int,
{
    let at = skip_space(source, before.offset);
    if !byte_at(source, at, COLON) {
        Err(syntax_failure(JsonSyntaxErrorKind::ExpectedColon, at))
    } else if at + 1 > before.offset {
        object_value(source, limits, Progress { offset: at + 1, ..before }, depth)
    } else {
        Err(ParseFailure::SizeOverflow)
    }
}

/// An object from a member's value on.
pub open spec fn object_value(
    source: Seq<u8>,
    limits: NdjsonLimits,
    before: Progress,
    depth: int,
) -> Result<Progress, ParseFailure>
    decreases source.len() - before.offset, 3int,
{
    match value(source, limits, before, depth) {
        Err(failure) => Err(failure),
        Ok(progress) => if before.offset < progress.offset <= source.len() {
            object_rest(source, limits, progress, depth)
        } else {
            Err(ParseFailure::SizeOverflow)
        },
    }
}

/// An object after a member's value: another member, or its end.
pub open spec fn object_rest(
    source: Seq<u8>,
    limits: NdjsonLimits,
    before: Progress,
    depth: int,
) -> Result<Progress, ParseFailure>
    decreases source.len() - before.offset, 1int,
{
    let progress = Progress { offset: skip_space(source, before.offset), ..before };
    if byte_at(source, progress.offset, COMMA) {
        if progress.offset + 1 > before.offset {
            object_member(
                source,
                limits,
                Progress { offset: progress.offset + 1, ..progress },
                depth,
            )
        } else {
            Err(ParseFailure::SizeOverflow)
        }
    } else if byte_at(source, progress.offset, RIGHT_BRACE) {
        Ok(object_closed(progress))
    } else {
        Err(syntax_failure(JsonSyntaxErrorKind::ExpectedCommaOrEnd, progress.offset))
    }
}

/// Closes an array at its bracket and completes the span of its start event.
pub open spec fn array_closed(progress: Progress, start_event: int) -> Progress {
    let end = progress.offset + 1;
    let start = match progress.events[start_event] {
        StoredEvent::ArrayStart(span) => span.start,
        _ => arbitrary(),
    };
    Progress {
        offset: end,
        events: progress.events.update(
            start_event,
            StoredEvent::ArrayStart(Span { start, end: end as usize }),
        ).push(StoredEvent::ArrayEnd),
        ..progress
    }
}

/// An array after its opening bracket: its end, or its first element.
pub open spec fn array_start(
    source: Seq<u8>,
    limits: NdjsonLimits,
    before: Progress,
    depth: int,
    start_event: int,
) -> Result<Progress, ParseFailure>
    decreases source.len() - before.offset, 4int,
{
    let progress = Progress { offset: skip_space(source, before.offset), ..before };
    if byte_at(source, progress.offset, RIGHT_BRACKET) {
        Ok(array_closed(progress, start_event))
    } else {
        array_element(source, limits, before, depth, start_event)
    }
}

/// An array from an element on.
pub open spec fn array_element(
    source: Seq<u8>,
    limits: NdjsonLimits,
    before: Progress,
    depth: int,
    start_event: int,
) -> Result<Progress, ParseFailure>
    decreases source.len() - before.offset, 3int,
{
    match value(source, limits, before, depth) {
        Err(failure) => Err(failure),
        Ok(progress) => if before.offset < progress.offset <= source.len() {
            array_rest(source, limits, progress, depth, start_event)
        } else {
            Err(ParseFailure::SizeOverflow)
        },
    }
}

/// An array after an element: another element, or its end.
pub open spec fn array_rest(
    source: Seq<u8>,
    limits: NdjsonLimits,
    before: Progress,
    depth: int,
    start_event: int,
) -> Result<Progress, ParseFailure>
    decreases source.len() - before.offset, 1int,
{
    let progress = Progress { offset: skip_space(source, before.offset), ..before };
    if byte_at(source, progress.offset, COMMA) {
        if progress.offset + 1 > before.offset {
            array_element(
                source,
                limits,
                Progress { offset: progress.offset + 1, ..progress },
                depth,
                start_event,
            )
        } else {
            Err(ParseFailure::SizeOverflow)
        }
    } else if byte_at(source, progress.offset, RIGHT_BRACKET) {
        Ok(array_closed(progress, start_event))
    } else {
        Err(syntax_failure(JsonSyntaxErrorKind::ExpectedCommaOrEnd, progress.offset))
    }
}

/// Nothing read, nothing produced.
pub open spec fn fresh_progress() -> Progress {
    Progress { offset: 0, values: 0, events: Seq::empty(), decoded: Seq::empty() }
}

/// The first JSON value of `source`, whatever follows it.
pub open spec fn document_prefix(source: Seq<u8>, limits: NdjsonLimits) -> Result<
    Progress,
    ParseFailure,
> {
    value(source, limits, fresh_progress(), 0)
}

/// The one JSON value that `source` holds, with nothing but whitespace around it.
pub open spec fn document(source: Seq<u8>, limits: NdjsonLimits) -> Result<
    Progress,
    ParseFailure,
> {
    match document_prefix(source, limits) {
        Err(failure) => Err(failure),
        Ok(progress) => {
            let end = skip_space(source, progress.offset);
            if end == source.len() {
                Ok(Progress { offset: end, ..progress })
            } else {
                Err(syntax_failure(JsonSyntaxErrorKind::TrailingCharacters, end))
            }
        },
    }
}

} // verus!

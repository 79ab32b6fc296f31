//! Physical-line JSON records: limits, errors, borrowed events, and the line reader.

use vstd::prelude::*;
use vstd::slice::slice_subrange;
use vstd::string::StringSliceAdditionalSpecFns;
use vstd::utf8::valid_utf8;

use crate::grammar::{document, Progress};
use crate::number::ValidatedJsonNumberSyntax;
use crate::parser::{
    event_ok, events_ok, parse_document, ParseFailure, ParserBuffers, Span, StoredEvent,
};
use crate::parse_memory::document_request;
use crate::text::{
    append_slice, capacity_of, is_json_space, is_json_whitespace, skip_space, utf8_text, LINE_FEED,
};

verus! {

/// Hard limits for one record.
#[derive(Clone, Copy, Debug, PartialEq, Eq, Structural)]
pub struct NdjsonLimits {
    pub record_bytes: u64,
    pub nesting_depth: u64,
    pub values: u64,
    pub scalar_token_bytes: u64,
}

impl NdjsonLimits {
    /// Creates an explicit limit set.
    pub fn new(
        max_record_bytes: u64,
        max_nesting_depth: u64,
        max_values: u64,
        max_scalar_token_bytes: u64,
    ) -> (limits: Self)
        ensures
            limits == (NdjsonLimits {
                record_bytes: max_record_bytes,
                nesting_depth: max_nesting_depth,
                values: max_values,
                scalar_token_bytes: max_scalar_token_bytes,
            }),
    {
        NdjsonLimits {
            record_bytes: max_record_bytes,
            nesting_depth: max_nesting_depth,
            values: max_values,
            scalar_token_bytes: max_scalar_token_bytes,
        }
    }

    /// Returns the maximum physical-line payload bytes, excluding LF.
    pub fn max_record_bytes(self) -> (limit: u64)
        ensures
            limit == self.record_bytes,
    {
        self.record_bytes
    }

    /// Returns the maximum object and array depth.
    pub fn max_nesting_depth(self) -> (limit: u64)
        ensures
            limit == self.nesting_depth,
    {
        self.nesting_depth
    }

    /// Returns the maximum number of JSON values.
    pub fn max_values(self) -> (limit: u64)
        ensures
            limit == self.values,
    {
        self.values
    }

    /// Returns the maximum raw bytes in one scalar token.
    pub fn max_scalar_token_bytes(self) -> (limit: u64)
        ensures
            limit == self.scalar_token_bytes,
    {
        self.scalar_token_bytes
    }
}

/// The conservative default limits.
pub open spec fn default_ndjson_limits() -> NdjsonLimits {
    NdjsonLimits {
        record_bytes: 0x100_0000,
        nesting_depth: 256,
        values: 1_000_000,
        scalar_token_bytes: 0x80_0000,
    }
}

impl Default for NdjsonLimits {
    fn default() -> (limits: Self)
        ensures
            limits == default_ndjson_limits(),
    {
        NdjsonLimits::new(16 * 1024 * 1024, 256, 1_000_000, 8 * 1024 * 1024)
    }
}

/// Resource protected by a record limit.
#[derive(Clone, Copy, Debug, PartialEq, Eq, Structural)]
#[non_exhaustive]
pub enum NdjsonLimitResource {
    RecordBytes,
    NestingDepth,
    Values,
    ScalarTokenBytes,
}

impl NdjsonLimitResource {
    /// Human-readable description.
    pub fn description(self) -> (text: &'static str)
        ensures
            text@ == (match self {
                NdjsonLimitResource::RecordBytes => "record bytes"@,
                NdjsonLimitResource::NestingDepth => "JSON nesting depth"@,
                NdjsonLimitResource::Values => "JSON values"@,
                NdjsonLimitResource::ScalarTokenBytes => "JSON scalar token bytes"@,
            }),
    {
        match self {
            NdjsonLimitResource::RecordBytes => "record bytes",
            NdjsonLimitResource::NestingDepth => "JSON nesting depth",
            NdjsonLimitResource::Values => "JSON values",
            NdjsonLimitResource::ScalarTokenBytes => "JSON scalar token bytes",
        }
    }
}

/// Exact record limit violation.
#[derive(Clone, Copy, Debug, PartialEq, Eq, Structural)]
pub struct NdjsonLimitViolation {
    pub resource: NdjsonLimitResource,
    pub actual: u64,
    pub limit: u64,
}

impl NdjsonLimitViolation {
    pub fn new(resource: NdjsonLimitResource, actual: u64, limit: u64) -> (violation: Self)
        ensures
            violation == (NdjsonLimitViolation { resource, actual, limit }),
    {
        NdjsonLimitViolation { resource, actual, limit }
    }

    /// Returns the bounded resource.
    pub fn resource(self) -> (resource: NdjsonLimitResource)
        ensures
            resource == self.resource,
    {
        self.resource
    }

    /// Returns the first rejected value.
    pub fn actual(self) -> (actual: u64)
        ensures
            actual == self.actual,
    {
        self.actual
    }

    /// Returns the configured maximum.
    pub fn limit(self) -> (limit: u64)
        ensures
            limit == self.limit,
    {
        self.limit
    }
}

/// Why a JSON document is not well formed.
#[derive(Clone, Copy, Debug, PartialEq, Eq, Structural)]
#[non_exhaustive]
pub enum JsonSyntaxErrorKind {
    ExpectedObject,
    ExpectedValue,
    ExpectedObjectKey,
    ExpectedColon,
    ExpectedCommaOrEnd,
    UnexpectedEnd,
    TrailingCharacters,
    InvalidLiteral,
    InvalidNumber,
    InvalidEscape,
    InvalidUnicodeEscape,
    UnpairedSurrogate,
    UnescapedControlCharacter,
    InvalidUtf8,
}

impl JsonSyntaxErrorKind {
    /// Human-readable description.
    pub fn description(self) -> (text: &'static str)
        ensures
            text@ == (match self {
                JsonSyntaxErrorKind::ExpectedObject => "expected a JSON object"@,
                JsonSyntaxErrorKind::ExpectedValue => "expected a JSON value"@,
                JsonSyntaxErrorKind::ExpectedObjectKey => "expected a quoted object key"@,
                JsonSyntaxErrorKind::ExpectedColon => "expected ':' after object key"@,
                JsonSyntaxErrorKind::ExpectedCommaOrEnd => "expected ',' or a closing delimiter"@,
                JsonSyntaxErrorKind::UnexpectedEnd => "unexpected end of record"@,
                JsonSyntaxErrorKind::TrailingCharacters => "trailing characters after root JSON value"@,
                JsonSyntaxErrorKind::InvalidLiteral => "invalid JSON literal"@,
                JsonSyntaxErrorKind::InvalidNumber => "invalid JSON number"@,
                JsonSyntaxErrorKind::InvalidEscape => "invalid JSON string escape"@,
                JsonSyntaxErrorKind::InvalidUnicodeEscape => "invalid JSON Unicode escape"@,
                JsonSyntaxErrorKind::UnpairedSurrogate => "unpaired JSON Unicode surrogate"@,
                JsonSyntaxErrorKind::UnescapedControlCharacter => "unescaped control byte in JSON string"@,
                JsonSyntaxErrorKind::InvalidUtf8 => "invalid UTF-8 in JSON string"@,
            }),
    {
        match self {
            JsonSyntaxErrorKind::ExpectedObject => "expected a JSON object",
            JsonSyntaxErrorKind::ExpectedValue => "expected a JSON value",
            JsonSyntaxErrorKind::ExpectedObjectKey => "expected a quoted object key",
            JsonSyntaxErrorKind::ExpectedColon => "expected ':' after object key",
            JsonSyntaxErrorKind::ExpectedCommaOrEnd => "expected ',' or a closing delimiter",
            JsonSyntaxErrorKind::UnexpectedEnd => "unexpected end of record",
            JsonSyntaxErrorKind::TrailingCharacters => "trailing characters after root JSON value",
            JsonSyntaxErrorKind::InvalidLiteral => "invalid JSON literal",
            JsonSyntaxErrorKind::InvalidNumber => "invalid JSON number",
            JsonSyntaxErrorKind::InvalidEscape => "invalid JSON string escape",
            JsonSyntaxErrorKind::InvalidUnicodeEscape => "invalid JSON Unicode escape",
            JsonSyntaxErrorKind::UnpairedSurrogate => "unpaired JSON Unicode surrogate",
            JsonSyntaxErrorKind::UnescapedControlCharacter => "unescaped control byte in JSON string",
            JsonSyntaxErrorKind::InvalidUtf8 => "invalid UTF-8 in JSON string",
        }
    }
}

/// Syntax error located within its document.
#[derive(Clone, Copy, Debug, PartialEq, Eq, Structural)]
pub struct JsonSyntaxError {
    pub offset: usize,
    pub kind: JsonSyntaxErrorKind,
}

impl JsonSyntaxError {
    pub fn new(offset: usize, kind: JsonSyntaxErrorKind) -> (error: Self)
        ensures
            error == (JsonSyntaxError { offset, kind }),
    {
        JsonSyntaxError { offset, kind }
    }

    /// Returns the zero-based offset within the document.
    pub fn byte_offset(self) -> (offset: usize)
        ensures
            offset == self.offset,
    {
        self.offset
    }

    /// Returns the failure kind.
    pub fn kind(self) -> (kind: JsonSyntaxErrorKind)
        ensures
            kind == self.kind,
    {
        self.kind
    }
}

/// Why one record was rejected.
#[derive(Clone, Copy, Debug, PartialEq, Eq, Structural)]
#[non_exhaustive]
pub enum NdjsonInvalidRecordKind {
    Syntax(JsonSyntaxError),
    Limit(NdjsonLimitViolation),
}

/// Reader-owned buffer that could not be grown.
#[derive(Clone, Copy, Debug, PartialEq, Eq, Structural)]
#[non_exhaustive]
pub enum NdjsonResource {
    RecordBuffer,
    Events,
    DecodedStrings,
    ParserStack,
}

impl NdjsonResource {
    /// Human-readable description.
    pub fn description(self) -> (text: &'static str)
        ensures
            text@ == (match self {
                NdjsonResource::RecordBuffer => "NDJSON record buffer"@,
                NdjsonResource::Events => "NDJSON event buffer"@,
                NdjsonResource::DecodedStrings => "decoded JSON string buffer"@,
                NdjsonResource::ParserStack => "JSON parser stack"@,
            }),
    {
        match self {
            NdjsonResource::RecordBuffer => "NDJSON record buffer",
            NdjsonResource::Events => "NDJSON event buffer",
            NdjsonResource::DecodedStrings => "decoded JSON string buffer",
            NdjsonResource::ParserStack => "JSON parser stack",
        }
    }
}

/// One rejected record, located in its stream.
#[derive(Clone, Copy, Debug, PartialEq, Eq, Structural)]
pub struct NdjsonInvalidRecord {
    pub line_number: u64,
    pub input_offset: u64,
    pub kind: NdjsonInvalidRecordKind,
}

impl NdjsonInvalidRecord {
    pub fn new(line_number: u64, input_offset: u64, kind: NdjsonInvalidRecordKind) -> (invalid:
        Self)
        ensures
            invalid == (NdjsonInvalidRecord { line_number, input_offset, kind }),
    {
        NdjsonInvalidRecord { line_number, input_offset, kind }
    }

    /// Returns the one-based physical line number.
    pub fn line_number(self) -> (line_number: u64)
        ensures
            line_number == self.line_number,
    {
        self.line_number
    }

    /// Returns the zero-based stream offset of the physical line.
    pub fn input_offset(self) -> (input_offset: u64)
        ensures
            input_offset == self.input_offset,
    {
        self.input_offset
    }

    /// Returns why the record was rejected.
    pub fn kind(self) -> (kind: NdjsonInvalidRecordKind)
        ensures
            kind == self.kind,
    {
        self.kind
    }
}

/// What a reader does with an invalid record.
#[derive(Clone, Copy, Debug, PartialEq, Eq, Structural)]
#[non_exhaustive]
pub enum InvalidRecordPolicy {
    /// Report the first invalid record.
    Stop,
    /// Count the record as skipped and resume at the next physical line.
    Skip,
}

impl Default for InvalidRecordPolicy {
    fn default() -> (policy: Self)
        ensures
            policy == InvalidRecordPolicy::Stop,
    {
        InvalidRecordPolicy::Stop
    }
}

/// Reader configuration.
#[derive(Clone, Copy, Debug, PartialEq, Eq, Structural)]
pub struct NdjsonOptions {
    pub limits: NdjsonLimits,
    pub invalid_records: InvalidRecordPolicy,
}

impl NdjsonOptions {
    /// Creates options with the default limits that stop at the first invalid record.
    pub fn new() -> (options: Self)
        ensures
            options == (NdjsonOptions {
                limits: default_ndjson_limits(),
                invalid_records: InvalidRecordPolicy::Stop,
            }),
    {
        NdjsonOptions {
            limits: NdjsonLimits::default(),
            invalid_records: InvalidRecordPolicy::Stop,
        }
    }

    /// Replaces all limits.
    pub fn with_limits(self, limits: NdjsonLimits) -> (options: Self)
        ensures
            options == (NdjsonOptions { limits, ..self }),
    {
        NdjsonOptions { limits, ..self }
    }

    /// Replaces the invalid-record policy.
    pub fn with_invalid_record_policy(self, policy: InvalidRecordPolicy) -> (options: Self)
        ensures
            options == (NdjsonOptions { invalid_records: policy, ..self }),
    {
        NdjsonOptions { invalid_records: policy, ..self }
    }

    /// Returns the limits.
    pub fn limits(self) -> (limits: NdjsonLimits)
        ensures
            limits == self.limits,
    {
        self.limits
    }

    /// Returns the invalid-record policy.
    pub fn invalid_record_policy(self) -> (policy: InvalidRecordPolicy)
        ensures
            policy == self.invalid_records,
    {
        self.invalid_records
    }
}

impl Default for NdjsonOptions {
    fn default() -> (options: Self)
        ensures
            options == (NdjsonOptions {
                limits: default_ndjson_limits(),
                invalid_records: InvalidRecordPolicy::Stop,
            }),
    {
        NdjsonOptions::new()
    }
}

/// Framing, parsing, accounting, or allocation failure.
#[derive(Clone, Copy, Debug, PartialEq, Eq, Structural)]
#[non_exhaustive]
pub enum NdjsonError {
    /// A record was rejected and the policy is to stop.
    InvalidRecord(NdjsonInvalidRecord),
    /// A buffer could not be grown.
    AllocationFailed { resource: NdjsonResource, requested_additional: usize },
    /// A stream counter could not be represented as `u64`.
    SizeOverflow,
}

/// Reader or caller-owned sink failure.
#[derive(Debug)]
#[non_exhaustive]
pub enum NdjsonReadError<E> {
    /// Framing, parsing, accounting, or allocation failed before a sink call.
    Reader(NdjsonError),
    /// The sink rejected a valid borrowed record.
    Sink { line_number: u64, record_index: u64, source: E },
}

/// One JSON string or object key: its exact quoted token and its text, which is valid UTF-8.
#[derive(Clone, Copy, Debug)]
pub struct JsonString<'a> {
    raw_json: &'a [u8],
    decoded: &'a [u8],
}

impl<'a> JsonString<'a> {
    #[verifier::type_invariant]
    spec fn text_is_utf8(self) -> bool {
        valid_utf8(self.decoded@)
    }

    pub closed spec fn raw(self) -> Seq<u8> {
        self.raw_json@
    }

    pub closed spec fn text(self) -> Seq<u8> {
        self.decoded@
    }

    /// Joins a token and its text.
    pub fn new_bytes(raw_json: &'a [u8], decoded: &'a [u8]) -> (string: Self)
        requires
            valid_utf8(decoded@),
        ensures
            string.raw() == raw_json@,
            string.text() == decoded@,
    {
        JsonString { raw_json, decoded }
    }

    /// Returns the exact quoted JSON token, including escapes and quote delimiters.
    pub fn raw_json(self) -> (raw: &'a [u8])
        ensures
            raw@ == self.raw(),
    {
        self.raw_json
    }

    /// Returns the decoded Unicode text.
    pub fn decoded(self) -> (text: &'a str)
        ensures
            text.spec_bytes() == self.text(),
    {
        proof {
            use_type_invariant(self);
        }
        match utf8_text(self.decoded) {
            Ok(text) => text,
            Err(_) => "",
        }
    }

    /// Returns the decoded UTF-8 bytes without revalidating them.
    pub fn decoded_bytes(self) -> (bytes: &'a [u8])
        ensures
            bytes@ == self.text(),
    {
        self.decoded
    }
}

/// One validated JSON array by its exact source lexeme, both brackets included.
#[derive(Clone, Copy, Debug)]
pub struct JsonArrayRef<'a> {
    raw_json: &'a [u8],
}

impl<'a> JsonArrayRef<'a> {
    pub closed spec fn raw(self) -> Seq<u8> {
        self.raw_json@
    }

    pub fn new(raw_json: &'a [u8]) -> (array: Self)
        ensures
            array.raw() == raw_json@,
    {
        JsonArrayRef { raw_json }
    }

    /// Returns the exact validated array token, including both delimiters.
    pub fn raw_json(self) -> (raw: &'a [u8])
        ensures
            raw@ == self.raw(),
    {
        self.raw_json
    }
}

/// One event in a flat, balanced traversal of a JSON document.
#[derive(Clone, Copy, Debug)]
#[non_exhaustive]
pub enum JsonEvent<'a> {
    ObjectStart,
    ObjectEnd,
    ArrayStart(JsonArrayRef<'a>),
    ArrayEnd,
    ObjectKey(JsonString<'a>),
    String(JsonString<'a>),
    Number(&'a [u8]),
    Boolean(bool),
    Null,
}

/// What an event says, as mathematical sequences.
pub enum EventView {
    ObjectStart,
    ObjectEnd,
    ArrayStart { raw: Seq<u8> },
    ArrayEnd,
    ObjectKey { raw: Seq<u8>, text: Seq<u8> },
    String { raw: Seq<u8>, text: Seq<u8> },
    Number { raw: Seq<u8> },
    Boolean(bool),
    Null,
}

impl<'a> View for JsonEvent<'a> {
    type V = EventView;

    open spec fn view(&self) -> EventView {
        match *self {
            JsonEvent::ObjectStart => EventView::ObjectStart,
            JsonEvent::ObjectEnd => EventView::ObjectEnd,
            JsonEvent::ArrayStart(array) => EventView::ArrayStart { raw: array.raw() },
            JsonEvent::ArrayEnd => EventView::ArrayEnd,
            JsonEvent::ObjectKey(key) => EventView::ObjectKey { raw: key.raw(), text: key.text() },
            JsonEvent::String(string) => EventView::String {
                raw: string.raw(),
                text: string.text(),
            },
            JsonEvent::Number(raw) => EventView::Number { raw: raw@ },
            JsonEvent::Boolean(value) => EventView::Boolean(value),
            JsonEvent::Null => EventView::Null,
        }
    }
}

/// The bytes of a span.
pub open spec fn span_bytes(span: Span, bytes: Seq<u8>) -> Seq<u8> {
    bytes.subrange(span.start as int, span.end as int)
}

/// The bytes between the quotes of a raw string span.
pub open spec fn inner_bytes(span: Span, bytes: Seq<u8>) -> Seq<u8> {
    bytes.subrange(span.start + 1, span.end - 1)
}

/// What a stored event says of its source and its decoded text.
pub open spec fn resolved_event(event: StoredEvent, source: Seq<u8>, decoded: Seq<u8>) -> EventView {
    match event {
        StoredEvent::ObjectStart => EventView::ObjectStart,
        StoredEvent::ObjectEnd => EventView::ObjectEnd,
        StoredEvent::ArrayStart(raw) => EventView::ArrayStart { raw: span_bytes(raw, source) },
        StoredEvent::ArrayEnd => EventView::ArrayEnd,
        StoredEvent::ObjectKeySource(raw) => EventView::ObjectKey {
            raw: span_bytes(raw, source),
            text: inner_bytes(raw, source),
        },
        StoredEvent::ObjectKeyDecoded { raw, decoded: text } => EventView::ObjectKey {
            raw: span_bytes(raw, source),
            text: span_bytes(text, decoded),
        },
        StoredEvent::StringSource(raw) => EventView::String {
            raw: span_bytes(raw, source),
            text: inner_bytes(raw, source),
        },
        StoredEvent::StringDecoded { raw, decoded: text } => EventView::String {
            raw: span_bytes(raw, source),
            text: span_bytes(text, decoded),
        },
        StoredEvent::Number { raw, .. } => EventView::Number { raw: span_bytes(raw, source) },
        StoredEvent::Boolean(value) => EventView::Boolean(value),
        StoredEvent::Null => EventView::Null,
    }
}

impl Span {
    /// The bytes of the span.
    pub fn bytes(self, source: &[u8]) -> (bytes: &[u8])
        requires
            self.start <= self.end <= source@.len(),
        ensures
            bytes@ == span_bytes(self, source@),
    {
        slice_subrange(source, self.start, self.end)
    }

    /// The bytes between the quotes of a raw string token.
    pub fn inner_bytes(self, source: &[u8]) -> (bytes: &[u8])
        requires
            self.start + 2 <= self.end <= source@.len(),
        ensures
            bytes@ == inner_bytes(self, source@),
    {
        assert(source@.len() == source.len());
        slice_subrange(source, self.start + 1, self.end - 1)
    }
}

impl StoredEvent {
    /// Borrows what the event says from its source and its decoded text.
    pub fn resolve<'a>(self, raw_json: &'a [u8], decoded: &'a [u8]) -> (event: JsonEvent<'a>)
        requires
            event_ok(self, raw_json@, decoded@),
        ensures
            event@ == resolved_event(self, raw_json@, decoded@),
    {
        match self {
            StoredEvent::ObjectStart => JsonEvent::ObjectStart,
            StoredEvent::ObjectEnd => JsonEvent::ObjectEnd,
            StoredEvent::ArrayStart(raw) => JsonEvent::ArrayStart(
                JsonArrayRef::new(raw.bytes(raw_json)),
            ),
            StoredEvent::ArrayEnd => JsonEvent::ArrayEnd,
            StoredEvent::ObjectKeySource(raw) => JsonEvent::ObjectKey(
                JsonString::new_bytes(raw.bytes(raw_json), raw.inner_bytes(raw_json)),
            ),
            StoredEvent::ObjectKeyDecoded { raw, decoded: text } => JsonEvent::ObjectKey(
                JsonString::new_bytes(raw.bytes(raw_json), text.bytes(decoded)),
            ),
            StoredEvent::StringSource(raw) => JsonEvent::String(
                JsonString::new_bytes(raw.bytes(raw_json), raw.inner_bytes(raw_json)),
            ),
            StoredEvent::StringDecoded { raw, decoded: text } => JsonEvent::String(
                JsonString::new_bytes(raw.bytes(raw_json), text.bytes(decoded)),
            ),
            StoredEvent::Number { raw, .. } => JsonEvent::Number(raw.bytes(raw_json)),
            StoredEvent::Boolean(value) => JsonEvent::Boolean(value),
            StoredEvent::Null => JsonEvent::Null,
        }
    }

    /// The syntax of a number event.
    pub fn number_syntax(self) -> (syntax: Option<ValidatedJsonNumberSyntax>)
        ensures
            syntax == (match self {
                StoredEvent::Number { syntax, .. } => Some(syntax),
                _ => None,
            }),
    {
        match self {
            StoredEvent::Number { syntax, .. } => Some(syntax),
            _ => None,
        }
    }
}

/// Cursor over one record's borrowed flat events.
#[derive(Debug)]
pub struct JsonEvents<'a> {
    raw_json: &'a [u8],
    decoded: &'a [u8],
    events: &'a [StoredEvent],
    position: usize,
}

impl<'a> JsonEvents<'a> {
    #[verifier::type_invariant]
    spec fn wf(self) -> bool {
        &&& self.position <= self.events@.len()
        &&& events_ok(self.events@, self.raw_json@, self.decoded@)
    }

    pub closed spec fn source(&self) -> Seq<u8> {
        self.raw_json@
    }

    pub closed spec fn text(&self) -> Seq<u8> {
        self.decoded@
    }

    /// The events that are still to come.
    pub closed spec fn remaining(&self) -> Seq<StoredEvent> {
        self.events@.skip(self.position as int)
    }

    /// Starts at the first event.
    pub fn new(raw_json: &'a [u8], decoded: &'a [u8], events: &'a [StoredEvent]) -> (cursor: Self)
        requires
            events_ok(events@, raw_json@, decoded@),
        ensures
            cursor.source() == raw_json@,
            cursor.text() == decoded@,
            cursor.remaining() == events@,
    {
        assert(events@.skip(0) =~= events@);
        JsonEvents { raw_json, decoded, events, position: 0 }
    }

    /// Returns the next event as it is stored, and moves past it.
    pub fn next_stored(&mut self) -> (event: Option<StoredEvent>)
        ensures
            final(self).source() == old(self).source(),
            final(self).text() == old(self).text(),
            match event {
                Some(event) => old(self).remaining().len() > 0 && event == old(self).remaining()[0]
                    && final(self).remaining() == old(self).remaining().skip(1) && event_ok(
                    event,
                    old(self).source(),
                    old(self).text(),
                ),
                None => old(self).remaining().len() == 0 && final(self).remaining() == old(self).remaining(),
            },
    {
        proof {
            use_type_invariant(&*self);
        }
        if self.position < self.events.len() {
            let event = self.events[self.position];
            self.position = self.position + 1;
            proof {
                assert(self.events@.skip(self.position as int) =~= old(self).events@.skip(
                    old(self).position as int,
                ).skip(1));
            }
            Some(event)
        } else {
            None
        }
    }

    /// Returns the next event with the syntax of its number, and moves past it.
    pub fn next_with_number_syntax(&mut self) -> (event: Option<
        (JsonEvent<'a>, Option<ValidatedJsonNumberSyntax>),
    >)
        ensures
            final(self).source() == old(self).source(),
            final(self).text() == old(self).text(),
            match event {
                Some((event, syntax)) => {
                    &&& old(self).remaining().len() > 0
                    &&& event@ == resolved_event(
                        old(self).remaining()[0],
                        old(self).source(),
                        old(self).text(),
                    )
                    &&& syntax == (match old(self).remaining()[0] {
                        StoredEvent::Number { syntax, .. } => Some(syntax),
                        _ => None,
                    })
                    &&& final(self).remaining() == old(self).remaining().skip(1)
                },
                None => old(self).remaining().len() == 0 && final(self).remaining() == old(self).remaining(),
            },
    {
        let raw_json = self.raw_json;
        let decoded = self.decoded;
        match self.next_stored() {
            Some(stored) => Some((stored.resolve(raw_json, decoded), stored.number_syntax())),
            None => None,
        }
    }

    /// Returns the next event, and moves past it.
    pub fn next(&mut self) -> (event: Option<JsonEvent<'a>>)
        ensures
            final(self).source() == old(self).source(),
            final(self).text() == old(self).text(),
            match event {
                Some(event) => old(self).remaining().len() > 0 && event@ == resolved_event(
                    old(self).remaining()[0],
                    old(self).source(),
                    old(self).text(),
                ) && final(self).remaining() == old(self).remaining().skip(1),
                None => old(self).remaining().len() == 0 && final(self).remaining() == old(self).remaining(),
            },
    {
        match self.next_with_number_syntax() {
            Some((event, _)) => Some(event),
            None => None,
        }
    }

    /// Number of events that are still to come.
    pub fn len(&self) -> (length: usize)
        ensures
            length == self.remaining().len(),
    {
        proof {
            use_type_invariant(self);
        }
        self.events.len() - self.position
    }
}

impl<'a> Clone for JsonEvents<'a> {
    fn clone(&self) -> (cursor: Self)
        ensures
            cursor.source() == self.source(),
            cursor.text() == self.text(),
            cursor.remaining() == self.remaining(),
    {
        proof {
            use_type_invariant(self);
        }
        JsonEvents {
            raw_json: self.raw_json,
            decoded: self.decoded,
            events: self.events,
            position: self.position,
        }
    }
}

/// One complete valid physical-line JSON record, borrowed for a sink call.
///
/// The physical line excludes LF but retains all other bytes; the JSON document view removes
/// surrounding JSON whitespace.
#[derive(Clone, Copy, Debug)]
pub struct NdjsonRecord<'a> {
    line_bytes: &'a [u8],
    json_bytes: &'a [u8],
    decoded: &'a [u8],
    events: &'a [StoredEvent],
    line_number: u64,
    input_offset: u64,
    record_index: u64,
}

/// What a record says.
pub struct RecordView {
    pub line: Seq<u8>,
    pub json: Seq<u8>,
    pub decoded: Seq<u8>,
    pub events: Seq<StoredEvent>,
    pub line_number: u64,
    pub input_offset: u64,
    pub record_index: u64,
}

impl<'a> View for NdjsonRecord<'a> {
    type V = RecordView;

    closed spec fn view(&self) -> RecordView {
        RecordView {
            line: self.line_bytes@,
            json: self.json_bytes@,
            decoded: self.decoded@,
            events: self.events@,
            line_number: self.line_number,
            input_offset: self.input_offset,
            record_index: self.record_index,
        }
    }
}

impl<'a> NdjsonRecord<'a> {
    #[verifier::type_invariant]
    spec fn wf(self) -> bool {
        events_ok(self.events@, self.json_bytes@, self.decoded@)
    }

    /// Returns the exact physical-line payload, excluding LF.
    pub fn line_bytes(self) -> (bytes: &'a [u8])
        ensures
            bytes@ == self@.line,
    {
        self.line_bytes
    }

    /// Returns the complete JSON document without surrounding JSON whitespace.
    pub fn json_bytes(self) -> (bytes: &'a [u8])
        ensures
            bytes@ == self@.json,
    {
        self.json_bytes
    }

    /// Returns the record's balanced, depth-first flat events.
    pub fn events(self) -> (events: JsonEvents<'a>)
        ensures
            events.source() == self@.json,
            events.text() == self@.decoded,
            events.remaining() == self@.events,
    {
        proof {
            use_type_invariant(self);
        }
        JsonEvents::new(self.json_bytes, self.decoded, self.events)
    }

    /// Returns the one-based source physical line number.
    pub fn line_number(self) -> (line_number: u64)
        ensures
            line_number == self@.line_number,
    {
        self.line_number
    }

    /// Returns the zero-based stream offset of the physical line.
    pub fn input_offset(self) -> (input_offset: u64)
        ensures
            input_offset == self@.input_offset,
    {
        self.input_offset
    }

    /// Returns the zero-based index among successfully accepted sink records.
    pub fn record_index(self) -> (record_index: u64)
        ensures
            record_index == self@.record_index,
    {
        self.record_index
    }
}

/// Synchronous destination for complete borrowed NDJSON records.
///
/// The reader calls the sink only after framing, syntax, UTF-8, and all configured limits have
/// been validated.
pub trait NdjsonRecordSink {
    /// Caller-selected sink error.
    type Error;

    /// Whether a sink may become `after` and answer `accepted` when it is handed `record`.
    ///
    /// A sink whose behaviour is not of interest leaves this as it is.
    open spec fn takes(
        &self,
        record: RecordView,
        after: &Self,
        accepted: Result<(), Self::Error>,
    ) -> bool {
        true
    }

    /// Accepts one complete borrowed record.
    fn write_record(&mut self, record: NdjsonRecord<'_>) -> (accepted: Result<(), Self::Error>)
        ensures
            old(self).takes(record@, final(self), accepted),
    ;
}

/// Successful physical-line ingestion counters.
#[derive(Clone, Copy, Debug, PartialEq, Eq, Structural)]
pub struct NdjsonStats {
    pub input_bytes: u64,
    pub physical_lines: u64,
    pub blank_lines: u64,
    pub skipped_invalid_records: u64,
    pub records: u64,
}

impl Default for NdjsonStats {
    fn default() -> (stats: Self)
        ensures
            stats == (NdjsonStats {
                input_bytes: 0,
                physical_lines: 0,
                blank_lines: 0,
                skipped_invalid_records: 0,
                records: 0,
            }),
    {
        NdjsonStats {
            input_bytes: 0,
            physical_lines: 0,
            blank_lines: 0,
            skipped_invalid_records: 0,
            records: 0,
        }
    }
}

impl NdjsonStats {
    /// Returns bytes consumed from the input, including LF terminators.
    pub fn input_bytes(self) -> (count: u64)
        ensures
            count == self.input_bytes,
    {
        self.input_bytes
    }

    /// Returns complete physical lines consumed, including blank and invalid lines.
    pub fn physical_lines(self) -> (count: u64)
        ensures
            count == self.physical_lines,
    {
        self.physical_lines
    }

    /// Returns whitespace-only physical lines ignored by the reader.
    pub fn blank_lines(self) -> (count: u64)
        ensures
            count == self.blank_lines,
    {
        self.blank_lines
    }

    /// Returns invalid physical records discarded under [`InvalidRecordPolicy::Skip`].
    pub fn skipped_invalid_records(self) -> (count: u64)
        ensures
            count == self.skipped_invalid_records,
    {
        self.skipped_invalid_records
    }

    /// Returns valid records whose sink call completed successfully.
    pub fn records(self) -> (count: u64)
        ensures
            count == self.records,
    {
        self.records
    }
}

/// Index of the first line feed at or after `at`, or the length.
pub open spec fn line_end(bytes: Seq<u8>, at: int) -> int
    decreases bytes.len() - at,
{
    if 0 <= at < bytes.len() && bytes[at] != LINE_FEED {
        line_end(bytes, at + 1)
    } else {
        at
    }
}

/// End of the bytes before the whitespace that ends `bytes[..end]`.
pub open spec fn trimmed_end(bytes: Seq<u8>, end: int) -> int
    decreases end,
{
    if 0 < end <= bytes.len() && is_json_space(bytes[end - 1]) {
        trimmed_end(bytes, end - 1)
    } else {
        end
    }
}

/// Range of a line without the JSON whitespace around it, if anything is left.
pub open spec fn trimmed(bytes: Seq<u8>) -> Option<(int, int)> {
    let start = skip_space(bytes, 0);
    if start >= bytes.len() {
        None
    } else {
        Some((start, trimmed_end(bytes, bytes.len() as int)))
    }
}

/// What one complete physical line is.
pub enum LineMeaning {
    Blank,
    Invalid(NdjsonInvalidRecordKind),
    Record { start: int, end: int, progress: Progress },
    SizeOverflow,
}

/// The meaning of one complete physical line.
pub open spec fn line_meaning(line: Seq<u8>, limits: NdjsonLimits) -> LineMeaning {
    if line.len() > limits.record_bytes {
        LineMeaning::Invalid(
            NdjsonInvalidRecordKind::Limit(
                NdjsonLimitViolation {
                    resource: NdjsonLimitResource::RecordBytes,
                    actual: line.len() as u64,
                    limit: limits.record_bytes,
                },
            ),
        )
    } else {
        match trimmed(line) {
            None => LineMeaning::Blank,
            Some((start, end)) => match document(line.subrange(start, end), limits) {
                Ok(progress) => LineMeaning::Record { start, end, progress },
                Err(ParseFailure::Invalid(kind)) => LineMeaning::Invalid(kind),
                Err(_) => LineMeaning::SizeOverflow,
            },
        }
    }
}

/// Where a reader stands in its stream.
pub struct LineState {
    /// Bytes of the current physical line that were consumed already.
    pub line: Seq<u8>,
    /// Supplied bytes that were not consumed yet.
    pub pending: Seq<u8>,
    /// Whether the stream ends after `pending`.
    pub ended: bool,
    pub stats: NdjsonStats,
}

/// What the next read of a stream comes to.
pub enum LineOutcome {
    /// A valid record.
    Record(RecordView, LineState),
    /// A rejected record under [`InvalidRecordPolicy::Stop`].
    Invalid(NdjsonInvalidRecord, LineState),
    /// All supplied bytes are consumed and the stream goes on.
    NeedInput(LineState),
    /// The stream has ended.
    End(LineState),
    /// A counter cannot be represented.
    SizeOverflow,
}

/// What the next physical line of a stream is.
pub enum TakenLine {
    /// One complete line, without its line feed.
    Line { line: Seq<u8>, input_offset: u64, after: LineState },
    NeedInput(LineState),
    End(LineState),
    SizeOverflow,
}

/// Takes the next physical line.
pub open spec fn taken_line(state: LineState) -> TakenLine {
    let end = line_end(state.pending, 0);
    let found = end < state.pending.len();
    let consumed = if found {
        end + 1
    } else {
        end
    };
    let line = state.line + state.pending.take(end);
    let input_bytes = state.stats.input_bytes + consumed;
    let input_offset = (state.stats.input_bytes - state.line.len()) as u64;
    let stats = NdjsonStats { input_bytes: input_bytes as u64, ..state.stats };
    if input_bytes > u64::MAX {
        TakenLine::SizeOverflow
    } else if found {
        TakenLine::Line {
            line,
            input_offset,
            after: LineState {
                line: Seq::empty(),
                pending: state.pending.skip(consumed),
                stats,
                ..state
            },
        }
    } else if !state.ended {
        TakenLine::NeedInput(LineState { line, pending: Seq::empty(), stats, ..state })
    } else if line.len() == 0 {
        TakenLine::End(LineState { line, pending: Seq::empty(), stats, ..state })
    } else {
        TakenLine::Line {
            line,
            input_offset,
            after: LineState { line: Seq::empty(), pending: Seq::empty(), stats, ..state },
        }
    }
}

/// Bytes that a reader still has to work through.
pub open spec fn unread(state: LineState) -> nat {
    state.line.len() + state.pending.len()
}

/// Reads the next record of a stream.
pub open spec fn next_outcome(options: NdjsonOptions, state: LineState) -> LineOutcome
    decreases unread(state), 0int,
{
    match taken_line(state) {
        TakenLine::SizeOverflow => LineOutcome::SizeOverflow,
        TakenLine::NeedInput(after) => LineOutcome::NeedInput(after),
        TakenLine::End(after) => LineOutcome::End(after),
        TakenLine::Line { line, input_offset, after } => if unread(after) < unread(state) {
            line_completed(options, line, input_offset, after)
        } else {
            LineOutcome::SizeOverflow
        },
    }
}

/// Handles one complete line that started at `input_offset`, and reads on where it is no record.
pub open spec fn line_completed(
    options: NdjsonOptions,
    line: Seq<u8>,
    input_offset: u64,
    after: LineState,
) -> LineOutcome
    decreases unread(after), 1int,
{
    let line_number = after.stats.physical_lines + 1;
    let stats = NdjsonStats { physical_lines: line_number as u64, ..after.stats };
    if line_number > u64::MAX {
        LineOutcome::SizeOverflow
    } else {
        match line_meaning(line, options.limits) {
            LineMeaning::SizeOverflow => LineOutcome::SizeOverflow,
            LineMeaning::Blank => if stats.blank_lines == u64::MAX {
                LineOutcome::SizeOverflow
            } else {
                next_outcome(
                    options,
                    LineState {
                        stats: NdjsonStats { blank_lines: (stats.blank_lines + 1) as u64, ..stats },
                        ..after
                    },
                )
            },
            LineMeaning::Invalid(kind) => match options.invalid_records {
                InvalidRecordPolicy::Stop => LineOutcome::Invalid(
                    NdjsonInvalidRecord { line_number: line_number as u64, input_offset, kind },
                    LineState { stats, ..after },
                ),
                InvalidRecordPolicy::Skip => if stats.skipped_invalid_records == u64::MAX {
                    LineOutcome::SizeOverflow
                } else {
                    next_outcome(
                        options,
                        LineState {
                            stats: NdjsonStats {
                                skipped_invalid_records: (stats.skipped_invalid_records + 1) as u64,
                                ..stats
                            },
                            ..after
                        },
                    )
                },
            },
            LineMeaning::Record { start, end, progress } => LineOutcome::Record(
                RecordView {
                    line,
                    json: line.subrange(start, end),
                    decoded: progress.decoded,
                    events: progress.events,
                    line_number: line_number as u64,
                    input_offset,
                    record_index: stats.records,
                },
                LineState { stats, ..after },
            ),
        }
    }
}

/// Whether a line is no record, and reading goes on behind it.
pub open spec fn is_passed_over(options: NdjsonOptions, line: Seq<u8>, after: LineState) -> bool {
    after.stats.physical_lines < u64::MAX && match line_meaning(line, options.limits) {
        LineMeaning::Blank => after.stats.blank_lines < u64::MAX,
        LineMeaning::Invalid(_) => options.invalid_records == InvalidRecordPolicy::Skip
            && after.stats.skipped_invalid_records < u64::MAX,
        _ => false,
    }
}

pub proof fn lemma_passed_over(
    options: NdjsonOptions,
    line: Seq<u8>,
    input_offset: u64,
    after: LineState,
)
    requires
        is_passed_over(options, line, after),
    ensures
        line_completed(options, line, input_offset, after) == next_outcome(
            options,
            after_line(options, line, after),
        ),
        unread(after_line(options, line, after)) == unread(after),
{
}

/// The refusal of memory, as a reader reports that of the parser.
pub open spec fn is_refusal(failure: ParseFailure, error: NdjsonError) -> bool {
    failure matches ParseFailure::AllocationFailed { resource, requested_additional } && error
        == (NdjsonError::AllocationFailed { resource, requested_additional })
}

/// Whether memory can be refused to the parse of a complete line.
pub open spec fn line_refused(line: Seq<u8>, limits: NdjsonLimits, error: NdjsonError) -> bool {
    trimmed(line) matches Some((start, end)) && exists|failure: ParseFailure|
        is_refusal(failure, error) && #[trigger] document_request(
            line.subrange(start, end),
            limits,
            failure,
        )
}

/// Whether the bytes that the open line adds go to the record buffer, which asks for memory.
pub open spec fn line_asks(options: NdjsonOptions, state: LineState) -> bool {
    let added = line_end(state.pending, 0);
    0 < added && state.line.len() + added <= options.limits.record_bytes
}

/// The refusal of memory for the bytes that the open line adds.
pub open spec fn is_line_refused(
    options: NdjsonOptions,
    state: LineState,
    error: NdjsonError,
) -> bool {
    &&& line_asks(options, state)
    &&& error == (NdjsonError::AllocationFailed {
        resource: NdjsonResource::RecordBuffer,
        requested_additional: line_end(state.pending, 0) as usize,
    })
}

/// The state without the part of a line that was consumed before the line was complete.
pub open spec fn without_line(state: LineState) -> LineState {
    LineState { line: Seq::empty(), ..state }
}

/// Whether memory can be refused while the next record is read from `state`, so that the reader
/// reports `error` and is left in `after`.
///
/// Memory is asked for the bytes that a line adds to the record buffer, unless it has none or the
/// line is over the limit, and for the parse of a complete line that is neither blank nor over the
/// limit. A refused line buffer leaves the pending bytes where they were and drops what the line had
/// before them; a refused parse has consumed the line.
pub open spec fn read_refused(
    options: NdjsonOptions,
    state: LineState,
    error: NdjsonError,
    after: LineState,
) -> bool
    decreases unread(state),
{
    let limit = options.limits.record_bytes;
    &&& !(taken_line(state) is SizeOverflow)
    &&& {
        ||| is_line_refused(options, state, error) && after == without_line(state)
        ||| taken_line(state) matches TakenLine::Line { line, after: next, .. } && unread(next)
            < unread(state) && {
            ||| {
                &&& next.stats.physical_lines < u64::MAX
                &&& line.len() <= limit
                &&& after == (LineState {
                    stats: NdjsonStats {
                        physical_lines: (next.stats.physical_lines + 1) as u64,
                        ..next.stats
                    },
                    ..next
                })
                &&& line_refused(line, options.limits, error)
            }
            ||| is_passed_over(options, line, next) && read_refused(
                options,
                after_line(options, line, next),
                error,
                after,
            )
        }
    }
}

/// The search for a line feed moves forward and stops at the first one.
pub proof fn lemma_line_end(bytes: Seq<u8>, at: int)
    requires
        0 <= at <= bytes.len(),
    ensures
        at <= line_end(bytes, at) <= bytes.len(),
        line_end(bytes, at) < bytes.len() ==> bytes[line_end(bytes, at)] == LINE_FEED,
        forall|i: int| at <= i < line_end(bytes, at) ==> #[trigger] bytes[i] != LINE_FEED,
    decreases bytes.len() - at,
{
    if at < bytes.len() && bytes[at] != LINE_FEED {
        lemma_line_end(bytes, at + 1);
    }
}

/// The first line feed is where the bytes before it have none.
pub proof fn lemma_line_end_is(bytes: Seq<u8>, at: int, end: int)
    requires
        0 <= at <= end <= bytes.len(),
        end < bytes.len() ==> bytes[end] == LINE_FEED,
        forall|i: int| at <= i < end ==> #[trigger] bytes[i] != LINE_FEED,
    ensures
        line_end(bytes, at) == end,
    decreases end - at,
{
    if at < end {
        assert(bytes[at] != LINE_FEED);
        lemma_line_end_is(bytes, at + 1, end);
    }
}

/// Bytes without a line feed that were consumed while waiting for input lead to the same outcome
/// as bytes that arrive together with the rest.
proof fn lemma_waiting_line(
    options: NdjsonOptions,
    state: LineState,
    first: Seq<u8>,
    second: Seq<u8>,
)
    requires
        state.pending == first,
        !state.ended,
        state.line.len() <= state.stats.input_bytes,
        forall|i: int| 0 <= i < first.len() ==> #[trigger] first[i] != LINE_FEED,
    ensures
        match next_outcome(options, state) {
            LineOutcome::NeedInput(waiting) => {
                &&& waiting.pending == Seq::<u8>::empty()
                &&& next_outcome(options, LineState { pending: second, ..waiting })
                    == next_outcome(options, LineState { pending: first + second, ..state })
            },
            outcome => outcome is SizeOverflow && state.stats.input_bytes + first.len() > u64::MAX,
        },
{
    lemma_line_end_is(first, 0, first.len() as int);
    if state.stats.input_bytes + first.len() <= u64::MAX {
        let whole = first + second;
        let end = line_end(second, 0);
        lemma_line_end(second, 0);
        assert forall|i: int| 0 <= i < first.len() + end implies #[trigger] whole[i]
            != LINE_FEED by {
            if i < first.len() {
                assert(whole[i] == first[i]);
            } else {
                assert(whole[i] == second[i - first.len()]);
            }
        }
        if end < second.len() {
            assert(whole[first.len() + end] == second[end]);
        }
        lemma_line_end_is(whole, 0, first.len() + end);
        assert(first.take(first.len() as int) =~= first);
        assert((state.line + first) + second.take(end) =~= state.line + whole.take(
            first.len() + end,
        ));
        if end < second.len() {
            assert(whole.skip(first.len() + end + 1) =~= second.skip(end + 1));
        }
    }
}

/// A complete line is the same whatever follows it.
proof fn lemma_taken_line_stays(state: LineState, second: Seq<u8>)
    requires
        line_end(state.pending, 0) < state.pending.len(),
    ensures
        taken_line(LineState { pending: state.pending + second, ..state }) == (match taken_line(
            state,
        ) {
            TakenLine::Line { line, input_offset, after } => TakenLine::Line {
                line,
                input_offset,
                after: LineState { pending: after.pending + second, ..after },
            },
            other => other,
        }),
{
    let whole = state.pending + second;
    let end = line_end(state.pending, 0);
    lemma_line_end(state.pending, 0);
    assert forall|i: int| 0 <= i < end implies #[trigger] whole[i] != LINE_FEED by {
        assert(whole[i] == state.pending[i]);
    }
    assert(whole[end] == state.pending[end]);
    lemma_line_end_is(whole, 0, end);
    assert(whole.take(end) =~= state.pending.take(end));
    assert(whole.skip(end + 1) =~= state.pending.skip(end + 1) + second);
}

/// How a stream is cut into chunks does not matter: what was consumed while waiting for input
/// leads to the same outcome as bytes that arrive together with the rest.
pub proof fn records_do_not_depend_on_chunks(
    options: NdjsonOptions,
    state: LineState,
    second: Seq<u8>,
)
    requires
        !state.ended,
        state.line.len() <= state.stats.input_bytes,
    ensures
        next_outcome(options, state) matches LineOutcome::NeedInput(waiting) ==> next_outcome(
            options,
            LineState { pending: second, ..waiting },
        ) == next_outcome(options, LineState { pending: state.pending + second, ..state }),
    decreases unread(state),
{
    if next_outcome(options, state) is NeedInput {
        let end = line_end(state.pending, 0);
        lemma_line_end(state.pending, 0);
        if end < state.pending.len() {
            lemma_taken_line_stays(state, second);
            let whole = LineState { pending: state.pending + second, ..state };
            match taken_line(state) {
                TakenLine::Line { line, input_offset, after } => {
                    let next = after_line(options, line, after);
                    assert(line_completed(options, line, input_offset, after) == next_outcome(
                        options,
                        next,
                    ));
                    let after_whole = LineState { pending: after.pending + second, ..after };
                    assert(line_completed(options, line, input_offset, after_whole)
                        == next_outcome(
                        options,
                        LineState { pending: next.pending + second, ..next },
                    ));
                    records_do_not_depend_on_chunks(options, next, second);
                    assert(unread(after_whole) < unread(whole));
                },
                _ => {},
            }
        } else {
            assert(state.pending.take(end) =~= state.pending);
            lemma_waiting_line(options, state, state.pending, second);
        }
    }
}

/// The state after a line that is no record.
pub open spec fn after_line(options: NdjsonOptions, line: Seq<u8>, after: LineState) -> LineState {
    let stats = NdjsonStats {
        physical_lines: (after.stats.physical_lines + 1) as u64,
        ..after.stats
    };
    match line_meaning(line, options.limits) {
        LineMeaning::Blank => LineState {
            stats: NdjsonStats { blank_lines: (stats.blank_lines + 1) as u64, ..stats },
            ..after
        },
        _ => LineState {
            stats: NdjsonStats {
                skipped_invalid_records: (stats.skipped_invalid_records + 1) as u64,
                ..stats
            },
            ..after
        },
    }
}

/// What one read comes to.
#[derive(Clone, Copy, Debug, PartialEq, Eq, Structural)]
pub enum NdjsonStep {
    /// One record was read.
    Record,
    /// All supplied bytes are consumed; supply more, or end the input.
    NeedInput,
    /// The input has ended.
    End,
}

/// One physical line that was consumed, or why there is none.
enum PhysicalLine {
    Line { input_offset: u64, line_bytes: u64 },
    NeedInput,
    End,
}

#[derive(Clone, Copy)]
struct RecordContext {
    line_number: u64,
    input_offset: u64,
    json_start: usize,
    json_end: usize,
}

/// Bounded reader for physical-line NDJSON.
///
/// The reader performs no input itself: it carries an input of its owner's, who supplies the bytes
/// of the stream in chunks of any size and marks its end. It reuses one bounded record buffer and
/// parses with an explicit stack. An escaped `\\n` is ordinary record content; only an actual LF
/// byte ends a physical record.
pub struct NdjsonReader<R> {
    source: R,
    options: NdjsonOptions,
    input: Vec<u8>,
    input_start: usize,
    reached_end: bool,
    record: Vec<u8>,
    line_bytes: u64,
    line: Ghost<Seq<u8>>,
    line_is_complete: bool,
    has_record: bool,
    context: RecordContext,
    buffers: ParserBuffers,
    stats: NdjsonStats,
}

/// Finds the range of a line without the JSON whitespace around it.
pub fn trim_json_whitespace(bytes: &[u8]) -> (range: Option<(usize, usize)>)
    ensures
        match range {
            Some((start, end)) => trimmed(bytes@) == Some((start as int, end as int)) && start < end
                <= bytes@.len(),
            None => trimmed(bytes@) is None,
        },
{
    let mut start: usize = 0;
    while start < bytes.len() && is_json_whitespace(bytes[start])
        invariant
            start <= bytes@.len(),
            skip_space(bytes@, start as int) == skip_space(bytes@, 0),
        decreases bytes@.len() - start,
    {
        start += 1;
    }
    if start == bytes.len() {
        return None;
    }
    let mut end: usize = bytes.len();
    while is_json_whitespace(bytes[end - 1])
        invariant
            start < end <= bytes@.len(),
            !is_json_space(bytes@[start as int]),
            trimmed_end(bytes@, end as int) == trimmed_end(bytes@, bytes@.len() as int),
        decreases end,
    {
        if end - 1 == start {
            assert(false);
        }
        end -= 1;
    }
    Some((start, end))
}

/// Finds the first line feed at or after `at`, or the end.
fn find_line_feed(bytes: &[u8], at: usize) -> (end: usize)
    requires
        at <= bytes@.len(),
    ensures
        end == line_end(bytes@, at as int),
        at <= end <= bytes@.len(),
{
    let mut end: usize = at;
    while end < bytes.len() && bytes[end] != LINE_FEED
        invariant
            at <= end <= bytes@.len(),
            line_end(bytes@, end as int) == line_end(bytes@, at as int),
        decreases bytes@.len() - end,
    {
        end += 1;
    }
    end
}

impl<R> NdjsonReader<R> {
    pub closed spec fn wf(&self) -> bool {
        &&& self.input_start <= self.input@.len()
        &&& self.line@.len() == self.line_bytes
        &&& self.line_bytes <= self.stats.input_bytes
        &&& self.line_is_complete ==> self.line@.len() == 0
        &&& !self.line_is_complete && self.line_bytes <= self.options.limits.record_bytes
            ==> self.record@ == self.line@
        &&& self.has_record ==> {
            &&& self.line_is_complete
            &&& self.context.json_start <= self.context.json_end <= self.record@.len()
            &&& events_ok(
                self.buffers.events@,
                self.record@.subrange(
                    self.context.json_start as int,
                    self.context.json_end as int,
                ),
                self.buffers.decoded@,
            )
        }
    }

    pub closed spec fn spec_options(&self) -> NdjsonOptions {
        self.options
    }

    /// The carried input.
    pub closed spec fn carried(&self) -> R {
        self.source
    }

    /// Where the reader stands in its stream.
    pub closed spec fn state(&self) -> LineState {
        LineState {
            line: self.line@,
            pending: self.input@.skip(self.input_start as int),
            ended: self.reached_end,
            stats: self.stats,
        }
    }

    /// The record that the last read delivered, if it delivered one.
    pub closed spec fn current(&self) -> Option<RecordView> {
        if self.has_record {
            Some(
                RecordView {
                    line: self.record@,
                    json: self.record@.subrange(
                        self.context.json_start as int,
                        self.context.json_end as int,
                    ),
                    decoded: self.buffers.decoded@,
                    events: self.buffers.events@,
                    line_number: self.context.line_number,
                    input_offset: self.context.input_offset,
                    record_index: self.stats.records,
                },
            )
        } else {
            None
        }
    }

    /// Creates a reader at the start of a stream.
    pub fn new(input: R, options: NdjsonOptions) -> (reader: Self)
        ensures
            reader.wf(),
            reader.spec_options() == options,
            reader.carried() == input,
            reader.current() is None,
            reader.state() == (LineState {
                line: Seq::empty(),
                pending: Seq::empty(),
                ended: false,
                stats: NdjsonStats {
                    input_bytes: 0,
                    physical_lines: 0,
                    blank_lines: 0,
                    skipped_invalid_records: 0,
                    records: 0,
                },
            }),
    {
        let reader = NdjsonReader {
            source: input,
            options,
            input: Vec::new(),
            input_start: 0,
            reached_end: false,
            record: Vec::new(),
            line_bytes: 0,
            line: Ghost(Seq::empty()),
            line_is_complete: false,
            has_record: false,
            context: RecordContext { line_number: 0, input_offset: 0, json_start: 0, json_end: 0 },
            buffers: ParserBuffers::new(),
            stats: NdjsonStats::default(),
        };
        assert(reader.input@.skip(0) =~= Seq::<u8>::empty());
        reader
    }

    /// Returns the immutable reader configuration.
    pub fn options(&self) -> (options: NdjsonOptions)
        ensures
            options == self.spec_options(),
    {
        self.options
    }

    /// Returns counters accumulated so far.
    pub fn stats(&self) -> (stats: NdjsonStats)
        ensures
            stats == self.state().stats,
    {
        self.stats
    }

    /// Returns the carried input; unread bytes are dropped.
    pub fn into_inner(self) -> (input: R)
        ensures
            input == self.carried(),
    {
        self.source
    }

    /// Returns the carried input for reading.
    pub fn input_mut(&mut self) -> (input: &mut R)
        ensures
            *input == old(self).carried(),
            final(self).carried() == *final(input),
            final(self).state() == old(self).state(),
            final(self).current() == old(self).current(),
            final(self).spec_options() == old(self).spec_options(),
            old(self).wf() ==> final(self).wf(),
    {
        &mut self.source
    }

    /// Returns how much the buffers of records, decoded text, events and the parser's stack hold
    /// without growing.
    pub fn buffer_capacities(&self) -> (capacities: (usize, usize, usize, usize))
        ensures
            self.current() matches Some(record) ==> capacities.0 >= record.line.len()
                && capacities.1 >= record.decoded.len() && capacities.2 >= record.events.len(),
    {
        (
            capacity_of(&self.record),
            capacity_of(&self.buffers.decoded),
            capacity_of(&self.buffers.events),
            capacity_of(&self.buffers.stack),
        )
    }

    /// Hands over the next bytes of the stream.
    pub fn supply(&mut self, chunk: &[u8])
        requires
            old(self).wf(),
        ensures
            final(self).wf(),
            final(self).spec_options() == old(self).spec_options(),
            final(self).carried() == old(self).carried(),
            final(self).current() == old(self).current(),
            final(self).state() == (LineState {
                pending: old(self).state().pending + chunk@,
                ..old(self).state()
            }),
    {
        if self.input_start == self.input.len() {
            self.input.clear();
            self.input_start = 0;
        }
        append_slice(&mut self.input, chunk);
        assert(self.input@.skip(self.input_start as int) =~= old(self).input@.skip(
            old(self).input_start as int,
        ) + chunk@);
    }

    /// Marks the end of the stream.
    pub fn end_input(&mut self)
        requires
            old(self).wf(),
        ensures
            final(self).wf(),
            final(self).spec_options() == old(self).spec_options(),
            final(self).carried() == old(self).carried(),
            final(self).current() == old(self).current(),
            final(self).state() == (LineState { ended: true, ..old(self).state() }),
    {
        self.reached_end = true;
    }

    /// Drops what was consumed of a line that is not complete: the next read takes up the stream
    /// where it stands, as it does after a failed input.
    pub fn drop_line(&mut self)
        requires
            old(self).wf(),
        ensures
            final(self).wf(),
            final(self).spec_options() == old(self).spec_options(),
            final(self).carried() == old(self).carried(),
            final(self).current() == old(self).current(),
            final(self).state() == without_line(old(self).state()),
    {
        if !self.line_is_complete {
            self.record.clear();
            self.line_bytes = 0;
            self.line = Ghost(Seq::empty());
            assert(self.record@ =~= self.line@);
        } else {
            assert(self.line@ =~= Seq::<u8>::empty());
        }
    }

    /// Decides what happens after an invalid record.
    fn handle_invalid(&mut self, invalid: NdjsonInvalidRecord) -> (result: Result<(), NdjsonError>)
        requires
            old(self).wf(),
            !old(self).has_record,
        ensures
            final(self).wf(),
            !final(self).has_record,
            final(self).options == old(self).options,
            final(self).source == old(self).source,
            final(self).stats.records == old(self).stats.records,
            match result {
                Ok(_) => {
                    &&& old(self).options.invalid_records is Skip
                    &&& old(self).stats.skipped_invalid_records < u64::MAX
                    &&& final(self).line_is_complete == old(self).line_is_complete
                    &&& final(self).state() == (LineState {
                        stats: NdjsonStats {
                            skipped_invalid_records: (old(self).stats.skipped_invalid_records
                                + 1) as u64,
                            ..old(self).stats
                        },
                        ..old(self).state()
                    })
                },
                Err(NdjsonError::InvalidRecord(reported)) => old(self).options.invalid_records is Stop && reported == invalid && final(self).state()
                    == old(self).state(),
                Err(NdjsonError::SizeOverflow) => old(self).options.invalid_records is Skip && old(self).stats.skipped_invalid_records == u64::MAX,
                Err(_) => false,
            },
    {
        match self.options.invalid_records {
            InvalidRecordPolicy::Stop => Err(NdjsonError::InvalidRecord(invalid)),
            InvalidRecordPolicy::Skip => {
                if self.stats.skipped_invalid_records == u64::MAX {
                    return Err(NdjsonError::SizeOverflow);
                }
                self.stats.skipped_invalid_records = self.stats.skipped_invalid_records + 1;
                Ok(())
            },
        }
    }

    /// Consumes the next physical line into the record buffer.
    fn read_physical_line(&mut self) -> (result: Result<PhysicalLine, NdjsonError>)
        requires
            old(self).wf(),
            !old(self).has_record,
        ensures
            final(self).wf(),
            !final(self).has_record,
            final(self).options == old(self).options,
            final(self).source == old(self).source,
            final(self).stats.records == old(self).stats.records,
            match result {
                Ok(PhysicalLine::Line { input_offset, line_bytes }) => taken_line(old(self).state())
                    matches TakenLine::Line { line, input_offset: offset, after } && offset
                    == input_offset && after == final(self).state() && line.len() == line_bytes
                    && final(self).line_is_complete && unread(after) < unread(old(self).state())
                    && (line_bytes <= old(self).options.limits.record_bytes ==> final(self).record@
                    == line),
                Ok(PhysicalLine::NeedInput) => taken_line(old(self).state())
                    == TakenLine::NeedInput(final(self).state()),
                Ok(PhysicalLine::End) => taken_line(old(self).state()) == TakenLine::End(
                    final(self).state(),
                ),
                Err(NdjsonError::SizeOverflow) => taken_line(old(self).state()) is SizeOverflow,
                Err(error) => {
                    &&& !(taken_line(old(self).state()) is SizeOverflow)
                    &&& is_line_refused(old(self).options, old(self).state(), error)
                    &&& final(self).state() == without_line(old(self).state())
                },
            },
    {
        if self.line_is_complete {
            self.record.clear();
            self.line_is_complete = false;
            assert(self.record@ =~= self.line@);
        }
        let input_start = self.input_start;
        let line_feed = find_line_feed(self.input.as_slice(), input_start);
        let found = line_feed < self.input.len();
        let payload_bytes = line_feed - input_start;
        let consumed = if found {
            payload_bytes + 1
        } else {
            payload_bytes
        };
        proof {
            lemma_line_end(self.input@, input_start as int);
            let shifted = self.state().pending;
            assert(shifted =~= self.input@.skip(input_start as int));
            assert forall|i: int| 0 <= i < payload_bytes implies #[trigger] shifted[i]
                != LINE_FEED by {
                assert(shifted[i] == self.input@[input_start + i]);
            }
            if found {
                assert(shifted[payload_bytes as int] == self.input@[line_feed as int]);
            }
            lemma_line_end_is(shifted, 0, payload_bytes as int);
        }
        if consumed as u64 > u64::MAX - self.stats.input_bytes {
            return Err(NdjsonError::SizeOverflow);
        }
        let asks = 0 < payload_bytes && self.line_bytes + payload_bytes as u64
            <= self.options.limits.record_bytes;
        let reserved = !asks || self.record.try_reserve(payload_bytes).is_ok();
        self.keep_line(line_feed, reserved)
    }

    /// Consumes the next physical line, which goes on to `line_feed`, given whether there is memory
    /// for what it adds to the record buffer.
    fn keep_line(&mut self, line_feed: usize, reserved: bool) -> (result: Result<
        PhysicalLine,
        NdjsonError,
    >)
        requires
            old(self).wf(),
            !old(self).has_record,
            !old(self).line_is_complete,
            line_feed == line_end(old(self).input@, old(self).input_start as int),
            line_feed - old(self).input_start == line_end(old(self).state().pending, 0),
            !(taken_line(old(self).state()) is SizeOverflow),
            reserved || line_asks(old(self).options, old(self).state()),
        ensures
            final(self).wf(),
            !final(self).has_record,
            final(self).options == old(self).options,
            final(self).source == old(self).source,
            final(self).stats.records == old(self).stats.records,
            match result {
                Ok(PhysicalLine::Line { input_offset, line_bytes }) => {
                    &&& reserved
                    &&& taken_line(old(self).state()) matches TakenLine::Line {
                        line,
                        input_offset: offset,
                        after,
                    } && offset == input_offset && after == final(self).state() && line.len()
                        == line_bytes && final(self).line_is_complete && unread(after) < unread(
                        old(self).state(),
                    ) && (line_bytes <= old(self).options.limits.record_bytes
                        ==> final(self).record@ == line)
                },
                Ok(PhysicalLine::NeedInput) => reserved && taken_line(old(self).state())
                    == TakenLine::NeedInput(final(self).state()),
                Ok(PhysicalLine::End) => reserved && taken_line(old(self).state())
                    == TakenLine::End(final(self).state()),
                Err(error) => {
                    &&& !reserved
                    &&& is_line_refused(old(self).options, old(self).state(), error)
                    &&& final(self).state() == without_line(old(self).state())
                },
            },
    {
        let ghost before = self.state();
        let input_start = self.input_start;
        proof {
            lemma_line_end(self.input@, input_start as int);
        }
        let found = line_feed < self.input.len();
        let payload_bytes = line_feed - input_start;
        if !reserved {
            self.drop_line();
            return Err(
                NdjsonError::AllocationFailed {
                    resource: NdjsonResource::RecordBuffer,
                    requested_additional: payload_bytes,
                },
            );
        }
        let consumed = if found {
            payload_bytes + 1
        } else {
            payload_bytes
        };
        let ghost payload = before.pending.take(payload_bytes as int);
        let input_offset = self.stats.input_bytes - self.line_bytes;
        let new_line_bytes = self.line_bytes + payload_bytes as u64;
        if new_line_bytes <= self.options.limits.record_bytes {
            append_slice(
                &mut self.record,
                slice_subrange(self.input.as_slice(), input_start, line_feed),
            );
            assert(self.input@.subrange(input_start as int, line_feed as int) =~= payload);
        }
        self.line_bytes = new_line_bytes;
        self.line = Ghost(self.line@ + payload);
        self.input_start = input_start + consumed;
        self.stats.input_bytes = self.stats.input_bytes + consumed as u64;
        proof {
            assert(self.input@.skip(self.input_start as int) =~= before.pending.skip(
                consumed as int,
            ));
        }
        if !found {
            assert(before.pending.skip(consumed as int) =~= Seq::<u8>::empty());
            if !self.reached_end {
                return Ok(PhysicalLine::NeedInput);
            }
            if self.line_bytes == 0 {
                return Ok(PhysicalLine::End);
            }
        }
        self.line = Ghost(Seq::empty());
        let line_bytes = self.line_bytes;
        self.line_bytes = 0;
        self.line_is_complete = true;
        Ok(PhysicalLine::Line { input_offset, line_bytes })
    }

    /// Parses the complete line in the record buffer, which is not blank and within the limit: a
    /// record is left ready, an invalid one is counted or reported.
    fn judge_document(
        &mut self,
        line_number: u64,
        input_offset: u64,
        json_start: usize,
        json_end: usize,
        line: Ghost<Seq<u8>>,
    ) -> (result: Result<bool, NdjsonError>)
        requires
            old(self).wf(),
            !old(self).has_record,
            old(self).line_is_complete,
            old(self).record@ == line@,
            line@.len() <= old(self).options.limits.record_bytes,
            trimmed(line@) == Some((json_start as int, json_end as int)),
            json_start < json_end <= line@.len(),
            line_number == old(self).stats.physical_lines,
        ensures
            final(self).wf(),
            final(self).options == old(self).options,
            final(self).source == old(self).source,
            final(self).has_record == (result == Ok::<bool, NdjsonError>(true)),
            final(self).stats.records == old(self).stats.records,
            ({
                let meaning = line_meaning(line@, old(self).options.limits);
                match result {
                    Ok(true) => {
                        &&& meaning matches LineMeaning::Record { start, end, progress }
                            && final(self).current() == Some(
                            RecordView {
                                line: line@,
                                json: line@.subrange(start, end),
                                decoded: progress.decoded,
                                events: progress.events,
                                line_number,
                                input_offset,
                                record_index: old(self).stats.records,
                            },
                        )
                        &&& final(self).state() == old(self).state()
                    },
                    Ok(false) => {
                        &&& meaning is Invalid
                        &&& old(self).options.invalid_records is Skip
                        &&& old(self).stats.skipped_invalid_records < u64::MAX
                        &&& final(self).state() == (LineState {
                            stats: NdjsonStats {
                                skipped_invalid_records: (old(self).stats.skipped_invalid_records
                                    + 1) as u64,
                                ..old(self).stats
                            },
                            ..old(self).state()
                        })
                    },
                    Err(NdjsonError::InvalidRecord(invalid)) => {
                        &&& meaning matches LineMeaning::Invalid(kind) && invalid == (
                        NdjsonInvalidRecord { line_number, input_offset, kind })
                        &&& old(self).options.invalid_records is Stop
                        &&& final(self).state() == old(self).state()
                    },
                    Err(NdjsonError::SizeOverflow) => meaning is SizeOverflow || (
                    meaning is Invalid && old(self).options.invalid_records is Skip
                        && old(self).stats.skipped_invalid_records == u64::MAX),
                    Err(error) => line_refused(line@, old(self).options.limits, error)
                        && final(self).state() == old(self).state(),
                }
            }),
    {
        let parsed = parse_document(
            slice_subrange(self.record.as_slice(), json_start, json_end),
            self.options.limits,
            &mut self.buffers,
        );
        match parsed {
            Ok(_) => {
                self.context = RecordContext { line_number, input_offset, json_start, json_end };
                self.has_record = true;
                Ok(true)
            },
            Err(ParseFailure::Invalid(kind)) => {
                let invalid = NdjsonInvalidRecord::new(line_number, input_offset, kind);
                match self.handle_invalid(invalid) {
                    Ok(_) => Ok(false),
                    Err(error) => Err(error),
                }
            },
            Err(ParseFailure::AllocationFailed { resource, requested_additional }) => {
                let error = NdjsonError::AllocationFailed { resource, requested_additional };
                proof {
                    let failure = ParseFailure::AllocationFailed { resource, requested_additional };
                    assert(is_refusal(failure, error));
                    assert(document_request(
                        line@.subrange(json_start as int, json_end as int),
                        self.options.limits,
                        failure,
                    ));
                    assert(line_refused(line@, self.options.limits, error));
                }
                Err(error)
            },
            Err(ParseFailure::SizeOverflow) => Err(NdjsonError::SizeOverflow),
        }
    }

    /// Handles the complete line in the record buffer: a record is left ready, any other line is
    /// counted.
    #[verifier::rlimit(40)]
    #[verifier::spinoff_prover]
    fn judge_line(&mut self, input_offset: u64, line_bytes: u64, line: Ghost<Seq<u8>>) -> (result:
        Result<bool, NdjsonError>)
        requires
            old(self).wf(),
            !old(self).has_record,
            old(self).line_is_complete,
            line@.len() == line_bytes,
            line_bytes <= old(self).options.limits.record_bytes ==> old(self).record@ == line@,
        ensures
            final(self).wf(),
            final(self).options == old(self).options,
            final(self).source == old(self).source,
            final(self).has_record == (result == Ok::<bool, NdjsonError>(true)),
            final(self).stats.records == old(self).stats.records,
            ({
                let outcome = line_completed(
                    old(self).options,
                    line@,
                    input_offset,
                    old(self).state(),
                );
                match result {
                    Ok(true) => outcome matches LineOutcome::Record(record, state) && final(self).current() == Some(record) && final(self).state() == state,
                    Ok(false) => is_passed_over(old(self).options, line@, old(self).state())
                        && final(self).state() == after_line(
                        old(self).options,
                        line@,
                        old(self).state(),
                    ),
                    Err(NdjsonError::InvalidRecord(invalid)) => outcome == LineOutcome::Invalid(
                        invalid,
                        final(self).state(),
                    ),
                    Err(NdjsonError::SizeOverflow) => outcome is SizeOverflow,
                    Err(error) => {
                        &&& old(self).stats.physical_lines < u64::MAX
                        &&& line_bytes <= old(self).options.limits.record_bytes
                        &&& final(self).state() == (LineState {
                            stats: NdjsonStats {
                                physical_lines: (old(self).stats.physical_lines + 1) as u64,
                                ..old(self).stats
                            },
                            ..old(self).state()
                        })
                        &&& line_refused(line@, old(self).options.limits, error)
                    },
                }
            }),
    {
        if self.stats.physical_lines == u64::MAX {
            return Err(NdjsonError::SizeOverflow);
        }
        self.stats.physical_lines = self.stats.physical_lines + 1;
        let line_number = self.stats.physical_lines;
        if line_bytes > self.options.limits.record_bytes {
            let invalid = NdjsonInvalidRecord::new(
                line_number,
                input_offset,
                NdjsonInvalidRecordKind::Limit(
                    NdjsonLimitViolation::new(
                        NdjsonLimitResource::RecordBytes,
                        line_bytes,
                        self.options.limits.record_bytes,
                    ),
                ),
            );
            return match self.handle_invalid(invalid) {
                Ok(_) => Ok(false),
                Err(error) => Err(error),
            };
        }
        let (json_start, json_end) = match trim_json_whitespace(self.record.as_slice()) {
            None => {
                if self.stats.blank_lines == u64::MAX {
                    return Err(NdjsonError::SizeOverflow);
                }
                self.stats.blank_lines = self.stats.blank_lines + 1;
                return Ok(false);
            },
            Some(range) => range,
        };
        self.judge_document(line_number, input_offset, json_start, json_end, line)
    }

    /// Reads and validates the next non-blank record.
    ///
    /// Blank lines, and invalid lines under [`InvalidRecordPolicy::Skip`], are consumed on the way.
    pub fn next_record(&mut self) -> (result: Result<NdjsonStep, NdjsonError>)
        requires
            old(self).wf(),
        ensures
            final(self).wf(),
            final(self).spec_options() == old(self).spec_options(),
            final(self).carried() == old(self).carried(),
            final(self).current() is Some ==> result == Ok::<NdjsonStep, NdjsonError>(
                NdjsonStep::Record,
            ),
            ({
                let outcome = next_outcome(old(self).spec_options(), old(self).state());
                match result {
                    Ok(NdjsonStep::Record) => outcome matches LineOutcome::Record(record, state)
                        && final(self).current() == Some(record) && final(self).state() == state,
                    Ok(NdjsonStep::NeedInput) => outcome == LineOutcome::NeedInput(
                        final(self).state(),
                    ),
                    Ok(NdjsonStep::End) => outcome == LineOutcome::End(final(self).state()),
                    Err(NdjsonError::InvalidRecord(invalid)) => outcome == LineOutcome::Invalid(
                        invalid,
                        final(self).state(),
                    ),
                    Err(NdjsonError::SizeOverflow) => outcome is SizeOverflow,
                    Err(error) => error is AllocationFailed && read_refused(
                        old(self).spec_options(),
                        old(self).state(),
                        error,
                        final(self).state(),
                    ),
                }
            }),
            final(self).state().stats.records == old(self).state().stats.records,
    {
        let ghost target = next_outcome(self.options, self.state());
        self.has_record = false;
        loop
            invariant
                self.wf(),
                !self.has_record,
                self.options == old(self).options,
                self.source == old(self).source,
                self.stats.records == old(self).stats.records,
                forall|error: NdjsonError, after: LineState|
                    read_refused(self.options, self.state(), error, after)
                        ==> #[trigger] read_refused(
                        old(self).spec_options(),
                        old(self).state(),
                        error,
                        after,
                    ),
                next_outcome(self.options, self.state()) == target,
                target == next_outcome(old(self).spec_options(), old(self).state()),
            decreases unread(self.state()),
        {
            let ghost before = self.state();
            match self.read_physical_line() {
                Err(error) => {
                    return Err(error);
                },
                Ok(PhysicalLine::NeedInput) => {
                    return Ok(NdjsonStep::NeedInput);
                },
                Ok(PhysicalLine::End) => {
                    return Ok(NdjsonStep::End);
                },
                Ok(PhysicalLine::Line { input_offset, line_bytes }) => {
                    let ghost line = taken_line(before)->line;
                    match self.judge_line(input_offset, line_bytes, Ghost(line)) {
                        Err(error) => {
                            return Err(error);
                        },
                        Ok(true) => {
                            return Ok(NdjsonStep::Record);
                        },
                        Ok(false) => {
                            proof {
                                lemma_passed_over(
                                    self.options,
                                    line,
                                    input_offset,
                                    taken_line(before)->after,
                                );
                            }
                        },
                    }
                },
            }
        }
    }

    /// Borrows the record that the last read delivered.
    pub fn record(&self) -> (record: Option<NdjsonRecord<'_>>)
        requires
            self.wf(),
        ensures
            match record {
                Some(record) => self.current() == Some(record@),
                None => self.current() is None,
            },
    {
        if self.has_record {
            Some(
                NdjsonRecord {
                    line_bytes: self.record.as_slice(),
                    json_bytes: slice_subrange(
                        self.record.as_slice(),
                        self.context.json_start,
                        self.context.json_end,
                    ),
                    decoded: self.buffers.decoded.as_slice(),
                    events: self.buffers.events.as_slice(),
                    line_number: self.context.line_number,
                    input_offset: self.context.input_offset,
                    record_index: self.stats.records,
                },
            )
        } else {
            None
        }
    }

    /// Settles the delivered record: counts it where the sink accepted it, and otherwise locates
    /// the sink's error.
    pub fn settle_record<E>(&mut self, accepted: Result<(), E>) -> (result: Result<
        (),
        NdjsonReadError<E>,
    >)
        requires
            old(self).wf(),
            old(self).current() is Some,
        ensures
            final(self).wf(),
            final(self).spec_options() == old(self).spec_options(),
            final(self).carried() == old(self).carried(),
            ({
                let record = old(self).current()->0;
                match accepted {
                    Ok(_) => if old(self).state().stats.records == u64::MAX {
                        result == Err::<(), NdjsonReadError<E>>(
                            NdjsonReadError::Reader(NdjsonError::SizeOverflow),
                        ) && final(self).state() == old(self).state()
                    } else {
                        result is Ok && final(self).state() == (LineState {
                            stats: NdjsonStats {
                                records: (old(self).state().stats.records + 1) as u64,
                                ..old(self).state().stats
                            },
                            ..old(self).state()
                        })
                    },
                    Err(source) => result == Err::<(), NdjsonReadError<E>>(
                        NdjsonReadError::Sink {
                            line_number: record.line_number,
                            record_index: record.record_index,
                            source,
                        },
                    ) && final(self).state() == old(self).state(),
                }
            }),
    {
        self.has_record = false;
        match accepted {
            Ok(_) => {
                if self.stats.records == u64::MAX {
                    return Err(NdjsonReadError::Reader(NdjsonError::SizeOverflow));
                }
                self.stats.records = self.stats.records + 1;
                Ok(())
            },
            Err(source) => Err(
                NdjsonReadError::Sink {
                    line_number: self.context.line_number,
                    record_index: self.stats.records,
                    source,
                },
            ),
        }
    }

    /// Reads the next non-blank record and hands it to `sink` exactly once.
    pub fn read_record<S: NdjsonRecordSink>(&mut self, sink: &mut S) -> (result: Result<
        NdjsonStep,
        NdjsonReadError<S::Error>,
    >)
        requires
            old(self).wf(),
        ensures
            final(self).wf(),
            final(self).spec_options() == old(self).spec_options(),
            final(self).carried() == old(self).carried(),
            record_read(
                old(self).spec_options(),
                old(self).state(),
                old(sink),
                final(sink),
                final(self).state(),
                result,
            ),
    {
        match self.next_record() {
            Err(error) => Err(NdjsonReadError::Reader(error)),
            Ok(NdjsonStep::NeedInput) => Ok(NdjsonStep::NeedInput),
            Ok(NdjsonStep::End) => Ok(NdjsonStep::End),
            Ok(NdjsonStep::Record) => {
                let accepted = match self.record() {
                    Some(record) => sink.write_record(record),
                    None => Ok(()),
                };
                assert(accepted is Ok ==> accepted->Ok_0 == ());
                match self.settle_record(accepted) {
                    Ok(_) => Ok(NdjsonStep::Record),
                    Err(error) => Err(error),
                }
            },
        }
    }

    /// Hands every record of the supplied bytes to `sink`, until more input is needed or the input
    /// has ended.
    pub fn read_to_end<S: NdjsonRecordSink>(&mut self, sink: &mut S) -> (result: Result<
        (NdjsonStep, NdjsonStats),
        NdjsonReadError<S::Error>,
    >)
        requires
            old(self).wf(),
        ensures
            final(self).wf(),
            final(self).spec_options() == old(self).spec_options(),
            final(self).carried() == old(self).carried(),
            result matches Ok((step, stats)) ==> !(step is Record) && stats
                == final(self).state().stats,
            exists|sinks: Seq<S>|
                {
                    &&& #[trigger] is_delivery(old(self).spec_options(), old(self).state(), sinks)
                    &&& sinks[0] == *old(sink)
                    &&& after_records(
                        old(self).spec_options(),
                        old(self).state(),
                        (sinks.len() - 1) as nat,
                    ) matches Some(state) && record_read(
                        old(self).spec_options(),
                        state,
                        &sinks.last(),
                        final(sink),
                        final(self).state(),
                        match result {
                            Ok((step, _)) => Ok(step),
                            Err(error) => Err(error),
                        },
                    )
                },
    {
        let ghost options = self.spec_options();
        let ghost start = self.state();
        let ghost mut sinks: Seq<S> = seq![*sink];
        loop
            invariant
                self.wf(),
                self.spec_options() == options,
                self.carried() == old(self).carried(),
                options == old(self).spec_options(),
                start == old(self).state(),
                is_delivery(options, start, sinks),
                sinks[0] == *old(sink),
                sinks.last() == *sink,
                after_records(options, start, (sinks.len() - 1) as nat) == Some(self.state()),
            decreases unread(self.state()),
        {
            let ghost before = self.state();
            proof {
                lemma_outcome_progress(options, before);
            }
            match self.read_record(sink) {
                Ok(NdjsonStep::Record) => {
                    proof {
                        lemma_delivery_goes_on(options, start, sinks, before, *sink);
                        sinks = sinks.push(*sink);
                    }
                },
                Ok(step) => {
                    return Ok((step, self.stats));
                },
                Err(error) => {
                    return Err(error);
                },
            }
        }
    }
}

/// The state once a sink has accepted the delivered record.
pub open spec fn accepted_record(state: LineState) -> LineState {
    LineState {
        stats: NdjsonStats { records: (state.stats.records + 1) as u64, ..state.stats },
        ..state
    }
}

/// The state after a number of records was read and accepted, if there are as many.
pub open spec fn after_records(options: NdjsonOptions, state: LineState, count: nat) -> Option<
    LineState,
>
    decreases count,
{
    if count == 0 {
        Some(state)
    } else {
        match after_records(options, state, (count - 1) as nat) {
            None => None,
            Some(before) => match next_outcome(options, before) {
                LineOutcome::Record(_, after) => if after.stats.records < u64::MAX {
                    Some(accepted_record(after))
                } else {
                    None
                },
                _ => None,
            },
        }
    }
}

/// Whether `sinks` are the states of one sink that was handed the records from `start` on, in
/// order, and accepted each.
pub open spec fn is_delivery<S: NdjsonRecordSink>(
    options: NdjsonOptions,
    start: LineState,
    sinks: Seq<S>,
) -> bool
    decreases sinks.len(),
{
    if sinks.len() <= 1 {
        sinks.len() == 1
    } else {
        &&& is_delivery(options, start, sinks.drop_last())
        &&& after_records(options, start, (sinks.len() - 2) as nat) matches Some(state)
            && next_outcome(options, state) matches LineOutcome::Record(record, _)
            && sinks[sinks.len() - 2].takes(record, &sinks.last(), Ok(()))
    }
}

proof fn lemma_delivery_goes_on<S: NdjsonRecordSink>(
    options: NdjsonOptions,
    start: LineState,
    sinks: Seq<S>,
    before: LineState,
    next: S,
)
    requires
        is_delivery(options, start, sinks),
        after_records(options, start, (sinks.len() - 1) as nat) == Some(before),
        next_outcome(options, before) matches LineOutcome::Record(record, after)
            && after.stats.records < u64::MAX && sinks.last().takes(record, &next, Ok(())),
    ensures
        sinks.len() > 0,
        is_delivery(options, start, sinks.push(next)),
        after_records(options, start, sinks.len()) == Some(
            accepted_record(next_outcome(options, before)->Record_1),
        ),
{
    assert(sinks.push(next).drop_last() =~= sinks);
}

/// What a read that calls a sink came to.
pub open spec fn record_read<S: NdjsonRecordSink>(
    options: NdjsonOptions,
    before: LineState,
    sink: &S,
    sink_after: &S,
    after: LineState,
    result: Result<NdjsonStep, NdjsonReadError<S::Error>>,
) -> bool {
    let outcome = next_outcome(options, before);
    match result {
        Ok(NdjsonStep::Record) => outcome matches LineOutcome::Record(record, state)
            && state.stats.records < u64::MAX && after == accepted_record(state) && sink.takes(
            record,
            sink_after,
            Ok(()),
        ),
        Ok(NdjsonStep::NeedInput) => outcome == LineOutcome::NeedInput(after) && *sink_after
            == *sink,
        Ok(NdjsonStep::End) => outcome == LineOutcome::End(after) && *sink_after == *sink,
        Err(NdjsonReadError::Sink { line_number, record_index, source }) => outcome
            matches LineOutcome::Record(record, state) && line_number == record.line_number
            && record_index == record.record_index && after == state && sink.takes(
            record,
            sink_after,
            Err(source),
        ),
        Err(NdjsonReadError::Reader(NdjsonError::InvalidRecord(invalid))) => outcome
            == LineOutcome::Invalid(invalid, after) && *sink_after == *sink,
        Err(NdjsonReadError::Reader(NdjsonError::SizeOverflow)) => match outcome {
            LineOutcome::SizeOverflow => *sink_after == *sink && after.stats.records
                == before.stats.records,
            LineOutcome::Record(record, state) => state.stats.records == u64::MAX && after == state
                && sink.takes(record, sink_after, Ok(())),
            _ => false,
        },
        Err(NdjsonReadError::Reader(error)) => *sink_after == *sink && error is AllocationFailed
            && read_refused(
            options,
            before,
            error,
            after,
        ) && after.stats.records == before.stats.records,
    }
}

/// A record is not empty: reading one leaves less to read.
pub proof fn lemma_outcome_progress(options: NdjsonOptions, state: LineState)
    ensures
        next_outcome(options, state) matches LineOutcome::Record(_, after) ==> unread(after)
            < unread(state),
    decreases unread(state), 0int,
{
    match taken_line(state) {
        TakenLine::Line { line, input_offset, after } => {
            if unread(after) < unread(state) {
                lemma_completed_progress(options, line, input_offset, after);
            }
        },
        _ => {},
    }
}

proof fn lemma_completed_progress(
    options: NdjsonOptions,
    line: Seq<u8>,
    input_offset: u64,
    after: LineState,
)
    ensures
        line_completed(options, line, input_offset, after) matches LineOutcome::Record(_, last)
            ==> unread(last) <= unread(after),
    decreases unread(after), 1int,
{
    let stats = NdjsonStats {
        physical_lines: (after.stats.physical_lines + 1) as u64,
        ..after.stats
    };
    lemma_outcome_progress(
        options,
        LineState {
            stats: NdjsonStats { blank_lines: (stats.blank_lines + 1) as u64, ..stats },
            ..after
        },
    );
    lemma_outcome_progress(
        options,
        LineState {
            stats: NdjsonStats {
                skipped_invalid_records: (stats.skipped_invalid_records + 1) as u64,
                ..stats
            },
            ..after
        },
    );
}

/// Bytes that were handed to a reader so far.
pub open spec fn supplied_bytes(state: LineState) -> int {
    state.stats.input_bytes + state.pending.len()
}

/// Lines that are neither blank nor skipped nor accepted.
pub open spec fn unsettled_lines(stats: NdjsonStats) -> int {
    stats.physical_lines - stats.blank_lines - stats.skipped_invalid_records - stats.records
}

/// Every byte and every physical line is counted once: a read moves bytes from those that wait to
/// those that are counted, it counts as a line what it counts as blank or skipped, and it counts
/// one line more only for the record that it delivers or rejects.
pub proof fn lines_are_counted_once(options: NdjsonOptions, state: LineState)
    ensures
        match next_outcome(options, state) {
            LineOutcome::Record(record, after) => {
                &&& supplied_bytes(after) == supplied_bytes(state)
                &&& unsettled_lines(after.stats) == unsettled_lines(state.stats) + 1
                &&& unsettled_lines(accepted_record(after).stats) == unsettled_lines(state.stats)
                    || after.stats.records == u64::MAX
                &&& record.line_number == after.stats.physical_lines
                &&& record.record_index == state.stats.records
            },
            LineOutcome::Invalid(invalid, after) => {
                &&& supplied_bytes(after) == supplied_bytes(state)
                &&& unsettled_lines(after.stats) == unsettled_lines(state.stats) + 1
                &&& invalid.line_number == after.stats.physical_lines
            },
            LineOutcome::NeedInput(after) => {
                &&& after.stats.input_bytes == supplied_bytes(state)
                &&& unsettled_lines(after.stats) == unsettled_lines(state.stats)
            },
            LineOutcome::End(after) => {
                &&& after.stats.input_bytes == supplied_bytes(state)
                &&& unsettled_lines(after.stats) == unsettled_lines(state.stats)
            },
            LineOutcome::SizeOverflow => true,
        },
    decreases unread(state),
{
    lemma_line_end(state.pending, 0);
    match taken_line(state) {
        TakenLine::Line { line, input_offset: _, after } => {
            assert(supplied_bytes(after) == supplied_bytes(state));
            if unread(after) < unread(state) {
                lines_are_counted_once(options, after_line(options, line, after));
            }
        },
        _ => {},
    }
}

} // verus!

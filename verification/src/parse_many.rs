//! Streams of JSON objects that stand side by side, with nothing but whitespace between them.

use vstd::prelude::*;

use crate::grammar::document;
use crate::ndjson::{
    JsonEvents, JsonSyntaxError, JsonSyntaxErrorKind, NdjsonInvalidRecordKind, NdjsonLimitResource,
    NdjsonLimits, NdjsonResource,
};
use crate::parse_memory::document_request;
use crate::parser::{
    events_ok, lemma_events_fit, parse_document, parse_document_prefix, ParseFailure, ParserBuffers,
    StoredEvent,
};
use crate::prefix_framing::prefixes_are_framed;
use crate::text::{
    append_slice, capacity_of, is_json_space, is_json_whitespace, lemma_skip_space, skip_space,
    BACKSLASH, LEFT_BRACE, QUOTE, RIGHT_BRACE,
};
use vstd::slice::slice_subrange;

verus! {

/// Hard limits applied to each object of a stream.
#[derive(Clone, Copy, Debug, PartialEq, Eq, Structural)]
pub struct ParseManyLimits {
    pub document_bytes: u64,
    pub nesting_depth: u64,
    pub values: u64,
    pub scalar_token_bytes: u64,
}

/// The default limits.
pub open spec fn default_many_limits() -> ParseManyLimits {
    ParseManyLimits {
        document_bytes: 536_870_912,
        nesting_depth: 256,
        values: 1_000_000,
        scalar_token_bytes: 8_388_608,
    }
}

/// The limits that the parser applies.
pub open spec fn document_limits(limits: ParseManyLimits) -> NdjsonLimits {
    NdjsonLimits {
        record_bytes: limits.document_bytes,
        nesting_depth: limits.nesting_depth,
        values: limits.values,
        scalar_token_bytes: limits.scalar_token_bytes,
    }
}

impl ParseManyLimits {
    /// Creates a complete set of limits. The bytes of a document count from its opening brace
    /// through its closing one.
    pub fn new(
        max_document_bytes: u64,
        max_nesting_depth: u64,
        max_values: u64,
        max_scalar_token_bytes: u64,
    ) -> (limits: Self)
        ensures
            limits == (ParseManyLimits {
                document_bytes: max_document_bytes,
                nesting_depth: max_nesting_depth,
                values: max_values,
                scalar_token_bytes: max_scalar_token_bytes,
            }),
    {
        ParseManyLimits {
            document_bytes: max_document_bytes,
            nesting_depth: max_nesting_depth,
            values: max_values,
            scalar_token_bytes: max_scalar_token_bytes,
        }
    }

    /// Maximum bytes in one object, including its braces.
    pub fn max_document_bytes(self) -> (limit: u64)
        ensures
            limit == self.document_bytes,
    {
        self.document_bytes
    }

    /// Maximum simultaneously open arrays and objects.
    pub fn max_nesting_depth(self) -> (limit: u64)
        ensures
            limit == self.nesting_depth,
    {
        self.nesting_depth
    }

    /// Maximum values in one document, including containers.
    pub fn max_values(self) -> (limit: u64)
        ensures
            limit == self.values,
    {
        self.values
    }

    /// Maximum raw bytes in one scalar token or key.
    pub fn max_scalar_token_bytes(self) -> (limit: u64)
        ensures
            limit == self.scalar_token_bytes,
    {
        self.scalar_token_bytes
    }

    fn parser_limits(self) -> (limits: NdjsonLimits)
        ensures
            limits == document_limits(self),
    {
        NdjsonLimits::new(
            self.document_bytes,
            self.nesting_depth,
            self.values,
            self.scalar_token_bytes,
        )
    }
}

impl Default for ParseManyLimits {
    fn default() -> (limits: Self)
        ensures
            limits == default_many_limits(),
    {
        ParseManyLimits::new(536_870_912, 256, 1_000_000, 8_388_608)
    }
}

/// Handling of an incomplete object at the end of the stream.
#[derive(Clone, Copy, Debug, PartialEq, Eq, Structural)]
#[non_exhaustive]
pub enum IncompleteDocumentPolicy {
    /// Report it as an invalid document.
    Error,
    /// Ignore it, and account for its bytes.
    Ignore,
}

impl Default for IncompleteDocumentPolicy {
    fn default() -> (policy: Self)
        ensures
            policy == IncompleteDocumentPolicy::Error,
    {
        IncompleteDocumentPolicy::Error
    }
}

/// Configuration of a stream of objects.
#[derive(Clone, Copy, Debug, PartialEq, Eq, Structural)]
pub struct ParseManyOptions {
    pub limits: ParseManyLimits,
    pub incomplete_document: IncompleteDocumentPolicy,
}

/// Strict options with default limits.
pub open spec fn default_many_options() -> ParseManyOptions {
    ParseManyOptions {
        limits: default_many_limits(),
        incomplete_document: IncompleteDocumentPolicy::Error,
    }
}

impl ParseManyOptions {
    /// Creates strict options with default limits.
    pub fn new() -> (options: Self)
        ensures
            options == (ParseManyOptions {
                limits: default_many_limits(),
                incomplete_document: IncompleteDocumentPolicy::Error,
            }),
    {
        ParseManyOptions {
            limits: ParseManyLimits::default(),
            incomplete_document: IncompleteDocumentPolicy::Error,
        }
    }

    /// Replaces all limits.
    pub fn with_limits(self, limits: ParseManyLimits) -> (options: Self)
        ensures
            options == (ParseManyOptions { limits, ..self }),
    {
        ParseManyOptions { limits, ..self }
    }

    /// Returns the limits.
    pub fn limits(self) -> (limits: ParseManyLimits)
        ensures
            limits == self.limits,
    {
        self.limits
    }

    /// Selects what happens to an incomplete object at the end.
    pub fn with_incomplete_document_policy(self, policy: IncompleteDocumentPolicy) -> (options: Self)
        ensures
            options == (ParseManyOptions { incomplete_document: policy, ..self }),
    {
        ParseManyOptions { incomplete_document: policy, ..self }
    }

    /// Returns what happens to an incomplete object at the end.
    pub fn incomplete_document_policy(self) -> (policy: IncompleteDocumentPolicy)
        ensures
            policy == self.incomplete_document,
    {
        self.incomplete_document
    }
}

impl Default for ParseManyOptions {
    fn default() -> (options: Self)
        ensures
            options == (ParseManyOptions {
                limits: default_many_limits(),
                incomplete_document: IncompleteDocumentPolicy::Error,
            }),
    {
        ParseManyOptions::new()
    }
}

/// Resource guarded by a limit.
#[derive(Clone, Copy, Debug, PartialEq, Eq, Structural)]
#[non_exhaustive]
pub enum ParseManyLimitResource {
    DocumentBytes,
    NestingDepth,
    Values,
    ScalarTokenBytes,
}

impl ParseManyLimitResource {
    /// Human-readable description.
    pub fn description(self) -> (text: &'static str)
        ensures
            text@ == (match self {
                ParseManyLimitResource::DocumentBytes => "document bytes"@,
                ParseManyLimitResource::NestingDepth => "JSON nesting depth"@,
                ParseManyLimitResource::Values => "JSON values"@,
                ParseManyLimitResource::ScalarTokenBytes => "JSON scalar token bytes"@,
            }),
    {
        match self {
            ParseManyLimitResource::DocumentBytes => "document bytes",
            ParseManyLimitResource::NestingDepth => "JSON nesting depth",
            ParseManyLimitResource::Values => "JSON values",
            ParseManyLimitResource::ScalarTokenBytes => "JSON scalar token bytes",
        }
    }
}

/// Exact measurements for one rejected limit.
#[derive(Clone, Copy, Debug, PartialEq, Eq, Structural)]
pub struct ParseManyLimitViolation {
    pub resource: ParseManyLimitResource,
    pub actual: u64,
    pub limit: u64,
}

impl ParseManyLimitViolation {
    pub fn new(resource: ParseManyLimitResource, actual: u64, limit: u64) -> (violation: Self)
        ensures
            violation == (ParseManyLimitViolation { resource, actual, limit }),
    {
        ParseManyLimitViolation { resource, actual, limit }
    }

    /// Returns the bounded resource.
    pub fn resource(self) -> (resource: ParseManyLimitResource)
        ensures
            resource == self.resource,
    {
        self.resource
    }

    /// Returns the first rejected value.
    pub fn actual(self) -> (actual: u64)
        ensures
            actual == self.actual,
    {
        self.actual
    }

    /// Returns the configured maximum.
    pub fn limit(self) -> (limit: u64)
        ensures
            limit == self.limit,
    {
        self.limit
    }
}

/// Why a document was rejected.
#[derive(Clone, Copy, Debug, PartialEq, Eq, Structural)]
#[non_exhaustive]
pub enum ParseManyInvalidDocumentKind {
    /// The object was not valid JSON, or the next token was no object.
    Syntax(JsonSyntaxError),
    /// A limit was exceeded.
    Limit(ParseManyLimitViolation),
}

/// An invalid document at its place.
#[derive(Clone, Copy, Debug, PartialEq, Eq, Structural)]
pub struct ParseManyInvalidDocument {
    pub document_index: u64,
    pub input_offset: u64,
    pub kind: ParseManyInvalidDocumentKind,
}

impl ParseManyInvalidDocument {
    /// Returns the index that the document would have had.
    pub fn document_index(self) -> (index: u64)
        ensures
            index == self.document_index,
    {
        self.document_index
    }

    /// Returns the input offset of the document, or of the token that is no object.
    pub fn input_offset(self) -> (offset: u64)
        ensures
            offset == self.input_offset,
    {
        self.input_offset
    }

    /// Returns the reason.
    pub fn kind(self) -> (kind: ParseManyInvalidDocumentKind)
        ensures
            kind == self.kind,
    {
        self.kind
    }
}

/// Buffer that could not be grown.
#[derive(Clone, Copy, Debug, PartialEq, Eq, Structural)]
#[non_exhaustive]
pub enum ParseManyResource {
    DocumentBuffer,
    Events,
    DecodedStrings,
    ParserStack,
}

impl ParseManyResource {
    /// Human-readable description.
    pub fn description(self) -> (text: &'static str)
        ensures
            text@ == (match self {
                ParseManyResource::DocumentBuffer => "parse-many document buffer"@,
                ParseManyResource::Events => "parse-many event buffer"@,
                ParseManyResource::DecodedStrings => "decoded JSON string buffer"@,
                ParseManyResource::ParserStack => "JSON parser stack"@,
            }),
    {
        match self {
            ParseManyResource::DocumentBuffer => "parse-many document buffer",
            ParseManyResource::Events => "parse-many event buffer",
            ParseManyResource::DecodedStrings => "decoded JSON string buffer",
            ParseManyResource::ParserStack => "JSON parser stack",
        }
    }
}

/// Failure of a reader.
#[derive(Clone, Copy, Debug, PartialEq, Eq, Structural)]
#[non_exhaustive]
pub enum ParseManyError {
    /// The next object was malformed or exceeded a limit.
    InvalidDocument(ParseManyInvalidDocument),
    /// A buffer could not be grown.
    AllocationFailed { resource: ParseManyResource, requested_additional: usize },
    /// A counter would overflow.
    SizeOverflow,
    /// An earlier failure stopped the reader.
    Stopped,
}

/// Failure of a reader or of a sink.
#[derive(Debug)]
#[non_exhaustive]
pub enum ParseManyReadError<E> {
    /// The reader failed before the sink was called.
    Reader(ParseManyError),
    /// The sink rejected a valid object.
    Sink { input_offset: u64, document_index: u64, source: E },
}

/// One complete object.
#[derive(Clone, Copy, Debug)]
pub struct ParseManyDocument<'a> {
    json: &'a [u8],
    decoded: &'a [u8],
    events: &'a [StoredEvent],
    input_offset: u64,
    document_index: u64,
}

/// What a document says.
pub struct DocumentView {
    pub json: Seq<u8>,
    pub decoded: Seq<u8>,
    pub events: Seq<StoredEvent>,
    pub input_offset: u64,
    pub document_index: u64,
}

impl<'a> View for ParseManyDocument<'a> {
    type V = DocumentView;

    closed spec fn view(&self) -> DocumentView {
        DocumentView {
            json: self.json@,
            decoded: self.decoded@,
            events: self.events@,
            input_offset: self.input_offset,
            document_index: self.document_index,
        }
    }
}

impl<'a> ParseManyDocument<'a> {
    #[verifier::type_invariant]
    spec fn wf(self) -> bool {
        events_ok(self.events@, self.json@, self.decoded@)
    }

    /// Returns the exact bytes from the opening through the closing brace.
    pub fn json_bytes(self) -> (bytes: &'a [u8])
        ensures
            bytes@ == self@.json,
    {
        self.json
    }

    /// Returns the balanced, depth-first flat events.
    pub fn events(self) -> (events: JsonEvents<'a>)
        ensures
            events.source() == self@.json,
            events.text() == self@.decoded,
            events.remaining() == self@.events,
    {
        proof {
            use_type_invariant(self);
        }
        JsonEvents::new(self.json, self.decoded, self.events)
    }

    /// Returns the input offset of the opening brace.
    pub fn input_offset(self) -> (offset: u64)
        ensures
            offset == self@.input_offset,
    {
        self.input_offset
    }

    /// Returns the index among accepted documents.
    pub fn document_index(self) -> (index: u64)
        ensures
            index == self@.document_index,
    {
        self.document_index
    }
}

/// Destination of complete objects.
pub trait ParseManyDocumentSink {
    /// Error of the sink.
    type Error;

    /// Whether a sink may become `after` and answer `accepted` when it is handed `document`.
    ///
    /// A sink whose behaviour is not of interest leaves this as it is.
    open spec fn takes(
        &self,
        document: DocumentView,
        after: &Self,
        accepted: Result<(), Self::Error>,
    ) -> bool {
        true
    }

    /// Accepts one valid object.
    fn write_document(&mut self, document: ParseManyDocument<'_>) -> (accepted: Result<
        (),
        Self::Error,
    >)
        ensures
            old(self).takes(document@, final(self), accepted),
    ;
}

/// Counters of a stream.
#[derive(Clone, Copy, Debug, PartialEq, Eq, Structural)]
pub struct ParseManyStats {
    pub input_bytes: u64,
    pub separator_bytes: u64,
    pub documents: u64,
    pub truncated_bytes: u64,
}

impl Default for ParseManyStats {
    fn default() -> (stats: Self)
        ensures
            stats == (ParseManyStats { input_bytes: 0, separator_bytes: 0, documents: 0, truncated_bytes: 0 }),
    {
        ParseManyStats { input_bytes: 0, separator_bytes: 0, documents: 0, truncated_bytes: 0 }
    }
}

impl ParseManyStats {
    /// Returns bytes consumed from the input.
    pub fn input_bytes(self) -> (count: u64)
        ensures
            count == self.input_bytes,
    {
        self.input_bytes
    }

    /// Returns whitespace before, between and after objects.
    pub fn separator_bytes(self) -> (count: u64)
        ensures
            count == self.separator_bytes,
    {
        self.separator_bytes
    }

    /// Returns valid objects that the sink accepted.
    pub fn documents(self) -> (count: u64)
        ensures
            count == self.documents,
    {
        self.documents
    }

    /// Returns bytes of an ignored incomplete object.
    pub fn truncated_bytes(self) -> (count: u64)
        ensures
            count == self.truncated_bytes,
    {
        self.truncated_bytes
    }
}

/// Where a scan for the end of an object stands.
#[derive(Clone, Copy, Debug, PartialEq, Eq, Structural)]
pub struct ObjectScanState {
    pub object_depth: u64,
    pub in_string: bool,
    pub escaped: bool,
}

/// What one byte does to a scan.
pub enum ScanStep {
    Next(ObjectScanState),
    Complete,
    Invalid(JsonSyntaxError),
}

/// The scan before an object.
pub open spec fn fresh_scan() -> ObjectScanState {
    ObjectScanState { object_depth: 0, in_string: false, escaped: false }
}

/// What the byte at `at` does to a scan.
pub open spec fn scan_step(byte: u8, at: int, state: ObjectScanState) -> ScanStep {
    if state.in_string {
        if state.escaped {
            if byte < 0x20 {
                ScanStep::Invalid(
                    JsonSyntaxError {
                        offset: if at > 0 {
                            (at - 1) as usize
                        } else {
                            0
                        },
                        kind: JsonSyntaxErrorKind::InvalidEscape,
                    },
                )
            } else {
                ScanStep::Next(ObjectScanState { escaped: false, ..state })
            }
        } else if byte == BACKSLASH {
            ScanStep::Next(ObjectScanState { escaped: true, ..state })
        } else if byte == QUOTE {
            ScanStep::Next(ObjectScanState { in_string: false, ..state })
        } else if byte < 0x20 {
            ScanStep::Invalid(
                JsonSyntaxError {
                    offset: at as usize,
                    kind: JsonSyntaxErrorKind::UnescapedControlCharacter,
                },
            )
        } else {
            ScanStep::Next(state)
        }
    } else if byte == QUOTE {
        ScanStep::Next(ObjectScanState { in_string: true, ..state })
    } else if byte == LEFT_BRACE {
        ScanStep::Next(ObjectScanState { object_depth: (state.object_depth + 1) as u64, ..state })
    } else if byte == RIGHT_BRACE {
        if state.object_depth == 0 {
            ScanStep::Invalid(
                JsonSyntaxError { offset: at as usize, kind: JsonSyntaxErrorKind::ExpectedObject },
            )
        } else if state.object_depth == 1 {
            ScanStep::Complete
        } else {
            ScanStep::Next(
                ObjectScanState { object_depth: (state.object_depth - 1) as u64, ..state },
            )
        }
    } else {
        ScanStep::Next(state)
    }
}

/// How a scan ends.
pub enum Framing {
    /// The object ends before this offset.
    Complete(int),
    /// No object can start with the bytes before `end`.
    Invalid { error: JsonSyntaxError, end: int },
    /// The object is still open at the end of the bytes.
    Open(ObjectScanState),
}

/// The scan of the bytes from `at` on.
pub open spec fn framed(source: Seq<u8>, at: int, state: ObjectScanState) -> Framing
    decreases source.len() - at,
{
    if at < 0 || at >= source.len() {
        Framing::Open(state)
    } else {
        match scan_step(source[at], at, state) {
            ScanStep::Next(next) => framed(source, at + 1, next),
            ScanStep::Complete => Framing::Complete(at + 1),
            ScanStep::Invalid(error) => Framing::Invalid { error, end: at + 1 },
        }
    }
}

/// A scan goes on where a scan of a prefix stopped.
pub proof fn lemma_framed_goes_on(
    source: Seq<u8>,
    longer: Seq<u8>,
    at: int,
    state: ObjectScanState,
)
    requires
        0 <= at <= source.len() <= longer.len(),
        longer.take(source.len() as int) == source,
    ensures
        match framed(source, at, state) {
            Framing::Open(open) => framed(longer, at, state) == framed(
                longer,
                source.len() as int,
                open,
            ),
            outcome => framed(longer, at, state) == outcome,
        },
    decreases source.len() - at,
{
    if at < source.len() {
        assert(longer[at] == longer.take(source.len() as int)[at]);
        match scan_step(source[at], at, state) {
            ScanStep::Next(next) => {
                lemma_framed_goes_on(source, longer, at + 1, next);
            },
            _ => {},
        }
    }
}

pub proof fn lemma_framed_end(source: Seq<u8>, at: int, state: ObjectScanState)
    requires
        0 <= at <= source.len(),
    ensures
        match framed(source, at, state) {
            Framing::Complete(end) => at < end <= source.len(),
            Framing::Invalid { end, .. } => at < end <= source.len(),
            Framing::Open(_) => true,
        },
    decreases source.len() - at,
{
    if at < source.len() {
        match scan_step(source[at], at, state) {
            ScanStep::Next(next) => {
                lemma_framed_end(source, at + 1, next);
            },
            _ => {},
        }
    }
}

/// Where a reader stands in its stream.
pub struct ManyState {
    /// Consumed bytes of an object that is not complete yet.
    pub partial: Seq<u8>,
    /// Supplied bytes that are not consumed yet.
    pub pending: Seq<u8>,
    /// Whether the input has ended.
    pub ended: bool,
    /// Whether a failure has stopped the reader.
    pub stopped: bool,
    pub stats: ParseManyStats,
}

/// What reading the next document comes to.
pub enum ManyOutcome {
    Document(DocumentView, ManyState),
    NeedInput(ManyState),
    End(ManyState),
    Invalid(ParseManyInvalidDocument, ManyState),
    SizeOverflow,
    Stopped,
}

/// The reason of a rejected document.
pub open spec fn document_kind(kind: NdjsonInvalidRecordKind) -> ParseManyInvalidDocumentKind {
    match kind {
        NdjsonInvalidRecordKind::Syntax(error) => ParseManyInvalidDocumentKind::Syntax(error),
        NdjsonInvalidRecordKind::Limit(violation) => ParseManyInvalidDocumentKind::Limit(
            ParseManyLimitViolation {
                resource: match violation.resource {
                    NdjsonLimitResource::RecordBytes => ParseManyLimitResource::DocumentBytes,
                    NdjsonLimitResource::NestingDepth => ParseManyLimitResource::NestingDepth,
                    NdjsonLimitResource::Values => ParseManyLimitResource::Values,
                    NdjsonLimitResource::ScalarTokenBytes =>
                        ParseManyLimitResource::ScalarTokenBytes,
                },
                actual: violation.actual,
                limit: violation.limit,
            },
        ),
    }
}

/// The state after `count` of the pending bytes were consumed.
pub open spec fn with_consumed(state: ManyState, count: int) -> ManyState {
    ManyState {
        partial: Seq::empty(),
        pending: state.pending.skip(count),
        stats: ParseManyStats { input_bytes: (state.stats.input_bytes + count) as u64, ..state.stats },
        ..state
    }
}

/// A rejected document that starts at `start`, after `count` pending bytes were consumed.
pub open spec fn rejected(
    state: ManyState,
    start: int,
    count: int,
    kind: ParseManyInvalidDocumentKind,
) -> ManyOutcome {
    ManyOutcome::Invalid(
        ParseManyInvalidDocument {
            document_index: state.stats.documents,
            input_offset: start as u64,
            kind,
        },
        ManyState { stopped: true, ..with_consumed(state, count) },
    )
}

/// The bytes of the current object and of what follows it.
pub open spec fn object_bytes(state: ManyState) -> Seq<u8> {
    state.partial + state.pending
}

/// As many of these bytes as an object may have.
pub open spec fn object_window(options: ParseManyOptions, bytes: Seq<u8>) -> Seq<u8> {
    if bytes.len() <= options.limits.document_bytes {
        bytes
    } else {
        bytes.take(options.limits.document_bytes as int)
    }
}

/// What the object comes to whose bytes are the partial ones and those that follow.
pub open spec fn object_outcome(options: ParseManyOptions, state: ManyState) -> ManyOutcome {
    let bytes = object_bytes(state);
    let start = state.stats.input_bytes - state.partial.len();
    let limit = options.limits.document_bytes;
    if start + bytes.len() > u64::MAX {
        ManyOutcome::SizeOverflow
    } else {
        match framed(object_window(options, bytes), 0, fresh_scan()) {
            Framing::Complete(end) => match document(
                bytes.take(end),
                document_limits(options.limits),
            ) {
                Ok(progress) => ManyOutcome::Document(
                    DocumentView {
                        json: bytes.take(end),
                        decoded: progress.decoded,
                        events: progress.events,
                        input_offset: start as u64,
                        document_index: state.stats.documents,
                    },
                    with_consumed(state, end - state.partial.len()),
                ),
                Err(ParseFailure::Invalid(kind)) => rejected(
                    state,
                    start,
                    end - state.partial.len(),
                    document_kind(kind),
                ),
                Err(_) => ManyOutcome::SizeOverflow,
            },
            Framing::Invalid { error, end } => rejected(
                state,
                start,
                end - state.partial.len(),
                ParseManyInvalidDocumentKind::Syntax(error),
            ),
            Framing::Open(_) => if bytes.len() > limit {
                rejected(
                    state,
                    start,
                    limit + 1 - state.partial.len(),
                    ParseManyInvalidDocumentKind::Limit(
                        ParseManyLimitViolation {
                            resource: ParseManyLimitResource::DocumentBytes,
                            actual: (limit + 1) as u64,
                            limit,
                        },
                    ),
                )
            } else if !state.ended {
                ManyOutcome::NeedInput(
                    ManyState {
                        partial: bytes,
                        ..with_consumed(state, state.pending.len() as int)
                    },
                )
            } else if options.incomplete_document == IncompleteDocumentPolicy::Error {
                rejected(
                    state,
                    start,
                    state.pending.len() as int,
                    ParseManyInvalidDocumentKind::Syntax(
                        JsonSyntaxError {
                            offset: bytes.len() as usize,
                            kind: JsonSyntaxErrorKind::UnexpectedEnd,
                        },
                    ),
                )
            } else {
                let after = with_consumed(state, state.pending.len() as int);
                ManyOutcome::End(
                    ManyState {
                        stats: ParseManyStats {
                            truncated_bytes: bytes.len() as u64,
                            ..after.stats
                        },
                        ..after
                    },
                )
            },
        }
    }
}

/// The state after the whitespace before an object.
pub open spec fn after_separators(state: ManyState) -> ManyState {
    let count = skip_space(state.pending, 0);
    let after = with_consumed(state, count);
    ManyState {
        stats: ParseManyStats {
            separator_bytes: (state.stats.separator_bytes + count) as u64,
            ..after.stats
        },
        ..after
    }
}

/// What reading the next document comes to.
pub open spec fn next_document_outcome(options: ParseManyOptions, state: ManyState) -> ManyOutcome {
    if state.stopped {
        ManyOutcome::Stopped
    } else if state.partial.len() > 0 {
        object_outcome(options, state)
    } else if state.stats.input_bytes + skip_space(state.pending, 0) > u64::MAX {
        ManyOutcome::SizeOverflow
    } else {
        let state = after_separators(state);
        if state.pending.len() == 0 {
            if state.ended {
                ManyOutcome::End(state)
            } else {
                ManyOutcome::NeedInput(state)
            }
        } else if state.pending[0] != LEFT_BRACE {
            rejected(
                state,
                state.stats.input_bytes as int,
                0,
                ParseManyInvalidDocumentKind::Syntax(
                    JsonSyntaxError { offset: 0, kind: JsonSyntaxErrorKind::ExpectedObject },
                ),
            )
        } else {
            object_outcome(options, state)
        }
    }
}

/// How a scan of a chunk ended.
enum ObjectScanOutcome {
    Continue,
    Complete,
    Invalid(JsonSyntaxError),
}

/// Scans a chunk that starts at `base_offset` of the object; returns how many bytes were scanned.
fn scan_object_chunk(
    bytes: &[u8],
    base_offset: usize,
    state: &mut ObjectScanState,
    source: Ghost<Seq<u8>>,
) -> (result: (usize, ObjectScanOutcome))
    requires
        base_offset + bytes@.len() <= usize::MAX,
        base_offset + bytes@.len() == source@.len(),
        source@.skip(base_offset as int) == bytes@,
        old(state).object_depth <= base_offset,
    ensures
        result.0 <= bytes@.len(),
        ({
            let outcome = framed(source@, base_offset as int, *old(state));
            match result.1 {
                ObjectScanOutcome::Continue => result.0 == bytes@.len() && outcome
                    == Framing::Open(*final(state)) && final(state).object_depth
                    <= base_offset + bytes@.len(),
                ObjectScanOutcome::Complete => outcome == Framing::Complete(
                    base_offset + result.0,
                ),
                ObjectScanOutcome::Invalid(error) => outcome == (Framing::Invalid {
                    error,
                    end: base_offset + result.0,
                }),
            }
        }),
{
    let mut index: usize = 0;
    while index < bytes.len()
        invariant
            index <= bytes@.len(),
            base_offset + bytes@.len() <= usize::MAX,
            base_offset + bytes@.len() == source@.len(),
            source@.skip(base_offset as int) == bytes@,
            state.object_depth <= base_offset + index,
            framed(source@, base_offset as int, *old(state)) == framed(
                source@,
                base_offset + index,
                *state,
            ),
        decreases bytes@.len() - index,
    {
        let byte = bytes[index];
        let offset = base_offset + index;
        assert(source@.skip(base_offset as int)[index as int] == source@[base_offset + index]);
        if state.in_string {
            if state.escaped {
                if byte < 0x20 {
                    return (
                        index + 1,
                        ObjectScanOutcome::Invalid(
                            JsonSyntaxError {
                                offset: if offset > 0 {
                                    offset - 1
                                } else {
                                    0
                                },
                                kind: JsonSyntaxErrorKind::InvalidEscape,
                            },
                        ),
                    );
                }
                state.escaped = false;
            } else if byte == BACKSLASH {
                state.escaped = true;
            } else if byte == QUOTE {
                state.in_string = false;
            } else if byte < 0x20 {
                return (
                    index + 1,
                    ObjectScanOutcome::Invalid(
                        JsonSyntaxError {
                            offset,
                            kind: JsonSyntaxErrorKind::UnescapedControlCharacter,
                        },
                    ),
                );
            }
        } else if byte == QUOTE {
            state.in_string = true;
        } else if byte == LEFT_BRACE {
            state.object_depth = state.object_depth + 1;
        } else if byte == RIGHT_BRACE {
            if state.object_depth == 0 {
                return (
                    index + 1,
                    ObjectScanOutcome::Invalid(
                        JsonSyntaxError { offset, kind: JsonSyntaxErrorKind::ExpectedObject },
                    ),
                );
            }
            if state.object_depth == 1 {
                return (index + 1, ObjectScanOutcome::Complete);
            }
            state.object_depth = state.object_depth - 1;
        }
        index += 1;
    }
    (bytes.len(), ObjectScanOutcome::Continue)
}

/// Where the delivered document lies.
#[derive(Clone, Copy, Debug)]
enum PreparedDocument {
    Nothing,
    InputBuffer { input_offset: u64, start: usize, end: usize },
    Owned { input_offset: u64 },
}

/// What a read came to.
#[derive(Clone, Copy, Debug, PartialEq, Eq, Structural)]
pub enum ParseManyStep {
    /// A document was read.
    Document,
    /// More input is needed.
    NeedInput,
    /// The stream has ended.
    End,
}

/// Bounded reader of a stream of objects.
///
/// Objects may span lines and may stand side by side without a separator. Outside objects only
/// JSON whitespace is accepted; arrays and scalars are no documents. The reader performs no input
/// itself: it carries an input of its owner's, who supplies the bytes in chunks of any size and
/// marks their end. A valid object that lies whole in a chunk is borrowed from it.
pub struct ParseManyReader<R> {
    input: R,
    options: ParseManyOptions,
    input_buffer: Vec<u8>,
    input_start: usize,
    reached_end: bool,
    stopped: bool,
    document: Vec<u8>,
    is_framing: bool,
    scan: ObjectScanState,
    prepared: PreparedDocument,
    buffers: ParserBuffers,
    stats: ParseManyStats,
}

/// The state of a fresh reader.
pub open spec fn fresh_many() -> ManyState {
    ManyState {
        partial: Seq::empty(),
        pending: Seq::empty(),
        ended: false,
        stopped: false,
        stats: ParseManyStats {
            input_bytes: 0,
            separator_bytes: 0,
            documents: 0,
            truncated_bytes: 0,
        },
    }
}

fn map_invalid_kind(kind: NdjsonInvalidRecordKind) -> (result: ParseManyInvalidDocumentKind)
    ensures
        result == document_kind(kind),
{
    match kind {
        NdjsonInvalidRecordKind::Syntax(error) => ParseManyInvalidDocumentKind::Syntax(error),
        NdjsonInvalidRecordKind::Limit(violation) => ParseManyInvalidDocumentKind::Limit(
            ParseManyLimitViolation {
                resource: match violation.resource {
                    NdjsonLimitResource::RecordBytes => ParseManyLimitResource::DocumentBytes,
                    NdjsonLimitResource::NestingDepth => ParseManyLimitResource::NestingDepth,
                    NdjsonLimitResource::Values => ParseManyLimitResource::Values,
                    NdjsonLimitResource::ScalarTokenBytes =>
                        ParseManyLimitResource::ScalarTokenBytes,
                },
                actual: violation.actual,
                limit: violation.limit,
            },
        ),
    }
}

/// A resource of the parser, by its name here.
pub open spec fn many_resource(resource: NdjsonResource) -> ParseManyResource {
    match resource {
        NdjsonResource::RecordBuffer => ParseManyResource::DocumentBuffer,
        NdjsonResource::Events => ParseManyResource::Events,
        NdjsonResource::DecodedStrings => ParseManyResource::DecodedStrings,
        NdjsonResource::ParserStack => ParseManyResource::ParserStack,
    }
}

fn map_parse_resource(resource: NdjsonResource) -> (result: ParseManyResource)
    ensures
        result == many_resource(resource),
{
    match resource {
        NdjsonResource::RecordBuffer => ParseManyResource::DocumentBuffer,
        NdjsonResource::Events => ParseManyResource::Events,
        NdjsonResource::DecodedStrings => ParseManyResource::DecodedStrings,
        NdjsonResource::ParserStack => ParseManyResource::ParserStack,
    }
}

/// The refusal of memory, as a reader reports that of the parser.
pub open spec fn is_refusal(failure: ParseFailure, error: ParseManyError) -> bool {
    failure matches ParseFailure::AllocationFailed { resource, requested_additional } && error == (
    ParseManyError::AllocationFailed { resource: many_resource(resource), requested_additional })
}

/// Whether memory can be refused to the parse of some bytes.
pub open spec fn parse_refused(
    bytes: Seq<u8>,
    options: ParseManyOptions,
    error: ParseManyError,
) -> bool {
    exists|failure: ParseFailure|
        is_refusal(failure, error) && #[trigger] document_request(
            bytes,
            document_limits(options.limits),
            failure,
        )
}

/// Whether memory can be refused while the current object is read: to a parse of all the bytes
/// that may belong to an object that starts with them, for the bytes of an object that is kept
/// until it is complete, and to the parse of the complete object.
pub open spec fn object_refused(
    options: ParseManyOptions,
    state: ManyState,
    error: ParseManyError,
) -> bool {
    let bytes = object_bytes(state);
    let window = object_window(options, bytes);
    let partial = state.partial.len();
    &&& state.stats.input_bytes + state.pending.len() <= u64::MAX
    &&& {
        ||| partial == 0 && parse_refused(window, options, error)
        ||| is_buffer_refused(error, state.pending.len() as int) && bytes.len() > usize::MAX
        ||| match framed(window, 0, fresh_scan()) {
            Framing::Complete(end) => is_buffer_refused(error, end - partial) || parse_refused(
                bytes.take(end),
                options,
                error,
            ),
            Framing::Invalid { .. } => false,
            Framing::Open(_) => bytes.len() <= options.limits.document_bytes && !state.ended
                && 0 < state.pending.len() && is_buffer_refused(error, state.pending.len() as int),
        }
    }
}

/// Whether memory for `count` bytes of a document was refused.
pub open spec fn is_buffer_refused(error: ParseManyError, count: int) -> bool {
    error == (ParseManyError::AllocationFailed {
        resource: ParseManyResource::DocumentBuffer,
        requested_additional: count as usize,
    })
}

/// Whether a refusal of memory left the reader so: stopped, with everything counted that stood
/// before the object, and nothing of the object consumed beyond what was.
pub open spec fn is_left_stopped(begun: ManyState, after: ManyState) -> bool {
    &&& after.stopped
    &&& after.stats == begun.stats
    &&& after.pending == begun.pending
    &&& after.ended == begun.ended
}

/// Whether memory can be refused while the next document is read, so that the reader reports
/// `error` and is left in `after`. Memory is asked for only once an object has begun.
pub open spec fn read_refused(
    options: ParseManyOptions,
    state: ManyState,
    error: ParseManyError,
    after: ManyState,
) -> bool {
    &&& !state.stopped
    &&& if state.partial.len() > 0 {
        object_refused(options, state, error) && is_left_stopped(state, after)
    } else {
        let begun = after_separators(state);
        &&& state.stats.input_bytes + skip_space(state.pending, 0) <= u64::MAX
        &&& begun.pending.len() > 0
        &&& begun.pending[0] == LEFT_BRACE
        &&& object_refused(options, begun, error)
        &&& is_left_stopped(begun, after)
    }
}

/// What a read came to where no memory was refused, as its result and the state after it say.
pub open spec fn many_result(
    outcome: ManyOutcome,
    current: Option<DocumentView>,
    after: ManyState,
    result: Result<ParseManyStep, ParseManyError>,
) -> bool {
    match result {
        Ok(ParseManyStep::Document) => current is Some && outcome == ManyOutcome::Document(
            current->0,
            after,
        ),
        Ok(ParseManyStep::NeedInput) => current is None && outcome == ManyOutcome::NeedInput(after),
        Ok(ParseManyStep::End) => current is None && outcome == ManyOutcome::End(after),
        Err(ParseManyError::InvalidDocument(invalid)) => current is None && outcome
            == ManyOutcome::Invalid(invalid, after),
        Err(ParseManyError::AllocationFailed { .. }) => false,
        Err(ParseManyError::SizeOverflow) => current is None && after.stopped && outcome
            is SizeOverflow,
        Err(ParseManyError::Stopped) => current is None && after.stopped && outcome is Stopped,
    }
}

impl<R> ParseManyReader<R> {
    pub closed spec fn wf(&self) -> bool {
        &&& self.input_start <= self.input_buffer@.len()
        &&& self.stats.separator_bytes <= self.stats.input_bytes
        &&& self.is_framing ==> {
            &&& 0 < self.document@.len() <= self.stats.input_bytes
            &&& self.document@.len() <= self.options.limits.document_bytes
            &&& framed(self.document@, 0, fresh_scan()) == Framing::Open(self.scan)
            &&& self.scan.object_depth <= self.document@.len()
        }
        &&& match self.prepared {
            PreparedDocument::Nothing => true,
            PreparedDocument::InputBuffer { start, end, .. } => start <= end
                <= self.input_buffer@.len() && end <= self.input_start && events_ok(
                self.buffers.events@,
                self.input_buffer@.subrange(start as int, end as int),
                self.buffers.decoded@,
            ),
            PreparedDocument::Owned { .. } => events_ok(
                self.buffers.events@,
                self.document@,
                self.buffers.decoded@,
            ),
        }
        &&& !(self.prepared is Nothing) ==> !self.is_framing
    }

    pub closed spec fn spec_options(&self) -> ParseManyOptions {
        self.options
    }

    /// The carried input.
    pub closed spec fn carried(&self) -> R {
        self.input
    }

    /// Where the reader stands in its stream.
    pub closed spec fn state(&self) -> ManyState {
        ManyState {
            partial: if self.is_framing {
                self.document@
            } else {
                Seq::empty()
            },
            pending: self.input_buffer@.skip(self.input_start as int),
            ended: self.reached_end,
            stopped: self.stopped,
            stats: self.stats,
        }
    }

    /// The document that the last read delivered.
    pub closed spec fn current(&self) -> Option<DocumentView> {
        match self.prepared {
            PreparedDocument::Nothing => None,
            PreparedDocument::InputBuffer { input_offset, start, end } => Some(
                DocumentView {
                    json: self.input_buffer@.subrange(start as int, end as int),
                    decoded: self.buffers.decoded@,
                    events: self.buffers.events@,
                    input_offset,
                    document_index: self.stats.documents,
                },
            ),
            PreparedDocument::Owned { input_offset } => Some(
                DocumentView {
                    json: self.document@,
                    decoded: self.buffers.decoded@,
                    events: self.buffers.events@,
                    input_offset,
                    document_index: self.stats.documents,
                },
            ),
        }
    }

    /// Creates a reader that carries an input.
    pub fn new(input: R, options: ParseManyOptions) -> (reader: Self)
        ensures
            reader.wf(),
            reader.spec_options() == options,
            reader.carried() == input,
            reader.current() is None,
            reader.state() == fresh_many(),
    {
        let reader = ParseManyReader {
            input,
            options,
            input_buffer: Vec::new(),
            input_start: 0,
            reached_end: false,
            stopped: false,
            document: Vec::new(),
            is_framing: false,
            scan: ObjectScanState { object_depth: 0, in_string: false, escaped: false },
            prepared: PreparedDocument::Nothing,
            buffers: ParserBuffers::new(),
            stats: ParseManyStats::default(),
        };
        assert(reader.input_buffer@.skip(0) =~= Seq::<u8>::empty());
        reader
    }

    /// Returns the options.
    pub fn options(&self) -> (options: ParseManyOptions)
        ensures
            options == self.spec_options(),
    {
        self.options
    }

    /// Returns the counters.
    pub fn stats(&self) -> (stats: ParseManyStats)
        ensures
            stats == self.state().stats,
    {
        self.stats
    }

    /// Returns the carried input; unread bytes are dropped.
    pub fn into_inner(self) -> (input: R)
        ensures
            input == self.carried(),
    {
        self.input
    }

    /// Returns the carried input for reading.
    pub fn input_mut(&mut self) -> (input: &mut R)
        ensures
            *input == old(self).carried(),
            final(self).carried() == *final(input),
            final(self).state() == old(self).state(),
            final(self).current() == old(self).current(),
            final(self).spec_options() == old(self).spec_options(),
            old(self).wf() ==> final(self).wf(),
    {
        &mut self.input
    }

    /// Returns the supplied bytes that are still in the buffer; the unread ones are its last.
    pub fn input_buffer(&self) -> (bytes: &[u8])
        requires
            self.wf(),
        ensures
            self.state().pending.len() <= bytes@.len(),
            bytes@.skip(bytes@.len() - self.state().pending.len()) == self.state().pending,
    {
        proof {
            let pending = self.input_buffer@.skip(self.input_start as int);
            assert(self.input_buffer@.len() - pending.len() == self.input_start);
        }
        self.input_buffer.as_slice()
    }

    /// Returns the bytes of an object that were copied out of the buffer.
    pub fn document_buffer(&self) -> (bytes: &[u8])
        ensures
            self.state().partial.len() > 0 ==> bytes@ == self.state().partial,
    {
        self.document.as_slice()
    }

    /// Returns how much the buffers of documents, decoded text, events and the parser's stack hold
    /// without growing.
    pub fn buffer_capacities(&self) -> (capacities: (usize, usize, usize, usize))
        ensures
            capacities.0 >= self.state().partial.len(),
            self.current() matches Some(document) ==> capacities.1 >= document.decoded.len()
                && capacities.2 >= document.events.len(),
    {
        (
            capacity_of(&self.document),
            capacity_of(&self.buffers.decoded),
            capacity_of(&self.buffers.events),
            capacity_of(&self.buffers.stack),
        )
    }

    /// Hands over the next bytes of the stream. The delivered document is given up.
    pub fn supply(&mut self, chunk: &[u8])
        requires
            old(self).wf(),
        ensures
            final(self).wf(),
            final(self).spec_options() == old(self).spec_options(),
            final(self).carried() == old(self).carried(),
            final(self).current() is None,
            final(self).state() == (ManyState {
                pending: old(self).state().pending + chunk@,
                ..old(self).state()
            }),
    {
        self.prepared = PreparedDocument::Nothing;
        if self.input_start == self.input_buffer.len() {
            self.input_buffer.clear();
            self.input_start = 0;
        }
        append_slice(&mut self.input_buffer, chunk);
        assert(self.input_buffer@.skip(self.input_start as int) =~= old(self).input_buffer@.skip(
            old(self).input_start as int,
        ) + chunk@);
    }

    /// Marks the end of the stream.
    pub fn end_input(&mut self)
        requires
            old(self).wf(),
        ensures
            final(self).wf(),
            final(self).spec_options() == old(self).spec_options(),
            final(self).carried() == old(self).carried(),
            final(self).current() == old(self).current(),
            final(self).state() == (ManyState { ended: true, ..old(self).state() }),
    {
        self.reached_end = true;
    }

    /// Stops the reader after its input has failed.
    pub fn stop(&mut self)
        requires
            old(self).wf(),
        ensures
            final(self).wf(),
            final(self).spec_options() == old(self).spec_options(),
            final(self).carried() == old(self).carried(),
            final(self).current() is None,
            final(self).state() == (ManyState { stopped: true, ..old(self).state() }),
    {
        self.prepared = PreparedDocument::Nothing;
        self.stopped = true;
    }

    /// Consumes the whitespace before an object.
    fn skip_separators(&mut self) -> (result: Result<(), ParseManyError>)
        requires
            old(self).wf(),
            !old(self).is_framing,
            old(self).prepared is Nothing,
        ensures
            final(self).wf(),
            final(self).options == old(self).options,
            final(self).input == old(self).input,
            !final(self).is_framing,
            final(self).prepared is Nothing,
            match result {
                Ok(_) => {
                    &&& old(self).stats.input_bytes + skip_space(old(self).state().pending, 0)
                        <= u64::MAX
                    &&& final(self).state() == after_separators(old(self).state())
                },
                Err(error) => error is SizeOverflow && old(self).stats.input_bytes + skip_space(
                    old(self).state().pending,
                    0,
                ) > u64::MAX,
            },
    {
        let ghost pending = self.input_buffer@.skip(self.input_start as int);
        let end = self.input_buffer.len();
        let mut count: usize = 0;
        while count < end - self.input_start && is_json_whitespace(
            self.input_buffer[self.input_start + count],
        )
            invariant
                self == old(self),
                end == self.input_buffer@.len(),
                self.input_start <= end,
                pending == self.input_buffer@.skip(self.input_start as int),
                self.input_start + count <= self.input_buffer@.len(),
                skip_space(pending, count as int) == skip_space(pending, 0),
            decreases self.input_buffer@.len() - count,
        {
            assert(pending[count as int] == self.input_buffer@[self.input_start + count]);
            count += 1;
        }
        proof {
            if self.input_start + count < self.input_buffer@.len() {
                assert(pending[count as int] == self.input_buffer@[self.input_start + count]);
            }
            assert(skip_space(pending, 0) == count);
        }
        match self.stats.input_bytes.checked_add(count as u64) {
            None => Err(ParseManyError::SizeOverflow),
            Some(input_bytes) => {
                self.input_start = self.input_start + count;
                self.stats.input_bytes = input_bytes;
                self.stats.separator_bytes = self.stats.separator_bytes + count as u64;
                assert(self.input_buffer@.skip(self.input_start as int) =~= pending.skip(
                    count as int,
                ));
                Ok(())
            },
        }
    }

    /// Reports an invalid document and stops.
    fn reject(&mut self, input_offset: u64, consumed: usize, kind: ParseManyInvalidDocumentKind) -> (error:
        ParseManyError)
        requires
            old(self).wf(),
            old(self).prepared is Nothing,
            consumed <= old(self).state().pending.len(),
            old(self).stats.input_bytes + consumed <= u64::MAX,
        ensures
            final(self).wf(),
            final(self).options == old(self).options,
            final(self).input == old(self).input,
            final(self).prepared is Nothing,
            error matches ParseManyError::InvalidDocument(invalid) && rejected(
                old(self).state(),
                input_offset as int,
                consumed as int,
                kind,
            ) == ManyOutcome::Invalid(invalid, final(self).state()),
    {
        let end = self.input_buffer.len();
        assert(self.input_start + consumed <= end);
        self.stopped = true;
        self.is_framing = false;
        self.input_start = self.input_start + consumed;
        self.stats.input_bytes = self.stats.input_bytes + consumed as u64;
        assert(self.state().pending =~= old(self).state().pending.skip(consumed as int));
        ParseManyError::InvalidDocument(
            ParseManyInvalidDocument {
                document_index: self.stats.documents,
                input_offset,
                kind,
            },
        )
    }

    /// Stops after a failure that is not the document's.
    fn stop_with(&mut self, error: ParseManyError) -> (result: ParseManyError)
        requires
            old(self).wf(),
            old(self).prepared is Nothing,
        ensures
            final(self).wf(),
            final(self).options == old(self).options,
            final(self).input == old(self).input,
            final(self).prepared is Nothing,
            final(self).state() == (ManyState { stopped: true, ..old(self).state() }),
            result == error,
    {
        self.stopped = true;
        error
    }

    /// Appends consumed bytes to the document.
    fn keep_bytes(&mut self, count: usize) -> (result: Result<(), ParseManyError>)
        requires
            old(self).input_start + count <= old(self).input_buffer@.len(),
        ensures
            match result {
                Ok(_) => final(self).document@ == old(self).document@
                    + old(self).input_buffer@.subrange(
                    old(self).input_start as int,
                    old(self).input_start + count,
                ) && *final(self) == (ParseManyReader {
                    document: final(self).document,
                    ..*old(self)
                }),
                Err(error) => 0 < count && is_buffer_refused(error, count as int) && *final(self)
                    == (ParseManyReader {
                    document: final(self).document,
                    ..*old(self)
                }) && final(self).document@ == old(self).document@,
            },
    {
        let reserved = count == 0 || self.document.try_reserve(count).is_ok();
        self.keep_reserved_bytes(count, reserved)
    }

    /// Appends consumed bytes to the document, given whether there is memory for them.
    fn keep_reserved_bytes(&mut self, count: usize, reserved: bool) -> (result: Result<
        (),
        ParseManyError,
    >)
        requires
            old(self).input_start + count <= old(self).input_buffer@.len(),
        ensures
            *final(self) == (ParseManyReader { document: final(self).document, ..*old(self) }),
            match result {
                Ok(_) => reserved && final(self).document@ == old(self).document@
                    + old(self).input_buffer@.subrange(
                    old(self).input_start as int,
                    old(self).input_start + count,
                ),
                Err(error) => !reserved && is_buffer_refused(error, count as int)
                    && final(self).document@ == old(self).document@,
            },
    {
        let end = self.input_buffer.len();
        assert(self.input_start + count <= end);
        if !reserved {
            return Err(
                ParseManyError::AllocationFailed {
                    resource: ParseManyResource::DocumentBuffer,
                    requested_additional: count,
                },
            );
        }
        append_slice(
            &mut self.document,
            slice_subrange(
                self.input_buffer.as_slice(),
                self.input_start,
                self.input_start + count,
            ),
        );
        Ok(())
    }

    /// Takes the outcome of a parse of the framed document.
    fn take_parsed(
        &mut self,
        parsed: Result<(), ParseFailure>,
        input_offset: u64,
        consumed: usize,
        prepared: PreparedDocument,
    ) -> (result: Result<ParseManyStep, ParseManyError>)
        requires
            old(self).wf(),
            !old(self).is_framing,
            old(self).prepared is Nothing,
            consumed <= old(self).state().pending.len(),
            old(self).stats.input_bytes + consumed <= u64::MAX,
            parsed is Ok ==> match prepared {
                PreparedDocument::Nothing => false,
                PreparedDocument::InputBuffer { start, end, input_offset: offset } => offset
                    == input_offset && start == old(self).input_start && end == start + consumed
                    && events_ok(
                    old(self).buffers.events@,
                    old(self).input_buffer@.subrange(start as int, end as int),
                    old(self).buffers.decoded@,
                ),
                PreparedDocument::Owned { input_offset: offset } => offset == input_offset
                    && events_ok(
                    old(self).buffers.events@,
                    old(self).document@,
                    old(self).buffers.decoded@,
                ),
            },
        ensures
            final(self).wf(),
            final(self).options == old(self).options,
            final(self).input == old(self).input,
            match parsed {
                Ok(_) => {
                    &&& result == Ok::<ParseManyStep, ParseManyError>(ParseManyStep::Document)
                    &&& final(self).prepared == prepared
                    &&& final(self).buffers == old(self).buffers
                    &&& final(self).document == old(self).document
                    &&& final(self).input_buffer == old(self).input_buffer
                    &&& final(self).state() == with_consumed(old(self).state(), consumed as int)
                },
                Err(ParseFailure::Invalid(kind)) => {
                    &&& final(self).prepared is Nothing
                    &&& result matches Err(ParseManyError::InvalidDocument(invalid)) && rejected(
                        old(self).state(),
                        input_offset as int,
                        consumed as int,
                        document_kind(kind),
                    ) == ManyOutcome::Invalid(invalid, final(self).state())
                },
                Err(failure @ ParseFailure::AllocationFailed { .. }) => {
                    &&& final(self).prepared is Nothing
                    &&& is_left_stopped(old(self).state(), final(self).state())
                    &&& result matches Err(error) && is_refusal(failure, error)
                },
                Err(ParseFailure::SizeOverflow) => final(self).prepared is Nothing
                    && final(self).stopped && result == Err::<ParseManyStep, ParseManyError>(
                    ParseManyError::SizeOverflow,
                ),
            },
    {
        match parsed {
            Ok(_) => {
                let end = self.input_buffer.len();
                assert(self.input_start + consumed <= end);
                self.input_start = self.input_start + consumed;
                self.stats.input_bytes = self.stats.input_bytes + consumed as u64;
                self.prepared = prepared;
                assert(self.state().pending =~= old(self).state().pending.skip(consumed as int));
                Ok(ParseManyStep::Document)
            },
            Err(ParseFailure::Invalid(kind)) => Err(
                self.reject(input_offset, consumed, map_invalid_kind(kind)),
            ),
            Err(ParseFailure::AllocationFailed { resource, requested_additional }) => Err(
                self.stop_with(
                    ParseManyError::AllocationFailed {
                        resource: map_parse_resource(resource),
                        requested_additional,
                    },
                ),
            ),
            Err(ParseFailure::SizeOverflow) => Err(self.stop_with(ParseManyError::SizeOverflow)),
        }
    }

    /// Parses the object at the front of the input buffer, where it lies there whole.
    fn speculate(&mut self, input_offset: u64, window: usize) -> (result: Result<
        Option<ParseManyStep>,
        ParseManyError,
    >)
        requires
            old(self).wf(),
            !old(self).is_framing,
            old(self).prepared is Nothing,
            !old(self).stopped,
            0 < window <= old(self).state().pending.len(),
            old(self).state().pending[0] == LEFT_BRACE,
            old(self).stats.input_bytes + old(self).state().pending.len() <= u64::MAX,
            input_offset == old(self).stats.input_bytes,
            object_window(old(self).options, old(self).state().pending)
                == old(self).state().pending.take(window as int),
        ensures
            final(self).wf(),
            final(self).options == old(self).options,
            final(self).input == old(self).input,
            match result {
                Ok(Some(step)) => many_result(
                    object_outcome(old(self).options, old(self).state()),
                    final(self).current(),
                    final(self).state(),
                    Ok::<ParseManyStep, ParseManyError>(step),
                ),
                Ok(None) => *final(self) == (ParseManyReader {
                    buffers: final(self).buffers,
                    ..*old(self)
                }),
                Err(error) => {
                    &&& final(self).prepared is Nothing
                    &&& object_refused(old(self).options, old(self).state(), error)
                    &&& is_left_stopped(old(self).state(), final(self).state())
                },
            },
    {
        let end = self.input_buffer.len();
        assert(self.input_start + window <= end);
        if window == usize::MAX {
            return Ok(None);
        }
        let start = self.input_start;
        let ghost before = self.state();
        let ghost source = before.pending.take(window as int);
        proof {
            assert(source =~= self.input_buffer@.subrange(start as int, start + window));
            prefixes_are_framed(source, document_limits(self.options.limits));
        }
        let parsed = parse_document_prefix(
            slice_subrange(self.input_buffer.as_slice(), start, start + window),
            self.options.limits.parser_limits(),
            &mut self.buffers,
        );
        match parsed {
            Ok(count) => {
                proof {
                    assert(self.state() == before);
                    assert(object_bytes(before) =~= before.pending);
                    assert(source.take(count as int) =~= before.pending.take(count as int));
                    assert(before.pending.take(count as int) =~= self.input_buffer@.subrange(
                        start as int,
                        start + count,
                    ));
                    lemma_events_fit(
                        self.buffers.events@,
                        source,
                        count as int,
                        self.buffers.decoded@,
                    );
                }
                let prepared = PreparedDocument::InputBuffer {
                    input_offset,
                    start,
                    end: start + count,
                };
                match self.take_parsed(Ok(()), input_offset, count, prepared) {
                    Ok(step) => Ok(Some(step)),
                    Err(error) => Err(error),
                }
            },
            Err(ParseFailure::AllocationFailed { resource, requested_additional }) => {
                let error = ParseManyError::AllocationFailed {
                    resource: map_parse_resource(resource),
                    requested_additional,
                };
                proof {
                    let failure = ParseFailure::AllocationFailed { resource, requested_additional };
                    assert(object_bytes(before) =~= before.pending);
                    assert(is_refusal(failure, error));
                    assert(document_request(
                        source,
                        document_limits(self.options.limits),
                        failure,
                    ));
                    assert(parse_refused(source, self.options, error));
                }
                Err(self.stop_with(error))
            },
            Err(_) => Ok(None),
        }
    }

    /// Completes the object whose first bytes were kept, and parses it.
    #[verifier::rlimit(40)]
    #[verifier::spinoff_prover]
    fn prepare_owned(&mut self, input_offset: u64, count: usize) -> (result: Result<
        ParseManyStep,
        ParseManyError,
    >)
        requires
            old(self).wf(),
            old(self).state().partial == old(self).document@,
            old(self).prepared is Nothing,
            !old(self).stopped,
            count <= old(self).state().pending.len(),
            old(self).stats.input_bytes + old(self).state().pending.len() <= u64::MAX,
            input_offset == old(self).stats.input_bytes - old(self).document@.len(),
            framed(
                object_window(old(self).options, object_bytes(old(self).state())),
                0,
                fresh_scan(),
            ) == Framing::Complete(old(self).document@.len() + count),
        ensures
            final(self).wf(),
            final(self).options == old(self).options,
            final(self).input == old(self).input,
            many_result(
                object_outcome(old(self).options, old(self).state()),
                final(self).current(),
                final(self).state(),
                result,
            ) || (result matches Err(error) && final(self).current() is None && object_refused(
                old(self).options,
                old(self).state(),
                error,
            ) && is_left_stopped(old(self).state(), final(self).state())),
    {
        let ghost before = self.state();
        self.is_framing = false;
        match self.keep_bytes(count) {
            Ok(_) => {},
            Err(error) => {
                return Err(self.stop_with(error));
            },
        }
        proof {
            assert(self.document@ =~= object_bytes(before).take(before.partial.len() + count));
            assert(with_consumed(self.state(), count as int) == with_consumed(
                before,
                count as int,
            ));
        }
        let parsed = parse_document(
            self.document.as_slice(),
            self.options.limits.parser_limits(),
            &mut self.buffers,
        );
        let ghost parsed_before = parsed;
        let ghost kept = self.document@;
        let result = self.take_parsed(
            parsed,
            input_offset,
            count,
            PreparedDocument::Owned { input_offset },
        );
        proof {
            if parsed_before is Err && parsed_before->Err_0 is AllocationFailed {
                let failure = parsed_before->Err_0;
                let error = result->Err_0;
                assert(is_refusal(failure, error));
                assert(document_request(kept, document_limits(self.options.limits), failure));
                assert(parse_refused(kept, self.options, error));
            }
        }
        result
    }

    /// Goes on with an object that is still open after all of the pending bytes.
    fn continue_open(&mut self, input_offset: u64, scan: ObjectScanState) -> (result: Result<
        ParseManyStep,
        ParseManyError,
    >)
        requires
            old(self).wf(),
            old(self).prepared is Nothing,
            !old(self).stopped,
            !old(self).is_framing ==> old(self).document@.len() == 0,
            old(self).stats.input_bytes + old(self).state().pending.len() <= u64::MAX,
            input_offset == old(self).stats.input_bytes - old(self).state().partial.len(),
            0 < object_bytes(old(self).state()).len() <= old(self).options.limits.document_bytes,
            object_bytes(old(self).state()).len() <= usize::MAX,
            framed(object_bytes(old(self).state()), 0, fresh_scan()) == Framing::Open(scan),
            scan.object_depth <= object_bytes(old(self).state()).len(),
        ensures
            final(self).wf(),
            final(self).options == old(self).options,
            final(self).input == old(self).input,
            many_result(
                object_outcome(old(self).options, old(self).state()),
                final(self).current(),
                final(self).state(),
                result,
            ) || (result matches Err(error) && final(self).current() is None && object_refused(
                old(self).options,
                old(self).state(),
                error,
            ) && is_left_stopped(old(self).state(), final(self).state())),
    {
        let ghost before = self.state();
        let available = self.input_buffer.len() - self.input_start;
        let length = self.document.len() + available;
        assert(length == object_bytes(before).len());
        if !self.reached_end {
            let kept = self.keep_bytes(available);
            assert(kept is Ok ==> self.document@ =~= object_bytes(before));
            match kept {
                Ok(_) => {},
                Err(error) => {
                    return Err(self.stop_with(error));
                },
            }
            self.is_framing = true;
            self.scan = scan;
            self.input_start = self.input_start + available;
            self.stats.input_bytes = self.stats.input_bytes + available as u64;
            assert(self.state().pending =~= before.pending.skip(before.pending.len() as int));
            return Ok(ParseManyStep::NeedInput);
        }
        if self.options.incomplete_document == IncompleteDocumentPolicy::Error {
            return Err(
                self.reject(
                    input_offset,
                    available,
                    ParseManyInvalidDocumentKind::Syntax(
                        JsonSyntaxError {
                            offset: length,
                            kind: JsonSyntaxErrorKind::UnexpectedEnd,
                        },
                    ),
                ),
            );
        }
        self.is_framing = false;
        self.input_start = self.input_start + available;
        self.stats.input_bytes = self.stats.input_bytes + available as u64;
        self.stats.truncated_bytes = length as u64;
        assert(self.state().pending =~= before.pending.skip(before.pending.len() as int));
        Ok(ParseManyStep::End)
    }

    /// Finds the end of the current object in the pending bytes.
    #[verifier::rlimit(40)]
    #[verifier::spinoff_prover]
    fn frame_object(&mut self) -> (result: Result<ParseManyStep, ParseManyError>)
        requires
            old(self).wf(),
            old(self).prepared is Nothing,
            !old(self).stopped,
            old(self).is_framing || (old(self).state().pending.len() > 0
                && old(self).state().pending[0] == LEFT_BRACE),
        ensures
            final(self).wf(),
            final(self).options == old(self).options,
            final(self).input == old(self).input,
            many_result(
                object_outcome(old(self).options, old(self).state()),
                final(self).current(),
                final(self).state(),
                result,
            ) || (result matches Err(error) && final(self).current() is None && object_refused(
                old(self).options,
                old(self).state(),
                error,
            ) && is_left_stopped(old(self).state(), final(self).state())),
    {
        let ghost before = self.state();
        let ghost bytes = object_bytes(before);
        if !self.is_framing {
            self.document.clear();
            self.scan = ObjectScanState { object_depth: 0, in_string: false, escaped: false };
        }
        assert(self.state() == before);
        assert(before.partial =~= self.document@);
        let partial = self.document.len();
        let available = self.input_buffer.len() - self.input_start;
        if self.stats.input_bytes.checked_add(available as u64).is_none() {
            return Err(self.stop_with(ParseManyError::SizeOverflow));
        }
        if partial.checked_add(available).is_none() {
            return Err(
                self.stop_with(
                    ParseManyError::AllocationFailed {
                        resource: ParseManyResource::DocumentBuffer,
                        requested_additional: available,
                    },
                ),
            );
        }
        let input_offset = self.stats.input_bytes - partial as u64;
        let limit = self.options.limits.document_bytes;
        let remaining = limit - partial as u64;
        let window = if available as u64 <= remaining {
            available
        } else {
            remaining as usize
        };
        let ghost source = object_window(self.options, bytes);
        if !self.is_framing && window > 0 {
            assert(bytes =~= before.pending);
            assert(source =~= before.pending.take(window as int));
            match self.speculate(input_offset, window)? {
                Some(step) => {
                    return Ok(step);
                },
                None => {},
            }
        }
        let mut scan = self.scan;
        proof {
            assert(self.state() == before);
            assert(source.len() == partial + window);
            assert(source.skip(partial as int) =~= before.pending.take(window as int));
            assert(before.pending.take(window as int) =~= self.input_buffer@.subrange(
                self.input_start as int,
                self.input_start + window,
            ));
            assert(source.take(partial as int) =~= self.document@);
            if partial > 0 {
                lemma_framed_goes_on(self.document@, source, 0, fresh_scan());
            }
            assert(framed(source, 0, fresh_scan()) == framed(source, partial as int, scan));
            lemma_framed_end(source, partial as int, scan);
        }
        let (count, outcome) = scan_object_chunk(
            slice_subrange(
                self.input_buffer.as_slice(),
                self.input_start,
                self.input_start + window,
            ),
            partial,
            &mut scan,
            Ghost(source),
        );
        match outcome {
            ObjectScanOutcome::Invalid(error) => Err(
                self.reject(input_offset, count, ParseManyInvalidDocumentKind::Syntax(error)),
            ),
            ObjectScanOutcome::Complete => self.prepare_owned(input_offset, count),
            ObjectScanOutcome::Continue => if window < available {
                Err(
                    self.reject(
                        input_offset,
                        window + 1,
                        ParseManyInvalidDocumentKind::Limit(
                            ParseManyLimitViolation {
                                resource: ParseManyLimitResource::DocumentBytes,
                                actual: limit + 1,
                                limit,
                            },
                        ),
                    ),
                )
            } else {
                self.continue_open(input_offset, scan)
            },
        }
    }

    /// Reads and validates the next document of the supplied bytes.
    pub fn next_document(&mut self) -> (result: Result<ParseManyStep, ParseManyError>)
        requires
            old(self).wf(),
        ensures
            final(self).wf(),
            final(self).spec_options() == old(self).spec_options(),
            final(self).carried() == old(self).carried(),
            many_result(
                next_document_outcome(old(self).spec_options(), old(self).state()),
                final(self).current(),
                final(self).state(),
                result,
            ) || (result matches Err(error) && final(self).current() is None && read_refused(
                old(self).spec_options(),
                old(self).state(),
                error,
                final(self).state(),
            )),
            old(self).state().stopped ==> final(self).state() == old(self).state(),
    {
        self.prepared = PreparedDocument::Nothing;
        if self.stopped {
            return Err(ParseManyError::Stopped);
        }
        if !self.is_framing {
            let skipped = self.skip_separators();
            match skipped {
                Ok(_) => {},
                Err(error) => {
                    return Err(self.stop_with(error));
                },
            }
            if self.input_start == self.input_buffer.len() {
                if self.reached_end {
                    return Ok(ParseManyStep::End);
                }
                return Ok(ParseManyStep::NeedInput);
            }
            assert(self.state().pending[0] == self.input_buffer@[self.input_start as int]);
            if self.input_buffer[self.input_start] != LEFT_BRACE {
                let input_offset = self.stats.input_bytes;
                return Err(
                    self.reject(
                        input_offset,
                        0,
                        ParseManyInvalidDocumentKind::Syntax(
                            JsonSyntaxError {
                                offset: 0,
                                kind: JsonSyntaxErrorKind::ExpectedObject,
                            },
                        ),
                    ),
                );
            }
        }
        self.frame_object()
    }

    /// Borrows the document that the last read delivered.
    pub fn document(&self) -> (document: Option<ParseManyDocument<'_>>)
        requires
            self.wf(),
        ensures
            match document {
                Some(document) => self.current() == Some(document@),
                None => self.current() is None,
            },
    {
        let (input_offset, json) = match self.prepared {
            PreparedDocument::Nothing => {
                return None;
            },
            PreparedDocument::InputBuffer { input_offset, start, end } => (
                input_offset,
                slice_subrange(self.input_buffer.as_slice(), start, end),
            ),
            PreparedDocument::Owned { input_offset } => (input_offset, self.document.as_slice()),
        };
        Some(
            ParseManyDocument {
                json,
                decoded: self.buffers.decoded.as_slice(),
                events: self.buffers.events.as_slice(),
                input_offset,
                document_index: self.stats.documents,
            },
        )
    }

    /// Settles the delivered document: counts it where the sink accepted it, and otherwise locates
    /// the sink's error.
    pub fn settle_document<E>(&mut self, accepted: Result<(), E>) -> (result: Result<
        (),
        ParseManyReadError<E>,
    >)
        requires
            old(self).wf(),
            old(self).current() is Some,
        ensures
            final(self).wf(),
            final(self).spec_options() == old(self).spec_options(),
            final(self).carried() == old(self).carried(),
            final(self).current() is None,
            match accepted {
                Ok(_) => if old(self).state().stats.documents == u64::MAX {
                    &&& result matches Err(ParseManyReadError::Reader(error)) && error
                        is SizeOverflow
                    &&& final(self).state() == old(self).state()
                } else {
                    &&& result is Ok
                    &&& final(self).state() == accepted_state(old(self).state())
                },
                Err(source) => {
                    &&& result == Err::<(), ParseManyReadError<E>>(
                        ParseManyReadError::Sink {
                            input_offset: (old(self).current()->0).input_offset,
                            document_index: (old(self).current()->0).document_index,
                            source,
                        },
                    )
                    &&& final(self).state() == old(self).state()
                },
            },
    {
        let input_offset = match self.prepared {
            PreparedDocument::Nothing => 0,
            PreparedDocument::InputBuffer { input_offset, .. } => input_offset,
            PreparedDocument::Owned { input_offset } => input_offset,
        };
        self.prepared = PreparedDocument::Nothing;
        match accepted {
            Err(source) => Err(
                ParseManyReadError::Sink {
                    input_offset,
                    document_index: self.stats.documents,
                    source,
                },
            ),
            Ok(_) => match self.stats.documents.checked_add(1) {
                None => Err(ParseManyReadError::Reader(ParseManyError::SizeOverflow)),
                Some(documents) => {
                    self.stats.documents = documents;
                    Ok(())
                },
            },
        }
    }

    /// Reads the next document and hands it to `sink` exactly once.
    pub fn read_document<S: ParseManyDocumentSink>(&mut self, sink: &mut S) -> (result: Result<
        ParseManyStep,
        ParseManyReadError<S::Error>,
    >)
        requires
            old(self).wf(),
        ensures
            final(self).wf(),
            final(self).spec_options() == old(self).spec_options(),
            final(self).carried() == old(self).carried(),
            read_result(
                old(self).spec_options(),
                old(self).state(),
                old(sink),
                final(sink),
                final(self).state(),
                result,
            ),
            old(self).state().stopped ==> final(self).state() == old(self).state(),
    {
        match self.next_document() {
            Err(error) => Err(ParseManyReadError::Reader(error)),
            Ok(ParseManyStep::NeedInput) => Ok(ParseManyStep::NeedInput),
            Ok(ParseManyStep::End) => Ok(ParseManyStep::End),
            Ok(ParseManyStep::Document) => {
                let accepted = match self.document() {
                    Some(document) => sink.write_document(document),
                    None => Ok(()),
                };
                assert(accepted is Ok ==> accepted->Ok_0 == ());
                match self.settle_document(accepted) {
                    Ok(_) => Ok(ParseManyStep::Document),
                    Err(error) => Err(error),
                }
            },
        }
    }

    /// Hands every document of the supplied bytes to `sink`, until more input is needed or the
    /// input has ended.
    pub fn read_to_end<S: ParseManyDocumentSink>(&mut self, sink: &mut S) -> (result: Result<
        (ParseManyStep, ParseManyStats),
        ParseManyReadError<S::Error>,
    >)
        requires
            old(self).wf(),
        ensures
            final(self).wf(),
            final(self).spec_options() == old(self).spec_options(),
            final(self).carried() == old(self).carried(),
            result matches Ok((step, stats)) ==> !(step is Document) && stats
                == final(self).state().stats,
            exists|sinks: Seq<S>|
                {
                    &&& #[trigger] is_delivery(old(self).spec_options(), old(self).state(), sinks)
                    &&& sinks[0] == *old(sink)
                    &&& after_documents(
                        old(self).spec_options(),
                        old(self).state(),
                        (sinks.len() - 1) as nat,
                    ) matches Some(state) && read_result(
                        old(self).spec_options(),
                        state,
                        &sinks.last(),
                        final(sink),
                        final(self).state(),
                        match result {
                            Ok((step, _)) => Ok(step),
                            Err(error) => Err(error),
                        },
                    )
                },
    {
        let ghost options = self.spec_options();
        let ghost start = self.state();
        let ghost mut sinks: Seq<S> = seq![*sink];
        loop
            invariant
                self.wf(),
                self.spec_options() == options,
                self.carried() == old(self).carried(),
                options == old(self).spec_options(),
                start == old(self).state(),
                is_delivery(options, start, sinks),
                sinks[0] == *old(sink),
                sinks.last() == *sink,
                after_documents(options, start, (sinks.len() - 1) as nat) == Some(self.state()),
            decreases self.state().pending.len() + self.state().partial.len(),
        {
            let ghost before = self.state();
            match self.read_document(sink) {
                Err(error) => {
                    return Err(error);
                },
                Ok(ParseManyStep::Document) => {
                    proof {
                        lemma_document_progress(options, before);
                        lemma_delivery_goes_on(options, start, sinks, before, *sink);
                        sinks = sinks.push(*sink);
                    }
                },
                Ok(step) => {
                    let stats = self.stats;
                    return Ok((step, stats));
                },
            }
        }
    }
}

/// The state once a sink has accepted the delivered document.
pub open spec fn accepted_state(state: ManyState) -> ManyState {
    ManyState {
        stats: ParseManyStats { documents: (state.stats.documents + 1) as u64, ..state.stats },
        ..state
    }
}

/// The state after a number of documents was read and accepted, if there are as many.
pub open spec fn after_documents(options: ParseManyOptions, state: ManyState, count: nat) -> Option<
    ManyState,
>
    decreases count,
{
    if count == 0 {
        Some(state)
    } else {
        match after_documents(options, state, (count - 1) as nat) {
            None => None,
            Some(before) => match next_document_outcome(options, before) {
                ManyOutcome::Document(_, after) => if after.stats.documents < u64::MAX {
                    Some(accepted_state(after))
                } else {
                    None
                },
                _ => None,
            },
        }
    }
}

/// Whether `sinks` are the states of one sink that was handed the documents from `start` on, in
/// order, and accepted each.
pub open spec fn is_delivery<S: ParseManyDocumentSink>(
    options: ParseManyOptions,
    start: ManyState,
    sinks: Seq<S>,
) -> bool
    decreases sinks.len(),
{
    if sinks.len() <= 1 {
        sinks.len() == 1
    } else {
        &&& is_delivery(options, start, sinks.drop_last())
        &&& after_documents(options, start, (sinks.len() - 2) as nat) matches Some(state)
            && next_document_outcome(options, state) matches ManyOutcome::Document(document, _)
            && sinks[sinks.len() - 2].takes(document, &sinks.last(), Ok(()))
    }
}

proof fn lemma_delivery_goes_on<S: ParseManyDocumentSink>(
    options: ParseManyOptions,
    start: ManyState,
    sinks: Seq<S>,
    before: ManyState,
    next: S,
)
    requires
        is_delivery(options, start, sinks),
        after_documents(options, start, (sinks.len() - 1) as nat) == Some(before),
        next_document_outcome(options, before) matches ManyOutcome::Document(document, after)
            && after.stats.documents < u64::MAX && sinks.last().takes(document, &next, Ok(())),
    ensures
        sinks.len() > 0,
        is_delivery(options, start, sinks.push(next)),
        after_documents(options, start, sinks.len()) == Some(
            accepted_state(next_document_outcome(options, before)->Document_1),
        ),
{
    assert(sinks.push(next).drop_last() =~= sinks);
}

/// Whether the partial bytes can be those of an object.
pub open spec fn is_state_ok(options: ParseManyOptions, state: ManyState) -> bool {
    state.partial.len() > 0 ==> state.partial.len() <= options.limits.document_bytes && framed(
        state.partial,
        0,
        fresh_scan(),
    ) is Open
}

proof fn lemma_object_progress(options: ParseManyOptions, state: ManyState)
    requires
        is_state_ok(options, state),
    ensures
        object_outcome(options, state) matches ManyOutcome::Document(_, after) ==> {
            &&& after.partial.len() == 0
            &&& after.pending.len() < state.pending.len() + state.partial.len()
        },
        match framed(object_window(options, object_bytes(state)), 0, fresh_scan()) {
            Framing::Complete(end) => state.partial.len() < end <= object_bytes(state).len(),
            Framing::Invalid { end, .. } => state.partial.len() < end <= object_bytes(state).len(),
            Framing::Open(_) => true,
        },
{
    let bytes = object_bytes(state);
    let window = object_window(options, bytes);
    if state.partial.len() > 0 {
        assert(window.take(state.partial.len() as int) =~= state.partial);
        lemma_framed_goes_on(state.partial, window, 0, fresh_scan());
        let open = framed(state.partial, 0, fresh_scan())->Open_0;
        lemma_framed_end(window, state.partial.len() as int, open);
    } else {
        lemma_framed_end(window, 0, fresh_scan());
    }
}

/// A document that is read leaves fewer bytes unread.
pub proof fn lemma_document_progress(options: ParseManyOptions, state: ManyState)
    requires
        is_state_ok(options, state),
    ensures
        next_document_outcome(options, state) matches ManyOutcome::Document(_, after) ==> {
            &&& after.partial.len() == 0
            &&& after.pending.len() < state.pending.len() + state.partial.len()
        },
{
    lemma_skip_space(state.pending, 0);
    if state.partial.len() > 0 {
        lemma_object_progress(options, state);
    } else {
        let skipped = after_separators(state);
        assert(skipped.pending.len() <= state.pending.len());
        lemma_object_progress(options, skipped);
    }
}

/// Whitespace that goes on.
pub proof fn lemma_skip_space_goes_on(first: Seq<u8>, second: Seq<u8>, at: int)
    requires
        0 <= at <= first.len(),
    ensures
        skip_space(first + second, at) == (if skip_space(first, at) < first.len() {
            skip_space(first, at)
        } else {
            first.len() + skip_space(second, 0)
        }),
    decreases first.len() - at,
{
    let whole = first + second;
    lemma_skip_space(first, at);
    if at < first.len() {
        assert(whole[at] == first[at]);
        if is_json_space(first[at]) {
            lemma_skip_space_goes_on(first, second, at + 1);
        }
    } else {
        lemma_skip_space_shifted(whole, second, first.len() as int, 0);
        assert(whole.skip(first.len() as int) =~= second);
    }
}

proof fn lemma_skip_space_shifted(whole: Seq<u8>, tail: Seq<u8>, shift: int, at: int)
    requires
        0 <= at <= tail.len(),
        0 <= shift,
        whole.len() == shift + tail.len(),
        forall|i: int| 0 <= i < tail.len() ==> whole[shift + i] == #[trigger] tail[i],
    ensures
        skip_space(whole, shift + at) == shift + skip_space(tail, at),
    decreases tail.len() - at,
{
    if at < tail.len() {
        assert(whole[shift + at] == tail[at]);
        if is_json_space(tail[at]) {
            lemma_skip_space_shifted(whole, tail, shift, at + 1);
        }
    }
}

/// An object comes to the same whether its first bytes were kept or not.
#[verifier::rlimit(40)]
#[verifier::spinoff_prover]
proof fn lemma_kept_bytes(
    options: ParseManyOptions,
    state: ManyState,
    second: Seq<u8>,
    ended: bool,
)
    requires
        is_state_ok(options, state),
        !state.ended,
        state.partial.len() <= state.stats.input_bytes,
        object_outcome(options, state) is NeedInput,
    ensures
        ({
            let waiting = object_outcome(options, state)->NeedInput_0;
            &&& waiting.pending == Seq::<u8>::empty()
            &&& waiting.partial == object_bytes(state)
            &&& waiting.stopped == state.stopped
            &&& object_outcome(options, ManyState { pending: second, ended, ..waiting })
                == object_outcome(
                options,
                ManyState { pending: state.pending + second, ended, ..state },
            )
        }),
{
    let waiting = object_outcome(options, state)->NeedInput_0;
    let kept = ManyState { pending: second, ended, ..waiting };
    let whole = ManyState { pending: state.pending + second, ended, ..state };
    let bytes = object_bytes(state);
    assert(waiting.pending =~= Seq::<u8>::empty());
    assert(object_bytes(kept) =~= object_bytes(whole));
    assert(object_window(options, bytes) == bytes);
    let window = object_window(options, object_bytes(whole));
    assert(window.take(bytes.len() as int) =~= bytes);
    lemma_framed_goes_on(bytes, window, 0, fresh_scan());
    let open = framed(bytes, 0, fresh_scan())->Open_0;
    lemma_framed_end(window, bytes.len() as int, open);
    assert forall|count: int| bytes.len() <= count <= bytes.len() + second.len() implies (
    #[trigger] with_consumed(kept, count - kept.partial.len())) == with_consumed(
        whole,
        count - whole.partial.len(),
    ) by {
        assert(second.skip(count - bytes.len()) =~= (state.pending + second).skip(
            count - state.partial.len(),
        ));
    }
    match framed(window, 0, fresh_scan()) {
        Framing::Complete(end) => {
            let ghost consumed = with_consumed(kept, end - kept.partial.len());
            assert(consumed == with_consumed(whole, end - whole.partial.len()));
        },
        Framing::Invalid { end, .. } => {
            let ghost consumed = with_consumed(kept, end - kept.partial.len());
            assert(consumed == with_consumed(whole, end - whole.partial.len()));
        },
        Framing::Open(_) => {
            let limit = options.limits.document_bytes;
            let end = if object_bytes(whole).len() > limit {
                limit + 1
            } else {
                object_bytes(whole).len() as int
            };
            let ghost consumed = with_consumed(kept, end - kept.partial.len());
            assert(consumed == with_consumed(whole, end - whole.partial.len()));
        },
    }
}

/// How a stream is cut into chunks does not matter: bytes that were consumed while waiting for
/// input lead to the same outcome as bytes that arrive together with the rest, whether or not the
/// input ends there.
pub proof fn objects_do_not_depend_on_chunks(
    options: ParseManyOptions,
    state: ManyState,
    second: Seq<u8>,
    ended: bool,
)
    requires
        is_state_ok(options, state),
        !state.ended,
        state.partial.len() <= state.stats.input_bytes,
        state.stats.input_bytes + state.pending.len() + second.len() <= u64::MAX,
        state.stats.separator_bytes <= state.stats.input_bytes,
    ensures
        next_document_outcome(options, state) matches ManyOutcome::NeedInput(waiting)
            ==> next_document_outcome(options, ManyState { pending: second, ended, ..waiting })
            == next_document_outcome(
            options,
            ManyState { pending: state.pending + second, ended, ..state },
        ),
{
    if next_document_outcome(options, state) is NeedInput {
        let whole = ManyState { pending: state.pending + second, ended, ..state };
        if state.partial.len() > 0 {
            lemma_kept_bytes(options, state, second, ended);
        } else {
            lemma_skip_space(state.pending, 0);
            lemma_skip_space_goes_on(state.pending, second, 0);
            lemma_skip_space(second, 0);
            let middle = after_separators(state);
            let count = skip_space(state.pending, 0);
            if middle.pending.len() == 0 {
                let waiting = ManyState { pending: second, ended, ..middle };
                assert(after_separators(waiting).pending =~= after_separators(whole).pending);
            } else {
                let skipped = after_separators(whole);
                assert(skipped.pending =~= middle.pending + second);
                assert(skipped.pending[0] == middle.pending[0]);
                lemma_kept_bytes(options, middle, second, ended);
            }
        }
    }
}

/// What a read that calls a sink came to.
pub open spec fn read_result<S: ParseManyDocumentSink>(
    options: ParseManyOptions,
    before: ManyState,
    sink: &S,
    sink_after: &S,
    after: ManyState,
    result: Result<ParseManyStep, ParseManyReadError<S::Error>>,
) -> bool {
    let outcome = next_document_outcome(options, before);
    match result {
        Ok(ParseManyStep::Document) => outcome matches ManyOutcome::Document(document, state)
            && state.stats.documents < u64::MAX && after == accepted_state(state) && sink.takes(
            document,
            sink_after,
            Ok(()),
        ),
        Ok(ParseManyStep::NeedInput) => outcome == ManyOutcome::NeedInput(after) && *sink_after
            == *sink,
        Ok(ParseManyStep::End) => outcome == ManyOutcome::End(after) && *sink_after == *sink,
        Err(ParseManyReadError::Sink { input_offset, document_index, source }) => outcome
            matches ManyOutcome::Document(document, state) && input_offset
            == document.input_offset && document_index == document.document_index && after == state
            && sink.takes(document, sink_after, Err(source)),
        Err(ParseManyReadError::Reader(ParseManyError::InvalidDocument(invalid))) => outcome
            == ManyOutcome::Invalid(invalid, after) && *sink_after == *sink,
        Err(ParseManyReadError::Reader(ParseManyError::SizeOverflow)) => match outcome {
            ManyOutcome::SizeOverflow => after.stopped && *sink_after == *sink,
            ManyOutcome::Document(document, state) => state.stats.documents == u64::MAX && after
                == state && sink.takes(document, sink_after, Ok(())),
            _ => false,
        },
        Err(ParseManyReadError::Reader(ParseManyError::Stopped)) => outcome is Stopped
            && after.stopped && *sink_after == *sink,
        Err(ParseManyReadError::Reader(error)) => read_refused(options, before, error, after)
            && *sink_after == *sink,
    }
}

/// Bytes that were counted as parts of complete documents.
pub open spec fn document_bytes(state: ManyState) -> int {
    state.stats.input_bytes - state.stats.separator_bytes - state.partial.len()
}

/// Every byte is counted once, as a separator, as a part of a document, or as truncated, and a
/// document lies where its offset says.
pub proof fn bytes_are_counted_once(options: ParseManyOptions, state: ManyState)
    requires
        is_state_ok(options, state),
        state.partial.len() <= state.stats.input_bytes,
        state.stats.separator_bytes <= state.stats.input_bytes,
        state.stats.truncated_bytes == 0,
    ensures
        match next_document_outcome(options, state) {
            ManyOutcome::Document(found, after) => {
                &&& after.stats.input_bytes + after.pending.len() == state.stats.input_bytes
                    + state.pending.len()
                &&& document_bytes(after) == document_bytes(state) + found.json.len()
                &&& found.input_offset + found.json.len() == after.stats.input_bytes
                &&& found.document_index == state.stats.documents
            },
            ManyOutcome::NeedInput(after) => {
                &&& after.stats.input_bytes == state.stats.input_bytes + state.pending.len()
                &&& document_bytes(after) == document_bytes(state)
            },
            ManyOutcome::End(after) => {
                &&& after.stats.input_bytes == state.stats.input_bytes + state.pending.len()
                &&& document_bytes(after) == document_bytes(state) + after.stats.truncated_bytes
            },
            ManyOutcome::Invalid(_, after) => after.stats.input_bytes + after.pending.len()
                == state.stats.input_bytes + state.pending.len(),
            ManyOutcome::SizeOverflow | ManyOutcome::Stopped => true,
        },
{
    lemma_skip_space(state.pending, 0);
    let begun = if state.partial.len() > 0 {
        state
    } else {
        after_separators(state)
    };
    lemma_object_progress(options, begun);
}

/// Whether a reader stands in a stream: what it counted is behind it, the bytes of an open object
/// are the last of these, and what waits comes next.
pub open spec fn is_at(stream: Seq<u8>, state: ManyState) -> bool {
    let position = state.stats.input_bytes as int;
    &&& position <= stream.len()
    &&& state.partial.len() <= position
    &&& state.pending == stream.skip(position)
    &&& state.partial == stream.subrange(position - state.partial.len(), position)
}

proof fn lemma_object_delivered(options: ParseManyOptions, state: ManyState)
    requires
        is_state_ok(options, state),
        state.partial.len() <= state.stats.input_bytes,
    ensures
        object_outcome(options, state) matches ManyOutcome::Document(found, after) ==> {
            let end = found.json.len() as int;
            &&& found.input_offset == state.stats.input_bytes - state.partial.len()
            &&& state.partial.len() < end <= object_bytes(state).len()
            &&& state.stats.input_bytes + end - state.partial.len() <= u64::MAX
            &&& found.json == object_bytes(state).take(end)
            &&& after == with_consumed(state, end - state.partial.len())
        },
{
    lemma_object_progress(options, state);
}

proof fn lemma_slice_taken(stream: Seq<u8>, state: ManyState, end: int)
    requires
        is_at(stream, state),
        state.partial.len() <= end <= object_bytes(state).len(),
        state.stats.input_bytes + end - state.partial.len() <= u64::MAX,
    ensures
        ({
            let start = state.stats.input_bytes - state.partial.len();
            let after = with_consumed(state, end - state.partial.len());
            &&& object_bytes(state).take(end) == stream.subrange(start, start + end)
            &&& is_at(stream, after)
            &&& after.partial.len() == 0
            &&& after.stats.input_bytes == start + end
        }),
{
    let start = state.stats.input_bytes - state.partial.len();
    let after = with_consumed(state, end - state.partial.len());
    assert(object_bytes(state) =~= stream.skip(start));
    assert(object_bytes(state).take(end) =~= stream.subrange(start, start + end));
    assert(after.pending =~= stream.skip(start + end));
    assert(after.partial =~= stream.subrange(start + end, start + end));
}

proof fn lemma_separators_stand(stream: Seq<u8>, state: ManyState)
    requires
        is_at(stream, state),
        state.partial.len() == 0,
        state.stats.input_bytes + skip_space(state.pending, 0) <= u64::MAX,
    ensures
        is_at(stream, after_separators(state)),
        after_separators(state).partial.len() == 0,
        after_separators(state).stats.input_bytes >= state.stats.input_bytes,
        forall|i: int|
            state.stats.input_bytes <= i < after_separators(state).stats.input_bytes
                ==> is_json_space(#[trigger] stream[i]),
{
    lemma_skip_space(state.pending, 0);
    let begun = after_separators(state);
    assert(begun.pending =~= stream.skip(begun.stats.input_bytes as int));
    assert(begun.partial =~= stream.subrange(
        begun.stats.input_bytes as int,
        begun.stats.input_bytes as int,
    ));
    assert forall|i: int|
        state.stats.input_bytes <= i < begun.stats.input_bytes implies is_json_space(
        #[trigger] stream[i],
    ) by {
        assert(stream[i] == state.pending[i - state.stats.input_bytes]);
    }
}

/// A document is the slice of the stream at its offset, with only whitespace between it and where
/// the reader stood, and the reader then stands behind it.
pub proof fn documents_are_slices(
    options: ParseManyOptions,
    stream: Seq<u8>,
    state: ManyState,
)
    requires
        is_state_ok(options, state),
        is_at(stream, state),
    ensures
        next_document_outcome(options, state) matches ManyOutcome::Document(found, after) ==> {
            let start = found.input_offset as int;
            &&& is_at(stream, after)
            &&& after.partial.len() == 0
            &&& after.stats.input_bytes == start + found.json.len()
            &&& found.json == stream.subrange(start, start + found.json.len())
            &&& state.stats.input_bytes - state.partial.len() <= start
            &&& forall|i: int|
                state.stats.input_bytes - state.partial.len() <= i < start ==> is_json_space(
                    #[trigger] stream[i],
                )
        },
{
    let begun = if state.partial.len() > 0 {
        state
    } else {
        after_separators(state)
    };
    if state.partial.len() == 0 && state.stats.input_bytes + skip_space(state.pending, 0)
        <= u64::MAX {
        lemma_separators_stand(stream, state);
    }
    match next_document_outcome(options, state) {
        ManyOutcome::Document(found, _) => {
            lemma_object_delivered(options, begun);
            lemma_slice_taken(stream, begun, found.json.len() as int);
        },
        _ => {},
    }
}

} // verus!

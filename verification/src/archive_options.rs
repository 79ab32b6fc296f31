//! Limits, options, failures, and statistics of the archive adapter.

use vstd::prelude::*;

use crate::kv_ir::KvIrNamespace;
use crate::kv_ir_text::EncodedTextFault;
use crate::number::JsonNumberClassificationError;
use crate::timestamp::JsonTimestampError;

verus! {

/// Hard limits for adapter-owned schema and per-record scratch.
#[derive(Clone, Copy, Debug, PartialEq, Eq, Structural)]
pub struct KvIrArchiveLimits {
    pub schema_nodes_per_namespace: u64,
    pub schema_key_bytes: u64,
    pub nesting_depth: u64,
    pub record_events: u64,
    pub reconstructed_value_bytes: u64,
    pub reconstructed_record_bytes: u64,
}

/// The conservative default limits.
pub open spec fn default_archive_limits() -> KvIrArchiveLimits {
    KvIrArchiveLimits {
        schema_nodes_per_namespace: 1_000_000,
        schema_key_bytes: 0x400_0000,
        nesting_depth: 256,
        record_events: 1_000_000,
        reconstructed_value_bytes: 0x100_0000,
        reconstructed_record_bytes: 0x400_0000,
    }
}

impl KvIrArchiveLimits {
    /// Creates the default limit set for builder-style overrides.
    pub fn new() -> (limits: Self)
        ensures
            limits == default_archive_limits(),
    {
        KvIrArchiveLimits {
            schema_nodes_per_namespace: 1_000_000,
            schema_key_bytes: 0x400_0000,
            nesting_depth: 256,
            record_events: 1_000_000,
            reconstructed_value_bytes: 0x100_0000,
            reconstructed_record_bytes: 0x400_0000,
        }
    }

    /// Replaces the maximum non-root nodes of either namespace.
    pub fn with_max_schema_nodes_per_namespace(self, value: u64) -> (limits: Self)
        ensures
            limits == (KvIrArchiveLimits { schema_nodes_per_namespace: value, ..self }),
    {
        KvIrArchiveLimits { schema_nodes_per_namespace: value, ..self }
    }

    /// Replaces the maximum schema-key bytes of one stream.
    pub fn with_max_schema_key_bytes(self, value: u64) -> (limits: Self)
        ensures
            limits == (KvIrArchiveLimits { schema_key_bytes: value, ..self }),
    {
        KvIrArchiveLimits { schema_key_bytes: value, ..self }
    }

    /// Replaces the maximum schema and object depth.
    pub fn with_max_nesting_depth(self, value: u64) -> (limits: Self)
        ensures
            limits == (KvIrArchiveLimits { nesting_depth: value, ..self }),
    {
        KvIrArchiveLimits { nesting_depth: value, ..self }
    }

    /// Replaces the maximum events of one record.
    pub fn with_max_record_events(self, value: u64) -> (limits: Self)
        ensures
            limits == (KvIrArchiveLimits { record_events: value, ..self }),
    {
        KvIrArchiveLimits { record_events: value, ..self }
    }

    /// Replaces the maximum reconstructed bytes of one value.
    pub fn with_max_reconstructed_value_bytes(self, value: u64) -> (limits: Self)
        ensures
            limits == (KvIrArchiveLimits { reconstructed_value_bytes: value, ..self }),
    {
        KvIrArchiveLimits { reconstructed_value_bytes: value, ..self }
    }

    /// Replaces the maximum reconstructed bytes of one record.
    pub fn with_max_reconstructed_record_bytes(self, value: u64) -> (limits: Self)
        ensures
            limits == (KvIrArchiveLimits { reconstructed_record_bytes: value, ..self }),
    {
        KvIrArchiveLimits { reconstructed_record_bytes: value, ..self }
    }

    /// Returns the maximum non-root nodes of either namespace.
    pub fn max_schema_nodes_per_namespace(self) -> (limit: u64)
        ensures
            limit == self.schema_nodes_per_namespace,
    {
        self.schema_nodes_per_namespace
    }

    /// Returns the maximum schema-key bytes of one stream.
    pub fn max_schema_key_bytes(self) -> (limit: u64)
        ensures
            limit == self.schema_key_bytes,
    {
        self.schema_key_bytes
    }

    /// Returns the maximum schema and object depth.
    pub fn max_nesting_depth(self) -> (limit: u64)
        ensures
            limit == self.nesting_depth,
    {
        self.nesting_depth
    }

    /// Returns the maximum events of one record.
    pub fn max_record_events(self) -> (limit: u64)
        ensures
            limit == self.record_events,
    {
        self.record_events
    }

    /// Returns the maximum reconstructed bytes of one value.
    pub fn max_reconstructed_value_bytes(self) -> (limit: u64)
        ensures
            limit == self.reconstructed_value_bytes,
    {
        self.reconstructed_value_bytes
    }

    /// Returns the maximum reconstructed bytes of one record.
    pub fn max_reconstructed_record_bytes(self) -> (limit: u64)
        ensures
            limit == self.reconstructed_record_bytes,
    {
        self.reconstructed_record_bytes
    }
}

impl Default for KvIrArchiveLimits {
    fn default() -> (limits: Self)
        ensures
            limits == default_archive_limits(),
    {
        KvIrArchiveLimits::new()
    }
}

/// Configuration of the archive adapter.
#[derive(Clone, Copy, Debug, PartialEq, Eq, Structural)]
pub struct KvIrArchiveOptions {
    pub limits: KvIrArchiveLimits,
}

impl KvIrArchiveOptions {
    /// Creates options with the default limits.
    pub fn new() -> (options: Self)
        ensures
            options == (KvIrArchiveOptions { limits: default_archive_limits() }),
    {
        KvIrArchiveOptions { limits: KvIrArchiveLimits::new() }
    }

    /// Replaces all limits.
    pub fn with_limits(self, limits: KvIrArchiveLimits) -> (options: Self)
        ensures
            options == (KvIrArchiveOptions { limits, ..self }),
    {
        KvIrArchiveOptions { limits, ..self }
    }

    /// Returns the limits.
    pub fn limits(self) -> (limits: KvIrArchiveLimits)
        ensures
            limits == self.limits,
    {
        self.limits
    }
}

impl Default for KvIrArchiveOptions {
    fn default() -> (options: Self)
        ensures
            options == (KvIrArchiveOptions { limits: default_archive_limits() }),
    {
        KvIrArchiveOptions::new()
    }
}

/// Adapter-owned resource that could not be grown.
#[derive(Clone, Copy, Debug, PartialEq, Eq, Structural)]
#[non_exhaustive]
pub enum KvIrArchiveResource {
    SchemaNodes,
    SchemaKey,
    SelectionMap,
    TraversalStack,
    RecordPlan,
    ReconstructedText,
}

impl KvIrArchiveResource {
    /// Human-readable description.
    pub fn description(self) -> (text: &'static str)
        ensures
            text@ == (match self {
                KvIrArchiveResource::SchemaNodes => "schema nodes"@,
                KvIrArchiveResource::SchemaKey => "schema key"@,
                KvIrArchiveResource::SelectionMap => "event selection map"@,
                KvIrArchiveResource::TraversalStack => "schema traversal stack"@,
                KvIrArchiveResource::RecordPlan => "record event plan"@,
                KvIrArchiveResource::ReconstructedText => "reconstructed encoded text"@,
            }),
    {
        match self {
            KvIrArchiveResource::SchemaNodes => "schema nodes",
            KvIrArchiveResource::SchemaKey => "schema key",
            KvIrArchiveResource::SelectionMap => "event selection map",
            KvIrArchiveResource::TraversalStack => "schema traversal stack",
            KvIrArchiveResource::RecordPlan => "record event plan",
            KvIrArchiveResource::ReconstructedText => "reconstructed encoded text",
        }
    }
}

/// Resource protected by an adapter limit.
#[derive(Clone, Copy, Debug, PartialEq, Eq, Structural)]
#[non_exhaustive]
pub enum KvIrArchiveLimitResource {
    SchemaNodesPerNamespace,
    SchemaKeyBytes,
    NestingDepth,
    RecordEvents,
    ReconstructedValueBytes,
    ReconstructedRecordBytes,
}

impl KvIrArchiveLimitResource {
    /// Human-readable description.
    pub fn description(self) -> (text: &'static str)
        ensures
            text@ == (match self {
                KvIrArchiveLimitResource::SchemaNodesPerNamespace => "schema nodes per namespace"@,
                KvIrArchiveLimitResource::SchemaKeyBytes => "schema key bytes"@,
                KvIrArchiveLimitResource::NestingDepth => "nesting depth"@,
                KvIrArchiveLimitResource::RecordEvents => "record events"@,
                KvIrArchiveLimitResource::ReconstructedValueBytes => "reconstructed value bytes"@,
                KvIrArchiveLimitResource::ReconstructedRecordBytes => "reconstructed record bytes"@,
            }),
    {
        match self {
            KvIrArchiveLimitResource::SchemaNodesPerNamespace => "schema nodes per namespace",
            KvIrArchiveLimitResource::SchemaKeyBytes => "schema key bytes",
            KvIrArchiveLimitResource::NestingDepth => "nesting depth",
            KvIrArchiveLimitResource::RecordEvents => "record events",
            KvIrArchiveLimitResource::ReconstructedValueBytes => "reconstructed value bytes",
            KvIrArchiveLimitResource::ReconstructedRecordBytes => "reconstructed record bytes",
        }
    }
}

/// One observed limit violation.
#[derive(Clone, Copy, Debug, PartialEq, Eq, Structural)]
pub struct KvIrArchiveLimitViolation {
    pub resource: KvIrArchiveLimitResource,
    pub actual: u64,
    pub limit: u64,
}

impl KvIrArchiveLimitViolation {
    pub fn new(resource: KvIrArchiveLimitResource, actual: u64, limit: u64) -> (violation: Self)
        ensures
            violation == (KvIrArchiveLimitViolation { resource, actual, limit }),
    {
        KvIrArchiveLimitViolation { resource, actual, limit }
    }

    /// Returns the bounded resource.
    pub fn resource(self) -> (resource: KvIrArchiveLimitResource)
        ensures
            resource == self.resource,
    {
        self.resource
    }

    /// Returns the first rejected value.
    pub fn actual(self) -> (actual: u64)
        ensures
            actual == self.actual,
    {
        self.actual
    }

    /// Returns the configured maximum.
    pub fn limit(self) -> (limit: u64)
        ensures
            limit == self.limit,
    {
        self.limit
    }
}

/// Broken sequence of items, or a broken schema.
#[derive(Clone, Copy, Debug, PartialEq, Eq, Structural)]
#[non_exhaustive]
pub enum KvIrArchiveInvalidData {
    /// An item arrived outside a started stream.
    ItemOutsideStream,
    /// A stream began before the preceding one ended.
    NestedStreamStart,
    /// An item's position disagrees with the accounted input.
    NonContiguousInput,
    /// A schema node did not carry the next implicit ID.
    SchemaNodeOutOfSequence { namespace: KvIrNamespace, expected: u32, actual: u32 },
    /// An event referred to a node that the schema does not have.
    MissingSchemaNode { namespace: KvIrNamespace, node_id: u32 },
    /// A node that should be an object is not.
    NonObjectAncestor { namespace: KvIrNamespace, node_id: u32 },
    /// An event has two values at one node.
    DuplicateEventNode { namespace: KvIrNamespace, node_id: u32 },
    /// A planned pair is not in the event.
    MissingPlannedPair { pair_index: usize },
    /// The metadata events are no balanced traversal of one value.
    MetadataTraversal,
}

/// Construct that an archive cannot represent without loss.
#[derive(Clone, Copy, Debug, PartialEq, Eq, Structural)]
#[non_exhaustive]
pub enum KvIrArchiveUnsupported {
    /// A float is NaN or infinite.
    NonFiniteFloat { bits: u64 },
    EncodedVariableWidthMismatch,
    MissingEncodedVariable,
    MissingDictionaryVariable,
    TrailingEscape,
    EncodedFloatDecimalPosition,
    EncodedFloatDigitsTooLarge,
    EncodedFloatDigitCount,
}

impl KvIrArchiveUnsupported {
    /// Human-readable description.
    pub fn description(self) -> (text: &'static str)
        ensures
            text@ == (match self {
                KvIrArchiveUnsupported::NonFiniteFloat { .. } => "non-finite KV float"@,
                KvIrArchiveUnsupported::EncodedVariableWidthMismatch => "encoded-text variable width mismatch"@,
                KvIrArchiveUnsupported::MissingEncodedVariable => "encoded-text placeholder has no encoded variable"@,
                KvIrArchiveUnsupported::MissingDictionaryVariable => "encoded-text placeholder has no dictionary variable"@,
                KvIrArchiveUnsupported::TrailingEscape => "encoded-text logtype has a trailing escape"@,
                KvIrArchiveUnsupported::EncodedFloatDecimalPosition => "encoded float decimal position exceeds its declared digits"@,
                KvIrArchiveUnsupported::EncodedFloatDigitsTooLarge => "encoded float digit field exceeds its domain"@,
                KvIrArchiveUnsupported::EncodedFloatDigitCount => "encoded float digit field exceeds its declared digit count"@,
            }),
    {
        match self {
            KvIrArchiveUnsupported::NonFiniteFloat { .. } => "non-finite KV float",
            KvIrArchiveUnsupported::EncodedVariableWidthMismatch => "encoded-text variable width mismatch",
            KvIrArchiveUnsupported::MissingEncodedVariable => "encoded-text placeholder has no encoded variable",
            KvIrArchiveUnsupported::MissingDictionaryVariable => "encoded-text placeholder has no dictionary variable",
            KvIrArchiveUnsupported::TrailingEscape => "encoded-text logtype has a trailing escape",
            KvIrArchiveUnsupported::EncodedFloatDecimalPosition => "encoded float decimal position exceeds its declared digits",
            KvIrArchiveUnsupported::EncodedFloatDigitsTooLarge => "encoded float digit field exceeds its domain",
            KvIrArchiveUnsupported::EncodedFloatDigitCount => "encoded float digit field exceeds its declared digit count",
        }
    }
}

/// The unsupported construct for a malformed text.
pub open spec fn unsupported_text(fault: EncodedTextFault) -> KvIrArchiveUnsupported {
    match fault {
        EncodedTextFault::EncodedVariableWidthMismatch =>
            KvIrArchiveUnsupported::EncodedVariableWidthMismatch,
        EncodedTextFault::MissingEncodedVariable => KvIrArchiveUnsupported::MissingEncodedVariable,
        EncodedTextFault::MissingDictionaryVariable =>
            KvIrArchiveUnsupported::MissingDictionaryVariable,
        EncodedTextFault::TrailingEscape => KvIrArchiveUnsupported::TrailingEscape,
        EncodedTextFault::EncodedFloatDecimalPosition =>
            KvIrArchiveUnsupported::EncodedFloatDecimalPosition,
        EncodedTextFault::EncodedFloatDigitsTooLarge =>
            KvIrArchiveUnsupported::EncodedFloatDigitsTooLarge,
        EncodedTextFault::EncodedFloatDigitCount => KvIrArchiveUnsupported::EncodedFloatDigitCount,
    }
}

/// Reports a malformed text.
pub fn report_text_fault(fault: EncodedTextFault) -> (unsupported: KvIrArchiveUnsupported)
    ensures
        unsupported == unsupported_text(fault),
{
    match fault {
        EncodedTextFault::EncodedVariableWidthMismatch =>
            KvIrArchiveUnsupported::EncodedVariableWidthMismatch,
        EncodedTextFault::MissingEncodedVariable => KvIrArchiveUnsupported::MissingEncodedVariable,
        EncodedTextFault::MissingDictionaryVariable =>
            KvIrArchiveUnsupported::MissingDictionaryVariable,
        EncodedTextFault::TrailingEscape => KvIrArchiveUnsupported::TrailingEscape,
        EncodedTextFault::EncodedFloatDecimalPosition =>
            KvIrArchiveUnsupported::EncodedFloatDecimalPosition,
        EncodedTextFault::EncodedFloatDigitsTooLarge =>
            KvIrArchiveUnsupported::EncodedFloatDigitsTooLarge,
        EncodedTextFault::EncodedFloatDigitCount => KvIrArchiveUnsupported::EncodedFloatDigitCount,
    }
}

/// Why a source does not take a field.
#[derive(Clone, Debug, PartialEq, Eq)]
#[non_exhaustive]
pub enum ArchiveSourceContextError {
    /// The name belongs to the source itself.
    ReservedField { name: String },
}

/// Conversion failure.
#[allow(inconsistent_fields)]
#[derive(Clone, Debug, PartialEq, Eq)]
#[non_exhaustive]
pub enum KvIrArchiveFailure {
    /// The sequence of items or the schema is broken.
    Invalid(KvIrArchiveInvalidData),
    /// A value cannot be represented without loss.
    Unsupported { namespace: KvIrNamespace, node_id: u32, source: KvIrArchiveUnsupported },
    /// A value at the timestamp path is no timestamp.
    Timestamp { namespace: KvIrNamespace, node_id: u32, source: JsonTimestampError },
    /// A limit was exceeded.
    Limit(KvIrArchiveLimitViolation),
    /// A buffer could not be grown.
    AllocationFailed { resource: KvIrArchiveResource, requested_additional: usize },
    /// A metadata number lies outside its domain.
    MetadataNumber(JsonNumberClassificationError),
    /// The source does not take a metadata field.
    SourceContext(ArchiveSourceContextError),
    /// A counter cannot be represented.
    SizeOverflow,
}

/// Limit failure.
pub open spec fn archive_limit(
    resource: KvIrArchiveLimitResource,
    actual: int,
    limit: u64,
) -> KvIrArchiveFailure {
    KvIrArchiveFailure::Limit(KvIrArchiveLimitViolation { resource, actual: actual as u64, limit })
}

pub fn report_archive_limit(resource: KvIrArchiveLimitResource, actual: u64, limit: u64) -> (failure:
    KvIrArchiveFailure)
    ensures
        failure == archive_limit(resource, actual as int, limit),
{
    KvIrArchiveFailure::Limit(KvIrArchiveLimitViolation::new(resource, actual, limit))
}

/// The refusal of memory for `count` units of `resource`.
pub open spec fn archive_refused(resource: KvIrArchiveResource, count: int) -> KvIrArchiveFailure {
    KvIrArchiveFailure::AllocationFailed { resource, requested_additional: count as usize }
}

pub fn archive_allocation(resource: KvIrArchiveResource, requested_additional: usize) -> (failure:
    KvIrArchiveFailure)
    ensures
        failure == (KvIrArchiveFailure::AllocationFailed { resource, requested_additional }),
{
    KvIrArchiveFailure::AllocationFailed { resource, requested_additional }
}

/// Conversion failure, or failure of the archive set `E`.
#[derive(Debug)]
#[non_exhaustive]
pub enum KvIrArchiveErrorKind<E> {
    /// The conversion failed before anything was appended.
    Conversion(KvIrArchiveFailure),
    /// The archive set failed, before or after it committed the record.
    ArchiveSet { source: E, record_committed: bool },
}

impl<E> KvIrArchiveErrorKind<E> {
    /// Returns whether the triggering event was committed before the failure.
    pub fn record_committed(&self) -> (committed: bool)
        ensures
            committed == (match *self {
                KvIrArchiveErrorKind::Conversion(_) => false,
                KvIrArchiveErrorKind::ArchiveSet { record_committed, .. } => record_committed,
            }),
    {
        match self {
            KvIrArchiveErrorKind::Conversion(_) => false,
            KvIrArchiveErrorKind::ArchiveSet { record_committed, .. } => *record_committed,
        }
    }
}

/// Where an item stands in the input.
#[derive(Clone, Copy, Debug, PartialEq, Eq, Structural)]
pub struct ItemPlace {
    pub stream_index: u64,
    pub unit_index: Option<u64>,
    pub event_index: Option<u64>,
    pub input_offset: u64,
}

/// A failure located at the triggering item.
#[derive(Debug)]
pub struct KvIrArchiveError<E> {
    pub place: ItemPlace,
    pub kind: KvIrArchiveErrorKind<E>,
}

impl<E> KvIrArchiveError<E> {
    /// Returns the zero-based stream index.
    pub fn stream_index(&self) -> (index: u64)
        ensures
            index == self.place.stream_index,
    {
        self.place.stream_index
    }

    /// Returns the unit index, absent only at a stream start.
    pub fn unit_index(&self) -> (index: Option<u64>)
        ensures
            index == self.place.unit_index,
    {
        self.place.unit_index
    }

    /// Returns the log-event index, where the failure belongs to a record.
    pub fn event_index(&self) -> (index: Option<u64>)
        ensures
            index == self.place.event_index,
    {
        self.place.event_index
    }

    /// Returns the input offset of the item.
    pub fn input_offset(&self) -> (offset: u64)
        ensures
            offset == self.place.input_offset,
    {
        self.place.input_offset
    }

    /// Returns what failed.
    pub fn kind(&self) -> (kind: &KvIrArchiveErrorKind<E>)
        ensures
            *kind == self.kind,
    {
        &self.kind
    }

    /// Returns whether the triggering event was committed before the failure.
    pub fn record_committed(&self) -> (committed: bool)
        ensures
            committed == (match self.kind {
                KvIrArchiveErrorKind::Conversion(_) => false,
                KvIrArchiveErrorKind::ArchiveSet { record_committed, .. } => record_committed,
            }),
    {
        self.kind.record_committed()
    }
}

/// Successfully committed adapter counters.
#[derive(Clone, Copy, Debug, PartialEq, Eq, Structural)]
pub struct KvIrArchiveStats {
    pub streams: u64,
    pub records: u64,
    pub source_bytes: u64,
}

impl Default for KvIrArchiveStats {
    fn default() -> (stats: Self)
        ensures
            stats == (KvIrArchiveStats { streams: 0, records: 0, source_bytes: 0 }),
    {
        KvIrArchiveStats { streams: 0, records: 0, source_bytes: 0 }
    }
}

impl KvIrArchiveStats {
    /// Returns started streams.
    pub fn streams(self) -> (count: u64)
        ensures
            count == self.streams,
    {
        self.streams
    }

    /// Returns committed records.
    pub fn records(self) -> (count: u64)
        ensures
            count == self.records,
    {
        self.records
    }

    /// Returns source bytes attributed to archives.
    pub fn source_bytes(self) -> (count: u64)
        ensures
            count == self.source_bytes,
    {
        self.source_bytes
    }
}

} // verus!

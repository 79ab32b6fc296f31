//! Limits, options, errors, and statistics of the key-value IR serializer.

use vstd::prelude::*;

use crate::kv_ir::KvIrEncoding;

verus! {

/// Hard limits for untrusted MessagePack and serializer-owned memory.
#[derive(Clone, Copy, Debug, PartialEq, Eq, Structural)]
pub struct KvIrSerializerLimits {
    pub input_bytes_per_map: u64,
    pub pending_output_bytes: u64,
    pub event_output_bytes: u64,
    pub metadata_bytes: u64,
    pub schema_nodes_per_namespace: u64,
    pub nesting_depth: u64,
    pub values_per_map: u64,
    pub scalar_bytes: u64,
}

/// The conservative default limits.
pub open spec fn default_serializer_limits() -> KvIrSerializerLimits {
    KvIrSerializerLimits {
        input_bytes_per_map: 0x100_0000,
        pending_output_bytes: 0x100_0000,
        event_output_bytes: 0x100_0000,
        metadata_bytes: 0x1_0000,
        schema_nodes_per_namespace: 1_000_000,
        nesting_depth: 256,
        values_per_map: 1_000_000,
        scalar_bytes: 0x80_0000,
    }
}

impl KvIrSerializerLimits {
    /// Creates the default limit set for builder-style overrides.
    pub fn new() -> (limits: Self)
        ensures
            limits == default_serializer_limits(),
    {
        KvIrSerializerLimits {
            input_bytes_per_map: 0x100_0000,
            pending_output_bytes: 0x100_0000,
            event_output_bytes: 0x100_0000,
            metadata_bytes: 0x1_0000,
            schema_nodes_per_namespace: 1_000_000,
            nesting_depth: 256,
            values_per_map: 1_000_000,
            scalar_bytes: 0x80_0000,
        }
    }

    /// Replaces the maximum MessagePack bytes of one map.
    pub fn with_max_input_bytes_per_map(self, value: u64) -> (limits: Self)
        ensures
            limits == (KvIrSerializerLimits { input_bytes_per_map: value, ..self }),
    {
        KvIrSerializerLimits { input_bytes_per_map: value, ..self }
    }

    /// Replaces the maximum bytes that wait to be consumed.
    pub fn with_max_pending_output_bytes(self, value: u64) -> (limits: Self)
        ensures
            limits == (KvIrSerializerLimits { pending_output_bytes: value, ..self }),
    {
        KvIrSerializerLimits { pending_output_bytes: value, ..self }
    }

    /// Replaces the maximum bytes of one serialized event.
    pub fn with_max_event_output_bytes(self, value: u64) -> (limits: Self)
        ensures
            limits == (KvIrSerializerLimits { event_output_bytes: value, ..self }),
    {
        KvIrSerializerLimits { event_output_bytes: value, ..self }
    }

    /// Replaces the maximum bytes of the stream metadata.
    pub fn with_max_metadata_bytes(self, value: u64) -> (limits: Self)
        ensures
            limits == (KvIrSerializerLimits { metadata_bytes: value, ..self }),
    {
        KvIrSerializerLimits { metadata_bytes: value, ..self }
    }

    /// Replaces the maximum schema nodes of either namespace.
    pub fn with_max_schema_nodes_per_namespace(self, value: u64) -> (limits: Self)
        ensures
            limits == (KvIrSerializerLimits { schema_nodes_per_namespace: value, ..self }),
    {
        KvIrSerializerLimits { schema_nodes_per_namespace: value, ..self }
    }

    /// Replaces the maximum MessagePack nesting depth.
    pub fn with_max_nesting_depth(self, value: u64) -> (limits: Self)
        ensures
            limits == (KvIrSerializerLimits { nesting_depth: value, ..self }),
    {
        KvIrSerializerLimits { nesting_depth: value, ..self }
    }

    /// Replaces the maximum MessagePack values of one map.
    pub fn with_max_values_per_map(self, value: u64) -> (limits: Self)
        ensures
            limits == (KvIrSerializerLimits { values_per_map: value, ..self }),
    {
        KvIrSerializerLimits { values_per_map: value, ..self }
    }

    /// Replaces the maximum bytes of one MessagePack scalar.
    pub fn with_max_scalar_bytes(self, value: u64) -> (limits: Self)
        ensures
            limits == (KvIrSerializerLimits { scalar_bytes: value, ..self }),
    {
        KvIrSerializerLimits { scalar_bytes: value, ..self }
    }

    /// Returns the maximum MessagePack bytes of one map.
    pub fn max_input_bytes_per_map(self) -> (limit: u64)
        ensures
            limit == self.input_bytes_per_map,
    {
        self.input_bytes_per_map
    }

    /// Returns the maximum bytes that wait to be consumed.
    pub fn max_pending_output_bytes(self) -> (limit: u64)
        ensures
            limit == self.pending_output_bytes,
    {
        self.pending_output_bytes
    }

    /// Returns the maximum bytes of one serialized event.
    pub fn max_event_output_bytes(self) -> (limit: u64)
        ensures
            limit == self.event_output_bytes,
    {
        self.event_output_bytes
    }

    /// Returns the maximum bytes of the stream metadata.
    pub fn max_metadata_bytes(self) -> (limit: u64)
        ensures
            limit == self.metadata_bytes,
    {
        self.metadata_bytes
    }

    /// Returns the maximum schema nodes of either namespace.
    pub fn max_schema_nodes_per_namespace(self) -> (limit: u64)
        ensures
            limit == self.schema_nodes_per_namespace,
    {
        self.schema_nodes_per_namespace
    }

    /// Returns the maximum MessagePack nesting depth.
    pub fn max_nesting_depth(self) -> (limit: u64)
        ensures
            limit == self.nesting_depth,
    {
        self.nesting_depth
    }

    /// Returns the maximum MessagePack values of one map.
    pub fn max_values_per_map(self) -> (limit: u64)
        ensures
            limit == self.values_per_map,
    {
        self.values_per_map
    }

    /// Returns the maximum bytes of one MessagePack scalar.
    pub fn max_scalar_bytes(self) -> (limit: u64)
        ensures
            limit == self.scalar_bytes,
    {
        self.scalar_bytes
    }
}

impl Default for KvIrSerializerLimits {
    fn default() -> (limits: Self)
        ensures
            limits == default_serializer_limits(),
    {
        KvIrSerializerLimits::new()
    }
}

/// Serializer construction options.
#[derive(Clone, Copy, Debug, PartialEq, Eq, Structural)]
pub struct KvIrSerializerOptions {
    pub encoding: KvIrEncoding,
    pub limits: KvIrSerializerLimits,
}

impl KvIrSerializerOptions {
    /// Creates options for a variable width with the default limits.
    pub fn new(encoding: KvIrEncoding) -> (options: Self)
        ensures
            options == (KvIrSerializerOptions { encoding, limits: default_serializer_limits() }),
    {
        KvIrSerializerOptions { encoding, limits: KvIrSerializerLimits::new() }
    }

    /// Replaces all limits.
    pub fn with_limits(self, limits: KvIrSerializerLimits) -> (options: Self)
        ensures
            options == (KvIrSerializerOptions { limits, ..self }),
    {
        KvIrSerializerOptions { limits, ..self }
    }

    /// Returns the variable width.
    pub fn encoding(self) -> (encoding: KvIrEncoding)
        ensures
            encoding == self.encoding,
    {
        self.encoding
    }

    /// Returns the limits.
    pub fn limits(self) -> (limits: KvIrSerializerLimits)
        ensures
            limits == self.limits,
    {
        self.limits
    }
}

impl Default for KvIrSerializerOptions {
    fn default() -> (options: Self)
        ensures
            options == (KvIrSerializerOptions {
                encoding: KvIrEncoding::FourByte,
                limits: default_serializer_limits(),
            }),
    {
        KvIrSerializerOptions::new(KvIrEncoding::FourByte)
    }
}

/// Resource protected by a serializer limit.
#[derive(Clone, Copy, Debug, PartialEq, Eq, Structural)]
#[non_exhaustive]
pub enum KvIrSerializerLimitResource {
    InputBytesPerMap,
    PendingOutputBytes,
    EventOutputBytes,
    MetadataBytes,
    SchemaNodesPerNamespace,
    NestingDepth,
    ValuesPerMap,
    ScalarBytes,
}

impl KvIrSerializerLimitResource {
    /// Human-readable description.
    pub fn description(self) -> (text: &'static str)
        ensures
            text@ == (match self {
                KvIrSerializerLimitResource::InputBytesPerMap => "MessagePack input bytes per map"@,
                KvIrSerializerLimitResource::PendingOutputBytes => "pending KV-IR output bytes"@,
                KvIrSerializerLimitResource::EventOutputBytes => "KV-IR event output bytes"@,
                KvIrSerializerLimitResource::MetadataBytes => "KV-IR metadata bytes"@,
                KvIrSerializerLimitResource::SchemaNodesPerNamespace => "schema nodes per namespace"@,
                KvIrSerializerLimitResource::NestingDepth => "MessagePack nesting depth"@,
                KvIrSerializerLimitResource::ValuesPerMap => "MessagePack values per map"@,
                KvIrSerializerLimitResource::ScalarBytes => "MessagePack scalar bytes"@,
            }),
    {
        match self {
            KvIrSerializerLimitResource::InputBytesPerMap => "MessagePack input bytes per map",
            KvIrSerializerLimitResource::PendingOutputBytes => "pending KV-IR output bytes",
            KvIrSerializerLimitResource::EventOutputBytes => "KV-IR event output bytes",
            KvIrSerializerLimitResource::MetadataBytes => "KV-IR metadata bytes",
            KvIrSerializerLimitResource::SchemaNodesPerNamespace => "schema nodes per namespace",
            KvIrSerializerLimitResource::NestingDepth => "MessagePack nesting depth",
            KvIrSerializerLimitResource::ValuesPerMap => "MessagePack values per map",
            KvIrSerializerLimitResource::ScalarBytes => "MessagePack scalar bytes",
        }
    }
}

/// Exact serializer limit violation.
#[derive(Clone, Copy, Debug, PartialEq, Eq, Structural)]
pub struct KvIrSerializerLimitViolation {
    pub resource: KvIrSerializerLimitResource,
    pub actual: u64,
    pub limit: u64,
}

impl KvIrSerializerLimitViolation {
    pub fn new(resource: KvIrSerializerLimitResource, actual: u64, limit: u64) -> (violation: Self)
        ensures
            violation == (KvIrSerializerLimitViolation { resource, actual, limit }),
    {
        KvIrSerializerLimitViolation { resource, actual, limit }
    }

    /// Returns the bounded resource.
    pub fn resource(self) -> (resource: KvIrSerializerLimitResource)
        ensures
            resource == self.resource,
    {
        self.resource
    }

    /// Returns the first rejected value.
    pub fn actual(self) -> (actual: u64)
        ensures
            actual == self.actual,
    {
        self.actual
    }

    /// Returns the configured maximum.
    pub fn limit(self) -> (limit: u64)
        ensures
            limit == self.limit,
    {
        self.limit
    }
}

/// Which input map holds an invalid MessagePack value.
#[derive(Clone, Copy, Debug, PartialEq, Eq, Structural)]
pub enum KvIrSerializerInput {
    AutoGenerated,
    UserGenerated,
}

impl KvIrSerializerInput {
    /// Human-readable description.
    pub fn description(self) -> (text: &'static str)
        ensures
            text@ == (match self {
                KvIrSerializerInput::AutoGenerated => "auto-generated"@,
                KvIrSerializerInput::UserGenerated => "user-generated"@,
            }),
    {
        match self {
            KvIrSerializerInput::AutoGenerated => "auto-generated",
            KvIrSerializerInput::UserGenerated => "user-generated",
        }
    }
}

/// Why MessagePack could not be represented by the protocol.
#[derive(Clone, Copy, Debug, PartialEq, Eq, Structural)]
#[non_exhaustive]
pub enum KvIrMessagePackErrorKind {
    Truncated,
    ReservedMarker,
    RootMustBeMap,
    MapKeyMustBeString,
    UnsupportedBinary,
    UnsupportedExtension,
    IntegerOutOfRange,
    TrailingBytes,
    LengthOutOfRange,
}

impl KvIrMessagePackErrorKind {
    /// Human-readable description.
    pub fn description(self) -> (text: &'static str)
        ensures
            text@ == (match self {
                KvIrMessagePackErrorKind::Truncated => "truncated MessagePack"@,
                KvIrMessagePackErrorKind::ReservedMarker => "reserved MessagePack marker"@,
                KvIrMessagePackErrorKind::RootMustBeMap => "root MessagePack value is not a map"@,
                KvIrMessagePackErrorKind::MapKeyMustBeString => "MessagePack map key is not a string"@,
                KvIrMessagePackErrorKind::UnsupportedBinary => "MessagePack binary value is unsupported"@,
                KvIrMessagePackErrorKind::UnsupportedExtension => "MessagePack extension value is unsupported"@,
                KvIrMessagePackErrorKind::IntegerOutOfRange => "MessagePack integer exceeds signed 64-bit range"@,
                KvIrMessagePackErrorKind::TrailingBytes => "bytes follow the root MessagePack map"@,
                KvIrMessagePackErrorKind::LengthOutOfRange => "MessagePack length is not representable on this platform"@,
            }),
    {
        match self {
            KvIrMessagePackErrorKind::Truncated => "truncated MessagePack",
            KvIrMessagePackErrorKind::ReservedMarker => "reserved MessagePack marker",
            KvIrMessagePackErrorKind::RootMustBeMap => "root MessagePack value is not a map",
            KvIrMessagePackErrorKind::MapKeyMustBeString => "MessagePack map key is not a string",
            KvIrMessagePackErrorKind::UnsupportedBinary => "MessagePack binary value is unsupported",
            KvIrMessagePackErrorKind::UnsupportedExtension => "MessagePack extension value is unsupported",
            KvIrMessagePackErrorKind::IntegerOutOfRange => "MessagePack integer exceeds signed 64-bit range",
            KvIrMessagePackErrorKind::TrailingBytes => "bytes follow the root MessagePack map",
            KvIrMessagePackErrorKind::LengthOutOfRange => "MessagePack length is not representable on this platform",
        }
    }
}

/// Construction or event serialization failure.
#[derive(Debug)]
#[non_exhaustive]
pub enum KvIrSerializerError {
    InvalidUserDefinedMetadata,
    MetadataTooLarge(KvIrSerializerLimitViolation),
    MessagePack { input: KvIrSerializerInput, offset: usize, kind: KvIrMessagePackErrorKind },
    Limit(KvIrSerializerLimitViolation),
    /// An array holds a float whose spelling was not supplied.
    FloatTextMissing { bits: u64 },
    AllocationFailed { resource: &'static str, requested_additional: usize },
    Finished,
    SizeOverflow,
}

/// Limit failure.
pub open spec fn serializer_limit(
    resource: KvIrSerializerLimitResource,
    actual: int,
    limit: u64,
) -> KvIrSerializerError {
    KvIrSerializerError::Limit(
        KvIrSerializerLimitViolation { resource, actual: actual as u64, limit },
    )
}

/// Reports a limit failure.
pub fn limit_error(resource: KvIrSerializerLimitResource, actual: u64, limit: u64) -> (error:
    KvIrSerializerError)
    ensures
        error == serializer_limit(resource, actual as int, limit),
{
    KvIrSerializerError::Limit(KvIrSerializerLimitViolation::new(resource, actual, limit))
}

/// Whether memory for `count` units was refused to `resource`.
pub open spec fn was_refused(error: KvIrSerializerError, resource: Seq<char>, count: int) -> bool {
    error matches KvIrSerializerError::AllocationFailed { resource: name, requested_additional }
        && name@ == resource && requested_additional == count
}

/// Reports a failed allocation.
pub fn allocation(resource: &'static str, requested_additional: usize) -> (error:
    KvIrSerializerError)
    ensures
        error == (KvIrSerializerError::AllocationFailed { resource, requested_additional }),
{
    KvIrSerializerError::AllocationFailed { resource, requested_additional }
}

/// Cumulative committed serializer statistics.
#[derive(Clone, Copy, Debug, PartialEq, Eq, Structural)]
pub struct KvIrSerializerStats {
    pub log_events: u64,
    pub schema_nodes: u64,
    pub utc_offset_changes: u64,
    pub serialized_bytes: u64,
}

impl Default for KvIrSerializerStats {
    fn default() -> (stats: Self)
        ensures
            stats == (KvIrSerializerStats { log_events: 0, schema_nodes: 0, utc_offset_changes: 0, serialized_bytes: 0 }),
    {
        KvIrSerializerStats { log_events: 0, schema_nodes: 0, utc_offset_changes: 0, serialized_bytes: 0 }
    }
}

impl KvIrSerializerStats {
    /// Returns committed log events.
    pub fn log_events(self) -> (count: u64)
        ensures
            count == self.log_events,
    {
        self.log_events
    }

    /// Returns committed schema nodes.
    pub fn schema_nodes(self) -> (count: u64)
        ensures
            count == self.schema_nodes,
    {
        self.schema_nodes
    }

    /// Returns staged UTC-offset packets.
    pub fn utc_offset_changes(self) -> (count: u64)
        ensures
            count == self.utc_offset_changes,
    {
        self.utc_offset_changes
    }

    /// Returns bytes ever made pending.
    pub fn serialized_bytes(self) -> (count: u64)
        ensures
            count == self.serialized_bytes,
    {
        self.serialized_bytes
    }
}

} // verus!

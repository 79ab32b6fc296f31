//! Limits and errors of events that own their bytes.

use vstd::prelude::*;

use crate::kv_ir::KvIrNamespace;
use crate::kv_ir_text::KvIrEncodedTextError;

verus! {

/// Hard limits for materializing one independent event.
#[derive(Clone, Copy, Debug, PartialEq, Eq, Structural)]
pub struct KvIrOwnedEventLimits {
    pub materialized_nodes: u64,
    pub arena_bytes: u64,
    pub reconstructed_value_bytes: u64,
}

/// The conservative default limits.
pub open spec fn default_owned_limits() -> KvIrOwnedEventLimits {
    KvIrOwnedEventLimits {
        materialized_nodes: 1_000_000,
        arena_bytes: 67_108_864,
        reconstructed_value_bytes: 16_777_216,
    }
}

impl KvIrOwnedEventLimits {
    /// Creates the default limit set for builder-style overrides.
    pub fn new() -> (limits: Self)
        ensures
            limits == default_owned_limits(),
    {
        KvIrOwnedEventLimits {
            materialized_nodes: 1_000_000,
            arena_bytes: 67_108_864,
            reconstructed_value_bytes: 16_777_216,
        }
    }

    /// Replaces the maximum number of materialized nodes.
    pub fn with_max_materialized_nodes(self, value: u64) -> (limits: Self)
        ensures
            limits == (KvIrOwnedEventLimits { materialized_nodes: value, ..self }),
    {
        KvIrOwnedEventLimits { materialized_nodes: value, ..self }
    }

    /// Replaces the maximum number of arena bytes.
    pub fn with_max_arena_bytes(self, value: u64) -> (limits: Self)
        ensures
            limits == (KvIrOwnedEventLimits { arena_bytes: value, ..self }),
    {
        KvIrOwnedEventLimits { arena_bytes: value, ..self }
    }

    /// Replaces the maximum number of bytes of one reconstructed text.
    pub fn with_max_reconstructed_value_bytes(self, value: u64) -> (limits: Self)
        ensures
            limits == (KvIrOwnedEventLimits { reconstructed_value_bytes: value, ..self }),
    {
        KvIrOwnedEventLimits { reconstructed_value_bytes: value, ..self }
    }

    /// Returns the maximum number of materialized nodes.
    pub fn max_materialized_nodes(self) -> (limit: u64)
        ensures
            limit == self.materialized_nodes,
    {
        self.materialized_nodes
    }

    /// Returns the maximum number of arena bytes.
    pub fn max_arena_bytes(self) -> (limit: u64)
        ensures
            limit == self.arena_bytes,
    {
        self.arena_bytes
    }

    /// Returns the maximum number of bytes of one reconstructed text.
    pub fn max_reconstructed_value_bytes(self) -> (limit: u64)
        ensures
            limit == self.reconstructed_value_bytes,
    {
        self.reconstructed_value_bytes
    }
}

impl Default for KvIrOwnedEventLimits {
    fn default() -> (limits: Self)
        ensures
            limits == default_owned_limits(),
    {
        KvIrOwnedEventLimits::new()
    }
}

/// Materialization resource governed by a hard limit.
#[derive(Clone, Copy, Debug, PartialEq, Eq, Structural)]
#[non_exhaustive]
pub enum KvIrOwnedEventLimitResource {
    MaterializedNodes,
    ArenaBytes,
    ReconstructedValueBytes,
}

impl KvIrOwnedEventLimitResource {
    /// Human-readable description.
    pub fn description(self) -> (text: &'static str)
        ensures
            text@ == (match self {
                KvIrOwnedEventLimitResource::MaterializedNodes => "materialized event nodes"@,
                KvIrOwnedEventLimitResource::ArenaBytes => "owned event arena bytes"@,
                KvIrOwnedEventLimitResource::ReconstructedValueBytes => "reconstructed encoded-text bytes"@,
            }),
    {
        match self {
            KvIrOwnedEventLimitResource::MaterializedNodes => "materialized event nodes",
            KvIrOwnedEventLimitResource::ArenaBytes => "owned event arena bytes",
            KvIrOwnedEventLimitResource::ReconstructedValueBytes => "reconstructed encoded-text bytes",
        }
    }
}

/// Allocation whose growth failed while materializing an event.
#[derive(Clone, Copy, Debug, PartialEq, Eq, Structural)]
#[non_exhaustive]
pub enum KvIrOwnedEventResource {
    TemporaryNodes,
    TemporaryIndex,
    TemporaryPath,
    TemporaryOrder,
    EventNodes,
    EventArena,
}

impl KvIrOwnedEventResource {
    /// Human-readable description.
    pub fn description(self) -> (text: &'static str)
        ensures
            text@ == (match self {
                KvIrOwnedEventResource::TemporaryNodes => "temporary selected nodes"@,
                KvIrOwnedEventResource::TemporaryIndex => "temporary node index"@,
                KvIrOwnedEventResource::TemporaryPath => "temporary schema path"@,
                KvIrOwnedEventResource::TemporaryOrder => "temporary sibling order"@,
                KvIrOwnedEventResource::EventNodes => "owned event nodes"@,
                KvIrOwnedEventResource::EventArena => "owned event byte arena"@,
            }),
    {
        match self {
            KvIrOwnedEventResource::TemporaryNodes => "temporary selected nodes",
            KvIrOwnedEventResource::TemporaryIndex => "temporary node index",
            KvIrOwnedEventResource::TemporaryPath => "temporary schema path",
            KvIrOwnedEventResource::TemporaryOrder => "temporary sibling order",
            KvIrOwnedEventResource::EventNodes => "owned event nodes",
            KvIrOwnedEventResource::EventArena => "owned event byte arena",
        }
    }
}

/// Failure while making a self-contained event.
#[derive(Clone, Copy, Debug, PartialEq, Eq, Structural)]
#[non_exhaustive]
#[allow(inconsistent_fields)]
pub enum KvIrOwnedEventError {
    MissingSchemaNode { namespace: KvIrNamespace, node_id: u32 },
    InvalidSchemaPath { namespace: KvIrNamespace, node_id: u32 },
    DuplicatePair { namespace: KvIrNamespace, node_id: u32 },
    MissingPair { pair_index: u32 },
    EncodedText { namespace: KvIrNamespace, node_id: u32, source: KvIrEncodedTextError },
    Limit { resource: KvIrOwnedEventLimitResource, actual: u64, limit: u64 },
    AllocationFailed { resource: KvIrOwnedEventResource, requested_additional: usize },
    SizeOverflow,
}

} // verus!

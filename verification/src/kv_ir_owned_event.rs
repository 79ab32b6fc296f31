//! Self-contained copies of events: flat depth-first nodes over one byte arena.

use vstd::prelude::*;

use crate::kv_ir::{
    KvIrLogEvent, KvIrNamespace, KvIrNodeType, KvIrPair, KvIrSchemaEntry, KvIrValueKind,
};
use crate::kv_ir_text::{text_asks, text_error, text_limits, with_text, KvIrEncodedTextError};
use crate::owned_options::{
    KvIrOwnedEventError, KvIrOwnedEventLimitResource, KvIrOwnedEventLimits, KvIrOwnedEventResource,
};
use crate::owned_order::{
    depth_first, from_node, is_linked_node, is_linked_tree, is_node_ok, is_schema, lemma_next_child,
    lemma_walk_beside, lemma_walk_down, linked_id, memory_refused, node_ids, nothing_chosen,
    pair_asks, pair_at, parent_of,
    rest_after, with_pair, Chosen, TempNode, TempTree,
};
use crate::text::append_slice;
use vstd::slice::slice_subrange;

verus! {

/// Byte range in an owned event's arena.
#[derive(Clone, Copy, Debug, PartialEq, Eq, Structural)]
pub struct KvIrOwnedSpan {
    pub offset: u32,
    pub length: u32,
}

impl KvIrOwnedSpan {
    /// Returns where the range starts.
    pub fn offset(self) -> (offset: u32)
        ensures
            offset == self.offset,
    {
        self.offset
    }

    /// Returns the number of bytes.
    pub fn length(self) -> (length: u32)
        ensures
            length == self.length,
    {
        self.length
    }
}

/// Scalar or byte interpretation of one node.
#[derive(Clone, Copy, Debug, PartialEq, Eq, Structural)]
#[non_exhaustive]
pub enum KvIrOwnedValueKind {
    Object,
    Integer,
    Float,
    Boolean,
    String,
    ArrayJson,
    Null,
    EmptyObject,
}

/// Value carried by one node.
#[derive(Clone, Copy, Debug, PartialEq, Eq, Structural)]
#[non_exhaustive]
pub enum KvIrOwnedValue {
    /// An object selected only because it contains a selected descendant.
    Object,
    Integer(i64),
    Float { bits: u64 },
    Boolean(bool),
    String(KvIrOwnedSpan),
    ArrayJson(KvIrOwnedSpan),
    Null,
    EmptyObject,
}

/// One node in depth-first schema order.
///
/// Integers are the two's-complement reading of `scalar_bits`; floats keep their exact bits;
/// booleans are zero or one. Only strings and arrays use `value_span`.
#[derive(Clone, Copy, Debug, PartialEq, Eq, Structural)]
pub struct KvIrOwnedEventNode {
    pub depth: u32,
    pub value_kind: KvIrOwnedValueKind,
    pub key: KvIrOwnedSpan,
    pub value_span: KvIrOwnedSpan,
    pub scalar_bits: u64,
}

pub open spec fn empty_span() -> KvIrOwnedSpan {
    KvIrOwnedSpan { offset: 0, length: 0 }
}

/// The node of a value.
pub open spec fn node_of(depth: u32, key: KvIrOwnedSpan, value: KvIrOwnedValue) -> KvIrOwnedEventNode {
    let (value_kind, value_span, scalar_bits) = match value {
        KvIrOwnedValue::Object => (KvIrOwnedValueKind::Object, empty_span(), 0u64),
        KvIrOwnedValue::Integer(value) => (
            KvIrOwnedValueKind::Integer,
            empty_span(),
            value as u64,
        ),
        KvIrOwnedValue::Float { bits } => (KvIrOwnedValueKind::Float, empty_span(), bits),
        KvIrOwnedValue::Boolean(value) => (
            KvIrOwnedValueKind::Boolean,
            empty_span(),
            if value {
                1u64
            } else {
                0u64
            },
        ),
        KvIrOwnedValue::String(span) => (KvIrOwnedValueKind::String, span, 0u64),
        KvIrOwnedValue::ArrayJson(span) => (KvIrOwnedValueKind::ArrayJson, span, 0u64),
        KvIrOwnedValue::Null => (KvIrOwnedValueKind::Null, empty_span(), 0u64),
        KvIrOwnedValue::EmptyObject => (KvIrOwnedValueKind::EmptyObject, empty_span(), 0u64),
    };
    KvIrOwnedEventNode { depth, value_kind, key, value_span, scalar_bits }
}

/// The value of a node.
pub open spec fn value_of(node: KvIrOwnedEventNode) -> KvIrOwnedValue {
    match node.value_kind {
        KvIrOwnedValueKind::Object => KvIrOwnedValue::Object,
        KvIrOwnedValueKind::Integer => KvIrOwnedValue::Integer(node.scalar_bits as i64),
        KvIrOwnedValueKind::Float => KvIrOwnedValue::Float { bits: node.scalar_bits },
        KvIrOwnedValueKind::Boolean => KvIrOwnedValue::Boolean(node.scalar_bits != 0),
        KvIrOwnedValueKind::String => KvIrOwnedValue::String(node.value_span),
        KvIrOwnedValueKind::ArrayJson => KvIrOwnedValue::ArrayJson(node.value_span),
        KvIrOwnedValueKind::Null => KvIrOwnedValue::Null,
        KvIrOwnedValueKind::EmptyObject => KvIrOwnedValue::EmptyObject,
    }
}

/// A node gives back the value that it was made from.
pub proof fn node_values_survive(depth: u32, key: KvIrOwnedSpan, value: KvIrOwnedValue)
    ensures
        value_of(node_of(depth, key, value)) == value,
{
    match value {
        KvIrOwnedValue::Integer(value) => {
            assert((value as u64) as i64 == value) by (bit_vector);
        },
        _ => {},
    }
}

impl KvIrOwnedEventNode {
    fn new(depth: u32, key: KvIrOwnedSpan, value: KvIrOwnedValue) -> (node: Self)
        ensures
            node == node_of(depth, key, value),
    {
        let none = KvIrOwnedSpan { offset: 0, length: 0 };
        let (value_kind, value_span, scalar_bits) = match value {
            KvIrOwnedValue::Object => (KvIrOwnedValueKind::Object, none, 0u64),
            KvIrOwnedValue::Integer(value) => (
                KvIrOwnedValueKind::Integer,
                none,
                #[verifier::truncate] (value as u64),
            ),
            KvIrOwnedValue::Float { bits } => (KvIrOwnedValueKind::Float, none, bits),
            KvIrOwnedValue::Boolean(value) => (
                KvIrOwnedValueKind::Boolean,
                none,
                if value {
                    1u64
                } else {
                    0u64
                },
            ),
            KvIrOwnedValue::String(span) => (KvIrOwnedValueKind::String, span, 0u64),
            KvIrOwnedValue::ArrayJson(span) => (KvIrOwnedValueKind::ArrayJson, span, 0u64),
            KvIrOwnedValue::Null => (KvIrOwnedValueKind::Null, none, 0u64),
            KvIrOwnedValue::EmptyObject => (KvIrOwnedValueKind::EmptyObject, none, 0u64),
        };
        KvIrOwnedEventNode { depth, value_kind, key, value_span, scalar_bits }
    }

    /// Returns the depth below the root.
    pub fn depth(self) -> (depth: u32)
        ensures
            depth == self.depth,
    {
        self.depth
    }

    /// Returns where the key lies.
    pub fn key_span(self) -> (span: KvIrOwnedSpan)
        ensures
            span == self.key,
    {
        self.key
    }

    /// Returns the kind of the value.
    pub fn value_kind(self) -> (kind: KvIrOwnedValueKind)
        ensures
            kind == self.value_kind,
    {
        self.value_kind
    }

    /// Returns where the bytes of the value lie.
    pub fn value_span(self) -> (span: KvIrOwnedSpan)
        ensures
            span == self.value_span,
    {
        self.value_span
    }

    /// Returns the bits of a scalar.
    pub fn scalar_bits(self) -> (bits: u64)
        ensures
            bits == self.scalar_bits,
    {
        self.scalar_bits
    }

    /// Returns the value.
    pub fn value(self) -> (value: KvIrOwnedValue)
        ensures
            value == value_of(self),
    {
        match self.value_kind {
            KvIrOwnedValueKind::Object => KvIrOwnedValue::Object,
            KvIrOwnedValueKind::Integer => KvIrOwnedValue::Integer(
                #[verifier::truncate] (self.scalar_bits as i64),
            ),
            KvIrOwnedValueKind::Float => KvIrOwnedValue::Float { bits: self.scalar_bits },
            KvIrOwnedValueKind::Boolean => KvIrOwnedValue::Boolean(self.scalar_bits != 0),
            KvIrOwnedValueKind::String => KvIrOwnedValue::String(self.value_span),
            KvIrOwnedValueKind::ArrayJson => KvIrOwnedValue::ArrayJson(self.value_span),
            KvIrOwnedValueKind::Null => KvIrOwnedValue::Null,
            KvIrOwnedValueKind::EmptyObject => KvIrOwnedValue::EmptyObject,
        }
    }
}

/// Both selections of an event, with the pairs from `at` on.
pub open spec fn chosen_from(
    event: KvIrLogEvent<'_>,
    limits: KvIrOwnedEventLimits,
    auto: Chosen,
    user: Chosen,
    at: int,
) -> Result<(Chosen, Chosen), KvIrOwnedEventError>
    decreases event.pairs@.len() - at,
{
    if at < 0 || at >= event.pairs@.len() {
        Ok((auto, user))
    } else if at > u32::MAX {
        Err(
            KvIrOwnedEventError::Limit {
                resource: KvIrOwnedEventLimitResource::MaterializedNodes,
                actual: 0x1_0000_0000,
                limit: limits.materialized_nodes,
            },
        )
    } else {
        let pair = event.pairs@[at];
        match pair.namespace {
            KvIrNamespace::AutoGenerated => match with_pair(
                event.auto_schema@,
                auto,
                user.ids.len() - 1,
                pair.namespace,
                pair.node_id,
                at,
                limits.materialized_nodes,
            ) {
                Err(error) => Err(error),
                Ok(chosen) => chosen_from(event, limits, chosen, user, at + 1),
            },
            KvIrNamespace::UserGenerated => match with_pair(
                event.user_schema@,
                user,
                auto.ids.len() - 1,
                pair.namespace,
                pair.node_id,
                at,
                limits.materialized_nodes,
            ) {
                Err(error) => Err(error),
                Ok(chosen) => chosen_from(event, limits, auto, chosen, at + 1),
            },
        }
    }
}

/// The span of a range.
pub open spec fn span_of(start: int, end: int) -> Result<KvIrOwnedSpan, KvIrOwnedEventError> {
    if end < start || start > u32::MAX || end - start > u32::MAX {
        Err(KvIrOwnedEventError::SizeOverflow)
    } else {
        Ok(KvIrOwnedSpan { offset: start as u32, length: (end - start) as u32 })
    }
}

/// The arena with some bytes more, and where they lie.
pub open spec fn with_bytes(arena: Seq<u8>, bytes: Seq<u8>, limit: u64) -> Result<
    (Seq<u8>, KvIrOwnedSpan),
    KvIrOwnedEventError,
> {
    let end = arena.len() + bytes.len();
    if end > usize::MAX {
        Err(KvIrOwnedEventError::SizeOverflow)
    } else if end > limit {
        Err(
            KvIrOwnedEventError::Limit {
                resource: KvIrOwnedEventLimitResource::ArenaBytes,
                actual: end as u64,
                limit,
            },
        )
    } else {
        match span_of(arena.len() as int, end as int) {
            Err(error) => Err(error),
            Ok(span) => Ok((arena + bytes, span)),
        }
    }
}

pub open spec fn smaller(first: int, second: int) -> int {
    if first <= second {
        first
    } else {
        second
    }
}

/// The arena with the value of a pair, and the value.
pub open spec fn with_owned_value(
    pair: KvIrPair<'_>,
    node_type: KvIrNodeType,
    arena: Seq<u8>,
    limits: KvIrOwnedEventLimits,
) -> Result<(Seq<u8>, KvIrOwnedValue), KvIrOwnedEventError> {
    match pair.value {
        KvIrValueKind::Integer(value) => Ok((arena, KvIrOwnedValue::Integer(value))),
        KvIrValueKind::Float { bits, .. } => Ok((arena, KvIrOwnedValue::Float { bits })),
        KvIrValueKind::Boolean(value) => Ok((arena, KvIrOwnedValue::Boolean(value))),
        KvIrValueKind::String(value) => match with_bytes(arena, value@, limits.arena_bytes) {
            Err(error) => Err(error),
            Ok((longer, span)) => Ok((longer, KvIrOwnedValue::String(span))),
        },
        KvIrValueKind::EncodedText(text) => {
            let arena_limit = smaller(limits.arena_bytes as int, usize::MAX as int);
            let value_bytes = smaller(limits.reconstructed_value_bytes as int, usize::MAX as int);
            let remaining = if arena.len() <= arena_limit {
                arena_limit - arena.len()
            } else {
                0
            };
            let value_limit = smaller(value_bytes, remaining) as usize;
            match with_text(arena, text_limits(arena, value_limit), text@, 0, 0, 0) {
                Err(failure) => Err(
                    match text_error(failure, value_limit) {
                        KvIrEncodedTextError::Limit { actual, .. } => if remaining < value_bytes {
                            KvIrOwnedEventError::Limit {
                                resource: KvIrOwnedEventLimitResource::ArenaBytes,
                                actual: smaller(
                                    (arena.len() + actual) as int,
                                    usize::MAX as int,
                                ) as u64,
                                limit: limits.arena_bytes,
                            }
                        } else {
                            KvIrOwnedEventError::Limit {
                                resource: KvIrOwnedEventLimitResource::ReconstructedValueBytes,
                                actual: actual as u64,
                                limit: limits.reconstructed_value_bytes,
                            }
                        },
                        source => KvIrOwnedEventError::EncodedText {
                            namespace: pair.namespace,
                            node_id: pair.node_id,
                            source,
                        },
                    },
                ),
                Ok(longer) => match span_of(arena.len() as int, longer.len() as int) {
                    Err(error) => Err(error),
                    Ok(span) => match node_type {
                        KvIrNodeType::String => Ok((longer, KvIrOwnedValue::String(span))),
                        KvIrNodeType::UnstructuredArray => Ok(
                            (longer, KvIrOwnedValue::ArrayJson(span)),
                        ),
                        _ => Err(
                            KvIrOwnedEventError::InvalidSchemaPath {
                                namespace: pair.namespace,
                                node_id: pair.node_id,
                            },
                        ),
                    },
                },
            }
        },
        KvIrValueKind::Null => Ok((arena, KvIrOwnedValue::Null)),
        KvIrValueKind::EmptyObject => Ok((arena, KvIrOwnedValue::EmptyObject)),
    }
}

/// Nodes so far, and their arena.
pub struct OwnedState {
    pub nodes: Seq<KvIrOwnedEventNode>,
    pub arena: Seq<u8>,
}

/// What a node depends on.
pub struct OwnedRules<'a> {
    pub schema: Seq<KvIrSchemaEntry<'a>>,
    pub pairs: Seq<KvIrPair<'a>>,
    pub namespace: KvIrNamespace,
    pub chosen: Chosen,
    pub limits: KvIrOwnedEventLimits,
}

/// The state with one node more.
pub open spec fn with_owned_node(rules: OwnedRules<'_>, state: OwnedState, id: int) -> Result<
    OwnedState,
    KvIrOwnedEventError,
> {
    let entry = rules.schema[id];
    if entry.depth > u32::MAX {
        Err(KvIrOwnedEventError::SizeOverflow)
    } else {
        match with_bytes(state.arena, entry.key@, rules.limits.arena_bytes) {
            Err(error) => Err(error),
            Ok((arena, key)) => {
                let value = match pair_at(rules.chosen, id) {
                    Some(index) => if index >= rules.pairs.len() {
                        Err(KvIrOwnedEventError::MissingPair { pair_index: index as u32 })
                    } else {
                        with_owned_value(rules.pairs[index], entry.node_type, arena, rules.limits)
                    },
                    None => if entry.node_type == KvIrNodeType::Object {
                        Ok((arena, KvIrOwnedValue::Object))
                    } else {
                        Err(
                            KvIrOwnedEventError::InvalidSchemaPath {
                                namespace: rules.namespace,
                                node_id: id as u32,
                            },
                        )
                    },
                };
                match value {
                    Err(error) => Err(error),
                    Ok((arena, value)) => Ok(
                        OwnedState {
                            nodes: state.nodes.push(node_of(entry.depth as u32, key, value)),
                            arena,
                        },
                    ),
                }
            },
        }
    }
}

/// The state with more nodes, in this order.
pub open spec fn with_owned_nodes(rules: OwnedRules<'_>, state: OwnedState, order: Seq<int>) -> Result<
    OwnedState,
    KvIrOwnedEventError,
>
    decreases order.len(),
{
    if order.len() == 0 {
        Ok(state)
    } else {
        match with_owned_node(rules, state, order[0]) {
            Err(error) => Err(error),
            Ok(next) => with_owned_nodes(rules, next, order.drop_first()),
        }
    }
}

/// What an owned event holds.
pub struct OwnedEventView {
    pub auto: Seq<KvIrOwnedEventNode>,
    pub user: Seq<KvIrOwnedEventNode>,
    pub arena: Seq<u8>,
    pub utc_offset_millis: i64,
    pub stream_index: u64,
    pub unit_index: u64,
    pub event_index: u64,
    pub input_offset: u64,
}

pub open spec fn owned_rules<'a>(
    event: KvIrLogEvent<'a>,
    limits: KvIrOwnedEventLimits,
    namespace: KvIrNamespace,
    chosen: Chosen,
) -> OwnedRules<'a> {
    OwnedRules {
        schema: event.spec_schema(namespace),
        pairs: event.pairs@,
        namespace,
        chosen,
        limits,
    }
}

/// The nodes of a namespace in depth-first order.
pub open spec fn owned_order(event: KvIrLogEvent<'_>, namespace: KvIrNamespace, chosen: Chosen) -> Seq<
    int,
> {
    depth_first(event.spec_schema(namespace), chosen.ids, 0, 1)
}

/// The owned copy of an event.
pub open spec fn owned_event(event: KvIrLogEvent<'_>, limits: KvIrOwnedEventLimits) -> Result<
    OwnedEventView,
    KvIrOwnedEventError,
> {
    match chosen_from(event, limits, nothing_chosen(), nothing_chosen(), 0) {
        Err(error) => Err(error),
        Ok((auto, user)) => match with_owned_nodes(
            owned_rules(event, limits, KvIrNamespace::AutoGenerated, auto),
            OwnedState { nodes: Seq::empty(), arena: Seq::empty() },
            owned_order(event, KvIrNamespace::AutoGenerated, auto),
        ) {
            Err(error) => Err(error),
            Ok(first) => match with_owned_nodes(
                owned_rules(event, limits, KvIrNamespace::UserGenerated, user),
                OwnedState { nodes: Seq::empty(), arena: first.arena },
                owned_order(event, KvIrNamespace::UserGenerated, user),
            ) {
                Err(error) => Err(error),
                Ok(second) => Ok(
                    OwnedEventView {
                        auto: first.nodes,
                        user: second.nodes,
                        arena: second.arena,
                        utc_offset_millis: event.utc_offset_millis,
                        stream_index: event.stream_index,
                        unit_index: event.unit_index,
                        event_index: event.event_index,
                        input_offset: event.input_offset,
                    },
                ),
            },
        },
    }
}

/// Whether this memory can be refused while the pairs from `at` on are selected.
pub open spec fn selection_asks(
    event: KvIrLogEvent<'_>,
    limits: KvIrOwnedEventLimits,
    auto: Chosen,
    user: Chosen,
    at: int,
    error: KvIrOwnedEventError,
) -> bool
    decreases event.pairs@.len() - at,
{
    0 <= at < event.pairs@.len() && at <= u32::MAX && {
        let pair = event.pairs@[at];
        match pair.namespace {
            KvIrNamespace::AutoGenerated => {
                ||| pair_asks(
                    event.auto_schema@,
                    auto,
                    user.ids.len() - 1,
                    pair.namespace,
                    pair.node_id,
                    limits.materialized_nodes,
                    error,
                )
                ||| with_pair(
                    event.auto_schema@,
                    auto,
                    user.ids.len() - 1,
                    pair.namespace,
                    pair.node_id,
                    at,
                    limits.materialized_nodes,
                ) matches Ok(chosen) && selection_asks(event, limits, chosen, user, at + 1, error)
            },
            KvIrNamespace::UserGenerated => {
                ||| pair_asks(
                    event.user_schema@,
                    user,
                    auto.ids.len() - 1,
                    pair.namespace,
                    pair.node_id,
                    limits.materialized_nodes,
                    error,
                )
                ||| with_pair(
                    event.user_schema@,
                    user,
                    auto.ids.len() - 1,
                    pair.namespace,
                    pair.node_id,
                    at,
                    limits.materialized_nodes,
                ) matches Ok(chosen) && selection_asks(event, limits, auto, chosen, at + 1, error)
            },
        }
    }
}

/// Whether this memory can be refused while bytes are appended to the arena: for all of them, once
/// they are within the limit.
pub open spec fn arena_asks(
    arena: Seq<u8>,
    bytes: Seq<u8>,
    limit: u64,
    error: KvIrOwnedEventError,
) -> bool {
    &&& error == memory_refused(KvIrOwnedEventResource::EventArena, bytes.len() as int)
    &&& 0 < bytes.len()
    &&& arena.len() + bytes.len() <= usize::MAX
    &&& arena.len() + bytes.len() <= limit
}

/// Most bytes that a reconstructed value may take in an arena.
pub open spec fn value_room(arena: Seq<u8>, limits: KvIrOwnedEventLimits) -> usize {
    let arena_limit = smaller(limits.arena_bytes as int, usize::MAX as int);
    let value_bytes = smaller(limits.reconstructed_value_bytes as int, usize::MAX as int);
    let remaining = if arena.len() <= arena_limit {
        arena_limit - arena.len()
    } else {
        0
    };
    smaller(value_bytes, remaining) as usize
}

/// Whether this memory can be refused while a value is appended to the arena.
pub open spec fn value_asks(
    pair: KvIrPair<'_>,
    arena: Seq<u8>,
    limits: KvIrOwnedEventLimits,
    error: KvIrOwnedEventError,
) -> bool {
    match pair.value {
        KvIrValueKind::String(value) => arena_asks(arena, value@, limits.arena_bytes, error),
        KvIrValueKind::EncodedText(text) => error matches KvIrOwnedEventError::EncodedText {
            namespace,
            node_id,
            source,
        } && namespace == pair.namespace && node_id == pair.node_id && (source
            matches KvIrEncodedTextError::AllocationFailed { requested_additional } && text_asks(
            arena,
            text_limits(arena, value_room(arena, limits)),
            text@,
            0,
            0,
            0,
            requested_additional as int,
        )),
        _ => false,
    }
}

/// Whether this memory can be refused while a node is appended: for its key, for its value, and
/// for itself once nothing else stands against it.
pub open spec fn node_asks(
    rules: OwnedRules<'_>,
    state: OwnedState,
    id: int,
    error: KvIrOwnedEventError,
) -> bool {
    let entry = rules.schema[id];
    &&& entry.depth <= u32::MAX
    &&& {
        ||| arena_asks(state.arena, entry.key@, rules.limits.arena_bytes, error)
        ||| with_bytes(state.arena, entry.key@, rules.limits.arena_bytes) matches Ok((arena, _))
            && pair_at(rules.chosen, id) matches Some(index) && index < rules.pairs.len()
            && value_asks(rules.pairs[index], arena, rules.limits, error)
        ||| with_owned_node(rules, state, id) is Ok && error == memory_refused(
            KvIrOwnedEventResource::EventNodes,
            1,
        )
    }
}

/// Whether this memory can be refused while nodes are appended in this order.
pub open spec fn nodes_ask(
    rules: OwnedRules<'_>,
    state: OwnedState,
    order: Seq<int>,
    error: KvIrOwnedEventError,
) -> bool
    decreases order.len(),
{
    order.len() > 0 && {
        ||| node_asks(rules, state, order[0], error)
        ||| with_owned_node(rules, state, order[0]) matches Ok(next) && nodes_ask(
            rules,
            next,
            order.drop_first(),
            error,
        )
    }
}

/// Whether this memory can be refused for the order of the selected nodes, where there are any
/// besides the root.
pub open spec fn order_asks(chosen: Chosen, error: KvIrOwnedEventError) -> bool {
    &&& error == memory_refused(KvIrOwnedEventResource::TemporaryOrder, chosen.ids.len() - 1)
    &&& 1 < chosen.ids.len()
}

/// Whether this memory can be refused while an event is copied: while its pairs are selected, for
/// the order of the selected nodes, and while they are appended.
pub open spec fn event_asks(
    event: KvIrLogEvent<'_>,
    limits: KvIrOwnedEventLimits,
    error: KvIrOwnedEventError,
) -> bool {
    let empty = OwnedState { nodes: Seq::empty(), arena: Seq::empty() };
    &&& is_out_of_memory(error)
    &&& {
        ||| selection_asks(event, limits, nothing_chosen(), nothing_chosen(), 0, error)
        ||| chosen_from(event, limits, nothing_chosen(), nothing_chosen(), 0) matches Ok(
            (auto, user),
        ) && {
            let first = owned_rules(event, limits, KvIrNamespace::AutoGenerated, auto);
            let first_order = owned_order(event, KvIrNamespace::AutoGenerated, auto);
            ||| order_asks(auto, error)
            ||| order_asks(user, error)
            ||| nodes_ask(first, empty, first_order, error)
            ||| with_owned_nodes(first, empty, first_order) matches Ok(done) && nodes_ask(
                owned_rules(event, limits, KvIrNamespace::UserGenerated, user),
                OwnedState { nodes: Seq::empty(), arena: done.arena },
                owned_order(event, KvIrNamespace::UserGenerated, user),
                error,
            )
        }
    }
}

/// Whether an error is the refusal of memory.
pub open spec fn is_out_of_memory(error: KvIrOwnedEventError) -> bool {
    match error {
        KvIrOwnedEventError::AllocationFailed { .. } => true,
        KvIrOwnedEventError::EncodedText { source, .. } => source is AllocationFailed,
        _ => false,
    }
}

/// Returns the span of a range.
fn span_from_range(start: usize, end: usize) -> (result: Result<KvIrOwnedSpan, KvIrOwnedEventError>)
    ensures
        result == span_of(start as int, end as int),
{
    if end < start {
        return Err(KvIrOwnedEventError::SizeOverflow);
    }
    if start as u64 > 0xffff_ffff || (end - start) as u64 > 0xffff_ffff {
        return Err(KvIrOwnedEventError::SizeOverflow);
    }
    Ok(KvIrOwnedSpan { offset: start as u32, length: (end - start) as u32 })
}

/// Appends bytes to the arena.
fn append_arena(arena: &mut Vec<u8>, bytes: &[u8], limit: u64) -> (result: Result<
    KvIrOwnedSpan,
    KvIrOwnedEventError,
>)
    ensures
        match result {
            Ok(span) => with_bytes(old(arena)@, bytes@, limit) == Ok::<
                (Seq<u8>, KvIrOwnedSpan),
                KvIrOwnedEventError,
            >((final(arena)@, span)),
            Err(error) => arena_asks(old(arena)@, bytes@, limit, error) || with_bytes(
                old(arena)@,
                bytes@,
                limit,
            ) == Err::<(Seq<u8>, KvIrOwnedSpan), KvIrOwnedEventError>(error),
        },
{
    let start = arena.len();
    let end = match start.checked_add(bytes.len()) {
        Some(end) => end,
        None => {
            return Err(KvIrOwnedEventError::SizeOverflow);
        },
    };
    if end as u64 > limit {
        return Err(
            KvIrOwnedEventError::Limit {
                resource: KvIrOwnedEventLimitResource::ArenaBytes,
                actual: end as u64,
                limit,
            },
        );
    }
    let reserved = bytes.len() == 0 || arena.try_reserve(bytes.len()).is_ok();
    append_reserved_bytes(arena, bytes, reserved)?;
    span_from_range(start, end)
}

/// Appends bytes to the arena, given whether there is memory for them.
pub fn append_reserved_bytes(arena: &mut Vec<u8>, bytes: &[u8], reserved: bool) -> (result: Result<
    (),
    KvIrOwnedEventError,
>)
    ensures
        match result {
            Ok(_) => reserved && final(arena)@ == old(arena)@ + bytes@,
            Err(error) => !reserved && final(arena)@ == old(arena)@ && error == memory_refused(
                KvIrOwnedEventResource::EventArena,
                bytes@.len() as int,
            ),
        },
{
    if !reserved {
        return Err(
            KvIrOwnedEventError::AllocationFailed {
                resource: KvIrOwnedEventResource::EventArena,
                requested_additional: bytes.len(),
            },
        );
    }
    append_slice(arena, bytes);
    Ok(())
}

/// Appends the value of a pair to the arena, where it has bytes.
fn materialize_value(
    pair: KvIrPair<'_>,
    node_type: KvIrNodeType,
    arena: &mut Vec<u8>,
    limits: KvIrOwnedEventLimits,
) -> (result: Result<KvIrOwnedValue, KvIrOwnedEventError>)
    ensures
        match result {
            Ok(value) => with_owned_value(pair, node_type, old(arena)@, limits) == Ok::<
                (Seq<u8>, KvIrOwnedValue),
                KvIrOwnedEventError,
            >((final(arena)@, value)),
            Err(error) => value_asks(pair, old(arena)@, limits, error) || with_owned_value(
                pair,
                node_type,
                old(arena)@,
                limits,
            ) == Err::<(Seq<u8>, KvIrOwnedValue), KvIrOwnedEventError>(error),
        },
{
    match pair.value {
        KvIrValueKind::Integer(value) => Ok(KvIrOwnedValue::Integer(value)),
        KvIrValueKind::Float { bits, .. } => Ok(KvIrOwnedValue::Float { bits }),
        KvIrValueKind::Boolean(value) => Ok(KvIrOwnedValue::Boolean(value)),
        KvIrValueKind::String(value) => {
            let span = append_arena(arena, value, limits.arena_bytes)?;
            Ok(KvIrOwnedValue::String(span))
        },
        KvIrValueKind::EncodedText(text) => {
            let arena_limit = if limits.arena_bytes > usize::MAX as u64 {
                usize::MAX
            } else {
                limits.arena_bytes as usize
            };
            let value_bytes = if limits.reconstructed_value_bytes > usize::MAX as u64 {
                usize::MAX
            } else {
                limits.reconstructed_value_bytes as usize
            };
            let remaining = if arena.len() <= arena_limit {
                arena_limit - arena.len()
            } else {
                0
            };
            let value_limit = if value_bytes <= remaining {
                value_bytes
            } else {
                remaining
            };
            let range = match text.append_decoded_to(arena, value_limit) {
                Ok(range) => range,
                Err(KvIrEncodedTextError::Limit { actual, .. }) => {
                    if remaining < value_bytes {
                        return Err(
                            KvIrOwnedEventError::Limit {
                                resource: KvIrOwnedEventLimitResource::ArenaBytes,
                                actual: arena.len().saturating_add(actual) as u64,
                                limit: limits.arena_bytes,
                            },
                        );
                    }
                    return Err(
                        KvIrOwnedEventError::Limit {
                            resource: KvIrOwnedEventLimitResource::ReconstructedValueBytes,
                            actual: actual as u64,
                            limit: limits.reconstructed_value_bytes,
                        },
                    );
                },
                Err(source) => {
                    return Err(
                        KvIrOwnedEventError::EncodedText {
                            namespace: pair.namespace,
                            node_id: pair.node_id,
                            source,
                        },
                    );
                },
            };
            let span = span_from_range(range.start, range.end)?;
            match node_type {
                KvIrNodeType::String => Ok(KvIrOwnedValue::String(span)),
                KvIrNodeType::UnstructuredArray => Ok(KvIrOwnedValue::ArrayJson(span)),
                _ => Err(
                    KvIrOwnedEventError::InvalidSchemaPath {
                        namespace: pair.namespace,
                        node_id: pair.node_id,
                    },
                ),
            }
        },
        KvIrValueKind::Null => Ok(KvIrOwnedValue::Null),
        KvIrValueKind::EmptyObject => Ok(KvIrOwnedValue::EmptyObject),
    }
}

/// Appends one selected node.
fn materialize_node(
    event: &KvIrLogEvent<'_>,
    namespace: KvIrNamespace,
    tree: &TempTree,
    place: usize,
    output: &mut Vec<KvIrOwnedEventNode>,
    arena: &mut Vec<u8>,
    limits: KvIrOwnedEventLimits,
) -> (result: Result<(), KvIrOwnedEventError>)
    requires
        tree.wf(event.spec_schema(namespace)),
        0 < place < tree.nodes@.len(),
    ensures
        owned_as(
            with_owned_node(
                owned_rules(*event, limits, namespace, tree.chosen()),
                OwnedState { nodes: old(output)@, arena: old(arena)@ },
                tree.nodes@[place as int].schema_id as int,
            ),
            OwnedState { nodes: final(output)@, arena: final(arena)@ },
            result,
        ) || (result matches Err(error) && node_asks(
            owned_rules(*event, limits, namespace, tree.chosen()),
            OwnedState { nodes: old(output)@, arena: old(arena)@ },
            tree.nodes@[place as int].schema_id as int,
            error,
        )),
{
    let selected = tree.nodes[place];
    let schema = event.schema(namespace);
    let ghost ids = tree.chosen().ids;
    proof {
        assert(is_node_ok(tree.nodes@, schema@, place as int));
        assert(ids[place as int] == selected.schema_id);
        assert(ids.contains(selected.schema_id as int));
        let first = ids.index_of(selected.schema_id as int);
        assert(0 <= first < ids.len() && ids[first] == selected.schema_id);
        assert(first == place);
    }
    let entry = schema[selected.schema_id as usize];
    if entry.depth > 0xffff_ffff {
        return Err(KvIrOwnedEventError::SizeOverflow);
    }
    let depth = entry.depth as u32;
    let key = append_arena(arena, entry.key, limits.arena_bytes)?;
    let value = match selected.pair_index {
        Some(pair_index) => {
            if pair_index as usize >= event.pairs.len() {
                return Err(KvIrOwnedEventError::MissingPair { pair_index });
            }
            materialize_value(
                event.pairs[pair_index as usize],
                entry.node_type,
                arena,
                limits,
            )?
        },
        None => {
            if entry.node_type != KvIrNodeType::Object {
                return Err(
                    KvIrOwnedEventError::InvalidSchemaPath {
                        namespace,
                        node_id: selected.schema_id,
                    },
                );
            }
            KvIrOwnedValue::Object
        },
    };
    let reserved = output.try_reserve(1).is_ok();
    push_reserved_node(output, KvIrOwnedEventNode::new(depth, key, value), reserved)
}

/// Appends a node, given whether there is memory for it.
pub fn push_reserved_node(
    output: &mut Vec<KvIrOwnedEventNode>,
    node: KvIrOwnedEventNode,
    reserved: bool,
) -> (result: Result<(), KvIrOwnedEventError>)
    ensures
        match result {
            Ok(_) => reserved && final(output)@ == old(output)@.push(node),
            Err(error) => !reserved && final(output)@ == old(output)@ && error == memory_refused(
                KvIrOwnedEventResource::EventNodes,
                1,
            ),
        },
{
    if !reserved {
        return Err(
            KvIrOwnedEventError::AllocationFailed {
                resource: KvIrOwnedEventResource::EventNodes,
                requested_additional: 1,
            },
        );
    }
    output.push(node);
    Ok(())
}

/// What materializing came to where no memory was refused.
pub open spec fn owned_as(
    expected: Result<OwnedState, KvIrOwnedEventError>,
    after: OwnedState,
    result: Result<(), KvIrOwnedEventError>,
) -> bool {
    match result {
        Ok(_) => expected == Ok::<OwnedState, KvIrOwnedEventError>(after),
        Err(error) => expected == Err::<OwnedState, KvIrOwnedEventError>(error),
    }
}

/// What is left of the walk from a link on.
spec fn from_link(
    nodes: Seq<TempNode>,
    schema: Seq<KvIrSchemaEntry<'_>>,
    link: Option<usize>,
) -> Seq<int> {
    match link {
        None => Seq::empty(),
        Some(place) => from_node(schema, node_ids(nodes), nodes[place as int].schema_id as int),
    }
}

/// Returns the next node after one and everything below it.
fn next_beside(tree: &TempTree, place: usize, schema: Ghost<Seq<KvIrSchemaEntry<'_>>>) -> (next: Option<
    usize,
>)
    requires
        tree.wf(schema@),
        is_linked_tree(tree.nodes@, schema@),
        is_schema(schema@),
        0 < place < tree.nodes@.len(),
    ensures
        next matches Some(next) ==> 0 < next < tree.nodes@.len(),
        from_link(tree.nodes@, schema@, next) == rest_after(
            schema@,
            node_ids(tree.nodes@),
            tree.nodes@[place as int].schema_id as int,
        ),
{
    let ghost ids = node_ids(tree.nodes@);
    let ghost rest = rest_after(schema@, ids, tree.nodes@[place as int].schema_id as int);
    let mut completed: usize = place;
    loop
        invariant
            tree.wf(schema@),
            is_linked_tree(tree.nodes@, schema@),
            is_schema(schema@),
            ids == node_ids(tree.nodes@),
            0 < completed < tree.nodes@.len(),
            rest == rest_after(schema@, ids, tree.nodes@[completed as int].schema_id as int),
            rest == rest_after(schema@, ids, tree.nodes@[place as int].schema_id as int),
        decreases completed,
    {
        let node = tree.nodes[completed];
        let ghost id = node.schema_id as int;
        proof {
            assert(is_linked_node(tree.nodes@, schema@, completed as int));
            assert(is_node_ok(tree.nodes@, schema@, completed as int));
            assert(schema@[id].parent_id matches Some(parent) && parent < id);
            lemma_next_child(schema@, ids, parent_of(schema@, id), id + 1);
        }
        if node.next_sibling.is_some() {
            proof {
                let sibling = linked_id(tree.nodes@, node.next_sibling)->0;
                lemma_walk_beside(schema@, ids, id, sibling);
            }
            return node.next_sibling;
        }
        assert(depth_first(schema@, ids, parent_of(schema@, id), id + 1) =~= Seq::<int>::empty());
        if node.parent == 0 {
            assert(rest =~= Seq::<int>::empty());
            return None;
        }
        proof {
            assert(is_node_ok(tree.nodes@, schema@, node.parent as int));
            let parent = tree.nodes@[node.parent as int].schema_id as int;
            assert(rest =~= rest_after(schema@, ids, parent));
        }
        completed = node.parent;
    }
}

/// Appends the selected nodes of a namespace in depth-first order.
fn materialize_tree(
    event: &KvIrLogEvent<'_>,
    namespace: KvIrNamespace,
    tree: &TempTree,
    output: &mut Vec<KvIrOwnedEventNode>,
    arena: &mut Vec<u8>,
    limits: KvIrOwnedEventLimits,
) -> (result: Result<(), KvIrOwnedEventError>)
    requires
        tree.wf(event.spec_schema(namespace)),
        is_linked_tree(tree.nodes@, event.spec_schema(namespace)),
        is_schema(event.spec_schema(namespace)),
    ensures
        owned_as(
            with_owned_nodes(
                owned_rules(*event, limits, namespace, tree.chosen()),
                OwnedState { nodes: old(output)@, arena: old(arena)@ },
                owned_order(*event, namespace, tree.chosen()),
            ),
            OwnedState { nodes: final(output)@, arena: final(arena)@ },
            result,
        ) || (result matches Err(error) && is_out_of_memory(error) && nodes_ask(
            owned_rules(*event, limits, namespace, tree.chosen()),
            OwnedState { nodes: old(output)@, arena: old(arena)@ },
            owned_order(*event, namespace, tree.chosen()),
            error,
        )),
{
    let ghost schema = event.spec_schema(namespace);
    let ghost ids = node_ids(tree.nodes@);
    let ghost rules = owned_rules(*event, limits, namespace, tree.chosen());
    let ghost expected = with_owned_nodes(
        rules,
        OwnedState { nodes: output@, arena: arena@ },
        owned_order(*event, namespace, tree.chosen()),
    );
    let mut current: Option<usize> = tree.nodes[0].first_child;
    let ghost mut left: Seq<int> = from_link(tree.nodes@, schema, current);
    proof {
        assert(is_linked_node(tree.nodes@, schema, 0));
        lemma_next_child(schema, ids, 0, 1);
        match current {
            Some(place) => {
                let child = tree.nodes@[place as int].schema_id as int;
                assert(parent_of(schema, child) == 0);
                assert(left =~= depth_first(schema, ids, 0, 1));
            },
            None => {
                assert(left =~= depth_first(schema, ids, 0, 1));
            },
        }
    }
    while current.is_some()
        invariant
            schema == event.spec_schema(namespace),
            tree.wf(schema),
            is_linked_tree(tree.nodes@, schema),
            is_schema(schema),
            ids == node_ids(tree.nodes@),
            rules == owned_rules(*event, limits, namespace, tree.chosen()),
            expected == with_owned_nodes(
                rules,
                OwnedState { nodes: old(output)@, arena: old(arena)@ },
                owned_order(*event, namespace, tree.chosen()),
            ),
            current matches Some(place) ==> 0 < place < tree.nodes@.len(),
            left == from_link(tree.nodes@, schema, current),
            expected == with_owned_nodes(
                rules,
                OwnedState { nodes: output@, arena: arena@ },
                left,
            ),
            forall|error: KvIrOwnedEventError|
                nodes_ask(rules, OwnedState { nodes: output@, arena: arena@ }, left, error)
                    ==> #[trigger] nodes_ask(
                    rules,
                    OwnedState { nodes: old(output)@, arena: old(arena)@ },
                    owned_order(*event, namespace, tree.chosen()),
                    error,
                ),
        decreases left.len(),
    {
        let place = match current {
            Some(place) => place,
            None => 0,
        };
        let ghost id = tree.nodes@[place as int].schema_id as int;
        assert(left[0] == id);
        materialize_node(event, namespace, tree, place, output, arena, limits)?;
        proof {
            assert(is_linked_node(tree.nodes@, schema, place as int));
            assert(is_node_ok(tree.nodes@, schema, place as int));
            lemma_next_child(schema, ids, id, id + 1);
        }
        let first_child = tree.nodes[place].first_child;
        if first_child.is_some() {
            proof {
                let child = linked_id(tree.nodes@, first_child)->0;
                lemma_walk_down(schema, ids, id, child);
                assert(left.drop_first() =~= from_node(schema, ids, child));
                left = left.drop_first();
            }
            current = first_child;
        } else {
            current = next_beside(tree, place, Ghost(schema));
            proof {
                assert(depth_first(schema, ids, id, id + 1) =~= Seq::<int>::empty());
                assert(left.drop_first() =~= rest_after(schema, ids, id));
                left = left.drop_first();
            }
        }
    }
    Ok(())
}

/// Self-contained event for one-pass dictionary construction.
///
/// Each namespace is a depth-first slice of nodes; the depth suffices to open and close
/// dictionaries, and siblings keep schema order. Keys and byte values share one arena.
#[derive(Debug)]
pub struct KvIrOwnedEvent {
    auto_nodes: Vec<KvIrOwnedEventNode>,
    user_nodes: Vec<KvIrOwnedEventNode>,
    arena: Vec<u8>,
    utc_offset_millis: i64,
    stream_index: u64,
    unit_index: u64,
    event_index: u64,
    input_offset: u64,
}

impl View for KvIrOwnedEvent {
    type V = OwnedEventView;

    closed spec fn view(&self) -> OwnedEventView {
        OwnedEventView {
            auto: self.auto_nodes@,
            user: self.user_nodes@,
            arena: self.arena@,
            utc_offset_millis: self.utc_offset_millis,
            stream_index: self.stream_index,
            unit_index: self.unit_index,
            event_index: self.event_index,
            input_offset: self.input_offset,
        }
    }
}

/// Bytes of a span, if it lies in the arena.
pub open spec fn resolved(arena: Seq<u8>, span: KvIrOwnedSpan) -> Option<Seq<u8>> {
    if span.offset + span.length <= arena.len() {
        Some(arena.subrange(span.offset as int, span.offset + span.length))
    } else {
        None
    }
}

/// Whether an event has sound schema trees.
pub open spec fn is_event_ok(event: KvIrLogEvent<'_>) -> bool {
    is_schema(event.auto_schema@) && is_schema(event.user_schema@)
}

/// What an event came to.
pub open spec fn materialized_as(
    event: KvIrLogEvent<'_>,
    limits: KvIrOwnedEventLimits,
    result: Result<KvIrOwnedEvent, KvIrOwnedEventError>,
) -> bool {
    match result {
        Ok(owned) => owned_event(event, limits) == Ok::<OwnedEventView, KvIrOwnedEventError>(
            owned@,
        ),
        Err(error) => event_asks(event, limits, error) || owned_event(event, limits) == Err::<
            OwnedEventView,
            KvIrOwnedEventError,
        >(error),
    }
}

impl KvIrOwnedEvent {
    /// Copies the selected schema paths and values of an event into an independent form.
    pub fn materialize(event: KvIrLogEvent<'_>, limits: KvIrOwnedEventLimits) -> (result: Result<
        Self,
        KvIrOwnedEventError,
    >)
        requires
            is_event_ok(event),
        ensures
            materialized_as(event, limits, result) || (result matches Err(error) && error
                == memory_refused(KvIrOwnedEventResource::TemporaryNodes, 1)),
    {
        let mut materializer = KvIrOwnedEventMaterializer::new()?;
        materializer.materialize(event, limits)
    }

    /// Returns the nodes of a namespace in depth-first order.
    pub fn nodes(&self, namespace: KvIrNamespace) -> (nodes: &[KvIrOwnedEventNode])
        ensures
            nodes@ == (match namespace {
                KvIrNamespace::AutoGenerated => self@.auto,
                KvIrNamespace::UserGenerated => self@.user,
            }),
    {
        match namespace {
            KvIrNamespace::AutoGenerated => self.auto_nodes.as_slice(),
            KvIrNamespace::UserGenerated => self.user_nodes.as_slice(),
        }
    }

    /// Returns the bytes that spans refer to.
    pub fn arena(&self) -> (bytes: &[u8])
        ensures
            bytes@ == self@.arena,
    {
        self.arena.as_slice()
    }

    /// Returns the bytes of a span, if it lies in the arena.
    pub fn resolve(&self, span: KvIrOwnedSpan) -> (bytes: Option<&[u8]>)
        ensures
            match bytes {
                Some(bytes) => resolved(self@.arena, span) == Some(bytes@),
                None => resolved(self@.arena, span) is None,
            },
    {
        let end = span.offset as u64 + span.length as u64;
        if end <= self.arena.len() as u64 {
            Some(slice_subrange(self.arena.as_slice(), span.offset as usize, end as usize))
        } else {
            None
        }
    }

    /// Returns the UTC offset in milliseconds.
    pub fn utc_offset_millis(&self) -> (offset: i64)
        ensures
            offset == self@.utc_offset_millis,
    {
        self.utc_offset_millis
    }

    /// Returns the index of the stream.
    pub fn stream_index(&self) -> (index: u64)
        ensures
            index == self@.stream_index,
    {
        self.stream_index
    }

    /// Returns the index of the unit.
    pub fn unit_index(&self) -> (index: u64)
        ensures
            index == self@.unit_index,
    {
        self.unit_index
    }

    /// Returns the index of the event.
    pub fn event_index(&self) -> (index: u64)
        ensures
            index == self@.event_index,
    {
        self.event_index
    }

    /// Returns the input offset of the event.
    pub fn input_offset(&self) -> (offset: u64)
        ensures
            offset == self@.input_offset,
    {
        self.input_offset
    }
}

/// Reusable scratch for making independent events.
#[derive(Debug)]
pub struct KvIrOwnedEventMaterializer {
    auto: TempTree,
    user: TempTree,
    path: Vec<u32>,
}

impl KvIrOwnedEventMaterializer {
    pub closed spec fn wf(&self) -> bool {
        self.auto.nodes@.len() > 0 && self.user.nodes@.len() > 0
    }

    /// Creates empty scratch.
    pub fn new() -> (result: Result<Self, KvIrOwnedEventError>)
        ensures
            match result {
                Ok(materializer) => materializer.wf(),
                Err(error) => error == memory_refused(KvIrOwnedEventResource::TemporaryNodes, 1),
            },
    {
        let auto = TempTree::new()?;
        let user = TempTree::new()?;
        Ok(KvIrOwnedEventMaterializer { auto, user, path: Vec::new() })
    }

    /// Copies one event. What comes of it depends on the event and the limits alone, whatever was
    /// copied before.
    pub fn materialize(&mut self, event: KvIrLogEvent<'_>, limits: KvIrOwnedEventLimits) -> (result:
        Result<KvIrOwnedEvent, KvIrOwnedEventError>)
        requires
            old(self).wf(),
            is_event_ok(event),
        ensures
            final(self).wf(),
            materialized_as(event, limits, result),
    {
        let ghost auto_schema = event.auto_schema@;
        let ghost user_schema = event.user_schema@;
        self.auto.reset(Ghost(auto_schema));
        self.user.reset(Ghost(user_schema));
        let mut count: u64 = 0;
        let mut index: usize = 0;
        let ghost expected = chosen_from(event, limits, nothing_chosen(), nothing_chosen(), 0);
        while index < event.pairs.len()
            invariant
                index <= event.pairs@.len(),
                auto_schema == event.auto_schema@,
                user_schema == event.user_schema@,
                is_event_ok(event),
                self.auto.wf(auto_schema),
                self.user.wf(user_schema),
                count == self.auto.nodes@.len() - 1 + self.user.nodes@.len() - 1,
                expected == chosen_from(event, limits, nothing_chosen(), nothing_chosen(), 0),
                expected == chosen_from(
                    event,
                    limits,
                    self.auto.chosen(),
                    self.user.chosen(),
                    index as int,
                ),
                forall|error: KvIrOwnedEventError|
                    selection_asks(
                        event,
                        limits,
                        self.auto.chosen(),
                        self.user.chosen(),
                        index as int,
                        error,
                    ) ==> #[trigger] selection_asks(
                        event,
                        limits,
                        nothing_chosen(),
                        nothing_chosen(),
                        0,
                        error,
                    ),
            decreases event.pairs@.len() - index,
        {
            if index as u64 > 0xffff_ffff {
                return Err(
                    KvIrOwnedEventError::Limit {
                        resource: KvIrOwnedEventLimitResource::MaterializedNodes,
                        actual: 0x1_0000_0000,
                        limit: limits.materialized_nodes,
                    },
                );
            }
            let pair = event.pairs[index];
            match pair.namespace {
                KvIrNamespace::AutoGenerated => {
                    self.auto.select_pair(
                        event.auto_schema,
                        pair.namespace,
                        pair.node_id,
                        index as u32,
                        &mut self.path,
                        &mut count,
                        limits.materialized_nodes,
                        Ghost(self.user.nodes@.len() - 1),
                    )?;
                },
                KvIrNamespace::UserGenerated => {
                    self.user.select_pair(
                        event.user_schema,
                        pair.namespace,
                        pair.node_id,
                        index as u32,
                        &mut self.path,
                        &mut count,
                        limits.materialized_nodes,
                        Ghost(self.auto.nodes@.len() - 1),
                    )?;
                },
            }
            index += 1;
        }
        self.auto.build_children(Ghost(auto_schema))?;
        self.user.build_children(Ghost(user_schema))?;
        let mut owned = KvIrOwnedEvent {
            auto_nodes: Vec::new(),
            user_nodes: Vec::new(),
            arena: Vec::new(),
            utc_offset_millis: event.utc_offset_millis,
            stream_index: event.stream_index,
            unit_index: event.unit_index,
            event_index: event.event_index,
            input_offset: event.input_offset,
        };
        proof {
            assert(owned.auto_nodes@ =~= Seq::<KvIrOwnedEventNode>::empty());
            assert(owned.user_nodes@ =~= Seq::<KvIrOwnedEventNode>::empty());
            assert(owned.arena@ =~= Seq::<u8>::empty());
        }
        materialize_tree(
            &event,
            KvIrNamespace::AutoGenerated,
            &self.auto,
            &mut owned.auto_nodes,
            &mut owned.arena,
            limits,
        )?;
        materialize_tree(
            &event,
            KvIrNamespace::UserGenerated,
            &self.user,
            &mut owned.user_nodes,
            &mut owned.arena,
            limits,
        )?;
        Ok(owned)
    }
}

} // verus!

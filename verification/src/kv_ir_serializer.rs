//! Transactional serializer for the key-value IR protocol.
//!
//! An event is given as two MessagePack maps. It becomes pending output only after both maps have
//! been validated and serialized; a failed event leaves the serializer as it was.

use vstd::prelude::*;
use vstd::string::StringSliceAdditionalSpecFns;
use vstd::utf8::encode_utf8;

use crate::array_text::{stringify_array, with_array, FloatText, TextRules};
use crate::clp_text::{serialize_clp_text, with_clp_text};
use crate::kv_ir::{magic_number, KvIrEncoding, KvIrNodeType};
use crate::msgpack::{
    depth_checked, header_at, lemma_header_progress, malformed, map_key_at, root_map_at, Cursor,
    Header, HeaderView, MessagePackReader, Source,
};
use crate::schema_tree::{is_node_request, node_of, root_tree, with_node, NodeView, SchemaTree};
use crate::serializer_options::{
    allocation, limit_error, serializer_limit, was_refused, KvIrSerializerError,
    KvIrSerializerInput, KvIrSerializerLimitResource, KvIrSerializerLimits, KvIrSerializerOptions,
    KvIrSerializerStats,
};
use crate::stage::{
    and_event_bytes, append_event_bytes, append_limited, be16_array, be16_bytes, be64_array,
    be64_bytes, check_limit, checked_extend, checked_push, encode_node_id, event_bytes, extended,
    is_packet_refused, scalar_bytes, serialize_integer, serialize_string, staged, unsigned_bits,
    with_integer_value, with_node_id, with_string, WidthTags,
};
use crate::text::append_slice;

verus! {

/// User-defined metadata of a stream.
#[derive(Clone, Copy, Debug)]
pub enum UserMetadata<'a> {
    Absent,
    /// The given text is no JSON within the limits.
    Invalid,
    /// The given text in canonical form.
    Canonical(&'a [u8]),
}

/// What metadata a stream has.
pub enum MetadataView {
    Absent,
    Invalid,
    Canonical(Seq<u8>),
}

impl<'a> View for UserMetadata<'a> {
    type V = MetadataView;

    open spec fn view(&self) -> MetadataView {
        match *self {
            UserMetadata::Absent => MetadataView::Absent,
            UserMetadata::Invalid => MetadataView::Invalid,
            UserMetadata::Canonical(text) => MetadataView::Canonical(text@),
        }
    }
}

/// Metadata text that every stream has.
pub open spec fn metadata_suffix() -> Seq<u8> {
    encode_utf8(
        "\"VARIABLES_SCHEMA_ID\":\"com.yscope.clp.VariablesSchemaV2\",\"VARIABLE_ENCODING_METHODS_ID\":\"com.yscope.clp.VariableEncodingMethodsV1\",\"VERSION\":\"0.1.0\"}"@,
    )
}

/// Metadata text before the user-defined part.
pub open spec fn user_metadata_prefix() -> Seq<u8> {
    encode_utf8("{\"USER_DEFINED_METADATA\":"@)
}

pub open spec fn and_metadata(
    before: Result<Seq<u8>, KvIrSerializerError>,
    bytes: Seq<u8>,
    limit: u64,
) -> Result<Seq<u8>, KvIrSerializerError> {
    match before {
        Ok(output) => extended(output, bytes, limit, KvIrSerializerLimitResource::MetadataBytes),
        Err(error) => Err(error),
    }
}

/// Smaller of two limits.
pub open spec fn smaller(left: u64, right: u64) -> u64 {
    if left < right {
        left
    } else {
        right
    }
}

/// Metadata text of a stream.
pub open spec fn metadata_text(limits: KvIrSerializerLimits, user: MetadataView) -> Result<
    Seq<u8>,
    KvIrSerializerError,
> {
    let limit = limits.metadata_bytes;
    let before = match user {
        MetadataView::Absent => Ok(seq![0x7bu8]),
        MetadataView::Invalid => Err(KvIrSerializerError::InvalidUserDefinedMetadata),
        MetadataView::Canonical(text) => if text.len() == 0 || text[0] != 0x7b || text.last()
            != 0x7d {
            Err(KvIrSerializerError::InvalidUserDefinedMetadata)
        } else {
            and_metadata(
                and_metadata(
                    and_metadata(Ok(Seq::empty()), user_metadata_prefix(), limit),
                    text,
                    limit,
                ),
                seq![0x2cu8],
                limit,
            )
        },
    };
    and_metadata(before, metadata_suffix(), smaller(limit, 0xffff))
}

/// Whether this memory can be refused to the metadata: for each part in turn, once nothing stands
/// against it and those before it.
pub open spec fn is_metadata_request(
    limits: KvIrSerializerLimits,
    user: MetadataView,
    error: KvIrSerializerError,
) -> bool {
    let limit = limits.metadata_bytes;
    ||| metadata_text(limits, user) is Ok && was_refused(
        error,
        "metadata"@,
        metadata_suffix().len() as int,
    )
    ||| user matches MetadataView::Canonical(text) && text.len() > 0 && text[0] == 0x7b
        && text.last() == 0x7d && {
        let prefix = and_metadata(Ok(Seq::empty()), user_metadata_prefix(), limit);
        let whole = and_metadata(prefix, text, limit);
        ||| prefix is Ok && was_refused(error, "metadata"@, user_metadata_prefix().len() as int)
        ||| whole is Ok && was_refused(error, "metadata"@, text.len() as int)
        ||| and_metadata(whole, seq![0x2cu8], limit) is Ok && was_refused(error, "metadata"@, 1)
    }
}

/// Whether this memory can be refused to a new serializer: for its metadata, for its preamble, and
/// for the roots of its schema trees.
pub open spec fn is_open_request(
    options: KvIrSerializerOptions,
    user: MetadataView,
    error: KvIrSerializerError,
) -> bool {
    ||| is_metadata_request(options.limits, user, error)
    ||| metadata_text(options.limits, user) matches Ok(metadata) && was_refused(
        error,
        "pending output"@,
        7 + metadata.len() as int,
    )
    ||| opened(options, user) is Ok && was_refused(error, "schema nodes"@, 1)
}

/// Head of a stream: magic number, and metadata with its length.
pub open spec fn preamble(encoding: KvIrEncoding, metadata: Seq<u8>) -> Seq<u8> {
    magic_number(encoding) + seq![0x01u8] + (if metadata.len() <= 0xff {
        seq![0x11u8, metadata.len() as u8]
    } else {
        seq![0x12u8] + be16_bytes(metadata.len() as int)
    }) + metadata
}

/// What a serializer has committed and how it is configured.
pub struct SerializerView {
    pub options: KvIrSerializerOptions,
    pub auto_schema: Seq<NodeView>,
    pub user_schema: Seq<NodeView>,
    /// Output that was not consumed yet.
    pub pending: Seq<u8>,
    pub utc_offset: i64,
    pub stats: KvIrSerializerStats,
    pub finished: bool,
    pub floats: Seq<FloatText>,
}

/// A serializer at the start of its stream.
pub open spec fn opened(options: KvIrSerializerOptions, user: MetadataView) -> Result<
    SerializerView,
    KvIrSerializerError,
> {
    match metadata_text(options.limits, user) {
        Err(error) => Err(error),
        Ok(metadata) => {
            let pending = preamble(options.encoding, metadata);
            match preamble_checked(options, pending) {
                Err(error) => Err(error),
                Ok(_) => Ok(fresh_view(options, pending)),
            }
        },
    }
}

/// Failure of a preamble that is larger than the limit allows.
pub open spec fn preamble_checked(options: KvIrSerializerOptions, pending: Seq<u8>) -> Result<
    (),
    KvIrSerializerError,
> {
    if pending.len() > options.limits.pending_output_bytes {
        Err(
            serializer_limit(
                KvIrSerializerLimitResource::PendingOutputBytes,
                pending.len() as int,
                options.limits.pending_output_bytes,
            ),
        )
    } else {
        Ok(())
    }
}

/// A serializer that has made its preamble pending and nothing else.
pub open spec fn fresh_view(options: KvIrSerializerOptions, pending: Seq<u8>) -> SerializerView {
    SerializerView {
        options,
        auto_schema: root_tree(),
        user_schema: root_tree(),
        pending,
        utc_offset: 0,
        stats: KvIrSerializerStats {
            log_events: 0,
            schema_nodes: 0,
            utc_offset_changes: 0,
            serialized_bytes: pending.len() as u64,
        },
        finished: false,
        floats: Seq::empty(),
    }
}

/// A serializer with `bytes` made pending.
pub open spec fn with_pending(view: SerializerView, bytes: Seq<u8>) -> Result<
    SerializerView,
    KvIrSerializerError,
> {
    let total = view.stats.serialized_bytes + bytes.len();
    let resulting = view.pending.len() + bytes.len();
    if total > u64::MAX || resulting > usize::MAX {
        Err(KvIrSerializerError::SizeOverflow)
    } else if resulting > view.options.limits.pending_output_bytes {
        Err(
            serializer_limit(
                KvIrSerializerLimitResource::PendingOutputBytes,
                resulting as int,
                view.options.limits.pending_output_bytes,
            ),
        )
    } else {
        Ok(
            SerializerView {
                pending: view.pending + bytes,
                stats: KvIrSerializerStats { serialized_bytes: total as u64, ..view.stats },
                ..view
            },
        )
    }
}

/// A serializer after a UTC-offset packet.
pub open spec fn with_utc_offset(view: SerializerView, offset: i64) -> Result<
    SerializerView,
    KvIrSerializerError,
> {
    if view.finished {
        Err(KvIrSerializerError::Finished)
    } else if view.stats.utc_offset_changes == u64::MAX {
        Err(KvIrSerializerError::SizeOverflow)
    } else {
        match with_pending(
            view,
            seq![0x3fu8] + be64_bytes(offset as int % 0x1_0000_0000_0000_0000),
        ) {
            Err(error) => Err(error),
            Ok(next) => Ok(
                SerializerView {
                    utc_offset: offset,
                    stats: KvIrSerializerStats {
                        utc_offset_changes: (view.stats.utc_offset_changes + 1) as u64,
                        ..next.stats
                    },
                    ..next
                },
            ),
        }
    }
}

/// A serializer after the end of its stream.
pub open spec fn with_end(view: SerializerView) -> Result<SerializerView, KvIrSerializerError> {
    if view.finished {
        Err(KvIrSerializerError::Finished)
    } else {
        match with_pending(view, seq![0u8]) {
            Err(error) => Err(error),
            Ok(next) => Ok(SerializerView { finished: true, ..next }),
        }
    }
}

/// What the packets of an event depend on besides its maps.
pub struct EventRules {
    pub encoding: KvIrEncoding,
    pub limits: KvIrSerializerLimits,
    pub floats: Seq<FloatText>,
}

/// An event in the making: the schema trees, and the packets so far.
pub struct Stage {
    pub auto_schema: Seq<NodeView>,
    pub user_schema: Seq<NodeView>,
    pub schema: Seq<u8>,
    pub sequential: Seq<u8>,
    pub user_values: Seq<u8>,
}

/// Type of the node for a value.
pub open spec fn header_type(header: HeaderView) -> KvIrNodeType {
    match header {
        HeaderView::Integer(_) => KvIrNodeType::Integer,
        HeaderView::Float(_) => KvIrNodeType::Float,
        HeaderView::Boolean(_) => KvIrNodeType::Boolean,
        HeaderView::String(_) => KvIrNodeType::String,
        HeaderView::ArrayHead(_) => KvIrNodeType::UnstructuredArray,
        _ => KvIrNodeType::Object,
    }
}

/// Tag of a schema node packet.
pub open spec fn schema_tag(node_type: KvIrNodeType) -> u8 {
    match node_type {
        KvIrNodeType::Integer => 0x71,
        KvIrNodeType::Float => 0x72,
        KvIrNodeType::Boolean => 0x73,
        KvIrNodeType::String => 0x74,
        KvIrNodeType::UnstructuredArray => 0x75,
        KvIrNodeType::Object => 0x76,
    }
}

pub open spec fn parent_tags() -> WidthTags {
    WidthTags { one: 0x60, two: 0x61, four: 0x62 }
}

pub open spec fn node_tags() -> WidthTags {
    WidthTags { one: 0x65, two: 0x66, four: 0x67 }
}

pub open spec fn string_tags() -> WidthTags {
    WidthTags { one: 0x41, two: 0x42, four: 0x43 }
}

/// The schema packets with a node declaration appended.
pub open spec fn with_declaration(
    schema: Seq<u8>,
    auto_generated: bool,
    node: NodeView,
    limit: u64,
) -> Result<Seq<u8>, KvIrSerializerError> {
    match event_bytes(schema, seq![schema_tag(node.node_type)], limit) {
        Err(error) => Err(error),
        Ok(tagged) => match with_node_id(
            tagged,
            node.parent_id,
            auto_generated,
            parent_tags(),
            limit,
        ) {
            Err(error) => Err(error),
            Ok(parented) => with_string(parented, node.key, string_tags(), limit),
        },
    }
}

/// Schema tree of a namespace.
pub open spec fn stage_tree(stage: Stage, auto_generated: bool) -> Seq<NodeView> {
    if auto_generated {
        stage.auto_schema
    } else {
        stage.user_schema
    }
}

/// The stage with the schema tree of a namespace replaced.
pub open spec fn with_tree(stage: Stage, auto_generated: bool, tree: Seq<NodeView>) -> Stage {
    if auto_generated {
        Stage { auto_schema: tree, ..stage }
    } else {
        Stage { user_schema: tree, ..stage }
    }
}

/// The stage with a node found or declared, and its ID.
pub open spec fn with_found_node(
    rules: EventRules,
    stage: Stage,
    auto_generated: bool,
    node: NodeView,
) -> Result<(Stage, u32), KvIrSerializerError> {
    let tree = stage_tree(stage, auto_generated);
    match node_of(tree, node.parent_id, node.key, node.node_type) {
        Some(node_id) => Ok((stage, node_id as u32)),
        None => match with_node(tree, node, rules.limits.schema_nodes_per_namespace) {
            Err(error) => Err(error),
            Ok((next, node_id)) => match with_declaration(
                stage.schema,
                auto_generated,
                node,
                rules.limits.event_output_bytes,
            ) {
                Err(error) => Err(error),
                Ok(schema) => Ok(
                    (Stage { schema, ..with_tree(stage, auto_generated, next) }, node_id),
                ),
            },
        },
    }
}

/// One leaf value.
#[derive(Clone, Copy, Debug)]
pub enum Primitive<'a> {
    Nil,
    Boolean(bool),
    Integer(i64),
    Float(u64),
    String(&'a [u8]),
    EncodedText(&'a [u8]),
    EmptyObject,
}

/// What a leaf value says.
pub enum PrimitiveView {
    Nil,
    Boolean(bool),
    Integer(i64),
    Float(u64),
    String(Seq<u8>),
    EncodedText(Seq<u8>),
    EmptyObject,
}

impl<'a> View for Primitive<'a> {
    type V = PrimitiveView;

    open spec fn view(&self) -> PrimitiveView {
        match *self {
            Primitive::Nil => PrimitiveView::Nil,
            Primitive::Boolean(value) => PrimitiveView::Boolean(value),
            Primitive::Integer(value) => PrimitiveView::Integer(value),
            Primitive::Float(bits) => PrimitiveView::Float(bits),
            Primitive::String(value) => PrimitiveView::String(value@),
            Primitive::EncodedText(value) => PrimitiveView::EncodedText(value@),
            Primitive::EmptyObject => PrimitiveView::EmptyObject,
        }
    }
}

/// The values with a leaf appended. A string with a space is kept as an encoded text.
pub open spec fn with_primitive(rules: EventRules, output: Seq<u8>, value: PrimitiveView) -> Result<
    Seq<u8>,
    KvIrSerializerError,
> {
    let limit = rules.limits.event_output_bytes;
    match value {
        PrimitiveView::Nil => event_bytes(output, seq![0x5fu8], limit),
        PrimitiveView::Boolean(true) => event_bytes(output, seq![0x57u8], limit),
        PrimitiveView::Boolean(false) => event_bytes(output, seq![0x58u8], limit),
        PrimitiveView::Integer(value) => with_integer_value(output, value, limit),
        PrimitiveView::Float(bits) => and_event_bytes(
            event_bytes(output, seq![0x56u8], limit),
            be64_bytes(bits as int),
            limit,
        ),
        PrimitiveView::String(value) => if value.contains(0x20) {
            with_clp_text(output, value, rules.encoding, limit)
        } else {
            with_string(output, value, string_tags(), limit)
        },
        PrimitiveView::EncodedText(value) => with_clp_text(output, value, rules.encoding, limit),
        PrimitiveView::EmptyObject => event_bytes(output, seq![0x5eu8], limit),
    }
}

/// The stage with a leaf at a node.
pub open spec fn with_leaf(
    rules: EventRules,
    stage: Stage,
    auto_generated: bool,
    node_id: u32,
    value: PrimitiveView,
) -> Result<Stage, KvIrSerializerError> {
    match with_node_id(
        stage.sequential,
        node_id,
        auto_generated,
        node_tags(),
        rules.limits.event_output_bytes,
    ) {
        Err(error) => Err(error),
        Ok(sequential) => if auto_generated {
            match with_primitive(rules, sequential, value) {
                Err(error) => Err(error),
                Ok(valued) => Ok(Stage { sequential: valued, ..stage }),
            }
        } else {
            match with_primitive(rules, stage.user_values, value) {
                Err(error) => Err(error),
                Ok(user_values) => Ok(Stage { sequential, user_values, ..stage }),
            }
        },
    }
}

/// JSON text of an array, and the cursor after it.
pub open spec fn array_text(
    rules: EventRules,
    source: Source,
    cursor: Cursor,
    elements: u32,
    depth: int,
) -> Result<(Seq<u8>, Cursor), KvIrSerializerError> {
    let text_rules = TextRules { limit: rules.limits.scalar_bytes, floats: rules.floats };
    match scalar_bytes(Seq::empty(), seq![0x5bu8], text_rules.limit) {
        Err(error) => Err(error),
        Ok(opened) => match with_array(text_rules, source, opened, cursor, elements, depth) {
            Err(error) => Err(error),
            Ok((content, next)) => match scalar_bytes(content, seq![0x5du8], text_rules.limit) {
                Err(error) => Err(error),
                Ok(closed) => Ok((closed, next)),
            },
        },
    }
}

/// The leaf for a scalar header.
pub open spec fn scalar_leaf(header: HeaderView) -> PrimitiveView {
    match header {
        HeaderView::Boolean(value) => PrimitiveView::Boolean(value),
        HeaderView::Integer(value) => PrimitiveView::Integer(value),
        HeaderView::Float(bits) => PrimitiveView::Float(bits),
        HeaderView::String(value) => PrimitiveView::String(value),
        HeaderView::MapHead(_) => PrimitiveView::EmptyObject,
        _ => PrimitiveView::Nil,
    }
}

/// The stage with the entries of a map at `depth`.
pub open spec fn with_map_entries(
    rules: EventRules,
    source: Source,
    stage: Stage,
    cursor: Cursor,
    pairs: u32,
    parent_id: u32,
    auto_generated: bool,
    depth: int,
) -> Result<(Stage, Cursor), KvIrSerializerError>
    decreases source.bytes.len() - cursor.position, 3int,
{
    match depth_checked(source, depth) {
        Err(error) => Err(error),
        Ok(_) => with_entries(
            rules,
            source,
            stage,
            cursor,
            pairs as int,
            parent_id,
            auto_generated,
            depth,
        ),
    }
}

/// The stage with the last `left` entries of a map at `depth`.
pub open spec fn with_entries(
    rules: EventRules,
    source: Source,
    stage: Stage,
    cursor: Cursor,
    left: int,
    parent_id: u32,
    auto_generated: bool,
    depth: int,
) -> Result<(Stage, Cursor), KvIrSerializerError>
    decreases source.bytes.len() - cursor.position, 2int,
{
    if left <= 0 {
        Ok((stage, cursor))
    } else {
        match with_entry(rules, source, stage, cursor, parent_id, auto_generated, depth) {
            Err(error) => Err(error),
            Ok((content, next)) => if cursor.position < next.position <= source.bytes.len() {
                with_entries(
                    rules,
                    source,
                    content,
                    next,
                    left - 1,
                    parent_id,
                    auto_generated,
                    depth,
                )
            } else {
                Err(KvIrSerializerError::SizeOverflow)
            },
        }
    }
}

/// The stage with one entry of a map at `depth`.
pub open spec fn with_entry(
    rules: EventRules,
    source: Source,
    stage: Stage,
    cursor: Cursor,
    parent_id: u32,
    auto_generated: bool,
    depth: int,
) -> Result<(Stage, Cursor), KvIrSerializerError>
    decreases source.bytes.len() - cursor.position, 1int,
{
    match map_key_at(source, cursor) {
        Err(error) => Err(error),
        Ok((key, keyed)) => match header_at(source, keyed) {
            Err(error) => Err(error),
            Ok((HeaderView::Unsupported(kind), _)) => Err(malformed(source, keyed.position, kind)),
            Ok((header, after)) => match with_found_node(
                rules,
                stage,
                auto_generated,
                NodeView { parent_id, node_type: header_type(header), key },
            ) {
                Err(error) => Err(error),
                Ok((found, node_id)) => if cursor.position < after.position <= source.bytes.len() {
                    with_entry_value(
                        rules,
                        source,
                        found,
                        header,
                        after,
                        node_id,
                        auto_generated,
                        depth,
                    )
                } else {
                    Err(KvIrSerializerError::SizeOverflow)
                },
            },
        },
    }
}

/// The stage with the value of an entry.
pub open spec fn with_entry_value(
    rules: EventRules,
    source: Source,
    stage: Stage,
    header: HeaderView,
    cursor: Cursor,
    node_id: u32,
    auto_generated: bool,
    depth: int,
) -> Result<(Stage, Cursor), KvIrSerializerError>
    decreases source.bytes.len() - cursor.position, 4int,
{
    match header {
        HeaderView::MapHead(pairs) => if pairs == 0 {
            at_cursor(
                with_leaf(rules, stage, auto_generated, node_id, PrimitiveView::EmptyObject),
                cursor,
            )
        } else if depth + 1 > u64::MAX {
            Err(KvIrSerializerError::SizeOverflow)
        } else {
            with_map_entries(
                rules,
                source,
                stage,
                cursor,
                pairs,
                node_id,
                auto_generated,
                depth + 1,
            )
        },
        HeaderView::ArrayHead(elements) => match array_text(
            rules,
            source,
            cursor,
            elements,
            depth,
        ) {
            Err(error) => Err(error),
            Ok((text, next)) => at_cursor(
                with_leaf(
                    rules,
                    stage,
                    auto_generated,
                    node_id,
                    PrimitiveView::EncodedText(text),
                ),
                next,
            ),
        },
        _ => at_cursor(
            with_leaf(rules, stage, auto_generated, node_id, scalar_leaf(header)),
            cursor,
        ),
    }
}

pub open spec fn at_cursor(result: Result<Stage, KvIrSerializerError>, cursor: Cursor) -> Result<
    (Stage, Cursor),
    KvIrSerializerError,
> {
    match result {
        Ok(stage) => Ok((stage, cursor)),
        Err(error) => Err(error),
    }
}

/// The stage with one whole map.
pub open spec fn with_root_map(
    rules: EventRules,
    stage: Stage,
    bytes: Seq<u8>,
    auto_generated: bool,
) -> Result<Stage, KvIrSerializerError> {
    let source = Source {
        bytes,
        input: if auto_generated {
            KvIrSerializerInput::AutoGenerated
        } else {
            KvIrSerializerInput::UserGenerated
        },
        limits: rules.limits,
    };
    match root_map_at(source, Cursor { position: 0, values: 0 }) {
        Err(error) => Err(error),
        Ok((pairs, cursor)) => if !auto_generated && pairs == 0 {
            match event_bytes(stage.sequential, seq![0x5eu8], rules.limits.event_output_bytes) {
                Err(error) => Err(error),
                Ok(sequential) => Ok(Stage { sequential, ..stage }),
            }
        } else {
            match with_map_entries(rules, source, stage, cursor, pairs, 0, auto_generated, 1) {
                Err(error) => Err(error),
                Ok((next, _)) => Ok(next),
            }
        },
    }
}

/// How the events of a serializer are staged.
pub open spec fn event_rules(view: SerializerView) -> EventRules {
    EventRules {
        encoding: view.options.encoding,
        limits: view.options.limits,
        floats: view.floats,
    }
}

/// The stage before an event.
pub open spec fn unstaged(view: SerializerView) -> Stage {
    Stage {
        auto_schema: view.auto_schema,
        user_schema: view.user_schema,
        schema: Seq::empty(),
        sequential: Seq::empty(),
        user_values: Seq::empty(),
    }
}

/// The stage of an event whose maps are `auto_generated` and `user_generated`.
pub open spec fn staged_event(
    view: SerializerView,
    auto_generated: Seq<u8>,
    user_generated: Seq<u8>,
) -> Result<Stage, KvIrSerializerError> {
    let rules = event_rules(view);
    match with_root_map(rules, unstaged(view), auto_generated, true) {
        Err(error) => Err(error),
        Ok(stage) => with_root_map(rules, stage, user_generated, false),
    }
}

/// The serializer with a staged event committed, and the bytes that became pending.
pub open spec fn committed(view: SerializerView, stage: Stage) -> Result<
    (SerializerView, int),
    KvIrSerializerError,
> {
    let bytes = stage.schema.len() + stage.sequential.len() + stage.user_values.len();
    let resulting = view.pending.len() + bytes;
    let schema_nodes = view.stats.schema_nodes + (stage.auto_schema.len() - view.auto_schema.len())
        + (stage.user_schema.len() - view.user_schema.len());
    let serialized_bytes = view.stats.serialized_bytes + bytes;
    if bytes > usize::MAX {
        Err(KvIrSerializerError::SizeOverflow)
    } else if bytes > view.options.limits.event_output_bytes {
        Err(
            serializer_limit(
                KvIrSerializerLimitResource::EventOutputBytes,
                bytes as int,
                view.options.limits.event_output_bytes,
            ),
        )
    } else if resulting > usize::MAX {
        Err(KvIrSerializerError::SizeOverflow)
    } else if resulting > view.options.limits.pending_output_bytes {
        Err(
            serializer_limit(
                KvIrSerializerLimitResource::PendingOutputBytes,
                resulting as int,
                view.options.limits.pending_output_bytes,
            ),
        )
    } else if schema_nodes > u64::MAX || view.stats.log_events == u64::MAX || serialized_bytes
        > u64::MAX {
        Err(KvIrSerializerError::SizeOverflow)
    } else {
        Ok(
            (
                SerializerView {
                    auto_schema: stage.auto_schema,
                    user_schema: stage.user_schema,
                    pending: view.pending + stage.schema + stage.sequential + stage.user_values,
                    stats: KvIrSerializerStats {
                        log_events: (view.stats.log_events + 1) as u64,
                        schema_nodes: schema_nodes as u64,
                        serialized_bytes: serialized_bytes as u64,
                        ..view.stats
                    },
                    ..view
                },
                bytes as int,
            ),
        )
    }
}

/// Failure of a map that is larger than the limit allows.
pub open spec fn input_checked(view: SerializerView, bytes: Seq<u8>) -> Result<
    (),
    KvIrSerializerError,
> {
    if bytes.len() > view.options.limits.input_bytes_per_map {
        Err(
            serializer_limit(
                KvIrSerializerLimitResource::InputBytesPerMap,
                bytes.len() as int,
                view.options.limits.input_bytes_per_map,
            ),
        )
    } else {
        Ok(())
    }
}

/// The serializer after an event, and the bytes that became pending.
pub open spec fn with_event(
    view: SerializerView,
    auto_generated: Seq<u8>,
    user_generated: Seq<u8>,
) -> Result<(SerializerView, int), KvIrSerializerError> {
    if view.finished {
        Err(KvIrSerializerError::Finished)
    } else {
        match input_checked(view, auto_generated) {
            Err(error) => Err(error),
            Ok(_) => match input_checked(view, user_generated) {
                Err(error) => Err(error),
                Ok(_) => match staged_event(view, auto_generated, user_generated) {
                    Err(error) => Err(error),
                    Ok(stage) => committed(view, stage),
                },
            },
        }
    }
}

/// Whether a tree still starts with the nodes it had.
pub open spec fn tree_grows(after: Seq<NodeView>, before: Seq<NodeView>) -> bool {
    before.len() <= after.len() && after.take(before.len() as int) == before
}

proof fn lemma_tree_grows_twice(
    first: Seq<NodeView>,
    second: Seq<NodeView>,
    third: Seq<NodeView>,
)
    requires
        tree_grows(second, first),
        tree_grows(third, second),
    ensures
        tree_grows(third, first),
{
    assert forall|i: int| 0 <= i < first.len() implies third[i] == first[i] by {
        assert(third.take(second.len() as int)[i] == third[i]);
        assert(second.take(first.len() as int)[i] == second[i]);
    }
    assert(third.take(first.len() as int) =~= first);
}

proof fn lemma_tree_grows_itself(tree: Seq<NodeView>)
    ensures
        tree_grows(tree, tree),
{
    assert(tree.take(tree.len() as int) =~= tree);
}

/// Whether this memory can be refused while a packet of an event is staged.
pub open spec fn packet_asks(rules: EventRules, error: KvIrSerializerError) -> bool {
    is_packet_refused(error, rules.limits.event_output_bytes)
}

/// Whether this memory can be refused while a node is found: only where it is new and its tree has
/// room for it.
pub open spec fn node_asks(
    rules: EventRules,
    stage: Stage,
    auto_generated: bool,
    node: NodeView,
    error: KvIrSerializerError,
) -> bool {
    let tree = stage_tree(stage, auto_generated);
    &&& node_of(tree, node.parent_id, node.key, node.node_type) is None
    &&& with_node(tree, node, rules.limits.schema_nodes_per_namespace) is Ok
    &&& is_node_request(tree, node.key, error) || packet_asks(rules, error)
}

/// Whether this memory can be refused while the entries of a map are staged.
pub open spec fn map_entries_ask(
    rules: EventRules,
    source: Source,
    stage: Stage,
    cursor: Cursor,
    pairs: u32,
    parent_id: u32,
    auto_generated: bool,
    depth: int,
    error: KvIrSerializerError,
) -> bool
    decreases source.bytes.len() - cursor.position, 3int,
{
    depth_checked(source, depth) is Ok && entries_ask(
        rules,
        source,
        stage,
        cursor,
        pairs as int,
        parent_id,
        auto_generated,
        depth,
        error,
    )
}

/// Whether this memory can be refused while the last `left` entries of a map are staged.
#[verifier::opaque]
pub open spec fn entries_ask(
    rules: EventRules,
    source: Source,
    stage: Stage,
    cursor: Cursor,
    left: int,
    parent_id: u32,
    auto_generated: bool,
    depth: int,
    error: KvIrSerializerError,
) -> bool
    decreases source.bytes.len() - cursor.position, 2int,
{
    left > 0 && {
        ||| entry_asks(rules, source, stage, cursor, parent_id, auto_generated, depth, error)
        ||| match with_entry(rules, source, stage, cursor, parent_id, auto_generated, depth) {
            Err(_) => false,
            Ok((content, next)) => cursor.position < next.position <= source.bytes.len()
                && entries_ask(
                rules,
                source,
                content,
                next,
                left - 1,
                parent_id,
                auto_generated,
                depth,
                error,
            ),
        }
    }
}

/// Whether this memory can be refused while one entry of a map is staged: its key and the header
/// of its value are read before anything is asked for.
#[verifier::opaque]
pub open spec fn entry_asks(
    rules: EventRules,
    source: Source,
    stage: Stage,
    cursor: Cursor,
    parent_id: u32,
    auto_generated: bool,
    depth: int,
    error: KvIrSerializerError,
) -> bool
    decreases source.bytes.len() - cursor.position, 1int,
{
    match map_key_at(source, cursor) {
        Err(_) => false,
        Ok((key, keyed)) => match header_at(source, keyed) {
            Err(_) => false,
            Ok((HeaderView::Unsupported(_), _)) => false,
            Ok((header, after)) => {
                let node = NodeView { parent_id, node_type: header_type(header), key };
                ||| node_asks(rules, stage, auto_generated, node, error)
                ||| match with_found_node(rules, stage, auto_generated, node) {
                    Err(_) => false,
                    Ok((found, node_id)) => cursor.position < after.position <= source.bytes.len()
                        && value_asks(
                        rules,
                        source,
                        found,
                        header,
                        after,
                        node_id,
                        auto_generated,
                        depth,
                        error,
                    ),
                }
            },
        },
    }
}

/// Whether this memory can be refused while the value of an entry is staged.
pub open spec fn value_asks(
    rules: EventRules,
    source: Source,
    stage: Stage,
    header: HeaderView,
    cursor: Cursor,
    node_id: u32,
    auto_generated: bool,
    depth: int,
    error: KvIrSerializerError,
) -> bool
    decreases source.bytes.len() - cursor.position, 4int,
{
    match header {
        HeaderView::MapHead(pairs) => if pairs == 0 {
            packet_asks(rules, error)
        } else {
            depth + 1 <= u64::MAX && map_entries_ask(
                rules,
                source,
                stage,
                cursor,
                pairs,
                node_id,
                auto_generated,
                depth + 1,
                error,
            )
        },
        HeaderView::ArrayHead(elements) => {
            ||| is_packet_refused(error, rules.limits.scalar_bytes)
            ||| array_text(rules, source, cursor, elements, depth) is Ok && packet_asks(rules, error)
        },
        _ => packet_asks(rules, error),
    }
}

/// Whether this memory can be refused while one whole map is staged.
pub open spec fn map_asks(
    rules: EventRules,
    stage: Stage,
    bytes: Seq<u8>,
    auto_generated: bool,
    error: KvIrSerializerError,
) -> bool {
    let source = Source {
        bytes,
        input: if auto_generated {
            KvIrSerializerInput::AutoGenerated
        } else {
            KvIrSerializerInput::UserGenerated
        },
        limits: rules.limits,
    };
    match root_map_at(source, Cursor { position: 0, values: 0 }) {
        Err(_) => false,
        Ok((pairs, cursor)) => if !auto_generated && pairs == 0 {
            event_bytes(stage.sequential, seq![0x5eu8], rules.limits.event_output_bytes) is Ok
                && was_refused(error, "event output"@, 1)
        } else {
            map_entries_ask(rules, source, stage, cursor, pairs, 0, auto_generated, 1, error)
        },
    }
}

/// Whether this memory can be refused while both maps of an event are staged.
pub open spec fn event_asks(
    view: SerializerView,
    auto_generated: Seq<u8>,
    user_generated: Seq<u8>,
    error: KvIrSerializerError,
) -> bool {
    let rules = event_rules(view);
    ||| map_asks(rules, unstaged(view), auto_generated, true, error)
    ||| with_root_map(rules, unstaged(view), auto_generated, true) matches Ok(stage) && map_asks(
        rules,
        stage,
        user_generated,
        false,
        error,
    )
}

/// Whether this memory can be refused to an event. Whatever shows before anything is asked for is
/// reported as itself; the packets of a staged event are made pending at once.
pub open spec fn is_event_request(
    view: SerializerView,
    auto_generated: Seq<u8>,
    user_generated: Seq<u8>,
    error: KvIrSerializerError,
) -> bool {
    &&& error is AllocationFailed
    &&& !view.finished
    &&& input_checked(view, auto_generated) is Ok
    &&& input_checked(view, user_generated) is Ok
    &&& {
        ||| event_asks(view, auto_generated, user_generated, error)
        ||| staged_event(view, auto_generated, user_generated) matches Ok(stage) && committed(
            view,
            stage,
        ) matches Ok((_, bytes)) && was_refused(error, "pending output"@, bytes)
    }
}

/// What staging came to, where `asked` says whether memory that was asked for was refused.
pub open spec fn stage_reached(
    asked: bool,
    expected: Result<Stage, KvIrSerializerError>,
    after: Stage,
    result: Result<(), KvIrSerializerError>,
) -> bool {
    match result {
        Ok(_) => expected == Ok::<Stage, KvIrSerializerError>(after),
        Err(error) => (asked && error is AllocationFailed) || expected == Err::<
            Stage,
            KvIrSerializerError,
        >(error),
    }
}

/// What staging from a reader came to, where `asked` says whether memory that was asked for was
/// refused.
pub open spec fn stage_read(
    asked: bool,
    expected: Result<(Stage, Cursor), KvIrSerializerError>,
    after: Stage,
    cursor: Cursor,
    result: Result<(), KvIrSerializerError>,
) -> bool {
    match result {
        Ok(_) => expected == Ok::<(Stage, Cursor), KvIrSerializerError>((after, cursor)),
        Err(error) => (asked && error is AllocationFailed) || expected == Err::<
            (Stage, Cursor),
            KvIrSerializerError,
        >(error),
    }
}

/// What is asked for by the entries of a map is asked for by the first of them or by the rest.
#[verifier::rlimit(40)]
#[verifier::spinoff_prover]
proof fn lemma_entries_ask(
    rules: EventRules,
    source: Source,
    stage: Stage,
    cursor: Cursor,
    left: int,
    parent_id: u32,
    auto_generated: bool,
    depth: int,
    error: KvIrSerializerError,
)
    requires
        left > 0,
    ensures
        entry_asks(rules, source, stage, cursor, parent_id, auto_generated, depth, error)
            ==> entries_ask(
            rules,
            source,
            stage,
            cursor,
            left,
            parent_id,
            auto_generated,
            depth,
            error,
        ),
        with_entry(
            rules,
            source,
            stage,
            cursor,
            parent_id,
            auto_generated,
            depth,
        ) matches Ok((content, next)) ==> cursor.position < next.position <= source.bytes.len()
            ==> entries_ask(
            rules,
            source,
            content,
            next,
            left - 1,
            parent_id,
            auto_generated,
            depth,
            error,
        ) ==> entries_ask(
            rules,
            source,
            stage,
            cursor,
            left,
            parent_id,
            auto_generated,
            depth,
            error,
        ),
{
    reveal(entries_ask);
}

/// How an event is staged.
struct StageOptions<'a> {
    encoding: KvIrEncoding,
    limits: KvIrSerializerLimits,
    floats: &'a [FloatText],
}

impl<'a> StageOptions<'a> {
    spec fn rules(&self) -> EventRules {
        EventRules { encoding: self.encoding, limits: self.limits, floats: self.floats@ }
    }
}

/// Schema trees and reusable staging buffers.
struct EventStage {
    auto_schema: SchemaTree,
    user_schema: SchemaTree,
    schema: Vec<u8>,
    sequential: Vec<u8>,
    user_values: Vec<u8>,
    logtype: Vec<u8>,
    array_json: Vec<u8>,
}

fn header_node_type(header: Header<'_>) -> (node_type: KvIrNodeType)
    ensures
        node_type == header_type(header@),
{
    match header {
        Header::Integer(_) => KvIrNodeType::Integer,
        Header::Float(_) => KvIrNodeType::Float,
        Header::Boolean(_) => KvIrNodeType::Boolean,
        Header::String(_) => KvIrNodeType::String,
        Header::ArrayHead(_) => KvIrNodeType::UnstructuredArray,
        _ => KvIrNodeType::Object,
    }
}

fn contains_space(value: &[u8]) -> (found: bool)
    ensures
        found == value@.contains(0x20),
{
    let mut at: usize = 0;
    while at < value.len()
        invariant
            at <= value@.len(),
            forall|i: int| 0 <= i < at ==> value@[i] != 0x20,
        decreases value@.len() - at,
    {
        if value[at] == 0x20 {
            assert(value@[at as int] == 0x20);
            return true;
        }
        at += 1;
    }
    false
}

fn serialize_primitive(
    options: &StageOptions<'_>,
    value: Primitive<'_>,
    output: &mut Vec<u8>,
    logtype: &mut Vec<u8>,
) -> (result: Result<(), KvIrSerializerError>)
    ensures
        staged(
            old(output)@,
            options.limits.event_output_bytes,
            with_primitive(options.rules(), old(output)@, value@),
            final(output)@,
            result,
        ),
{
    let limit = options.limits.event_output_bytes;
    match value {
        Primitive::Nil => checked_push(output, 0x5f, limit, "event value staging"),
        Primitive::Boolean(true) => checked_push(output, 0x57, limit, "event value staging"),
        Primitive::Boolean(false) => checked_push(output, 0x58, limit, "event value staging"),
        Primitive::Integer(value) => serialize_integer(output, value, limit),
        Primitive::Float(bits) => {
            checked_push(output, 0x56, limit, "event value staging")?;
            append_event_bytes(output, &be64_array(bits), limit, "event value staging")
        },
        Primitive::String(value) => {
            if contains_space(value) {
                serialize_clp_text(options.encoding, value, output, logtype, limit)
            } else {
                serialize_string(
                    output,
                    value,
                    WidthTags { one: 0x41, two: 0x42, four: 0x43 },
                    limit,
                )
            }
        },
        Primitive::EncodedText(value) => serialize_clp_text(
            options.encoding,
            value,
            output,
            logtype,
            limit,
        ),
        Primitive::EmptyObject => checked_push(output, 0x5e, limit, "event value staging"),
    }
}

fn serialize_schema_node(
    output: &mut Vec<u8>,
    auto_generated: bool,
    parent_id: u32,
    key: &[u8],
    node_type: KvIrNodeType,
    limit: u64,
) -> (result: Result<(), KvIrSerializerError>)
    ensures
        staged(
            old(output)@,
            limit,
            with_declaration(
                old(output)@,
                auto_generated,
                NodeView { parent_id, node_type, key: key@ },
                limit,
            ),
            final(output)@,
            result,
        ),
{
    let tag: u8 = match node_type {
        KvIrNodeType::Integer => 0x71,
        KvIrNodeType::Float => 0x72,
        KvIrNodeType::Boolean => 0x73,
        KvIrNodeType::String => 0x74,
        KvIrNodeType::UnstructuredArray => 0x75,
        KvIrNodeType::Object => 0x76,
    };
    checked_push(output, tag, limit, "event schema staging")?;
    encode_node_id(
        output,
        parent_id,
        auto_generated,
        WidthTags { one: 0x60, two: 0x61, four: 0x62 },
        limit,
    )?;
    serialize_string(output, key, WidthTags { one: 0x41, two: 0x42, four: 0x43 }, limit)
}

impl EventStage {
    spec fn wf(&self) -> bool {
        self.auto_schema.wf() && self.user_schema.wf()
    }

    spec fn stage(&self) -> Stage {
        Stage {
            auto_schema: self.auto_schema@,
            user_schema: self.user_schema@,
            schema: self.schema@,
            sequential: self.sequential@,
            user_values: self.user_values@,
        }
    }

    spec fn grows(&self, before: &EventStage) -> bool {
        &&& tree_grows(self.auto_schema@, before.auto_schema@)
        &&& tree_grows(self.user_schema@, before.user_schema@)
    }

    /// Finds a node or adds it; also returns whether it was added.
    fn find_or_insert_node(
        &mut self,
        auto_generated: bool,
        parent_id: u32,
        key: &[u8],
        node_type: KvIrNodeType,
        limit: u64,
    ) -> (result: Result<(u32, bool), KvIrSerializerError>)
        requires
            old(self).wf(),
        ensures
            final(self).wf(),
            final(self).grows(old(self)),
            ({
                let tree = stage_tree(old(self).stage(), auto_generated);
                let node = NodeView { parent_id, node_type, key: key@ };
                let found = node_of(tree, parent_id, key@, node_type);
                match result {
                    Ok((node_id, false)) => found == Some(node_id as int) && final(self).stage()
                        == old(self).stage(),
                    Ok((node_id, true)) => found is None && (with_node(
                        tree,
                        node,
                        limit,
                    ) matches Ok((next, id)) && id == node_id && final(self).stage() == with_tree(
                        old(self).stage(),
                        auto_generated,
                        next,
                    )),
                    Err(error) => found is None && match with_node(tree, node, limit) {
                        Ok(_) => is_node_request(tree, key@, error),
                        Err(failure) => error == failure,
                    },
                }
            }),
    {
        proof {
            lemma_tree_grows_itself(self.auto_schema@);
            lemma_tree_grows_itself(self.user_schema@);
        }
        if auto_generated {
            let (hash, found) = self.auto_schema.find(parent_id, key, node_type);
            match found {
                Some(node_id) => {
                    return Ok((node_id, false));
                },
                None => {},
            }
            let node_id = self.auto_schema.insert(hash, parent_id, key, node_type, limit)?;
            assert(self.auto_schema@.take(old(self).auto_schema@.len() as int)
                =~= old(self).auto_schema@);
            Ok((node_id, true))
        } else {
            let (hash, found) = self.user_schema.find(parent_id, key, node_type);
            match found {
                Some(node_id) => {
                    return Ok((node_id, false));
                },
                None => {},
            }
            let node_id = self.user_schema.insert(hash, parent_id, key, node_type, limit)?;
            assert(self.user_schema@.take(old(self).user_schema@.len() as int)
                =~= old(self).user_schema@);
            Ok((node_id, true))
        }
    }

    /// Finds a node, or adds and declares it.
    fn stage_node(
        &mut self,
        options: &StageOptions<'_>,
        auto_generated: bool,
        parent_id: u32,
        key: &[u8],
        node_type: KvIrNodeType,
    ) -> (result: Result<u32, KvIrSerializerError>)
        requires
            old(self).wf(),
        ensures
            final(self).wf(),
            final(self).grows(old(self)),
            ({
                let node = NodeView { parent_id, node_type, key: key@ };
                let expected = with_found_node(
                    options.rules(),
                    old(self).stage(),
                    auto_generated,
                    node,
                );
                match result {
                    Ok(node_id) => expected == Ok::<(Stage, u32), KvIrSerializerError>(
                        (final(self).stage(), node_id),
                    ),
                    Err(error) => node_asks(
                        options.rules(),
                        old(self).stage(),
                        auto_generated,
                        node,
                        error,
                    ) || expected == Err::<(Stage, u32), KvIrSerializerError>(error),
                }
            }),
    {
        let (node_id, added) = self.find_or_insert_node(
            auto_generated,
            parent_id,
            key,
            node_type,
            options.limits.schema_nodes_per_namespace,
        )?;
        if added {
            serialize_schema_node(
                &mut self.schema,
                auto_generated,
                parent_id,
                key,
                node_type,
                options.limits.event_output_bytes,
            )?;
        }
        Ok(node_id)
    }

    fn serialize_leaf(
        &mut self,
        options: &StageOptions<'_>,
        auto_generated: bool,
        node_id: u32,
        value: Primitive<'_>,
    ) -> (result: Result<(), KvIrSerializerError>)
        requires
            old(self).wf(),
        ensures
            final(self).wf(),
            final(self).grows(old(self)),
            stage_reached(
                result is Err && packet_asks(options.rules(), result->Err_0),
                with_leaf(
                    options.rules(),
                    old(self).stage(),
                    auto_generated,
                    node_id,
                    value@,
                ),
                final(self).stage(),
                result,
            ),
    {
        proof {
            lemma_tree_grows_itself(self.auto_schema@);
            lemma_tree_grows_itself(self.user_schema@);
        }
        encode_node_id(
            &mut self.sequential,
            node_id,
            auto_generated,
            WidthTags { one: 0x65, two: 0x66, four: 0x67 },
            options.limits.event_output_bytes,
        )?;
        if auto_generated {
            serialize_primitive(options, value, &mut self.sequential, &mut self.logtype)
        } else {
            serialize_primitive(options, value, &mut self.user_values, &mut self.logtype)
        }
    }

    /// Reads an array and stages its text.
    fn serialize_array(
        &mut self,
        options: &StageOptions<'_>,
        reader: &mut MessagePackReader<'_>,
        elements: u32,
        node_id: u32,
        auto_generated: bool,
        depth: u64,
    ) -> (result: Result<(), KvIrSerializerError>)
        requires
            old(self).wf(),
            old(reader).wf(),
        ensures
            final(self).wf(),
            final(self).grows(old(self)),
            final(reader).wf(),
            final(reader).source() == old(reader).source(),
            result is Ok ==> final(reader).position >= old(reader).position,
            stage_read(
                result is Err && value_asks(
                    options.rules(),
                    old(reader).source(),
                    old(self).stage(),
                    HeaderView::ArrayHead(elements),
                    old(reader).cursor(),
                    node_id,
                    auto_generated,
                    depth as int,
                    result->Err_0,
                ),
                with_entry_value(
                    options.rules(),
                    old(reader).source(),
                    old(self).stage(),
                    HeaderView::ArrayHead(elements),
                    old(reader).cursor(),
                    node_id,
                    auto_generated,
                    depth as int,
                ),
                final(self).stage(),
                final(reader).cursor(),
                result,
            ),
    {
        proof {
            lemma_tree_grows_itself(self.auto_schema@);
            lemma_tree_grows_itself(self.user_schema@);
        }
        let limit = options.limits.scalar_bytes;
        let open: [u8; 1] = [0x5b];
        let close: [u8; 1] = [0x5d];
        proof {
            assert(open@ =~= seq![0x5bu8]);
            assert(close@ =~= seq![0x5du8]);
        }
        self.array_json.clear();
        append_limited(&mut self.array_json, &open, limit)?;
        stringify_array(reader, &mut self.array_json, elements, depth, limit, options.floats)?;
        append_limited(&mut self.array_json, &close, limit)?;
        let mut text: Vec<u8> = Vec::new();
        core::mem::swap(&mut text, &mut self.array_json);
        let result = self.serialize_leaf(
            options,
            auto_generated,
            node_id,
            Primitive::EncodedText(text.as_slice()),
        );
        self.array_json = text;
        result
    }

    /// Reads and stages the value of one entry.
    fn serialize_entry_value(
        &mut self,
        options: &StageOptions<'_>,
        reader: &mut MessagePackReader<'_>,
        header: Header<'_>,
        node_id: u32,
        auto_generated: bool,
        depth: u64,
    ) -> (result: Result<(), KvIrSerializerError>)
        requires
            old(self).wf(),
            old(reader).wf(),
            !(header is Unsupported),
        ensures
            final(self).wf(),
            final(self).grows(old(self)),
            final(reader).wf(),
            final(reader).source() == old(reader).source(),
            result is Ok ==> final(reader).position >= old(reader).position,
            stage_read(
                result is Err && value_asks(
                    options.rules(),
                    old(reader).source(),
                    old(self).stage(),
                    header@,
                    old(reader).cursor(),
                    node_id,
                    auto_generated,
                    depth as int,
                    result->Err_0,
                ),
                with_entry_value(
                    options.rules(),
                    old(reader).source(),
                    old(self).stage(),
                    header@,
                    old(reader).cursor(),
                    node_id,
                    auto_generated,
                    depth as int,
                ),
                final(self).stage(),
                final(reader).cursor(),
                result,
            ),
        decreases old(reader).bytes@.len() - old(reader).position, 4int,
    {
        match header {
            Header::MapHead(pairs) => {
                if pairs == 0 {
                    return self.serialize_leaf(
                        options,
                        auto_generated,
                        node_id,
                        Primitive::EmptyObject,
                    );
                }
                if depth == u64::MAX {
                    proof {
                        lemma_tree_grows_itself(self.auto_schema@);
                        lemma_tree_grows_itself(self.user_schema@);
                    }
                    return Err(KvIrSerializerError::SizeOverflow);
                }
                self.serialize_map_entries(
                    options,
                    reader,
                    pairs,
                    node_id,
                    auto_generated,
                    depth + 1,
                )
            },
            Header::ArrayHead(elements) => self.serialize_array(
                options,
                reader,
                elements,
                node_id,
                auto_generated,
                depth,
            ),
            Header::Boolean(value) => self.serialize_leaf(
                options,
                auto_generated,
                node_id,
                Primitive::Boolean(value),
            ),
            Header::Integer(value) => self.serialize_leaf(
                options,
                auto_generated,
                node_id,
                Primitive::Integer(value),
            ),
            Header::Float(bits) => self.serialize_leaf(
                options,
                auto_generated,
                node_id,
                Primitive::Float(bits),
            ),
            Header::String(value) => self.serialize_leaf(
                options,
                auto_generated,
                node_id,
                Primitive::String(value),
            ),
            _ => self.serialize_leaf(options, auto_generated, node_id, Primitive::Nil),
        }
    }

    /// Reads and stages one entry of a map.
    fn serialize_map_entry(
        &mut self,
        options: &StageOptions<'_>,
        reader: &mut MessagePackReader<'_>,
        parent_id: u32,
        auto_generated: bool,
        depth: u64,
    ) -> (result: Result<(), KvIrSerializerError>)
        requires
            old(self).wf(),
            old(reader).wf(),
        ensures
            final(self).wf(),
            final(self).grows(old(self)),
            final(reader).wf(),
            final(reader).source() == old(reader).source(),
            result is Ok ==> final(reader).position > old(reader).position,
            stage_read(
                result is Err && entry_asks(
                    options.rules(),
                    old(reader).source(),
                    old(self).stage(),
                    old(reader).cursor(),
                    parent_id,
                    auto_generated,
                    depth as int,
                    result->Err_0,
                ),
                with_entry(
                    options.rules(),
                    old(reader).source(),
                    old(self).stage(),
                    old(reader).cursor(),
                    parent_id,
                    auto_generated,
                    depth as int,
                ),
                final(self).stage(),
                final(reader).cursor(),
                result,
            ),
        decreases old(reader).bytes@.len() - old(reader).position, 1int,
    {
        proof {
            lemma_tree_grows_itself(self.auto_schema@);
            lemma_tree_grows_itself(self.user_schema@);
            lemma_header_progress(reader.source(), reader.cursor());
            reveal(entry_asks);
        }
        let key = reader.read_map_key()?;
        proof {
            lemma_header_progress(reader.source(), reader.cursor());
        }
        let value_offset = reader.position;
        let header = reader.read_header()?;
        match header {
            Header::Unsupported(kind) => {
                return Err(reader.error_at(value_offset, kind));
            },
            _ => {},
        }
        let node_id = self.stage_node(
            options,
            auto_generated,
            parent_id,
            key,
            header_node_type(header),
        )?;
        let ghost between = *self;
        let result = self.serialize_entry_value(
            options,
            reader,
            header,
            node_id,
            auto_generated,
            depth,
        );
        proof {
            lemma_tree_grows_twice(
                old(self).auto_schema@,
                between.auto_schema@,
                self.auto_schema@,
            );
            lemma_tree_grows_twice(
                old(self).user_schema@,
                between.user_schema@,
                self.user_schema@,
            );
        }
        result
    }

    /// Reads and stages the entries of a map at `depth`.
    #[verifier::rlimit(40)]
    #[verifier::spinoff_prover]
    fn serialize_map_entries(
        &mut self,
        options: &StageOptions<'_>,
        reader: &mut MessagePackReader<'_>,
        pairs: u32,
        parent_id: u32,
        auto_generated: bool,
        depth: u64,
    ) -> (result: Result<(), KvIrSerializerError>)
        requires
            old(self).wf(),
            old(reader).wf(),
        ensures
            final(self).wf(),
            final(self).grows(old(self)),
            final(reader).wf(),
            final(reader).source() == old(reader).source(),
            result is Ok ==> final(reader).position >= old(reader).position,
            stage_read(
                result is Err && map_entries_ask(
                    options.rules(),
                    old(reader).source(),
                    old(self).stage(),
                    old(reader).cursor(),
                    pairs,
                    parent_id,
                    auto_generated,
                    depth as int,
                    result->Err_0,
                ),
                with_map_entries(
                    options.rules(),
                    old(reader).source(),
                    old(self).stage(),
                    old(reader).cursor(),
                    pairs,
                    parent_id,
                    auto_generated,
                    depth as int,
                ),
                final(self).stage(),
                final(reader).cursor(),
                result,
            ),
        decreases old(reader).bytes@.len() - old(reader).position, 3int,
    {
        proof {
            lemma_tree_grows_itself(self.auto_schema@);
            lemma_tree_grows_itself(self.user_schema@);
        }
        reader.check_depth(depth)?;
        let ghost rules = options.rules();
        let ghost source = reader.source();
        let ghost target = with_entries(
            rules,
            source,
            self.stage(),
            reader.cursor(),
            pairs as int,
            parent_id,
            auto_generated,
            depth as int,
        );
        let mut index: u32 = 0;
        while index < pairs
            invariant
                index <= pairs,
                self.wf(),
                self.grows(old(self)),
                reader.wf(),
                reader.source() == source,
                source == old(reader).source(),
                rules == options.rules(),
                reader.position >= old(reader).position,
                target == with_map_entries(
                    rules,
                    source,
                    old(self).stage(),
                    old(reader).cursor(),
                    pairs,
                    parent_id,
                    auto_generated,
                    depth as int,
                ),
                with_entries(
                    rules,
                    source,
                    self.stage(),
                    reader.cursor(),
                    pairs - index,
                    parent_id,
                    auto_generated,
                    depth as int,
                ) == target,
                forall|error: KvIrSerializerError| #[trigger]
                    entries_ask(
                        rules,
                        source,
                        self.stage(),
                        reader.cursor(),
                        pairs - index,
                        parent_id,
                        auto_generated,
                        depth as int,
                        error,
                    ) ==> map_entries_ask(
                        rules,
                        source,
                        old(self).stage(),
                        old(reader).cursor(),
                        pairs,
                        parent_id,
                        auto_generated,
                        depth as int,
                        error,
                    ),
            decreases pairs - index,
        {
            let ghost between = *self;
            let ghost at = reader.cursor();
            let result = self.serialize_map_entry(
                options,
                reader,
                parent_id,
                auto_generated,
                depth,
            );
            proof {
                if result is Ok {
                    assert forall|error: KvIrSerializerError| #[trigger]
                        entries_ask(
                            rules,
                            source,
                            self.stage(),
                            reader.cursor(),
                            pairs - index - 1,
                            parent_id,
                            auto_generated,
                            depth as int,
                            error,
                        ) implies entries_ask(
                        rules,
                        source,
                        between.stage(),
                        at,
                        pairs - index,
                        parent_id,
                        auto_generated,
                        depth as int,
                        error,
                    ) by {
                        lemma_entries_ask(
                            rules,
                            source,
                            between.stage(),
                            at,
                            pairs - index,
                            parent_id,
                            auto_generated,
                            depth as int,
                            error,
                        );
                    }
                } else {
                    lemma_entries_ask(
                        rules,
                        source,
                        between.stage(),
                        at,
                        pairs - index,
                        parent_id,
                        auto_generated,
                        depth as int,
                        result->Err_0,
                    );
                }
                lemma_tree_grows_twice(
                    old(self).auto_schema@,
                    between.auto_schema@,
                    self.auto_schema@,
                );
                lemma_tree_grows_twice(
                    old(self).user_schema@,
                    between.user_schema@,
                    self.user_schema@,
                );
            }
            match result {
                Ok(_) => {},
                Err(error) => {
                    return Err(error);
                },
            }
            index += 1;
        }
        Ok(())
    }

    /// Reads and stages one whole map.
    fn serialize_one_map(
        &mut self,
        options: &StageOptions<'_>,
        bytes: &[u8],
        auto_generated: bool,
    ) -> (result: Result<(), KvIrSerializerError>)
        requires
            old(self).wf(),
        ensures
            final(self).wf(),
            final(self).grows(old(self)),
            stage_reached(
                result is Err && map_asks(
                    options.rules(),
                    old(self).stage(),
                    bytes@,
                    auto_generated,
                    result->Err_0,
                ),
                with_root_map(options.rules(), old(self).stage(), bytes@, auto_generated),
                final(self).stage(),
                result,
            ),
    {
        proof {
            lemma_tree_grows_itself(self.auto_schema@);
            lemma_tree_grows_itself(self.user_schema@);
        }
        let input = if auto_generated {
            KvIrSerializerInput::AutoGenerated
        } else {
            KvIrSerializerInput::UserGenerated
        };
        let mut reader = MessagePackReader::new(bytes, input, options.limits);
        let pairs = reader.read_root_map()?;
        if !auto_generated && pairs == 0 {
            checked_push(
                &mut self.sequential,
                0x5e,
                options.limits.event_output_bytes,
                "event output",
            )
        } else {
            self.serialize_map_entries(options, &mut reader, pairs, 0, auto_generated, 1)
        }
    }

    /// Drops the nodes that were added since the snapshots, and all packets.
    fn rollback(&mut self, auto_snapshot: usize, user_snapshot: usize)
        requires
            old(self).wf(),
            1 <= auto_snapshot <= old(self).auto_schema@.len(),
            1 <= user_snapshot <= old(self).user_schema@.len(),
        ensures
            final(self).wf(),
            final(self).auto_schema@ == old(self).auto_schema@.take(auto_snapshot as int),
            final(self).user_schema@ == old(self).user_schema@.take(user_snapshot as int),
    {
        self.auto_schema.rollback(auto_snapshot);
        self.user_schema.rollback(user_snapshot);
        self.schema.clear();
        self.sequential.clear();
        self.user_values.clear();
    }
}

/// Reusable serializer of one stream.
pub struct KvIrSerializer {
    options: KvIrSerializerOptions,
    staging: EventStage,
    pending: Vec<u8>,
    pending_start: usize,
    floats: Vec<FloatText>,
    current_utc_offset: i64,
    stats: KvIrSerializerStats,
    finished: bool,
}

impl View for KvIrSerializer {
    type V = SerializerView;

    closed spec fn view(&self) -> SerializerView {
        SerializerView {
            options: self.options,
            auto_schema: self.staging.auto_schema@,
            user_schema: self.staging.user_schema@,
            pending: self.pending@.skip(self.pending_start as int),
            utc_offset: self.current_utc_offset,
            stats: self.stats,
            finished: self.finished,
            floats: self.floats@,
        }
    }
}

fn metadata_json(limits: KvIrSerializerLimits, user: UserMetadata<'_>) -> (result: Result<
    Vec<u8>,
    KvIrSerializerError,
>)
    ensures
        match result {
            Ok(metadata) => metadata_text(limits, user@) == Ok::<Seq<u8>, KvIrSerializerError>(
                metadata@,
            ) && metadata@.len() <= 0xffff,
            Err(error) => is_metadata_request(limits, user@, error) || metadata_text(
                limits,
                user@,
            ) == Err::<
                Seq<u8>,
                KvIrSerializerError,
            >(error),
        },
{
    let resource = KvIrSerializerLimitResource::MetadataBytes;
    let mut metadata: Vec<u8> = Vec::new();
    match user {
        UserMetadata::Absent => {
            metadata.push(0x7b);
            assert(metadata@ =~= seq![0x7bu8]);
        },
        UserMetadata::Invalid => {
            return Err(KvIrSerializerError::InvalidUserDefinedMetadata);
        },
        UserMetadata::Canonical(text) => {
            if text.len() == 0 || text[0] != 0x7b || text[text.len() - 1] != 0x7d {
                return Err(KvIrSerializerError::InvalidUserDefinedMetadata);
            }
            checked_extend(
                &mut metadata,
                "{\"USER_DEFINED_METADATA\":".as_bytes(),
                limits.metadata_bytes,
                resource,
                "metadata",
            )?;
            checked_extend(&mut metadata, text, limits.metadata_bytes, resource, "metadata")?;
            let comma: [u8; 1] = [0x2c];
            assert(comma@ =~= seq![0x2cu8]);
            checked_extend(&mut metadata, &comma, limits.metadata_bytes, resource, "metadata")?;
        },
    }
    let limit = if limits.metadata_bytes < 0xffff {
        limits.metadata_bytes
    } else {
        0xffff
    };
    checked_extend(
        &mut metadata,
        "\"VARIABLES_SCHEMA_ID\":\"com.yscope.clp.VariablesSchemaV2\",\"VARIABLE_ENCODING_METHODS_ID\":\"com.yscope.clp.VariableEncodingMethodsV1\",\"VERSION\":\"0.1.0\"}".as_bytes(),
        limit,
        resource,
        "metadata",
    )?;
    Ok(metadata)
}

/// Writes a preamble into `storage`, given whether that has memory for it. A preamble that is larger
/// than the limit allows is found then.
pub fn staged_preamble(
    options: KvIrSerializerOptions,
    metadata: &[u8],
    storage: Vec<u8>,
    reserved: bool,
) -> (result: Result<Vec<u8>, KvIrSerializerError>)
    requires
        metadata@.len() <= 0xffff,
    ensures
        ({
            let expected = preamble(options.encoding, metadata@);
            match result {
                Ok(pending) => reserved && preamble_checked(options, expected) is Ok && pending@
                    == expected,
                Err(error) => if reserved {
                    preamble_checked(options, expected) == Err::<(), KvIrSerializerError>(error)
                } else {
                    was_refused(error, "pending output"@, 7 + metadata@.len() as int)
                },
            }
        }),
{
    if !reserved {
        return Err(allocation("pending output", 7 + metadata.len()));
    }
    let last: u8 = match options.encoding {
        KvIrEncoding::FourByte => 0x29,
        KvIrEncoding::EightByte => 0x30,
    };
    let mut pending = storage;
    pending.clear();
    pending.push(0xfd);
    pending.push(0x2f);
    pending.push(0xb5);
    pending.push(last);
    pending.push(0x01);
    if metadata.len() <= 0xff {
        pending.push(0x11);
        pending.push(metadata.len() as u8);
    } else {
        pending.push(0x12);
        append_slice(&mut pending, &be16_array(metadata.len() as u16));
    }
    append_slice(&mut pending, metadata);
    assert(pending@ =~= preamble(options.encoding, metadata@));
    let pending_bytes = pending.len() as u64;
    if pending_bytes > options.limits.pending_output_bytes {
        return Err(
            limit_error(
                KvIrSerializerLimitResource::PendingOutputBytes,
                pending_bytes,
                options.limits.pending_output_bytes,
            ),
        );
    }
    Ok(pending)
}

impl KvIrSerializer {
    pub closed spec fn wf(&self) -> bool {
        self.staging.wf() && self.pending_start <= self.pending@.len()
            && self.staging.auto_schema@.len() >= 1 && self.staging.user_schema@.len() >= 1
    }

    /// Creates a serializer and stages its preamble.
    pub fn new(options: KvIrSerializerOptions, user_metadata: UserMetadata<'_>) -> (result: Result<
        Self,
        KvIrSerializerError,
    >)
        ensures
            match result {
                Ok(serializer) => serializer.wf() && opened(options, user_metadata@) == Ok::<
                    SerializerView,
                    KvIrSerializerError,
                >(serializer@),
                Err(error) => is_open_request(options, user_metadata@, error) || opened(
                    options,
                    user_metadata@,
                ) == Err::<
                    SerializerView,
                    KvIrSerializerError,
                >(error),
            },
    {
        let metadata = metadata_json(options.limits, user_metadata)?;
        let mut storage: Vec<u8> = Vec::new();
        let reserved = storage.try_reserve(7 + metadata.len()).is_ok();
        let pending = staged_preamble(options, metadata.as_slice(), storage, reserved)?;
        let auto_schema = SchemaTree::new()?;
        let user_schema = SchemaTree::new()?;
        Ok(KvIrSerializer::with_preamble(options, pending, auto_schema, user_schema))
    }

    /// Creates a serializer whose preamble is pending, with trees that have their roots alone.
    fn with_preamble(
        options: KvIrSerializerOptions,
        pending: Vec<u8>,
        auto_schema: SchemaTree,
        user_schema: SchemaTree,
    ) -> (serializer: Self)
        requires
            auto_schema.wf(),
            auto_schema@ == root_tree(),
            user_schema.wf(),
            user_schema@ == root_tree(),
        ensures
            serializer.wf(),
            serializer@ == fresh_view(options, pending@),
    {
        let pending_bytes = pending.len() as u64;
        let serializer = KvIrSerializer {
            options,
            staging: EventStage {
                auto_schema,
                user_schema,
                schema: Vec::new(),
                sequential: Vec::new(),
                user_values: Vec::new(),
                logtype: Vec::new(),
                array_json: Vec::new(),
            },
            pending,
            pending_start: 0,
            floats: Vec::new(),
            current_utc_offset: 0,
            stats: KvIrSerializerStats {
                log_events: 0,
                schema_nodes: 0,
                utc_offset_changes: 0,
                serialized_bytes: pending_bytes,
            },
            finished: false,
        };
        assert(serializer.pending@.skip(0) =~= serializer.pending@);
        serializer
    }

    /// Creates a four-byte serializer with the default limits.
    pub fn new_four_byte(user_metadata: UserMetadata<'_>) -> (result: Result<
        Self,
        KvIrSerializerError,
    >)
        ensures
            ({
                let options = KvIrSerializerOptions {
                    encoding: KvIrEncoding::FourByte,
                    limits: crate::serializer_options::default_serializer_limits(),
                };
                match result {
                    Ok(serializer) => serializer.wf() && opened(options, user_metadata@) == Ok::<
                        SerializerView,
                        KvIrSerializerError,
                    >(serializer@),
                    Err(error) => is_open_request(options, user_metadata@, error) || opened(
                        options,
                        user_metadata@,
                    ) == Err::<SerializerView, KvIrSerializerError>(error),
                }
            }),
    {
        KvIrSerializer::new(KvIrSerializerOptions::default(), user_metadata)
    }

    /// Returns the variable width.
    pub fn encoding(&self) -> (encoding: KvIrEncoding)
        ensures
            encoding == self@.options.encoding,
    {
        self.options.encoding
    }

    /// Returns the offset of the last UTC-offset packet.
    pub fn current_utc_offset_millis(&self) -> (offset: i64)
        ensures
            offset == self@.utc_offset,
    {
        self.current_utc_offset
    }

    /// Returns the committed statistics.
    pub fn stats(&self) -> (stats: KvIrSerializerStats)
        ensures
            stats == self@.stats,
    {
        self.stats
    }

    /// Returns the number of nodes of both schema trees, their roots included.
    pub fn schema_lengths(&self) -> (lengths: (usize, usize))
        ensures
            lengths.0 == self@.auto_schema.len(),
            lengths.1 == self@.user_schema.len(),
    {
        (self.staging.auto_schema.len(), self.staging.user_schema.len())
    }

    /// Returns the bytes that are ready to be written.
    pub fn pending_output(&self) -> (bytes: &[u8])
        requires
            self.wf(),
        ensures
            bytes@ == self@.pending,
    {
        assert(self.pending@.subrange(self.pending_start as int, self.pending@.len() as int)
            =~= self.pending@.skip(self.pending_start as int));
        vstd::slice::slice_subrange(
            self.pending.as_slice(),
            self.pending_start,
            self.pending.len(),
        )
    }

    /// Marks a prefix of [`Self::pending_output`] as consumed.
    pub fn consume_pending(&mut self, bytes: usize) -> (result: Result<(), KvIrSerializerError>)
        requires
            old(self).wf(),
        ensures
            final(self).wf(),
            match result {
                Ok(_) => bytes <= old(self)@.pending.len() && final(self)@ == (SerializerView {
                    pending: old(self)@.pending.skip(bytes as int),
                    ..old(self)@
                }),
                Err(error) => bytes > old(self)@.pending.len() && error
                    == KvIrSerializerError::SizeOverflow && final(self)@ == old(self)@,
            },
    {
        if bytes > self.pending.len() - self.pending_start {
            return Err(KvIrSerializerError::SizeOverflow);
        }
        self.pending_start = self.pending_start + bytes;
        if self.pending_start == self.pending.len() {
            self.pending.clear();
            self.pending_start = 0;
        }
        assert(self.pending@.skip(self.pending_start as int) =~= old(self)@.pending.skip(
            bytes as int,
        ));
        Ok(())
    }

    /// Supplies the spelling of a float for arrays. The first spelling of a float counts.
    pub fn add_float_text(&mut self, bits: u64, text: Vec<u8>)
        requires
            old(self).wf(),
        ensures
            final(self).wf(),
            final(self)@ == (SerializerView {
                floats: old(self)@.floats.push(FloatText { bits, text }),
                ..old(self)@
            }),
    {
        self.floats.push(FloatText { bits, text });
    }

    /// Moves the pending bytes to the front of their buffer.
    fn compact_pending(&mut self)
        requires
            old(self).wf(),
        ensures
            final(self).wf(),
            final(self).pending_start == 0,
            final(self)@ == old(self)@,
            final(self).pending@ == old(self)@.pending,
            final(self).staging == old(self).staging,
    {
        if self.pending_start > 0 {
            let start = self.pending_start;
            let rest = self.pending.split_off(start);
            self.pending = rest;
            self.pending_start = 0;
            assert(self.pending@ =~= old(self)@.pending);
        }
        assert(self.pending@.skip(0) =~= self.pending@);
        assert(self.pending@ =~= old(self)@.pending);
    }

    fn append_pending(&mut self, bytes: &[u8]) -> (result: Result<(), KvIrSerializerError>)
        requires
            old(self).wf(),
        ensures
            final(self).wf(),
            match with_pending(old(self)@, bytes@) {
                Err(error) => final(self)@ == old(self)@ && result == Err::<
                    (),
                    KvIrSerializerError,
                >(error),
                Ok(next) => match result {
                    Ok(_) => final(self)@ == next,
                    Err(error) => final(self)@ == old(self)@ && was_refused(
                        error,
                        "pending output"@,
                        bytes@.len() as int,
                    ),
                },
            },
    {
        if bytes.len() as u64 > u64::MAX - self.stats.serialized_bytes {
            return Err(KvIrSerializerError::SizeOverflow);
        }
        self.compact_pending();
        if bytes.len() > usize::MAX - self.pending.len() {
            return Err(KvIrSerializerError::SizeOverflow);
        }
        check_limit(
            self.pending.len() + bytes.len(),
            self.options.limits.pending_output_bytes,
            KvIrSerializerLimitResource::PendingOutputBytes,
        )?;
        let reserved = self.pending.try_reserve(bytes.len()).is_ok();
        self.append_reserved(bytes, reserved)
    }

    /// Makes bytes pending, given whether there is memory for them.
    fn append_reserved(&mut self, bytes: &[u8], reserved: bool) -> (result: Result<
        (),
        KvIrSerializerError,
    >)
        requires
            old(self).wf(),
            old(self).pending_start == 0,
            with_pending(old(self)@, bytes@) is Ok,
        ensures
            final(self).wf(),
            match result {
                Ok(_) => reserved && with_pending(old(self)@, bytes@) == Ok::<
                    SerializerView,
                    KvIrSerializerError,
                >(final(self)@),
                Err(error) => {
                    &&& !reserved
                    &&& final(self)@ == old(self)@
                    &&& was_refused(error, "pending output"@, bytes@.len() as int)
                },
            },
    {
        if !reserved {
            return Err(allocation("pending output", bytes.len()));
        }
        assert(self.pending@.skip(0) =~= self.pending@);
        append_slice(&mut self.pending, bytes);
        assert(self.pending@.skip(0) =~= self.pending@);
        self.stats.serialized_bytes = self.stats.serialized_bytes + bytes.len() as u64;
        Ok(())
    }

    /// Stages a UTC-offset packet, even when the offset is unchanged.
    pub fn change_utc_offset(&mut self, utc_offset_millis: i64) -> (result: Result<
        usize,
        KvIrSerializerError,
    >)
        requires
            old(self).wf(),
        ensures
            final(self).wf(),
            match with_utc_offset(old(self)@, utc_offset_millis) {
                Err(error) => final(self)@ == old(self)@ && result == Err::<
                    usize,
                    KvIrSerializerError,
                >(error),
                Ok(next) => match result {
                    Ok(bytes) => bytes == 9 && final(self)@ == next,
                    Err(error) => final(self)@ == old(self)@ && was_refused(
                        error,
                        "pending output"@,
                        9,
                    ),
                },
            },
    {
        if self.finished {
            return Err(KvIrSerializerError::Finished);
        }
        if self.stats.utc_offset_changes == u64::MAX {
            return Err(KvIrSerializerError::SizeOverflow);
        }
        let offset = be64_array(unsigned_bits(utc_offset_millis));
        let packet: [u8; 9] = [
            0x3f,
            offset[0],
            offset[1],
            offset[2],
            offset[3],
            offset[4],
            offset[5],
            offset[6],
            offset[7],
        ];
        assert(packet@ =~= seq![0x3fu8] + offset@);
        self.append_pending(&packet)?;
        self.current_utc_offset = utc_offset_millis;
        self.stats.utc_offset_changes = self.stats.utc_offset_changes + 1;
        Ok(9)
    }

    /// Appends the end-of-stream byte once.
    pub fn finish(&mut self) -> (result: Result<usize, KvIrSerializerError>)
        requires
            old(self).wf(),
        ensures
            final(self).wf(),
            match with_end(old(self)@) {
                Err(error) => final(self)@ == old(self)@ && result == Err::<
                    usize,
                    KvIrSerializerError,
                >(error),
                Ok(next) => match result {
                    Ok(bytes) => bytes == 1 && final(self)@ == next,
                    Err(error) => final(self)@ == old(self)@ && was_refused(
                        error,
                        "pending output"@,
                        1,
                    ),
                },
            },
    {
        if self.finished {
            return Err(KvIrSerializerError::Finished);
        }
        let end: [u8; 1] = [0];
        assert(end@ =~= seq![0u8]);
        self.append_pending(&end)?;
        self.finished = true;
        Ok(1)
    }

    /// Returns whether the stream has ended.
    pub fn is_finished(&self) -> (finished: bool)
        ensures
            finished == self@.finished,
    {
        self.finished
    }

    fn check_input_size(&self, bytes: &[u8]) -> (result: Result<(), KvIrSerializerError>)
        ensures
            result == input_checked(self@, bytes@),
    {
        check_limit(
            bytes.len(),
            self.options.limits.input_bytes_per_map,
            KvIrSerializerLimitResource::InputBytesPerMap,
        )?;
        Ok(())
    }

    /// Stages both maps of an event.
    fn stage_event(&mut self, auto_generated: &[u8], user_generated: &[u8]) -> (result: Result<
        (),
        KvIrSerializerError,
    >)
        requires
            old(self).wf(),
        ensures
            final(self).wf(),
            final(self).staging.grows(&old(self).staging),
            final(self)@ == (SerializerView {
                auto_schema: final(self)@.auto_schema,
                user_schema: final(self)@.user_schema,
                ..old(self)@
            }),
            stage_reached(
                result is Err && event_asks(
                    old(self)@,
                    auto_generated@,
                    user_generated@,
                    result->Err_0,
                ),
                staged_event(old(self)@, auto_generated@, user_generated@),
                final(self).staging.stage(),
                result,
            ),
    {
        self.staging.schema.clear();
        self.staging.sequential.clear();
        self.staging.user_values.clear();
        let options = StageOptions {
            encoding: self.options.encoding,
            limits: self.options.limits,
            floats: self.floats.as_slice(),
        };
        let ghost before = self.staging;
        let result = self.staging.serialize_one_map(&options, auto_generated, true);
        match result {
            Ok(_) => {},
            Err(error) => {
                return Err(error);
            },
        }
        let ghost between = self.staging;
        let result = self.staging.serialize_one_map(&options, user_generated, false);
        proof {
            lemma_tree_grows_twice(
                before.auto_schema@,
                between.auto_schema@,
                self.staging.auto_schema@,
            );
            lemma_tree_grows_twice(
                before.user_schema@,
                between.user_schema@,
                self.staging.user_schema@,
            );
        }
        result
    }

    /// The serializer with its trees as they were before an event.
    spec fn at_snapshots(&self, auto_snapshot: int, user_snapshot: int) -> SerializerView {
        SerializerView {
            auto_schema: self@.auto_schema.take(auto_snapshot),
            user_schema: self@.user_schema.take(user_snapshot),
            ..self@
        }
    }

    /// Makes a staged event pending.
    fn commit_staged_event(&mut self, auto_snapshot: usize, user_snapshot: usize) -> (result:
        Result<usize, KvIrSerializerError>)
        requires
            old(self).wf(),
            auto_snapshot <= old(self)@.auto_schema.len(),
            user_snapshot <= old(self)@.user_schema.len(),
        ensures
            final(self).wf(),
            final(self).staging.auto_schema == old(self).staging.auto_schema,
            final(self).staging.user_schema == old(self).staging.user_schema,
            ({
                let expected = committed(
                    old(self).at_snapshots(auto_snapshot as int, user_snapshot as int),
                    old(self).staging.stage(),
                );
                match expected {
                    Err(error) => final(self)@ == old(self)@ && result == Err::<
                        usize,
                        KvIrSerializerError,
                    >(error),
                    Ok((next, count)) => match result {
                        Ok(bytes) => bytes == count && final(self)@ == next,
                        Err(error) => final(self)@ == old(self)@ && was_refused(
                            error,
                            "pending output"@,
                            count,
                        ),
                    },
                }
            }),
    {
        let schema_bytes = self.staging.schema.len();
        let sequential_bytes = self.staging.sequential.len();
        let user_bytes = self.staging.user_values.len();
        if sequential_bytes > usize::MAX - schema_bytes || user_bytes > usize::MAX - schema_bytes
            - sequential_bytes {
            return Err(KvIrSerializerError::SizeOverflow);
        }
        let event_bytes = schema_bytes + sequential_bytes + user_bytes;
        check_limit(
            event_bytes,
            self.options.limits.event_output_bytes,
            KvIrSerializerLimitResource::EventOutputBytes,
        )?;
        self.compact_pending();
        if event_bytes > usize::MAX - self.pending.len() {
            return Err(KvIrSerializerError::SizeOverflow);
        }
        check_limit(
            self.pending.len() + event_bytes,
            self.options.limits.pending_output_bytes,
            KvIrSerializerLimitResource::PendingOutputBytes,
        )?;
        let new_auto = (self.staging.auto_schema.len() - auto_snapshot) as u64;
        let new_user = (self.staging.user_schema.len() - user_snapshot) as u64;
        if new_auto > u64::MAX - self.stats.schema_nodes || new_user > u64::MAX
            - self.stats.schema_nodes - new_auto || self.stats.log_events == u64::MAX
            || event_bytes as u64 > u64::MAX - self.stats.serialized_bytes {
            return Err(KvIrSerializerError::SizeOverflow);
        }
        let reserved = self.pending.try_reserve(event_bytes).is_ok();
        self.commit_reserved_event(auto_snapshot, user_snapshot, reserved)
    }

    /// Makes a staged event pending, given whether there is memory for it.
    fn commit_reserved_event(
        &mut self,
        auto_snapshot: usize,
        user_snapshot: usize,
        reserved: bool,
    ) -> (result: Result<usize, KvIrSerializerError>)
        requires
            old(self).wf(),
            old(self).pending_start == 0,
            auto_snapshot <= old(self)@.auto_schema.len(),
            user_snapshot <= old(self)@.user_schema.len(),
            committed(
                old(self).at_snapshots(auto_snapshot as int, user_snapshot as int),
                old(self).staging.stage(),
            ) is Ok,
        ensures
            final(self).wf(),
            final(self).staging.auto_schema == old(self).staging.auto_schema,
            final(self).staging.user_schema == old(self).staging.user_schema,
            ({
                let (next, count) = committed(
                    old(self).at_snapshots(auto_snapshot as int, user_snapshot as int),
                    old(self).staging.stage(),
                )->Ok_0;
                match result {
                    Ok(bytes) => reserved && bytes == count && final(self)@ == next,
                    Err(error) => {
                        &&& !reserved
                        &&& final(self)@ == old(self)@
                        &&& was_refused(error, "pending output"@, count)
                    },
                }
            }),
    {
        let event_bytes = self.staging.schema.len() + self.staging.sequential.len()
            + self.staging.user_values.len();
        if !reserved {
            return Err(allocation("pending output", event_bytes));
        }
        let new_auto = (self.staging.auto_schema.len() - auto_snapshot) as u64;
        let new_user = (self.staging.user_schema.len() - user_snapshot) as u64;
        assert(self.pending@.skip(0) =~= self.pending@);
        append_slice(&mut self.pending, self.staging.schema.as_slice());
        append_slice(&mut self.pending, self.staging.sequential.as_slice());
        append_slice(&mut self.pending, self.staging.user_values.as_slice());
        self.stats = KvIrSerializerStats {
            log_events: self.stats.log_events + 1,
            schema_nodes: self.stats.schema_nodes + new_auto + new_user,
            utc_offset_changes: self.stats.utc_offset_changes,
            serialized_bytes: self.stats.serialized_bytes + event_bytes as u64,
        };
        assert(self.pending@.skip(0) =~= self.pending@);
        Ok(event_bytes)
    }

    /// Serializes one pair of MessagePack maps transactionally, and returns the number of newly
    /// pending bytes. Bytes after the first map of either input are ignored.
    pub fn serialize_log_event_from_msgpack_maps(
        &mut self,
        auto_generated: &[u8],
        user_generated: &[u8],
    ) -> (result: Result<usize, KvIrSerializerError>)
        requires
            old(self).wf(),
        ensures
            final(self).wf(),
            match result {
                Ok(bytes) => with_event(old(self)@, auto_generated@, user_generated@) == Ok::<
                    (SerializerView, int),
                    KvIrSerializerError,
                >((final(self)@, bytes as int)),
                Err(error) => final(self)@ == old(self)@ && (is_event_request(
                    old(self)@,
                    auto_generated@,
                    user_generated@,
                    error,
                ) || with_event(old(self)@, auto_generated@, user_generated@) == Err::<
                    (SerializerView, int),
                    KvIrSerializerError,
                >(error)),
            },
    {
        if self.finished {
            return Err(KvIrSerializerError::Finished);
        }
        self.check_input_size(auto_generated)?;
        self.check_input_size(user_generated)?;
        let auto_snapshot = self.staging.auto_schema.len();
        let user_snapshot = self.staging.user_schema.len();
        match self.stage_event(auto_generated, user_generated) {
            Ok(_) => {},
            Err(error) => {
                self.staging.rollback(auto_snapshot, user_snapshot);
                return Err(error);
            },
        }
        match self.commit_staged_event(auto_snapshot, user_snapshot) {
            Ok(event_bytes) => Ok(event_bytes),
            Err(error) => {
                self.staging.rollback(auto_snapshot, user_snapshot);
                Err(error)
            },
        }
    }
}

} // verus!

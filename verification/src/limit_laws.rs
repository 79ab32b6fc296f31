//! Limits are exact: what is as large as its limit passes, and what is larger is reported with its
//! size and the limit.

use vstd::prelude::*;

use crate::archive_options::{KvIrArchiveFailure, KvIrArchiveLimitResource, KvIrArchiveLimits};
use crate::archive_plan::{with_planned, PlanState, PlannedView};
use crate::archive_schema::{with_declared, ArchiveNode};
use crate::grammar::{counted, token_too_long, value_head, Head, Progress};
use crate::json::{framed_text, with_fragment, JsonEscapeError, JsonEscapeLimits, JsonFraming};
use crate::kv_ir::{KvIrNodeType, KvIrSchemaNode};
use crate::kv_ir_archive::{tree_of_stream, with_schema, SinkView};
use crate::kv_ir_text::{growth, GrowthLimits, TextFailure};
use crate::msgpack::{depth_checked, one_more_value, string_payload, Source};
use crate::ndjson::{NdjsonInvalidRecordKind, NdjsonLimitResource, NdjsonLimits};
use crate::parser::ParseFailure;
use crate::serializer_options::{KvIrSerializerError, KvIrSerializerLimitResource};
use crate::stage::extended;
use crate::text::skip_space;

verus! {

/// Whether an error reports an amount of a resource over a limit.
pub open spec fn reports(
    error: KvIrSerializerError,
    resource: KvIrSerializerLimitResource,
    actual: int,
    limit: u64,
) -> bool {
    error matches KvIrSerializerError::Limit(violation) && violation.resource == resource
        && violation.actual == actual && violation.limit == limit
}

/// Bytes are appended exactly where they fit: all of them, behind what was there.
pub proof fn buffers_grow_up_to_their_limit(
    output: Seq<u8>,
    bytes: Seq<u8>,
    limit: u64,
    resource: KvIrSerializerLimitResource,
)
    ensures
        match extended(output, bytes, limit, resource) {
            Ok(after) => output.len() + bytes.len() <= limit && after == output + bytes,
            Err(error) => {
                ||| output.len() + bytes.len() > usize::MAX && error is SizeOverflow
                ||| output.len() + bytes.len() > limit && reports(
                    error,
                    resource,
                    (output.len() + bytes.len()) as int,
                    limit,
                )
            },
        },
{
}

/// A map has as many values as its limit allows, its containers are nested as deep, and its strings
/// are as long.
pub proof fn maps_are_read_up_to_their_limits(source: Source, values: int, depth: int, at: int, length: int)
    requires
        0 <= values,
        0 <= depth <= u64::MAX,
        0 <= at,
        0 <= length <= u32::MAX,
        source.bytes.len() <= usize::MAX,
    ensures
        match one_more_value(source, values) {
            Ok(count) => count == values + 1 && count <= source.limits.values_per_map,
            Err(error) => values + 1 > source.limits.values_per_map && (error is SizeOverflow
                || reports(
                error,
                KvIrSerializerLimitResource::ValuesPerMap,
                values + 1,
                source.limits.values_per_map,
            )),
        },
        match depth_checked(source, depth) {
            Ok(_) => depth <= source.limits.nesting_depth,
            Err(error) => depth > source.limits.nesting_depth && reports(
                error,
                KvIrSerializerLimitResource::NestingDepth,
                depth,
                source.limits.nesting_depth,
            ),
        },
        match string_payload(source, at, length) {
            Ok((_, end)) => length <= source.limits.scalar_bytes && end == at + length && end
                <= source.bytes.len(),
            Err(error) => {
                ||| length > source.limits.scalar_bytes && reports(
                    error,
                    KvIrSerializerLimitResource::ScalarBytes,
                    length,
                    source.limits.scalar_bytes,
                )
                ||| length <= source.limits.scalar_bytes && at + length > source.bytes.len()
            },
        },
{
}

/// Whether a failure reports an amount of a resource over a limit.
pub open spec fn fails_with(
    failure: ParseFailure,
    resource: NdjsonLimitResource,
    actual: int,
    limit: u64,
) -> bool {
    failure matches ParseFailure::Invalid(NdjsonInvalidRecordKind::Limit(violation))
        && violation.resource == resource && violation.actual == actual && violation.limit == limit
}

/// A document has as many values as its limit allows, and its containers are nested as deep; a
/// scalar is too long only where it is longer than the limit.
pub proof fn documents_are_read_up_to_their_limits(
    source: Seq<u8>,
    limits: NdjsonLimits,
    progress: Progress,
    depth: int,
    start: int,
    end: int,
)
    requires
        0 <= progress.values < u64::MAX,
        0 <= depth < u64::MAX,
        0 <= progress.offset,
    ensures
        match counted(limits, progress) {
            Ok(next) => progress.values + 1 <= limits.values && next.values == progress.values + 1
                && next.offset == progress.offset && next.events == progress.events,
            Err(failure) => progress.values + 1 > limits.values && fails_with(
                failure,
                NdjsonLimitResource::Values,
                progress.values + 1,
                limits.values,
            ),
        },
        token_too_long(limits, start, end) <==> end - start > limits.scalar_token_bytes,
        ({
            let at = skip_space(source, progress.offset);
            at < source.len() && (source[at] == 0x5b || source[at] == 0x7b) && progress.values + 1
                <= limits.values ==> match value_head(source, limits, progress, depth) {
                Head::Failed(failure) => depth + 1 > limits.nesting_depth && fails_with(
                    failure,
                    NdjsonLimitResource::NestingDepth,
                    depth + 1,
                    limits.nesting_depth,
                ),
                Head::Object(_) => source[at] == 0x7b && depth + 1 <= limits.nesting_depth,
                Head::Array(_, _) => source[at] == 0x5b && depth + 1 <= limits.nesting_depth,
                Head::Scalar(_) => false,
            }
        }),
{
}

/// A fragment is appended exactly where its source, its own bytes and the destination fit; the
/// source is looked at first, and then its text.
pub proof fn fragments_are_appended_up_to_their_limits(
    source: Seq<u8>,
    destination: Seq<u8>,
    is_strict: bool,
    framing: JsonFraming,
    limits: JsonEscapeLimits,
)
    requires
        source.len() <= usize::MAX,
    ensures
        match with_fragment(source, destination, is_strict, framing, limits) {
            Ok(after) => {
                let fragment = framed_text(source, framing);
                &&& source.len() <= limits.input_bytes
                &&& fragment.len() <= limits.output_bytes
                &&& is_strict ==> vstd::utf8::valid_utf8(source)
                &&& after == destination + fragment
            },
            Err(JsonEscapeError::InputLimitExceeded { actual, limit }) => actual == source.len()
                && limit == limits.input_bytes && actual > limit,
            Err(JsonEscapeError::OutputLimitExceeded { required, limit }) => source.len()
                <= limits.input_bytes && required == framed_text(source, framing).len() && limit
                == limits.output_bytes && required > limit,
            Err(JsonEscapeError::InvalidUtf8 { .. }) => source.len() <= limits.input_bytes
                && is_strict && !vstd::utf8::valid_utf8(source),
            Err(JsonEscapeError::OutputSizeOverflow) => destination.len() + framed_text(
                source,
                framing,
            ).len() > usize::MAX,
            Err(_) => false,
        },
{
}

/// A reconstructed text grows exactly as far as the value and its buffer may.
pub proof fn texts_grow_up_to_their_limits(output: Seq<u8>, limits: GrowthLimits, additional: int)
    requires
        0 <= additional,
        limits.value_start <= output.len(),
    ensures
        ({
            let length = output.len() + additional;
            let own = length - limits.value_start;
            match growth(output, limits, additional) {
                Ok(_) => length <= usize::MAX && own <= limits.value_bytes && length
                    <= limits.buffer_bytes,
                Err(TextFailure::ValueLimit { actual }) => actual == own && own
                    > limits.value_bytes,
                Err(TextFailure::BufferLimit { actual }) => actual == length && length
                    > limits.buffer_bytes && own <= limits.value_bytes,
                Err(failure) => failure is SizeOverflow && length > usize::MAX,
            }
        }),
{
}

/// A record has as many events as its limit allows.
pub proof fn records_have_events_up_to_their_limit(
    limits: KvIrArchiveLimits,
    state: PlanState,
    event: PlannedView,
)
    requires
        state.plan.len() < usize::MAX,
    ensures
        match with_planned(limits, state, event) {
            Ok(after) => after.plan.len() <= limits.record_events && after.plan == state.plan.push(
                event,
            ) && after.text == state.text,
            Err(failure) => state.plan.len() + 1 > limits.record_events && (failure
                matches KvIrArchiveFailure::Limit(violation) && violation.resource
                == KvIrArchiveLimitResource::RecordEvents && violation.actual == state.plan.len()
                + 1 && violation.limit == limits.record_events),
        },
{
}

/// A declared node is added under the next number, beneath an object that is there, and keeps its
/// key and its type; the nodes before it stay.
pub proof fn declared_nodes_are_added_in_sequence(
    tree: Seq<ArchiveNode>,
    node: KvIrSchemaNode<'_>,
)
    ensures
        with_declared(tree, node) is Ok <==> node.node_id == tree.len() && node.parent_id
            < tree.len() && tree[node.parent_id as int].node_type == KvIrNodeType::Object,
        with_declared(tree, node) matches Ok(after) ==> {
            &&& after.len() == tree.len() + 1
            &&& forall|i: int| 0 <= i < tree.len() ==> #[trigger] after[i] == tree[i]
            &&& after[node.node_id as int].parent == node.parent_id
            &&& after[node.node_id as int].key == node.key@
            &&& after[node.node_id as int].node_type == node.node_type
        },
{
}

/// A schema takes nodes up to its limits of nodes, depth and key bytes, each into the tree of its
/// namespace, and leaves the other tree and all counts of records and bytes as they were.
pub proof fn schemas_grow_up_to_their_limits(view: SinkView, node: KvIrSchemaNode<'_>)
    ensures
        with_schema(view, node) matches Ok((after, _)) ==> (view.stream matches Some(before)
            && after.stream matches Some(stream) && {
            let limits = view.options.limits;
            let tree = tree_of_stream(before, node.namespace);
            &&& tree.len() <= limits.schema_nodes_per_namespace
            &&& node.depth <= limits.nesting_depth
            &&& stream.key_bytes == before.key_bytes + node.key@.len()
            &&& stream.key_bytes <= limits.schema_key_bytes
            &&& with_declared(tree, node) == Ok::<Seq<ArchiveNode>, KvIrArchiveFailure>(
                tree_of_stream(stream, node.namespace),
            )
            &&& node.namespace is AutoGenerated ==> stream.user == before.user
            &&& node.namespace is UserGenerated ==> stream.auto == before.auto
            &&& after.accounted == view.accounted && after.stats == view.stats
        }),
        view.stream matches Some(before) ==> {
            let limits = view.options.limits;
            let tree = tree_of_stream(before, node.namespace);
            tree.len() <= limits.schema_nodes_per_namespace && node.depth <= limits.nesting_depth
                && before.key_bytes + node.key@.len() <= limits.schema_key_bytes && with_declared(
                tree,
                node,
            ) is Ok ==> with_schema(view, node) is Ok
        },
{
}

} // verus!

//! What holds of every owned event: it is self-contained, and its nodes are the selected ones, each
//! once, parents first.

use vstd::prelude::*;

use crate::kv_ir::{
    KvIrEncoding, KvIrLogEvent, KvIrNamespace, KvIrNodeType, KvIrPair, KvIrSchemaEntry,
    KvIrValueKind,
};
use crate::kv_ir_owned_event::{
    chosen_from, is_event_ok, node_values_survive, owned_event, owned_order, owned_rules, resolved,
    span_of, value_of, with_bytes, with_owned_node, with_owned_nodes, with_owned_value,
    KvIrOwnedEventNode, KvIrOwnedSpan, KvIrOwnedValue, OwnedEventView, OwnedRules, OwnedState,
};
use crate::kv_ir_text::{
    extends, grown, lemma_literal_end, literal_end, text_limits, with_encoded_float,
    with_encoded_integer, with_text, EncodedTextView, GrowthLimits,
};
use crate::owned_options::{KvIrOwnedEventError, KvIrOwnedEventLimits};
use crate::owned_order::{
    depth_first, is_child, is_schema, lemma_next_child, next_child, nothing_chosen, pair_at,
    parent_of, path_up, with_pair, with_path, Chosen,
};

verus! {

proof fn lemma_extends_more(first: Seq<u8>, second: Seq<u8>, third: Seq<u8>)
    requires
        extends(second, first),
        extends(third, second),
    ensures
        extends(third, first),
{
    assert forall|i: int| 0 <= i < first.len() implies third[i] == first[i] by {
        assert(third.take(second.len() as int)[i] == third[i]);
        assert(second.take(first.len() as int)[i] == second[i]);
    }
    assert(third.take(first.len() as int) =~= first);
}

proof fn lemma_grown_extends(output: Seq<u8>, limits: GrowthLimits, bytes: Seq<u8>)
    ensures
        grown(output, limits, bytes) matches Ok(after) ==> extends(after, output),
{
    assert((output + bytes).take(output.len() as int) =~= output);
}

proof fn lemma_variable_extends(
    output: Seq<u8>,
    limits: GrowthLimits,
    encoding: KvIrEncoding,
    value: crate::kv_ir::KvIrEncodedVariable,
)
    ensures
        with_encoded_integer(output, limits, encoding, value) matches Ok(after) ==> extends(
            after,
            output,
        ),
        with_encoded_float(output, limits, encoding, value) matches Ok(after) ==> extends(
            after,
            output,
        ),
{
    assert forall|from: Seq<u8>, bytes: Seq<u8>| (#[trigger] grown(from, limits, bytes)) is Ok implies extends(
        grown(from, limits, bytes)->Ok_0,
        from,
    ) by {
        lemma_grown_extends(from, limits, bytes);
    }
    match with_encoded_integer(output, limits, encoding, value) {
        Ok(after) => {
            assert forall|middle: Seq<u8>| #[trigger] extends(after, middle) && extends(
                middle,
                output,
            ) implies extends(after, output) by {
                lemma_extends_more(output, middle, after);
            }
        },
        Err(_) => {},
    }
    match with_encoded_float(output, limits, encoding, value) {
        Ok(after) => {
            assert(after.take(output.len() as int) =~= output);
        },
        Err(_) => {},
    }
}

/// A reconstructed text is appended.
proof fn lemma_text_extends(
    output: Seq<u8>,
    limits: GrowthLimits,
    text: EncodedTextView,
    at: int,
    variable: int,
    entry: int,
)
    ensures
        with_text(output, limits, text, at, variable, entry) matches Ok(after) ==> extends(
            after,
            output,
        ),
    decreases text.logtype.len() - at,
{
    assert(output.take(output.len() as int) =~= output);
    if 0 <= at < text.logtype.len() && with_text(output, limits, text, at, variable, entry) is Ok {
        let after = with_text(output, limits, text, at, variable, entry)->Ok_0;
        let byte = text.logtype[at];
        lemma_literal_end(text.logtype, at);
        if byte == crate::text::BACKSLASH {
            let next = grown(output, limits, seq![text.logtype[at + 1]])->Ok_0;
            lemma_grown_extends(output, limits, seq![text.logtype[at + 1]]);
            lemma_text_extends(next, limits, text, at + 2, variable, entry);
            lemma_extends_more(output, next, after);
        } else if byte == crate::kv_ir_text::DICTIONARY_PLACEHOLDER {
            let next = grown(output, limits, text.dictionary[entry])->Ok_0;
            lemma_grown_extends(output, limits, text.dictionary[entry]);
            lemma_text_extends(next, limits, text, at + 1, variable, entry + 1);
            lemma_extends_more(output, next, after);
        } else if byte == crate::kv_ir_text::INTEGER_PLACEHOLDER || byte
            == crate::kv_ir_text::FLOAT_PLACEHOLDER {
            let value = text.variables[variable];
            lemma_variable_extends(output, limits, text.encoding, value);
            let next = if byte == crate::kv_ir_text::INTEGER_PLACEHOLDER {
                with_encoded_integer(output, limits, text.encoding, value)->Ok_0
            } else {
                with_encoded_float(output, limits, text.encoding, value)->Ok_0
            };
            lemma_text_extends(next, limits, text, at + 1, variable + 1, entry);
            lemma_extends_more(output, next, after);
        } else {
            let end = literal_end(text.logtype, at);
            let next = grown(output, limits, text.logtype.subrange(at, end))->Ok_0;
            lemma_grown_extends(output, limits, text.logtype.subrange(at, end));
            lemma_text_extends(next, limits, text, end, variable, entry);
            lemma_extends_more(output, next, after);
        }
    }
}

/// A span keeps its bytes while the arena grows.
proof fn lemma_resolved_stays(arena: Seq<u8>, longer: Seq<u8>, span: KvIrOwnedSpan)
    requires
        extends(longer, arena),
        resolved(arena, span) is Some,
    ensures
        resolved(longer, span) == resolved(arena, span),
{
    let start = span.offset as int;
    let end = span.offset + span.length;
    assert forall|i: int| 0 <= i < arena.len() implies longer[i] == arena[i] by {
        assert(longer.take(arena.len() as int)[i] == longer[i]);
    }
    assert(longer.subrange(start, end) =~= arena.subrange(start, end));
}

proof fn lemma_bytes_resolve(arena: Seq<u8>, bytes: Seq<u8>, limit: u64)
    ensures
        with_bytes(arena, bytes, limit) matches Ok((longer, span)) ==> extends(longer, arena)
            && resolved(longer, span) == Some(bytes),
{
    let longer = arena + bytes;
    assert(longer.take(arena.len() as int) =~= arena);
    assert(longer.subrange(arena.len() as int, longer.len() as int) =~= bytes);
}

/// Whether an owned value says what a decoded value says; the bytes of a text are in the arena.
pub open spec fn value_says(arena: Seq<u8>, owned: KvIrOwnedValue, value: KvIrValueKind<'_>) -> bool {
    match value {
        KvIrValueKind::Integer(value) => owned == KvIrOwnedValue::Integer(value),
        KvIrValueKind::Float { bits, .. } => owned == (KvIrOwnedValue::Float { bits }),
        KvIrValueKind::Boolean(value) => owned == KvIrOwnedValue::Boolean(value),
        KvIrValueKind::String(bytes) => owned matches KvIrOwnedValue::String(span) && resolved(
            arena,
            span,
        ) == Some(bytes@),
        KvIrValueKind::EncodedText(text) => match owned {
            KvIrOwnedValue::String(span) => is_text_at(arena, span, text@),
            KvIrOwnedValue::ArrayJson(span) => is_text_at(arena, span, text@),
            _ => false,
        },
        KvIrValueKind::Null => owned == KvIrOwnedValue::Null,
        KvIrValueKind::EmptyObject => owned == KvIrOwnedValue::EmptyObject,
    }
}

/// Whether a span of the arena is where some limit let the text be reconstructed.
pub open spec fn is_text_at(arena: Seq<u8>, span: KvIrOwnedSpan, text: EncodedTextView) -> bool {
    &&& span.offset + span.length <= arena.len()
    &&& exists|limit: usize| #[trigger]
        with_text(
            arena.take(span.offset as int),
            text_limits(arena.take(span.offset as int), limit),
            text,
            0,
            0,
            0,
        ) == Ok::<Seq<u8>, crate::kv_ir_text::TextFailure>(
            arena.take(span.offset + span.length),
        )
}

proof fn lemma_value_stays(
    arena: Seq<u8>,
    longer: Seq<u8>,
    owned: KvIrOwnedValue,
    value: KvIrValueKind<'_>,
)
    requires
        extends(longer, arena),
        value_says(arena, owned, value),
    ensures
        value_says(longer, owned, value),
{
    match value {
        KvIrValueKind::String(bytes) => {
            lemma_resolved_stays(arena, longer, owned->String_0);
        },
        KvIrValueKind::EncodedText(text) => {
            match owned {
                KvIrOwnedValue::String(span) => {
                    lemma_text_stays(arena, longer, span, text@);
                },
                KvIrOwnedValue::ArrayJson(span) => {
                    lemma_text_stays(arena, longer, span, text@);
                },
                _ => {},
            }
        },
        _ => {},
    }
}

proof fn lemma_text_stays(
    arena: Seq<u8>,
    longer: Seq<u8>,
    span: KvIrOwnedSpan,
    text: EncodedTextView,
)
    requires
        extends(longer, arena),
        is_text_at(arena, span, text),
    ensures
        is_text_at(longer, span, text),
{
    assert forall|i: int| 0 <= i < arena.len() implies longer[i] == arena[i] by {
        assert(longer.take(arena.len() as int)[i] == longer[i]);
    }
    let start = span.offset as int;
    let end = span.offset + span.length;
    assert(longer.take(start) =~= arena.take(start));
    assert(longer.take(end) =~= arena.take(end));
    let limit = choose|limit: usize| #[trigger]
        with_text(
            arena.take(start),
            text_limits(arena.take(start), limit),
            text,
            0,
            0,
            0,
        ) == Ok::<Seq<u8>, crate::kv_ir_text::TextFailure>(arena.take(end));
    assert(with_text(
        longer.take(start),
        text_limits(longer.take(start), limit),
        text,
        0,
        0,
        0,
    ) == Ok::<Seq<u8>, crate::kv_ir_text::TextFailure>(longer.take(end)));
}

proof fn lemma_value_says(
    pair: KvIrPair<'_>,
    node_type: crate::kv_ir::KvIrNodeType,
    arena: Seq<u8>,
    limits: KvIrOwnedEventLimits,
)
    ensures
        with_owned_value(pair, node_type, arena, limits) matches Ok((longer, owned)) ==> extends(
            longer,
            arena,
        ) && value_says(longer, owned, pair.value),
{
    assert(arena.take(arena.len() as int) =~= arena);
    match pair.value {
        KvIrValueKind::String(bytes) => {
            lemma_bytes_resolve(arena, bytes@, limits.arena_bytes);
        },
        KvIrValueKind::EncodedText(text) => {
            let arena_limit = crate::kv_ir_owned_event::smaller(
                limits.arena_bytes as int,
                usize::MAX as int,
            );
            let value_bytes = crate::kv_ir_owned_event::smaller(
                limits.reconstructed_value_bytes as int,
                usize::MAX as int,
            );
            let remaining = if arena.len() <= arena_limit {
                arena_limit - arena.len()
            } else {
                0
            };
            let limit = crate::kv_ir_owned_event::smaller(value_bytes, remaining) as usize;
            let result = with_text(arena, text_limits(arena, limit), text@, 0, 0, 0);
            lemma_text_extends(arena, text_limits(arena, limit), text@, 0, 0, 0);
            match result {
                Ok(longer) => {
                    let span = span_of(arena.len() as int, longer.len() as int);
                    if span is Ok {
                        assert(longer.take(arena.len() as int) =~= arena);
                        assert(longer.take(longer.len() as int) =~= longer);
                        assert(is_text_at(longer, span->Ok_0, text@));
                    }
                },
                Err(_) => {},
            }
        },
        _ => {},
    }
}

/// Whether a node says what its schema entry and its pair say.
pub open spec fn node_says(
    arena: Seq<u8>,
    node: KvIrOwnedEventNode,
    entry: KvIrSchemaEntry<'_>,
    value: Option<KvIrValueKind<'_>>,
) -> bool {
    &&& node.depth == entry.depth
    &&& resolved(arena, node.key) == Some(entry.key@)
    &&& match value {
        Some(value) => value_says(arena, value_of(node), value) && (value is EncodedText ==> (
        value_of(node) is ArrayJson <==> entry.node_type == KvIrNodeType::UnstructuredArray)),
        None => value_of(node) == KvIrOwnedValue::Object,
    }
}

/// The value at a selected node.
pub open spec fn value_at<'a>(rules: OwnedRules<'a>, id: int) -> Option<KvIrValueKind<'a>> {
    match pair_at(rules.chosen, id) {
        Some(index) => Some(rules.pairs[index].value),
        None => None,
    }
}

proof fn lemma_node_says(rules: OwnedRules<'_>, state: OwnedState, id: int)
    ensures
        with_owned_node(rules, state, id) matches Ok(after) ==> {
            &&& extends(after.arena, state.arena)
            &&& after.nodes.len() == state.nodes.len() + 1
            &&& after.nodes.drop_last() == state.nodes
            &&& node_says(after.arena, after.nodes.last(), rules.schema[id], value_at(rules, id))
        },
{
    let entry = rules.schema[id];
    if with_owned_node(rules, state, id) is Ok {
        let after = with_owned_node(rules, state, id)->Ok_0;
        lemma_bytes_resolve(state.arena, entry.key@, rules.limits.arena_bytes);
        let (arena, key) = with_bytes(state.arena, entry.key@, rules.limits.arena_bytes)->Ok_0;
        assert(arena.take(arena.len() as int) =~= arena);
        match pair_at(rules.chosen, id) {
            Some(index) => {
                lemma_value_says(rules.pairs[index], entry.node_type, arena, rules.limits);
                let (longer, owned) = with_owned_value(
                    rules.pairs[index],
                    entry.node_type,
                    arena,
                    rules.limits,
                )->Ok_0;
                node_values_survive(entry.depth as u32, key, owned);
                lemma_resolved_stays(arena, longer, key);
                lemma_extends_more(state.arena, arena, longer);
            },
            None => {
                node_values_survive(entry.depth as u32, key, KvIrOwnedValue::Object);
            },
        }
        assert(after.nodes.drop_last() =~= state.nodes);
    }
}

proof fn lemma_node_stays(
    arena: Seq<u8>,
    longer: Seq<u8>,
    node: KvIrOwnedEventNode,
    entry: KvIrSchemaEntry<'_>,
    value: Option<KvIrValueKind<'_>>,
)
    requires
        extends(longer, arena),
        node_says(arena, node, entry, value),
    ensures
        node_says(longer, node, entry, value),
{
    lemma_resolved_stays(arena, longer, node.key);
    if value is Some {
        lemma_value_stays(arena, longer, value_of(node), value->0);
    }
}

/// Whether the nodes from `from` on say what the entries of an order say.
pub open spec fn nodes_say(
    rules: OwnedRules<'_>,
    arena: Seq<u8>,
    nodes: Seq<KvIrOwnedEventNode>,
    from: int,
    order: Seq<int>,
) -> bool {
    &&& nodes.len() == from + order.len()
    &&& forall|i: int|
        0 <= i < order.len() ==> node_says(
            arena,
            nodes[from + i],
            rules.schema[#[trigger] order[i]],
            value_at(rules, order[i]),
        )
}

proof fn lemma_nodes_say(rules: OwnedRules<'_>, state: OwnedState, order: Seq<int>)
    ensures
        with_owned_nodes(rules, state, order) matches Ok(after) ==> {
            &&& extends(after.arena, state.arena)
            &&& nodes_say(rules, after.arena, after.nodes, state.nodes.len() as int, order)
            &&& after.nodes.take(state.nodes.len() as int) == state.nodes
        },
    decreases order.len(),
{
    assert(state.arena.take(state.arena.len() as int) =~= state.arena);
    assert(state.nodes.take(state.nodes.len() as int) =~= state.nodes);
    if order.len() > 0 {
        lemma_node_says(rules, state, order[0]);
        match with_owned_node(rules, state, order[0]) {
            Err(_) => {},
            Ok(next) => {
                let rest = order.drop_first();
                lemma_nodes_say(rules, next, rest);
                match with_owned_nodes(rules, next, rest) {
                    Err(_) => {},
                    Ok(after) => {
                        lemma_extends_more(state.arena, next.arena, after.arena);
                        let from = state.nodes.len() as int;
                        assert forall|i: int| 0 <= i < next.nodes.len() implies after.nodes[i]
                            == next.nodes[i] by {
                            assert(after.nodes.take(next.nodes.len() as int)[i] == after.nodes[i]);
                        }
                        assert forall|i: int| 0 <= i < from implies next.nodes[i]
                            == state.nodes[i] by {
                            assert(next.nodes.drop_last()[i] == next.nodes[i]);
                        }
                        assert(after.nodes.take(from) =~= state.nodes);
                        assert forall|i: int| 0 <= i < order.len() implies node_says(
                            after.arena,
                            after.nodes[from + i],
                            rules.schema[#[trigger] order[i]],
                            value_at(rules, order[i]),
                        ) by {
                            if i == 0 {
                                lemma_node_stays(
                                    next.arena,
                                    after.arena,
                                    next.nodes.last(),
                                    rules.schema[order[0]],
                                    value_at(rules, order[0]),
                                );
                            } else {
                                assert(rest[i - 1] == order[i]);
                            }
                        }
                    },
                }
            },
        }
    }
}

/// The nodes of an owned event by namespace.
pub open spec fn nodes_in(view: OwnedEventView, namespace: KvIrNamespace) -> Seq<KvIrOwnedEventNode> {
    match namespace {
        KvIrNamespace::AutoGenerated => view.auto,
        KvIrNamespace::UserGenerated => view.user,
    }
}

pub open spec fn chosen_in(
    chosen: (Chosen, Chosen),
    namespace: KvIrNamespace,
) -> Chosen {
    match namespace {
        KvIrNamespace::AutoGenerated => chosen.0,
        KvIrNamespace::UserGenerated => chosen.1,
    }
}

/// The selections of an event.
pub open spec fn chosen_of(event: KvIrLogEvent<'_>, limits: KvIrOwnedEventLimits) -> Result<
    (Chosen, Chosen),
    KvIrOwnedEventError,
> {
    chosen_from(event, limits, nothing_chosen(), nothing_chosen(), 0)
}

/// An owned event says of every selected node, in depth-first order, what the event says: its
/// depth, its key, and its value, with all bytes in the event's own arena.
pub proof fn owned_events_are_self_contained(
    event: KvIrLogEvent<'_>,
    limits: KvIrOwnedEventLimits,
    namespace: KvIrNamespace,
)
    ensures
        owned_event(event, limits) matches Ok(view) ==> {
            &&& chosen_of(event, limits) is Ok
            &&& ({
                let chosen = chosen_in(chosen_of(event, limits)->Ok_0, namespace);
                nodes_say(
                    owned_rules(event, limits, namespace, chosen),
                    view.arena,
                    nodes_in(view, namespace),
                    0,
                    owned_order(event, namespace, chosen),
                )
            })
        },
{
    if owned_event(event, limits) is Ok {
        let view = owned_event(event, limits)->Ok_0;
        let (auto, user) = chosen_of(event, limits)->Ok_0;
        let auto_rules = owned_rules(event, limits, KvIrNamespace::AutoGenerated, auto);
        let user_rules = owned_rules(event, limits, KvIrNamespace::UserGenerated, user);
        let auto_order = owned_order(event, KvIrNamespace::AutoGenerated, auto);
        let user_order = owned_order(event, KvIrNamespace::UserGenerated, user);
        let start = OwnedState { nodes: Seq::empty(), arena: Seq::empty() };
        lemma_nodes_say(auto_rules, start, auto_order);
        let first = with_owned_nodes(auto_rules, start, auto_order)->Ok_0;
        let middle = OwnedState { nodes: Seq::empty(), arena: first.arena };
        lemma_nodes_say(user_rules, middle, user_order);
        assert forall|i: int| 0 <= i < auto_order.len() implies node_says(
            view.arena,
            view.auto[0 + i],
            auto_rules.schema[#[trigger] auto_order[i]],
            value_at(auto_rules, auto_order[i]),
        ) by {
            lemma_node_stays(
                first.arena,
                view.arena,
                first.nodes[i],
                auto_rules.schema[auto_order[i]],
                value_at(auto_rules, auto_order[i]),
            );
        }
    }
}

/// Whether a selected node lies below the selected children of `parent` from `from` on, or is one
/// of them.
spec fn is_under(
    schema: Seq<KvIrSchemaEntry<'_>>,
    ids: Seq<int>,
    parent: int,
    from: int,
    node: int,
) -> bool
    decreases node,
{
    &&& 0 <= node < schema.len()
    &&& ids.contains(node)
    &&& if parent_of(schema, node) == parent {
        node >= from
    } else {
        0 <= parent_of(schema, node) < node && is_under(
            schema,
            ids,
            parent,
            from,
            parent_of(schema, node),
        )
    }
}

proof fn lemma_under_is_later(
    schema: Seq<KvIrSchemaEntry<'_>>,
    ids: Seq<int>,
    parent: int,
    from: int,
    node: int,
)
    ensures
        is_under(schema, ids, parent, from, node) ==> node >= from,
    decreases node,
{
    if is_under(schema, ids, parent, from, node) && parent_of(schema, node) != parent {
        lemma_under_is_later(schema, ids, parent, from, parent_of(schema, node));
    }
}

/// What lies below the children lies below the first of them, or below the rest.
proof fn lemma_under_splits(
    schema: Seq<KvIrSchemaEntry<'_>>,
    ids: Seq<int>,
    parent: int,
    from: int,
    child: int,
    node: int,
)
    requires
        is_schema(schema),
        0 <= parent < from,
        next_child(schema, ids, parent, from) == Some(child),
    ensures
        is_under(schema, ids, parent, from, node) == (node == child || is_under(
            schema,
            ids,
            child,
            child + 1,
            node,
        ) || is_under(schema, ids, parent, child + 1, node)),
        !(is_under(schema, ids, child, child + 1, node) && is_under(
            schema,
            ids,
            parent,
            child + 1,
            node,
        )),
        !is_under(schema, ids, child, child + 1, child),
        !is_under(schema, ids, parent, child + 1, child),
    decreases node,
{
    lemma_next_child(schema, ids, parent, from);
    lemma_under_is_later(schema, ids, child, child + 1, child);
    lemma_under_is_later(schema, ids, parent, child + 1, child);
    lemma_under_is_later(schema, ids, child, child + 1, parent);
    if 0 <= node < schema.len() && ids.contains(node) {
        let above = parent_of(schema, node);
        if above == parent {
            if from <= node < child {
                assert(!is_child(schema, ids, parent, node));
            }
        } else if above == child {
        } else if 0 <= above < node {
            lemma_under_splits(schema, ids, parent, from, child, above);
        }
        if node == child {
            assert(is_child(schema, ids, parent, child));
        }
        if above == child {
            assert(is_child(schema, ids, parent, child));
            assert(is_under(schema, ids, parent, from, child));
            assert(schema[node].parent_id matches Some(id) && id < node);
        }
    }
}

proof fn lemma_nothing_under(
    schema: Seq<KvIrSchemaEntry<'_>>,
    ids: Seq<int>,
    parent: int,
    from: int,
    node: int,
)
    requires
        0 <= from,
        0 <= parent,
        next_child(schema, ids, parent, from) is None,
    ensures
        !is_under(schema, ids, parent, from, node),
    decreases node,
{
    lemma_next_child(schema, ids, parent, from);
    if is_under(schema, ids, parent, from, node) {
        if parent_of(schema, node) == parent {
            assert(is_child(schema, ids, parent, node));
        } else {
            lemma_nothing_under(schema, ids, parent, from, parent_of(schema, node));
        }
    }
}

/// The depth-first order visits what lies below, each node once.
proof fn lemma_visits_once(
    schema: Seq<KvIrSchemaEntry<'_>>,
    ids: Seq<int>,
    parent: int,
    from: int,
)
    requires
        is_schema(schema),
        0 <= parent < from,
    ensures
        depth_first(schema, ids, parent, from).no_duplicates(),
        forall|node: int|
            #![trigger depth_first(schema, ids, parent, from).contains(node)]
            depth_first(schema, ids, parent, from).contains(node) == is_under(
                schema,
                ids,
                parent,
                from,
                node,
            ),
    decreases schema.len() - from,
{
    let order = depth_first(schema, ids, parent, from);
    lemma_next_child(schema, ids, parent, from);
    match next_child(schema, ids, parent, from) {
        None => {
            assert forall|node: int| #[trigger] order.contains(node) == is_under(
                schema,
                ids,
                parent,
                from,
                node,
            ) by {
                lemma_nothing_under(schema, ids, parent, from, node);
            }
        },
        Some(child) => {
            let below = depth_first(schema, ids, child, child + 1);
            let beside = depth_first(schema, ids, parent, child + 1);
            lemma_visits_once(schema, ids, child, child + 1);
            lemma_visits_once(schema, ids, parent, child + 1);
            assert(order == seq![child] + below + beside);
            lemma_under_splits(schema, ids, parent, from, child, child);
            assert forall|node: int| #[trigger] order.contains(node) == is_under(
                schema,
                ids,
                parent,
                from,
                node,
            ) by {
                lemma_under_splits(schema, ids, parent, from, child, node);
                lemma_contains_parts(child, below, beside, node);
            }
            assert forall|i: int, j: int|
                0 <= i < order.len() && 0 <= j < order.len() && i != j implies order[i]
                != order[j] by {
                lemma_under_splits(schema, ids, parent, from, child, order[i]);
                let first = if i == 0 {
                    0int
                } else if i <= below.len() {
                    1
                } else {
                    2
                };
                let second = if j == 0 {
                    0int
                } else if j <= below.len() {
                    1
                } else {
                    2
                };
                if first == 1 {
                    assert(below.contains(below[i - 1]));
                }
                if first == 2 {
                    assert(beside.contains(beside[i - 1 - below.len()]));
                }
                if second == 1 {
                    assert(below.contains(below[j - 1]));
                }
                if second == 2 {
                    assert(beside.contains(beside[j - 1 - below.len()]));
                }
            }
        },
    }
}

proof fn lemma_contains_parts(child: int, below: Seq<int>, beside: Seq<int>, node: int)
    ensures
        (seq![child] + below + beside).contains(node) == (node == child || below.contains(node)
            || beside.contains(node)),
{
    let order = seq![child] + below + beside;
    if order.contains(node) {
        let i = order.index_of(node);
        assert(order[i] == node);
        if i > 0 {
            if i <= below.len() {
                assert(below[i - 1] == node);
            } else {
                assert(beside[i - 1 - below.len()] == node);
            }
        }
    }
    if node == child {
        assert(order[0] == node);
    }
    if below.contains(node) {
        let i = below.index_of(node);
        assert(order[i + 1] == below[i]);
    }
    if beside.contains(node) {
        let i = beside.index_of(node);
        assert(order[i + 1 + below.len()] == beside[i]);
    }
}

/// Whether the parent of every selected node is selected.
pub open spec fn is_closed(schema: Seq<KvIrSchemaEntry<'_>>, ids: Seq<int>) -> bool {
    &&& ids.contains(0)
    &&& forall|node: int|
        #![trigger ids.contains(node)]
        ids.contains(node) && node != 0 ==> 0 < node < schema.len() && 0 <= parent_of(
            schema,
            node,
        ) < node && ids.contains(parent_of(schema, node))
}

proof fn lemma_closed_is_under(schema: Seq<KvIrSchemaEntry<'_>>, ids: Seq<int>, node: int)
    requires
        is_closed(schema, ids),
        ids.contains(node),
        node != 0,
    ensures
        is_under(schema, ids, 0, 1, node),
    decreases node,
{
    let above = parent_of(schema, node);
    if above != 0 {
        lemma_closed_is_under(schema, ids, above);
    }
}

/// Whether the parent of every node on a path is the next one, or selected.
spec fn leads_up(schema: Seq<KvIrSchemaEntry<'_>>, ids: Seq<int>, path: Seq<u32>) -> bool {
    forall|j: int| 0 <= j < path.len() ==> #[trigger] leads_up_at(schema, ids, path, j)
}

spec fn leads_up_at(
    schema: Seq<KvIrSchemaEntry<'_>>,
    ids: Seq<int>,
    path: Seq<u32>,
    j: int,
) -> bool {
    let node = path[j] as int;
    &&& 0 < node < schema.len()
    &&& 0 <= parent_of(schema, node) < node
    &&& if j + 1 < path.len() {
        parent_of(schema, node) == path[j + 1]
    } else {
        ids.contains(parent_of(schema, node))
    }
}

proof fn lemma_path_leads_up(
    schema: Seq<KvIrSchemaEntry<'_>>,
    ids: Seq<int>,
    namespace: KvIrNamespace,
    node: u32,
)
    requires
        ids.contains(0),
    ensures
        path_up(schema, ids, namespace, node) matches Ok(path) ==> {
            &&& leads_up(schema, ids, path)
            &&& path.len() > 0 ==> path[0] == node
            &&& path.len() == 0 ==> ids.contains(node as int)
        },
    decreases node,
{
    if !ids.contains(node as int) && node < schema.len() {
        match schema[node as int].parent_id {
            None => {},
            Some(parent) => {
                if parent < node {
                    lemma_path_leads_up(schema, ids, namespace, parent);
                    match path_up(schema, ids, namespace, parent) {
                        Err(_) => {},
                        Ok(rest) => {
                            let path = seq![node] + rest;
                            assert forall|j: int| 0 <= j < path.len() implies #[trigger] leads_up_at(
                                schema,
                                ids,
                                path,
                                j,
                            ) by {
                                if j > 0 {
                                    assert(leads_up_at(schema, ids, rest, j - 1));
                                }
                            }
                        },
                    }
                }
            },
        }
    }
}

proof fn lemma_path_keeps_closed(
    schema: Seq<KvIrSchemaEntry<'_>>,
    first: Seq<int>,
    ids: Seq<int>,
    count: int,
    path: Seq<u32>,
    left: int,
    limit: u64,
)
    requires
        is_closed(schema, ids),
        leads_up(schema, first, path),
        0 <= left <= path.len(),
        forall|node: int| #[trigger] first.contains(node) ==> ids.contains(node),
        left < path.len() ==> ids.contains(path[left] as int),
    ensures
        with_path(ids, count, path, left, limit) matches Ok(after) ==> is_closed(schema, after)
            && (forall|node: int| #[trigger] ids.contains(node) ==> after.contains(node)) && (
        path.len() > 0 ==> after.contains(path[0] as int)),
    decreases left,
{
    if left > 0 && with_path(ids, count, path, left, limit) is Ok {
        let node = path[left - 1] as int;
        let next = ids.push(node);
        assert(leads_up_at(schema, first, path, left - 1));
        assert forall|other: int| #[trigger] next.contains(other) implies other == node
            || ids.contains(other) by {
            let i = next.index_of(other);
            if i < ids.len() {
                assert(ids[i] == other);
            }
        }
        assert forall|other: int| #[trigger] ids.contains(other) implies next.contains(other) by {
            let i = ids.index_of(other);
            assert(next[i] == other);
        }
        assert(next[ids.len() as int] == node);
        assert(next.contains(node));
        assert(ids.contains(parent_of(schema, node)));
        assert(is_closed(schema, next));
        lemma_path_keeps_closed(schema, first, next, count + 1, path, left - 1, limit);
    }
}

proof fn lemma_pair_keeps_closed(
    schema: Seq<KvIrSchemaEntry<'_>>,
    chosen: Chosen,
    others: int,
    namespace: KvIrNamespace,
    node: u32,
    index: int,
    limit: u64,
)
    requires
        is_closed(schema, chosen.ids),
    ensures
        with_pair(schema, chosen, others, namespace, node, index, limit) matches Ok(after)
            ==> is_closed(schema, after.ids),
{
    lemma_path_leads_up(schema, chosen.ids, namespace, node);
    match path_up(schema, chosen.ids, namespace, node) {
        Err(_) => {},
        Ok(path) => {
            lemma_path_keeps_closed(
                schema,
                chosen.ids,
                chosen.ids,
                chosen.ids.len() - 1 + others,
                path,
                path.len() as int,
                limit,
            );
        },
    }
}

proof fn lemma_selections_are_closed(
    event: KvIrLogEvent<'_>,
    limits: KvIrOwnedEventLimits,
    auto: Chosen,
    user: Chosen,
    at: int,
)
    requires
        is_closed(event.auto_schema@, auto.ids),
        is_closed(event.user_schema@, user.ids),
    ensures
        chosen_from(event, limits, auto, user, at) matches Ok((auto_after, user_after))
            ==> is_closed(event.auto_schema@, auto_after.ids) && is_closed(
            event.user_schema@,
            user_after.ids,
        ),
    decreases event.pairs@.len() - at,
{
    if 0 <= at < event.pairs@.len() && at <= u32::MAX {
        let pair = event.pairs@[at];
        match pair.namespace {
            KvIrNamespace::AutoGenerated => {
                lemma_pair_keeps_closed(
                    event.auto_schema@,
                    auto,
                    user.ids.len() - 1,
                    pair.namespace,
                    pair.node_id,
                    at,
                    limits.materialized_nodes,
                );
                match with_pair(
                    event.auto_schema@,
                    auto,
                    user.ids.len() - 1,
                    pair.namespace,
                    pair.node_id,
                    at,
                    limits.materialized_nodes,
                ) {
                    Ok(chosen) => {
                        lemma_selections_are_closed(event, limits, chosen, user, at + 1);
                    },
                    Err(_) => {},
                }
            },
            KvIrNamespace::UserGenerated => {
                lemma_pair_keeps_closed(
                    event.user_schema@,
                    user,
                    auto.ids.len() - 1,
                    pair.namespace,
                    pair.node_id,
                    at,
                    limits.materialized_nodes,
                );
                match with_pair(
                    event.user_schema@,
                    user,
                    auto.ids.len() - 1,
                    pair.namespace,
                    pair.node_id,
                    at,
                    limits.materialized_nodes,
                ) {
                    Ok(chosen) => {
                        lemma_selections_are_closed(event, limits, auto, chosen, at + 1);
                    },
                    Err(_) => {},
                }
            },
        }
    }
}

/// The nodes of an owned event are the selected ones below the root, each once; and with a node
/// its parent is selected.
pub proof fn selected_nodes_come_once(
    event: KvIrLogEvent<'_>,
    limits: KvIrOwnedEventLimits,
    namespace: KvIrNamespace,
)
    requires
        is_event_ok(event),
    ensures
        chosen_of(event, limits) matches Ok(both) ==> {
            let chosen = chosen_in(both, namespace);
            let order = owned_order(event, namespace, chosen);
            &&& is_closed(event.spec_schema(namespace), chosen.ids)
            &&& order.no_duplicates()
            &&& forall|node: int| #[trigger]
                order.contains(node) <==> (chosen.ids.contains(node) && node != 0)
        },
{
    let start = nothing_chosen();
    assert(start.ids[0] == 0);
    assert(start.ids.contains(0));
    assert forall|node: int| #[trigger] start.ids.contains(node) implies node == 0 by {
        let i = start.ids.index_of(node);
        assert(start.ids[i] == node);
    }
    lemma_selections_are_closed(event, limits, start, start, 0);
    if chosen_of(event, limits) is Ok {
        let chosen = chosen_in(chosen_of(event, limits)->Ok_0, namespace);
        let schema = event.spec_schema(namespace);
        let order = owned_order(event, namespace, chosen);
        lemma_visits_once(schema, chosen.ids, 0, 1);
        assert forall|node: int| #[trigger] order.contains(node) <==> (chosen.ids.contains(node)
            && node != 0) by {
            if chosen.ids.contains(node) && node != 0 {
                lemma_closed_is_under(schema, chosen.ids, node);
            }
            if order.contains(node) {
                lemma_under_is_later(schema, chosen.ids, 0, 1, node);
            }
        }
    }
}

} // verus!

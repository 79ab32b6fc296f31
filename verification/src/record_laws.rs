//! What a record says of its event: each value is the value of its pair, under the key of its node
//! and within the objects that its node stands in.

use vstd::prelude::*;

use crate::archive_laws::lemma_selected_are_pairs;
use crate::archive_options::KvIrArchiveLimits;
use crate::archive_plan::{
    event_plan, event_selections, is_timestamp_node, selection_in, tree_in, value_growth,
    with_namespace, with_planned, with_planned_value, with_siblings, with_visited, PlanRules,
    PlanState, PlannedView, Trees,
};
use crate::archive_record::{record_event_of, RecordEventView, RecordValueView};
use crate::archive_schema::{
    first_child_of, has_parent, is_tree, lemma_child_from, matched_prefix, next_sibling_of,
    ArchiveNode,
};
use crate::decimal::decimal;
use crate::kv_ir::{KvIrEncodedText, KvIrNamespace, KvIrNodeType, KvIrPair, KvIrValueKind};
use crate::kv_ir_text::{
    integer_of, literal_end, with_encoded_float, with_encoded_integer, with_integer, with_text,
    EncodedTextView, GrowthLimits, TextFailure, DICTIONARY_PLACEHOLDER, FLOAT_PLACEHOLDER,
    INTEGER_PLACEHOLDER,
};
use crate::text::{BACKSLASH, QUOTE};
use crate::timestamp::{
    fractional_epoch_fixed, integer_epoch, utf8_text_epoch, JsonTimestampError, ResolvedView,
};
use crate::timestamp_path::PathView;

verus! {

/// Whether an encoded text reads so.
pub open spec fn is_text_of(text: KvIrEncodedText<'_>, content: Seq<u8>) -> bool {
    exists|before: Seq<u8>, limits: GrowthLimits| #[trigger]
        with_text(before, limits, text@, 0, 0, 0) == Ok::<
            Seq<u8>,
            TextFailure,
        >(before + content)
}

/// A text within quotes.
pub open spec fn in_quotes(content: Seq<u8>) -> Seq<u8> {
    seq![QUOTE] + content + seq![QUOTE]
}

/// Whether a record value is a timestamp that is spelled so and was resolved so.
pub open spec fn is_timestamp_of(
    record: RecordValueView,
    lexeme: Seq<u8>,
    resolved: Result<ResolvedView, JsonTimestampError>,
    range_key: Seq<char>,
) -> bool {
    record matches RecordValueView::Timestamp(timestamp) && timestamp.lexeme == lexeme && resolved
        == Ok::<ResolvedView, JsonTimestampError>(timestamp.resolved) && timestamp.range_key
        == range_key
}

/// Whether a record value says what the value of a pair says. Integers, floats, booleans, strings
/// and nulls stay what they are; an encoded text becomes the text that it encodes; and at the node
/// that the timestamp path leads to, a number or a text becomes a timestamp that keeps its
/// spelling.
pub open spec fn says(
    value: KvIrValueKind<'_>,
    is_array: bool,
    is_timestamp: bool,
    range_key: Seq<char>,
    record: RecordValueView,
) -> bool {
    match value {
        KvIrValueKind::Integer(number) => if is_timestamp {
            is_timestamp_of(
                record,
                decimal(number as int),
                integer_epoch(number, false),
                range_key,
            )
        } else {
            record matches RecordValueView::Integer(same) && same == number
        },
        KvIrValueKind::Float { bits, fixed_nine } => if is_timestamp {
            is_timestamp_of(
                record,
                fixed_nine@,
                fractional_epoch_fixed(fixed_nine@),
                range_key,
            )
        } else {
            record matches RecordValueView::Float { bits: same } && same == bits
        },
        KvIrValueKind::Boolean(truth) => record matches RecordValueView::Boolean(same) && same
            == truth,
        KvIrValueKind::String(text) => if is_timestamp {
            is_timestamp_of(record, in_quotes(text@), utf8_text_epoch(text@), range_key)
        } else {
            record matches RecordValueView::String(same) && same == text@
        },
        KvIrValueKind::EncodedText(text) => if is_timestamp && !is_array {
            exists|content: Seq<u8>| #[trigger]
                is_text_of(text, content) && is_timestamp_of(
                    record,
                    in_quotes(content),
                    utf8_text_epoch(content),
                    range_key,
                )
        } else if is_array {
            record matches RecordValueView::UnstructuredArray(content) && is_text_of(text, content)
        } else {
            record matches RecordValueView::String(content) && is_text_of(text, content)
        },
        KvIrValueKind::Null => record is Null,
        KvIrValueKind::EmptyObject => false,
    }
}

/// Whether the record event of a planned event says what its pair and its node say.
pub open spec fn event_says(rules: PlanRules<'_>, event: PlannedView, text: Seq<u8>) -> bool {
    let record = record_event_of(event, rules.trees, rules.pairs, text, rules.resolver);
    match event {
        PlannedView::ObjectStart { namespace, node } => {
            record matches RecordEventView::ObjectStart { key } && key == tree_in(
                rules.trees,
                namespace,
            )[node].key
        },
        PlannedView::ObjectEnd => record is ObjectEnd,
        PlannedView::Value { namespace, node, pair, text: span, .. } => {
            let at_node = tree_in(rules.trees, namespace)[node];
            &&& span matches Some((start, end)) ==> 0 <= start <= end <= text.len()
            &&& record matches RecordEventView::Value { key, value } && key == at_node.key && says(
                rules.pairs[pair].value,
                at_node.node_type == KvIrNodeType::UnstructuredArray,
                is_timestamp_node(rules, namespace, node),
                (rules.resolver->0).0.descriptor,
                value,
            )
        },
    }
}

/// Whether a plan goes on from another one, and what it adds says what it stands for.
spec fn tells(rules: PlanRules<'_>, before: PlanState, after: PlanState) -> bool {
    &&& before.plan.len() <= after.plan.len()
    &&& before.text.len() <= after.text.len()
    &&& after.text.take(before.text.len() as int) == before.text
    &&& forall|i: int| 0 <= i < before.plan.len() ==> #[trigger] after.plan[i] == before.plan[i]
    &&& forall|i: int|
        before.plan.len() <= i < after.plan.len() ==> event_says(
            rules,
            #[trigger] after.plan[i],
            after.text,
        )
}

proof fn lemma_event_still_says(
    rules: PlanRules<'_>,
    event: PlannedView,
    text: Seq<u8>,
    longer: Seq<u8>,
)
    requires
        event_says(rules, event, text),
        text.len() <= longer.len(),
        longer.take(text.len() as int) == text,
    ensures
        event_says(rules, event, longer),
{
    match event {
        PlannedView::Value { text: span, .. } => {
            match span {
                Some((start, end)) => {
                    assert(longer.subrange(start, end) =~= longer.take(
                        text.len() as int,
                    ).subrange(start, end));
                },
                None => {},
            }
        },
        _ => {},
    }
}

proof fn lemma_tells(rules: PlanRules<'_>, first: PlanState, second: PlanState, third: PlanState)
    requires
        tells(rules, first, second),
        tells(rules, second, third),
    ensures
        tells(rules, first, third),
{
    assert(third.text.take(first.text.len() as int) =~= third.text.take(
        second.text.len() as int,
    ).take(first.text.len() as int));
    assert forall|i: int| 0 <= i < first.plan.len() implies #[trigger] third.plan[i]
        == first.plan[i] by {
        assert(third.plan[i] == second.plan[i]);
    }
    assert forall|i: int| first.plan.len() <= i < third.plan.len() implies event_says(
        rules,
        #[trigger] third.plan[i],
        third.text,
    ) by {
        if i < second.plan.len() {
            assert(third.plan[i] == second.plan[i]);
            lemma_event_still_says(rules, second.plan[i], second.text, third.text);
        }
    }
}

/// Appending a text leaves what was there.
proof fn lemma_text_extends(
    output: Seq<u8>,
    limits: GrowthLimits,
    text: EncodedTextView,
    at: int,
    variable: int,
    entry: int,
)
    ensures
        with_text(output, limits, text, at, variable, entry) matches Ok(after) ==> output.len()
            <= after.len() && after.take(output.len() as int) == output,
    decreases text.logtype.len() - at,
{
    assert(output.take(output.len() as int) =~= output);
    if 0 <= at < text.logtype.len() {
        let byte = text.logtype[at];
        if byte == BACKSLASH {
            if at + 1 < text.logtype.len() {
                let next = output + seq![text.logtype[at + 1]];
                lemma_text_extends(next, limits, text, at + 2, variable, entry);
                lemma_still_starts(
                    output,
                    next,
                    with_text(next, limits, text, at + 2, variable, entry),
                );
            }
        } else if byte == DICTIONARY_PLACEHOLDER {
            if entry < text.dictionary.len() {
                let next = output + text.dictionary[entry];
                lemma_text_extends(next, limits, text, at + 1, variable, entry + 1);
                lemma_still_starts(
                    output,
                    next,
                    with_text(next, limits, text, at + 1, variable, entry + 1),
                );
            }
        } else if byte == INTEGER_PLACEHOLDER || byte == FLOAT_PLACEHOLDER {
            if variable < text.variables.len() {
                let value = text.variables[variable];
                let appended = if byte == INTEGER_PLACEHOLDER {
                    with_encoded_integer(output, limits, text.encoding, value)
                } else {
                    with_encoded_float(output, limits, text.encoding, value)
                };
                match appended {
                    Ok(next) => {
                        match integer_of(text.encoding, value) {
                            Some(number) => lemma_integer_text(output, limits, number),
                            None => {},
                        }
                        lemma_text_extends(next, limits, text, at + 1, variable + 1, entry);
                        lemma_still_starts(
                            output,
                            next,
                            with_text(next, limits, text, at + 1, variable + 1, entry),
                        );
                    },
                    Err(_) => {},
                }
            }
        } else {
            let end = literal_end(text.logtype, at);
            if at < end <= text.logtype.len() {
                let next = output + text.logtype.subrange(at, end);
                lemma_text_extends(next, limits, text, end, variable, entry);
                lemma_still_starts(
                    output,
                    next,
                    with_text(next, limits, text, end, variable, entry),
                );
            }
        }
    }
}

proof fn lemma_still_starts(
    output: Seq<u8>,
    next: Seq<u8>,
    result: Result<Seq<u8>, TextFailure>,
)
    requires
        exists|bytes: Seq<u8>| next == #[trigger] (output + bytes),
        result matches Ok(after) ==> next.len() <= after.len() && after.take(next.len() as int)
            == next,
    ensures
        result matches Ok(after) ==> output.len() <= after.len() && after.take(output.len() as int)
            == output,
{
    match result {
        Ok(after) => {
            assert(after.take(output.len() as int) =~= after.take(next.len() as int).take(
                output.len() as int,
            ));
            assert(next.take(output.len() as int) =~= output);
        },
        Err(_) => {},
    }
}

proof fn lemma_integer_text(output: Seq<u8>, limits: GrowthLimits, value: int)
    ensures
        with_integer(output, limits, value) matches Ok(after) ==> after == output + decimal(value),
{
    match with_integer(output, limits, value) {
        Ok(after) => {
            assert(after =~= output + decimal(value));
        },
        Err(_) => {},
    }
}

/// What a value adds to a plan says what the value says.
#[verifier::rlimit(40)]
#[verifier::spinoff_prover]
proof fn lemma_value_tells(
    rules: PlanRules<'_>,
    namespace: KvIrNamespace,
    state: PlanState,
    node: int,
    index: int,
)
    requires
        0 <= index < rules.pairs.len(),
    ensures
        with_planned_value(rules, namespace, state, node, index) matches Ok(after) ==> tells(
            rules,
            state,
            after,
        ),
{
    let before = state.text;
    let growth = value_growth(rules.limits, before);
    let at_node = tree_in(rules.trees, namespace)[node];
    let is_array = at_node.node_type == KvIrNodeType::UnstructuredArray;
    let is_timestamp = is_timestamp_node(rules, namespace, node);
    assert(before.take(before.len() as int) =~= before);
    match with_planned_value(rules, namespace, state, node, index) {
        Err(_) => {},
        Ok(after) => {
            let at = state.plan.len() as int;
            let text = after.text;
            let content = text.subrange(before.len() as int, text.len() as int);
            match rules.pairs[index].value {
                KvIrValueKind::Integer(number) => {
                    lemma_integer_text(before, growth, number as int);
                    if is_timestamp {
                        assert(content =~= decimal(number as int));
                    }
                },
                KvIrValueKind::Float { fixed_nine, .. } => {
                    if is_timestamp {
                        assert(content =~= fixed_nine@);
                    }
                },
                KvIrValueKind::String(value) => {
                    if is_timestamp {
                        assert(content =~= in_quotes(value@));
                    }
                },
                KvIrValueKind::EncodedText(value) => {
                    if is_timestamp && !is_array {
                        let opened = before + seq![QUOTE];
                        lemma_text_extends(opened, growth, value@, 0, 0, 0);
                        let inner = with_text(opened, growth, value@, 0, 0, 0)->Ok_0;
                        let own = inner.skip(opened.len() as int);
                        assert(inner =~= opened + own);
                        assert(is_text_of(value, own));
                        assert(content =~= in_quotes(own));
                        assert(text =~= inner + seq![QUOTE]);
                        assert(text.subrange(before.len() as int + 1, text.len() - 1) =~= own);
                    } else {
                        lemma_text_extends(before, growth, value@, 0, 0, 0);
                        assert(text =~= before + content);
                        assert(is_text_of(value, content));
                    }
                },
                _ => {},
            }
            assert(text.take(before.len() as int) =~= before);
            assert(event_says(rules, after.plan[at], text));
        },
    }
}

proof fn lemma_visit_tells(
    rules: PlanRules<'_>,
    namespace: KvIrNamespace,
    state: PlanState,
    node: int,
)
    requires
        are_pairs(rules, namespace),
        0 <= node < tree_in(rules.trees, namespace).len(),
    ensures
        with_visited(rules, namespace, state, node) matches Ok(after) ==> tells(
            rules,
            state,
            after,
        ),
    decreases tree_in(rules.trees, namespace).len() - node, 1int,
{
    let tree = tree_in(rules.trees, namespace);
    let selection = selection_in(rules.selections, namespace);
    assert(state.text.take(state.text.len() as int) =~= state.text);
    if selection.included[node] {
        if selection.selected[node] is Some {
            lemma_value_tells(rules, namespace, state, node, selection.selected[node]->0);
        } else {
            let start = PlannedView::ObjectStart { namespace, node };
            match with_planned(rules.limits, state, start) {
                Err(_) => {},
                Ok(opened) => {
                    let child = first_child_of(tree, node);
                    if !(child is Some && !(node < child->0 < tree.len())) {
                        lemma_siblings_tell(rules, namespace, opened, child, node);
                        match with_siblings(rules, namespace, opened, child, node) {
                            Err(_) => {},
                            Ok(content) => {
                                assert(tells(rules, state, opened));
                                lemma_tells(rules, state, opened, content);
                                assert(content.text.take(content.text.len() as int)
                                    =~= content.text);
                                match with_planned(rules.limits, content, PlannedView::ObjectEnd) {
                                    Err(_) => {},
                                    Ok(ended) => {
                                        assert(tells(rules, content, ended));
                                        lemma_tells(rules, state, content, ended);
                                    },
                                }
                            },
                        }
                    }
                },
            }
        }
    }
}

proof fn lemma_siblings_tell(
    rules: PlanRules<'_>,
    namespace: KvIrNamespace,
    state: PlanState,
    next: Option<int>,
    after: int,
)
    requires
        are_pairs(rules, namespace),
        0 <= after,
    ensures
        with_siblings(rules, namespace, state, next, after) matches Ok(end) ==> tells(
            rules,
            state,
            end,
        ),
    decreases tree_in(rules.trees, namespace).len() - after, 0int,
{
    let tree = tree_in(rules.trees, namespace);
    assert(state.text.take(state.text.len() as int) =~= state.text);
    match next {
        None => {},
        Some(node) => {
            if after < node < tree.len() {
                lemma_visit_tells(rules, namespace, state, node);
                match with_visited(rules, namespace, state, node) {
                    Err(_) => {},
                    Ok(visited) => {
                        let sibling = next_sibling_of(tree, node);
                        lemma_siblings_tell(rules, namespace, visited, sibling, node);
                        match with_siblings(rules, namespace, visited, sibling, node) {
                            Err(_) => {},
                            Ok(end) => {
                                lemma_tells(rules, state, visited, end);
                            },
                        }
                    },
                }
            }
        },
    }
}

/// Whether what is selected in a namespace are pairs.
spec fn are_pairs(rules: PlanRules<'_>, namespace: KvIrNamespace) -> bool {
    forall|node: int|
        0 <= node < tree_in(rules.trees, namespace).len() ==> (#[trigger] selection_in(
            rules.selections,
            namespace,
        ).selected[node] matches Some(pair) ==> 0 <= pair < rules.pairs.len())
}

/// A record says what its event says: every value of it is the value of its pair under the key of
/// its node, and every object of it has the key of its node.
pub proof fn records_say_what_events_say(
    limits: KvIrArchiveLimits,
    trees: Trees,
    pairs: Seq<KvIrPair<'_>>,
    resolver: Option<(PathView, Option<KvIrNamespace>)>,
)
    ensures
        event_plan(limits, trees, pairs, resolver) matches Ok(state) ==> event_selections(
            trees,
            pairs,
        ) matches Ok(selections) && forall|i: int|
            0 <= i < state.plan.len() ==> event_says(
                PlanRules { limits, trees, selections, pairs, resolver },
                #[trigger] state.plan[i],
                state.text,
            ),
{
    lemma_selected_are_pairs(trees, pairs);
    match event_selections(trees, pairs) {
        Err(_) => {},
        Ok(selections) => {
            let rules = PlanRules { limits, trees, selections, pairs, resolver };
            let empty = PlanState { plan: Seq::empty(), text: Seq::empty() };
            let auto_first = first_child_of(trees.auto, 0);
            lemma_siblings_tell(rules, KvIrNamespace::AutoGenerated, empty, auto_first, 0);
            match with_namespace(rules, KvIrNamespace::AutoGenerated, empty) {
                Err(_) => {},
                Ok(state) => {
                    let user_first = first_child_of(trees.user, 0);
                    lemma_siblings_tell(rules, KvIrNamespace::UserGenerated, state, user_first, 0);
                    match with_namespace(rules, KvIrNamespace::UserGenerated, state) {
                        Err(_) => {},
                        Ok(end) => {
                            lemma_tells(rules, empty, state, end);
                        },
                    }
                },
            }
        },
    }
}

/// The objects that are open after some events, the innermost last.
pub open spec fn open_path(plan: Seq<PlannedView>) -> Seq<(KvIrNamespace, int)>
    decreases plan.len(),
{
    if plan.len() == 0 {
        Seq::empty()
    } else {
        let before = open_path(plan.drop_last());
        match plan.last() {
            PlannedView::ObjectStart { namespace, node } => before.push((namespace, node)),
            PlannedView::ObjectEnd => before.drop_last(),
            PlannedView::Value { .. } => before,
        }
    }
}

/// Whether a node belongs directly within the innermost of these objects, or directly beneath the
/// root where none is open.
pub open spec fn belongs_in(
    trees: Trees,
    open: Seq<(KvIrNamespace, int)>,
    namespace: KvIrNamespace,
    node: int,
) -> bool {
    if open.len() == 0 {
        tree_in(trees, namespace)[node].parent == 0
    } else {
        open.last() == (namespace, tree_in(trees, namespace)[node].parent)
    }
}

/// Whether every event of a plan stands within the object of its node's parent.
pub open spec fn is_nested(trees: Trees, plan: Seq<PlannedView>) -> bool
    decreases plan.len(),
{
    plan.len() > 0 ==> is_nested(trees, plan.drop_last()) && match plan.last() {
        PlannedView::ObjectStart { namespace, node } => belongs_in(
            trees,
            open_path(plan.drop_last()),
            namespace,
            node,
        ),
        PlannedView::Value { namespace, node, .. } => belongs_in(
            trees,
            open_path(plan.drop_last()),
            namespace,
            node,
        ),
        PlannedView::ObjectEnd => open_path(plan.drop_last()).len() > 0,
    }
}

proof fn lemma_nested_push(trees: Trees, plan: Seq<PlannedView>, event: PlannedView)
    ensures
        plan.push(event).drop_last() == plan,
        plan.push(event).last() == event,
{
    assert(plan.push(event).drop_last() =~= plan);
}

proof fn lemma_value_is_nested(
    rules: PlanRules<'_>,
    namespace: KvIrNamespace,
    state: PlanState,
    node: int,
    index: int,
)
    requires
        is_nested(rules.trees, state.plan),
        belongs_in(rules.trees, open_path(state.plan), namespace, node),
    ensures
        with_planned_value(rules, namespace, state, node, index) matches Ok(after) ==> is_nested(
            rules.trees,
            after.plan,
        ) && open_path(after.plan) == open_path(state.plan),
{
    match with_planned_value(rules, namespace, state, node, index) {
        Err(_) => {},
        Ok(after) => {
            let first = after.plan[state.plan.len() as int];
            reveal_with_fuel(open_path, 3);
            reveal_with_fuel(is_nested, 3);
            lemma_nested_push(rules.trees, state.plan, first);
            lemma_nested_push(rules.trees, state.plan.push(first), PlannedView::ObjectEnd);
            if after.plan.len() > state.plan.len() + 1 {
                assert(after.plan =~= state.plan.push(first).push(PlannedView::ObjectEnd));
                assert(open_path(state.plan).push((namespace, node)).drop_last() =~= open_path(
                    state.plan,
                ));
            } else {
                assert(after.plan =~= state.plan.push(first));
            }
        },
    }
}

proof fn lemma_visit_is_nested(
    rules: PlanRules<'_>,
    namespace: KvIrNamespace,
    state: PlanState,
    node: int,
)
    requires
        is_nested(rules.trees, state.plan),
        belongs_in(rules.trees, open_path(state.plan), namespace, node),
        0 <= node < tree_in(rules.trees, namespace).len(),
    ensures
        with_visited(rules, namespace, state, node) matches Ok(after) ==> is_nested(
            rules.trees,
            after.plan,
        ) && open_path(after.plan) == open_path(state.plan),
    decreases tree_in(rules.trees, namespace).len() - node, 1int,
{
    let tree = tree_in(rules.trees, namespace);
    let selection = selection_in(rules.selections, namespace);
    if selection.included[node] {
        if selection.selected[node] is Some {
            lemma_value_is_nested(rules, namespace, state, node, selection.selected[node]->0);
        } else {
            let start = PlannedView::ObjectStart { namespace, node };
            match with_planned(rules.limits, state, start) {
                Err(_) => {},
                Ok(opened) => {
                    lemma_nested_push(rules.trees, state.plan, start);
                    let child = first_child_of(tree, node);
                    lemma_child_from(tree, node, node + 1);
                    if !(child is Some && !(node < child->0 < tree.len())) {
                        lemma_siblings_are_nested(rules, namespace, opened, child, node, node);
                        match with_siblings(rules, namespace, opened, child, node) {
                            Err(_) => {},
                            Ok(content) => {
                                lemma_nested_push(
                                    rules.trees,
                                    content.plan,
                                    PlannedView::ObjectEnd,
                                );
                                assert(open_path(state.plan).push((namespace, node)).drop_last()
                                    =~= open_path(state.plan));
                            },
                        }
                    }
                },
            }
        }
    }
}

proof fn lemma_siblings_are_nested(
    rules: PlanRules<'_>,
    namespace: KvIrNamespace,
    state: PlanState,
    next: Option<int>,
    after: int,
    parent: int,
)
    requires
        is_nested(rules.trees, state.plan),
        0 <= after,
        next matches Some(node) ==> tree_in(rules.trees, namespace)[node].parent == parent,
        if open_path(state.plan).len() == 0 {
            parent == 0
        } else {
            open_path(state.plan).last() == (namespace, parent)
        },
    ensures
        with_siblings(rules, namespace, state, next, after) matches Ok(end) ==> is_nested(
            rules.trees,
            end.plan,
        ) && open_path(end.plan) == open_path(state.plan),
    decreases tree_in(rules.trees, namespace).len() - after, 0int,
{
    let tree = tree_in(rules.trees, namespace);
    match next {
        None => {},
        Some(node) => {
            if after < node < tree.len() {
                lemma_visit_is_nested(rules, namespace, state, node);
                match with_visited(rules, namespace, state, node) {
                    Err(_) => {},
                    Ok(visited) => {
                        let sibling = next_sibling_of(tree, node);
                        lemma_child_from(tree, parent, node + 1);
                        lemma_siblings_are_nested(
                            rules,
                            namespace,
                            visited,
                            sibling,
                            node,
                            parent,
                        );
                    },
                }
            }
        },
    }
}

/// Every value and every object of a record stands directly within the object of its node's
/// parent, and what stands beneath the root stands within none.
pub proof fn records_are_nested_as_their_nodes(
    limits: KvIrArchiveLimits,
    trees: Trees,
    pairs: Seq<KvIrPair<'_>>,
    resolver: Option<(PathView, Option<KvIrNamespace>)>,
)
    ensures
        event_plan(limits, trees, pairs, resolver) matches Ok(state) ==> is_nested(
            trees,
            state.plan,
        ) && open_path(state.plan).len() == 0,
{
    match event_selections(trees, pairs) {
        Err(_) => {},
        Ok(selections) => {
            let rules = PlanRules { limits, trees, selections, pairs, resolver };
            let empty = PlanState { plan: Seq::empty(), text: Seq::empty() };
            let auto_first = first_child_of(trees.auto, 0);
            lemma_child_from(trees.auto, 0, 1);
            lemma_child_from(trees.user, 0, 1);
            lemma_siblings_are_nested(
                rules,
                KvIrNamespace::AutoGenerated,
                empty,
                auto_first,
                0,
                0,
            );
            match with_namespace(rules, KvIrNamespace::AutoGenerated, empty) {
                Err(_) => {},
                Ok(state) => {
                    let user_first = first_child_of(trees.user, 0);
                    lemma_siblings_are_nested(
                        rules,
                        KvIrNamespace::UserGenerated,
                        state,
                        user_first,
                        0,
                        0,
                    );
                },
            }
        },
    }
}

/// The keys on the way from the root to a node.
pub open spec fn way_keys(tree: Seq<ArchiveNode>, node: int) -> Seq<Seq<u8>>
    decreases node,
{
    if node <= 0 || !(0 <= tree[node].parent < node) {
        Seq::empty()
    } else {
        way_keys(tree, tree[node].parent).push(tree[node].key)
    }
}

proof fn lemma_matched_way(tree: Seq<ArchiveNode>, path: Seq<Seq<u8>>, node: int)
    requires
        is_tree(tree),
        0 <= node < tree.len(),
    ensures
        matched_prefix(tree, Some(path), node) matches Some(length) ==> length == way_keys(
            tree,
            node,
        ).len() && length <= path.len() && way_keys(tree, node) == path.take(length),
        way_keys(tree, node).len() <= path.len() && way_keys(tree, node) == path.take(
            way_keys(tree, node).len() as int,
        ) ==> matched_prefix(tree, Some(path), node) is Some,
    decreases node,
{
    let way = way_keys(tree, node);
    if node > 0 {
        assert(has_parent(tree, node));
        let parent = tree[node].parent;
        let above = way_keys(tree, parent);
        lemma_matched_way(tree, path, parent);
        assert(way.drop_last() =~= above);
        match matched_prefix(tree, Some(path), parent) {
            Some(length) => {
                if length < path.len() {
                    assert(path.take(length + 1) =~= path.take(length).push(path[length]));
                    assert(path.take(length + 1).last() == path[length]);
                }
            },
            None => {},
        }
        if way.len() <= path.len() && way == path.take(way.len() as int) {
            assert(above =~= path.take(above.len() as int));
            assert(way.last() == path[above.len() as int]);
        }
    } else {
        assert(way =~= path.take(0));
    }
}

/// The timestamp path leads to exactly the nodes of the selected namespace whose way from the root
/// has the keys of the path, no more and no fewer.
pub proof fn timestamp_nodes_are_named_by_their_way(
    rules: PlanRules<'_>,
    namespace: KvIrNamespace,
    node: int,
)
    requires
        is_tree(tree_in(rules.trees, namespace)),
        0 <= node < tree_in(rules.trees, namespace).len(),
    ensures
        is_timestamp_node(rules, namespace, node) <==> (rules.resolver matches Some((
            path,
            Some(selected),
        )) && selected == namespace && way_keys(tree_in(rules.trees, namespace), node)
            == path.components),
{
    match rules.resolver {
        Some((path, Some(selected))) => {
            let tree = tree_in(rules.trees, namespace);
            let way = way_keys(tree, node);
            lemma_matched_way(tree, path.components, node);
            assert(path.components.take(path.components.len() as int) =~= path.components);
        },
        _ => {},
    }
}

} // verus!

//! The record of one event, as a flat sequence of balanced events.

use vstd::prelude::*;

use crate::archive_options::KvIrArchiveLimits;
use crate::archive_plan::{
    event_plan, is_plan_ok, resolver_view, tree_in, with_namespace, with_planned,
    with_planned_value, with_siblings, with_visited, PlanRules, PlanState, PlannedEvent,
    PlannedView, RecordPlanner, Trees,
};
use crate::archive_schema::{first_child_of, next_sibling_of, ArchiveTree};
use crate::kv_ir::{KvIrNamespace, KvIrPair, KvIrValueKind};
use crate::timestamp::{KvIrTimestampResolver, TimestampRef, TimestampView};
use crate::timestamp_path::PathView;
use vstd::slice::slice_subrange;

verus! {

/// One value of a record.
#[derive(Clone, Copy, Debug)]
pub enum RecordValue<'a> {
    Integer(i64),
    Float { bits: u64 },
    Boolean(bool),
    String(&'a [u8]),
    UnstructuredArray(&'a [u8]),
    Null,
    Timestamp(TimestampRef<'a>),
}

/// One value of a record by its meaning.
pub enum RecordValueView {
    Integer(i64),
    Float { bits: u64 },
    Boolean(bool),
    String(Seq<u8>),
    UnstructuredArray(Seq<u8>),
    Null,
    Timestamp(TimestampView),
}

impl<'a> View for RecordValue<'a> {
    type V = RecordValueView;

    open spec fn view(&self) -> RecordValueView {
        match *self {
            RecordValue::Integer(value) => RecordValueView::Integer(value),
            RecordValue::Float { bits } => RecordValueView::Float { bits },
            RecordValue::Boolean(value) => RecordValueView::Boolean(value),
            RecordValue::String(value) => RecordValueView::String(value@),
            RecordValue::UnstructuredArray(value) => RecordValueView::UnstructuredArray(value@),
            RecordValue::Null => RecordValueView::Null,
            RecordValue::Timestamp(value) => RecordValueView::Timestamp(value@),
        }
    }
}

/// One event of a record.
#[derive(Clone, Copy, Debug)]
pub enum RecordEvent<'a> {
    ObjectStart { key: &'a [u8] },
    ObjectEnd,
    Value { key: &'a [u8], value: RecordValue<'a> },
}

/// One event of a record by its meaning.
pub enum RecordEventView {
    ObjectStart { key: Seq<u8> },
    ObjectEnd,
    Value { key: Seq<u8>, value: RecordValueView },
}

impl<'a> View for RecordEvent<'a> {
    type V = RecordEventView;

    open spec fn view(&self) -> RecordEventView {
        match *self {
            RecordEvent::ObjectStart { key } => RecordEventView::ObjectStart { key: key@ },
            RecordEvent::ObjectEnd => RecordEventView::ObjectEnd,
            RecordEvent::Value { key, value } => RecordEventView::Value {
                key: key@,
                value: value@,
            },
        }
    }
}

/// A value that goes into a record as it is.
pub open spec fn plain_value(value: KvIrValueKind<'_>) -> RecordValueView {
    match value {
        KvIrValueKind::Integer(value) => RecordValueView::Integer(value),
        KvIrValueKind::Float { bits, .. } => RecordValueView::Float { bits },
        KvIrValueKind::Boolean(value) => RecordValueView::Boolean(value),
        KvIrValueKind::String(value) => RecordValueView::String(value@),
        _ => RecordValueView::Null,
    }
}

/// The record event that a planned event stands for.
pub open spec fn record_event_of(
    event: PlannedView,
    trees: Trees,
    pairs: Seq<KvIrPair<'_>>,
    text: Seq<u8>,
    resolver: Option<(PathView, Option<KvIrNamespace>)>,
) -> RecordEventView {
    match event {
        PlannedView::ObjectStart { namespace, node } => RecordEventView::ObjectStart {
            key: tree_in(trees, namespace)[node].key,
        },
        PlannedView::ObjectEnd => RecordEventView::ObjectEnd,
        PlannedView::Value { namespace, node, pair, text: span, is_array, timestamp } =>
            RecordEventView::Value {
            key: tree_in(trees, namespace)[node].key,
            value: match span {
                None => plain_value(pairs[pair].value),
                Some((start, end)) => match timestamp {
                    Some(resolved) => RecordValueView::Timestamp(
                        TimestampView {
                            resolved,
                            lexeme: text.subrange(start, end),
                            range_key: (resolver->0).0.descriptor,
                        },
                    ),
                    None => if is_array {
                        RecordValueView::UnstructuredArray(text.subrange(start, end))
                    } else {
                        RecordValueView::String(text.subrange(start, end))
                    },
                },
            },
        },
    }
}

/// The planned record of one event.
pub struct PlannedRecord<'a> {
    pub planner: &'a RecordPlanner,
    pub auto_tree: &'a ArchiveTree,
    pub user_tree: &'a ArchiveTree,
    pub pairs: &'a [KvIrPair<'a>],
    pub resolver: Option<&'a KvIrTimestampResolver>,
}

impl<'a> PlannedRecord<'a> {
    pub open spec fn trees(&self) -> Trees {
        Trees { auto: self.auto_tree@, user: self.user_tree@ }
    }

    pub open spec fn wf(&self) -> bool {
        is_plan_ok(
            self.planner.plan_view().plan,
            self.trees(),
            self.pairs@,
            self.planner.plan_view().text.len() as int,
            self.resolver is Some,
        )
    }

    /// Returns the number of events.
    pub fn len(&self) -> (length: usize)
        ensures
            length == self.planner.plan_view().plan.len(),
    {
        self.planner.len()
    }

    fn key(&self, namespace: KvIrNamespace, node: usize) -> (key: &'a [u8])
        requires
            node < tree_in(self.trees(), namespace).len(),
        ensures
            key@ == tree_in(self.trees(), namespace)[node as int].key,
    {
        match namespace {
            KvIrNamespace::AutoGenerated => self.auto_tree.key(node),
            KvIrNamespace::UserGenerated => self.user_tree.key(node),
        }
    }

    /// Returns one event.
    pub fn event(&self, index: usize) -> (event: RecordEvent<'a>)
        requires
            self.wf(),
            index < self.planner.plan_view().plan.len(),
        ensures
            event@ == record_event_of(
                self.planner.plan_view().plan[index as int],
                self.trees(),
                self.pairs@,
                self.planner.plan_view().text,
                resolver_view(self.resolver),
            ),
    {
        let planned = self.planner.event(index);
        match planned {
            PlannedEvent::ObjectStart { namespace, node } => RecordEvent::ObjectStart {
                key: self.key(namespace, node),
            },
            PlannedEvent::ObjectEnd => RecordEvent::ObjectEnd,
            PlannedEvent::Value { namespace, node, pair, text, is_array, timestamp } => {
                let value = match text {
                    None => match self.pairs[pair].value {
                        KvIrValueKind::Integer(value) => RecordValue::Integer(value),
                        KvIrValueKind::Float { bits, .. } => RecordValue::Float { bits },
                        KvIrValueKind::Boolean(value) => RecordValue::Boolean(value),
                        KvIrValueKind::String(value) => RecordValue::String(value),
                        _ => RecordValue::Null,
                    },
                    Some(span) => {
                        let bytes = slice_subrange(self.planner.text(), span.start, span.end);
                        match (timestamp, self.resolver) {
                            (Some(timestamp), Some(resolver)) => RecordValue::Timestamp(
                                TimestampRef::new(timestamp, bytes, resolver.path().descriptor()),
                            ),
                            _ => if is_array {
                                RecordValue::UnstructuredArray(bytes)
                            } else {
                                RecordValue::String(bytes)
                            },
                        }
                    },
                };
                RecordEvent::Value { key: self.key(namespace, node), value }
            },
        }
    }
}

/// How many objects are open after some events, if none was closed before it was opened.
pub open spec fn open_objects(plan: Seq<PlannedView>) -> Option<nat>
    decreases plan.len(),
{
    if plan.len() == 0 {
        Some(0)
    } else {
        match open_objects(plan.drop_last()) {
            None => None,
            Some(count) => match plan.last() {
                PlannedView::ObjectStart { .. } => Some(count + 1),
                PlannedView::ObjectEnd => if count > 0 {
                    Some((count - 1) as nat)
                } else {
                    None
                },
                PlannedView::Value { .. } => Some(count),
            },
        }
    }
}

proof fn lemma_planned(limits: KvIrArchiveLimits, state: PlanState, event: PlannedView)
    ensures
        with_planned(limits, state, event) matches Ok(after) ==> after.plan.drop_last()
            == state.plan && after.plan.last() == event,
{
    assert(state.plan.push(event).drop_last() =~= state.plan);
}

proof fn lemma_value_keeps_objects(
    rules: PlanRules<'_>,
    namespace: KvIrNamespace,
    state: PlanState,
    node: int,
    index: int,
)
    requires
        open_objects(state.plan) is Some,
    ensures
        with_planned_value(rules, namespace, state, node, index) matches Ok(after)
            ==> open_objects(after.plan) == open_objects(state.plan),
{
    reveal_with_fuel(open_objects, 3);
    assert forall|other: PlanState, event: PlannedView|
        (#[trigger] with_planned(rules.limits, other, event)) is Ok implies ({
        let after = with_planned(rules.limits, other, event)->Ok_0;
        after.plan.drop_last() == other.plan && after.plan.last() == event
    }) by {
        lemma_planned(rules.limits, other, event);
    }
}

proof fn lemma_visit_keeps_objects(
    rules: PlanRules<'_>,
    namespace: KvIrNamespace,
    state: PlanState,
    node: int,
)
    requires
        open_objects(state.plan) is Some,
    ensures
        with_visited(rules, namespace, state, node) matches Ok(after) ==> open_objects(after.plan)
            == open_objects(state.plan),
    decreases tree_in(rules.trees, namespace).len() - node, 1int,
{
    let tree = tree_in(rules.trees, namespace);
    let selection = crate::archive_plan::selection_in(rules.selections, namespace);
    if selection.included[node] {
        if selection.selected[node] is Some {
            lemma_value_keeps_objects(
                rules,
                namespace,
                state,
                node,
                selection.selected[node]->0,
            );
        } else {
            let start = PlannedView::ObjectStart { namespace, node };
            lemma_planned(rules.limits, state, start);
            match with_planned(rules.limits, state, start) {
                Ok(opened) => {
                    let child = first_child_of(tree, node);
                    if !(child is Some && !(node < child->0 < tree.len())) {
                        if node < tree.len() {
                            lemma_siblings_keep_objects(rules, namespace, opened, child, node);
                        }
                        match with_siblings(rules, namespace, opened, child, node) {
                            Ok(content) => {
                                lemma_planned(rules.limits, content, PlannedView::ObjectEnd);
                            },
                            Err(_) => {},
                        }
                    }
                },
                Err(_) => {},
            }
        }
    }
}

proof fn lemma_siblings_keep_objects(
    rules: PlanRules<'_>,
    namespace: KvIrNamespace,
    state: PlanState,
    next: Option<int>,
    after: int,
)
    requires
        open_objects(state.plan) is Some,
    ensures
        with_siblings(rules, namespace, state, next, after) matches Ok(visited) ==> open_objects(
            visited.plan,
        ) == open_objects(state.plan),
    decreases tree_in(rules.trees, namespace).len() - after, 0int,
{
    let tree = tree_in(rules.trees, namespace);
    match next {
        None => {},
        Some(node) => {
            if after < node < tree.len() {
                lemma_visit_keeps_objects(rules, namespace, state, node);
                match with_visited(rules, namespace, state, node) {
                    Ok(visited) => {
                        lemma_siblings_keep_objects(
                            rules,
                            namespace,
                            visited,
                            next_sibling_of(tree, node),
                            node,
                        );
                    },
                    Err(_) => {},
                }
            }
        },
    }
}

/// Every record closes each object that it opens, and no other.
pub proof fn records_are_balanced(
    limits: KvIrArchiveLimits,
    trees: Trees,
    pairs: Seq<KvIrPair<'_>>,
    resolver: Option<(PathView, Option<KvIrNamespace>)>,
)
    ensures
        event_plan(limits, trees, pairs, resolver) matches Ok(state) ==> open_objects(state.plan)
            == Some(0nat),
{
    match crate::archive_plan::event_selections(trees, pairs) {
        Err(_) => {},
        Ok(selections) => {
            let rules = PlanRules { limits, trees, selections, pairs, resolver };
            let empty = PlanState { plan: Seq::empty(), text: Seq::empty() };
            lemma_siblings_keep_objects(
                rules,
                KvIrNamespace::AutoGenerated,
                empty,
                first_child_of(trees.auto, 0),
                0,
            );
            match with_namespace(rules, KvIrNamespace::AutoGenerated, empty) {
                Err(_) => {},
                Ok(state) => {
                    lemma_siblings_keep_objects(
                        rules,
                        KvIrNamespace::UserGenerated,
                        state,
                        first_child_of(trees.user, 0),
                        0,
                    );
                },
            }
        },
    }
}

} // verus!

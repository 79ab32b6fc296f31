//! What holds of every planned record: its values stand at their own nodes, and none is lost.

use vstd::prelude::*;

use crate::archive_options::{KvIrArchiveFailure, KvIrArchiveLimits};
use crate::archive_plan::{
    event_plan, event_selections, no_selection, selection_in, tree_in, with_namespace,
    with_pairs_from, with_planned, with_planned_value, with_selected, with_siblings, with_visited,
    PlanRules, PlanState, PlannedView, Selection, Selections, Trees,
};
use crate::archive_schema::{
    child_from, first_child_of, has_parent, is_on_way, is_tree, lemma_child_from, next_sibling_of,
    ArchiveNode,
};
use crate::kv_ir::{KvIrNamespace, KvIrPair};
use crate::timestamp_path::PathView;

verus! {

/// Whether a planned value stands at the node of its pair.
pub open spec fn stands_at_its_node(event: PlannedView, pairs: Seq<KvIrPair<'_>>) -> bool {
    event matches PlannedView::Value { namespace, node, pair, .. } ==> 0 <= pair < pairs.len()
        && pairs[pair].namespace == namespace && pairs[pair].node_id == node
}

/// Whether every selected pair belongs to the node that it is selected at.
spec fn is_selection_of(
    selection: Selection,
    tree: Seq<ArchiveNode>,
    namespace: KvIrNamespace,
    pairs: Seq<KvIrPair<'_>>,
) -> bool {
    &&& selection.selected.len() == tree.len()
    &&& selection.included.len() == tree.len()
    &&& forall|node: int|
        0 <= node < tree.len() ==> (#[trigger] selection.selected[node] matches Some(pair) ==> 0
            <= pair < pairs.len() && pairs[pair].namespace == namespace && pairs[pair].node_id
            == node && selection_reaches(selection, tree, node))
}

/// Whether a node and all nodes on its way are included.
spec fn selection_reaches(selection: Selection, tree: Seq<ArchiveNode>, node: int) -> bool {
    forall|ancestor: int|
        0 <= ancestor < tree.len() && is_on_way(tree, ancestor, node)
            ==> #[trigger] selection.included[ancestor]
}

spec fn are_selections_of(selections: Selections, trees: Trees, pairs: Seq<KvIrPair<'_>>) -> bool {
    &&& is_selection_of(
        selections.auto,
        trees.auto,
        KvIrNamespace::AutoGenerated,
        pairs,
    )
    &&& is_selection_of(
        selections.user,
        trees.user,
        KvIrNamespace::UserGenerated,
        pairs,
    )
}

proof fn lemma_selected_belongs(
    tree: Seq<ArchiveNode>,
    selection: Selection,
    pairs: Seq<KvIrPair<'_>>,
    at: int,
)
    requires
        0 <= at < pairs.len(),
        is_selection_of(selection, tree, pairs[at].namespace, pairs),
    ensures
        with_selected(tree, selection, pairs[at].namespace, pairs[at].node_id, at) matches Ok(
            after,
        ) ==> {
            &&& is_selection_of(after, tree, pairs[at].namespace, pairs)
            &&& after.selected[pairs[at].node_id as int] == Some(at)
            &&& pairs[at].node_id < tree.len()
            &&& forall|node: int|
                0 <= node < tree.len() && selection.selected[node] is Some
                    ==> #[trigger] after.selected[node] == selection.selected[node]
        },
{
    let node_id = pairs[at].node_id as int;
    match with_selected(tree, selection, pairs[at].namespace, pairs[at].node_id, at) {
        Err(_) => {},
        Ok(after) => {
            assert forall|node: int| 0 <= node < tree.len() implies (
            #[trigger] after.selected[node] matches Some(pair) ==> 0 <= pair < pairs.len()
                && pairs[pair].namespace == pairs[at].namespace && pairs[pair].node_id == node
                && selection_reaches(after, tree, node)) by {
                if after.selected[node] is Some {
                    if node != node_id {
                        assert(selection.selected[node] == after.selected[node]);
                        assert(selection_reaches(selection, tree, node));
                    }
                    assert forall|ancestor: int|
                        0 <= ancestor < tree.len() && is_on_way(tree, ancestor, node) implies
                        #[trigger] after.included[ancestor] by {
                        if node != node_id {
                            assert(selection.included[ancestor]);
                        }
                    }
                }
            }
        },
    }
}

/// The pair that is selected at a node.
spec fn selected_at(selections: Selections, namespace: KvIrNamespace, node: int) -> Option<int> {
    selection_in(selections, namespace).selected[node]
}

proof fn lemma_selections_belong(
    trees: Trees,
    selections: Selections,
    pairs: Seq<KvIrPair<'_>>,
    at: int,
)
    requires
        are_selections_of(selections, trees, pairs),
        0 <= at,
    ensures
        with_pairs_from(trees, selections, pairs, at) matches Ok(after) ==> {
            &&& are_selections_of(after, trees, pairs)
            &&& forall|namespace: KvIrNamespace, node: int|
                0 <= node < tree_in(trees, namespace).len() && selected_at(
                    selections,
                    namespace,
                    node,
                ) is Some ==> #[trigger] selected_at(after, namespace, node) == selected_at(
                    selections,
                    namespace,
                    node,
                )
            &&& forall|index: int|
                at <= index < pairs.len() ==> 0 <= (#[trigger] pairs[index]).node_id < tree_in(
                    trees,
                    pairs[index].namespace,
                ).len() && selected_at(
                    after,
                    pairs[index].namespace,
                    pairs[index].node_id as int,
                ) == Some(index)
        },
    decreases pairs.len() - at,
{
    if at < pairs.len() {
        let pair = pairs[at];
        let tree = tree_in(trees, pair.namespace);
        let selection = selection_in(selections, pair.namespace);
        lemma_selected_belongs(tree, selection, pairs, at);
        match with_selected(tree, selection, pair.namespace, pair.node_id, at) {
            Err(_) => {},
            Ok(chosen) => {
                let next = match pair.namespace {
                    KvIrNamespace::AutoGenerated => Selections { auto: chosen, ..selections },
                    KvIrNamespace::UserGenerated => Selections { user: chosen, ..selections },
                };
                lemma_selections_belong(trees, next, pairs, at + 1);
                match with_pairs_from(trees, next, pairs, at + 1) {
                    Err(_) => {},
                    Ok(after) => {
                        assert(selected_at(next, pair.namespace, pair.node_id as int) == Some(at));
                        assert(selected_at(after, pair.namespace, pair.node_id as int) == Some(at));
                        assert forall|namespace: KvIrNamespace, node: int|
                            0 <= node < tree_in(trees, namespace).len() && selected_at(
                                selections,
                                namespace,
                                node,
                            ) is Some implies #[trigger] selected_at(after, namespace, node)
                            == selected_at(selections, namespace, node) by {
                            assert(selected_at(next, namespace, node) == selected_at(
                                selections,
                                namespace,
                                node,
                            ));
                        }
                    },
                }
            },
        }
    }
}

/// Whether a plan starts with another one, and its values stand at their nodes.
spec fn goes_on(rules: PlanRules<'_>, before: PlanState, after: PlanState) -> bool {
    &&& before.plan.len() <= after.plan.len()
    &&& forall|i: int| 0 <= i < before.plan.len() ==> #[trigger] after.plan[i] == before.plan[i]
    &&& forall|i: int|
        before.plan.len() <= i < after.plan.len() ==> stands_at_its_node(
            #[trigger] after.plan[i],
            rules.pairs,
        )
}

proof fn lemma_goes_on(rules: PlanRules<'_>, first: PlanState, second: PlanState, third: PlanState)
    requires
        goes_on(rules, first, second),
        goes_on(rules, second, third),
    ensures
        goes_on(rules, first, third),
{
    assert forall|i: int| 0 <= i < first.plan.len() implies #[trigger] third.plan[i]
        == first.plan[i] by {
        assert(third.plan[i] == second.plan[i]);
    }
    assert forall|i: int| first.plan.len() <= i < third.plan.len() implies stands_at_its_node(
        #[trigger] third.plan[i],
        rules.pairs,
    ) by {
        if i < second.plan.len() {
            assert(third.plan[i] == second.plan[i]);
        }
    }
}

/// Whether some event of a plan is the one of a node.
pub open spec fn has_node(plan: Seq<PlannedView>, namespace: KvIrNamespace, node: int) -> bool {
    exists|i: int| 0 <= i < plan.len() && is_event_of(#[trigger] plan[i], namespace, node)
}

/// Whether an event is a value, or the start of an object, at a node.
pub open spec fn is_event_of(event: PlannedView, namespace: KvIrNamespace, node: int) -> bool {
    match event {
        PlannedView::Value { namespace: own, node: at, .. } => own == namespace && at == node,
        PlannedView::ObjectStart { namespace: own, node: at } => own == namespace && at == node,
        PlannedView::ObjectEnd => false,
    }
}

proof fn lemma_has_node_stays(
    rules: PlanRules<'_>,
    before: PlanState,
    after: PlanState,
    namespace: KvIrNamespace,
    node: int,
)
    requires
        goes_on(rules, before, after),
        has_node(before.plan, namespace, node),
    ensures
        has_node(after.plan, namespace, node),
{
    let i = choose|i: int|
        0 <= i < before.plan.len() && is_event_of(#[trigger] before.plan[i], namespace, node);
    assert(after.plan[i] == before.plan[i]);
}

/// What a value adds to a plan.
proof fn lemma_value_goes_on(
    rules: PlanRules<'_>,
    namespace: KvIrNamespace,
    state: PlanState,
    node: int,
    index: int,
)
    requires
        0 <= index < rules.pairs.len(),
        rules.pairs[index].namespace == namespace,
        rules.pairs[index].node_id == node,
    ensures
        with_planned_value(rules, namespace, state, node, index) matches Ok(after) ==> goes_on(
            rules,
            state,
            after,
        ) && has_node(after.plan, namespace, node),
{
    match with_planned_value(rules, namespace, state, node, index) {
        Err(_) => {},
        Ok(after) => {
            let at = state.plan.len() as int;
            assert(is_event_of(after.plan[at], namespace, node));
        },
    }
}

proof fn lemma_visit_goes_on(
    rules: PlanRules<'_>,
    namespace: KvIrNamespace,
    state: PlanState,
    node: int,
)
    requires
        are_selections_of(rules.selections, rules.trees, rules.pairs),
        0 <= node < tree_in(rules.trees, namespace).len(),
    ensures
        with_visited(rules, namespace, state, node) matches Ok(after) ==> goes_on(
            rules,
            state,
            after,
        ),
    decreases tree_in(rules.trees, namespace).len() - node, 1int,
{
    let tree = tree_in(rules.trees, namespace);
    let selection = selection_in(rules.selections, namespace);
    if selection.included[node] {
        if selection.selected[node] is Some {
            lemma_value_goes_on(rules, namespace, state, node, selection.selected[node]->0);
        } else {
            let start = PlannedView::ObjectStart { namespace, node };
            match with_planned(rules.limits, state, start) {
                Err(_) => {},
                Ok(opened) => {
                    let child = first_child_of(tree, node);
                    if !(child is Some && !(node < child->0 < tree.len())) {
                        lemma_siblings_go_on(rules, namespace, opened, child, node);
                        match with_siblings(rules, namespace, opened, child, node) {
                            Err(_) => {},
                            Ok(content) => {
                                assert(goes_on(rules, state, opened));
                                lemma_goes_on(rules, state, opened, content);
                                match with_planned(
                                    rules.limits,
                                    content,
                                    PlannedView::ObjectEnd,
                                ) {
                                    Err(_) => {},
                                    Ok(closed_state) => {
                                        assert(goes_on(rules, content, closed_state));
                                        lemma_goes_on(rules, state, content, closed_state);
                                    },
                                }
                            },
                        }
                    }
                },
            }
        }
    }
}

proof fn lemma_siblings_go_on(
    rules: PlanRules<'_>,
    namespace: KvIrNamespace,
    state: PlanState,
    next: Option<int>,
    after: int,
)
    requires
        are_selections_of(rules.selections, rules.trees, rules.pairs),
        0 <= after,
    ensures
        with_siblings(rules, namespace, state, next, after) matches Ok(end) ==> goes_on(
            rules,
            state,
            end,
        ),
    decreases tree_in(rules.trees, namespace).len() - after, 0int,
{
    let tree = tree_in(rules.trees, namespace);
    match next {
        None => {},
        Some(node) => {
            if after < node < tree.len() {
                lemma_visit_goes_on(rules, namespace, state, node);
                match with_visited(rules, namespace, state, node) {
                    Err(_) => {},
                    Ok(visited) => {
                        let sibling = next_sibling_of(tree, node);
                        lemma_siblings_go_on(rules, namespace, visited, sibling, node);
                        match with_siblings(rules, namespace, visited, sibling, node) {
                            Err(_) => {},
                            Ok(end) => {
                                lemma_goes_on(rules, state, visited, end);
                            },
                        }
                    },
                }
            }
        },
    }
}

/// Whether a node was visited on the way to a plan.
spec fn is_visited(
    rules: PlanRules<'_>,
    namespace: KvIrNamespace,
    end: PlanState,
    node: int,
) -> bool {
    exists|state: PlanState| #[trigger]
        with_visited(rules, namespace, state, node) matches Ok(after) && goes_on(rules, after, end)
}

/// All children from `from` on are visited.
proof fn lemma_siblings_visit(
    rules: PlanRules<'_>,
    namespace: KvIrNamespace,
    state: PlanState,
    parent: int,
    from: int,
    after: int,
    node: int,
)
    requires
        are_selections_of(rules.selections, rules.trees, rules.pairs),
        is_tree(tree_in(rules.trees, namespace)),
        0 <= after < from,
        0 < node,
        from <= node < tree_in(rules.trees, namespace).len(),
        tree_in(rules.trees, namespace)[node].parent == parent,
        with_siblings(
            rules,
            namespace,
            state,
            child_from(tree_in(rules.trees, namespace), parent, from),
            after,
        ) is Ok,
    ensures
        is_visited(
            rules,
            namespace,
            with_siblings(
                rules,
                namespace,
                state,
                child_from(tree_in(rules.trees, namespace), parent, from),
                after,
            )->Ok_0,
            node,
        ),
    decreases tree_in(rules.trees, namespace).len() - from,
{
    let tree = tree_in(rules.trees, namespace);
    let next = child_from(tree, parent, from);
    lemma_child_from(tree, parent, from);
    let child = next->0;
    let end = with_siblings(rules, namespace, state, next, after)->Ok_0;
    let visited = with_visited(rules, namespace, state, child)->Ok_0;
    let sibling = next_sibling_of(tree, child);
    lemma_visit_goes_on(rules, namespace, state, child);
    lemma_siblings_go_on(rules, namespace, visited, sibling, child);
    assert(with_siblings(rules, namespace, visited, sibling, child) == Ok::<
        PlanState,
        KvIrArchiveFailure,
    >(end));
    if child == node {
        assert(with_visited(rules, namespace, state, node) == Ok::<PlanState, KvIrArchiveFailure>(
            visited,
        ));
        assert(goes_on(rules, visited, end));
    } else {
        assert(tree[child].parent == parent);
        lemma_siblings_visit(rules, namespace, visited, parent, child + 1, child, node);
    }
}

/// A visited object whose node is not selected visits its included children.
proof fn lemma_child_is_visited(
    rules: PlanRules<'_>,
    namespace: KvIrNamespace,
    end: PlanState,
    parent: int,
    node: int,
)
    requires
        are_selections_of(rules.selections, rules.trees, rules.pairs),
        is_tree(tree_in(rules.trees, namespace)),
        0 < parent < node < tree_in(rules.trees, namespace).len(),
        tree_in(rules.trees, namespace)[node].parent == parent,
        selection_in(rules.selections, namespace).included[parent],
        selection_in(rules.selections, namespace).selected[parent] is None,
        is_visited(rules, namespace, end, parent),
    ensures
        is_visited(rules, namespace, end, node),
{
    let tree = tree_in(rules.trees, namespace);
    let state = choose|state: PlanState| #[trigger]
        with_visited(rules, namespace, state, parent) matches Ok(after) && goes_on(
            rules,
            after,
            end,
        );
    let after = with_visited(rules, namespace, state, parent)->Ok_0;
    let start = PlannedView::ObjectStart { namespace, node: parent };
    let opened = with_planned(rules.limits, state, start)->Ok_0;
    let child = first_child_of(tree, parent);
    let content = with_siblings(rules, namespace, opened, child, parent)->Ok_0;
    assert(goes_on(rules, content, after));
    lemma_goes_on(rules, content, after, end);
    lemma_siblings_visit(rules, namespace, opened, parent, parent + 1, parent, node);
    lemma_visited_earlier(rules, namespace, content, end, node);
}

proof fn lemma_visited_earlier(
    rules: PlanRules<'_>,
    namespace: KvIrNamespace,
    middle: PlanState,
    end: PlanState,
    node: int,
)
    requires
        is_visited(rules, namespace, middle, node),
        goes_on(rules, middle, end),
    ensures
        is_visited(rules, namespace, end, node),
{
    let state = choose|state: PlanState| #[trigger]
        with_visited(rules, namespace, state, node) matches Ok(after) && goes_on(
            rules,
            after,
            middle,
        );
    let after = with_visited(rules, namespace, state, node)->Ok_0;
    lemma_goes_on(rules, after, middle, end);
    assert(with_visited(rules, namespace, state, node) == Ok::<PlanState, KvIrArchiveFailure>(
        after,
    ) && goes_on(rules, after, end));
}

/// Whether no node on the way to another, itself aside, has a pair.
pub open spec fn has_no_value_above(
    tree: Seq<ArchiveNode>,
    pairs: Seq<KvIrPair<'_>>,
    namespace: KvIrNamespace,
    node: int,
) -> bool {
    forall|index: int|
        0 <= index < pairs.len() && (#[trigger] pairs[index]).namespace == namespace
            && pairs[index].node_id != node ==> !is_on_way(tree, pairs[index].node_id as int, node)
}

/// Every node on the way to a selected one, below which no other value stands, is visited.
proof fn lemma_way_is_visited(
    rules: PlanRules<'_>,
    namespace: KvIrNamespace,
    start: PlanState,
    leaf: int,
    node: int,
)
    requires
        are_selections_of(rules.selections, rules.trees, rules.pairs),
        is_tree(tree_in(rules.trees, namespace)),
        0 < node < tree_in(rules.trees, namespace).len(),
        0 <= leaf < tree_in(rules.trees, namespace).len(),
        is_on_way(tree_in(rules.trees, namespace), node, leaf),
        selection_in(rules.selections, namespace).selected[leaf] is Some,
        has_no_value_above(tree_in(rules.trees, namespace), rules.pairs, namespace, leaf),
        with_namespace(rules, namespace, start) is Ok,
    ensures
        is_visited(rules, namespace, with_namespace(rules, namespace, start)->Ok_0, node),
    decreases node,
{
    let tree = tree_in(rules.trees, namespace);
    let selection = selection_in(rules.selections, namespace);
    let end = with_namespace(rules, namespace, start)->Ok_0;
    assert(has_parent(tree, node));
    let parent = tree[node].parent;
    if parent == 0 {
        lemma_siblings_visit(rules, namespace, start, 0, 1, 0, node);
    } else {
        lemma_on_way_above(tree, node, leaf);
        lemma_way_is_visited(rules, namespace, start, leaf, parent);
        assert(selection_reaches(selection, tree, leaf));
        assert(selection.included[parent]);
        if selection.selected[parent] is Some {
            let index = selection.selected[parent]->0;
            assert(rules.pairs[index].node_id == parent);
            lemma_on_way_is_not_later(tree, node, leaf);
        }
        lemma_child_is_visited(rules, namespace, end, parent, node);
    }
}

proof fn lemma_on_way_above(tree: Seq<ArchiveNode>, node: int, leaf: int)
    requires
        is_tree(tree),
        0 < node < tree.len(),
        leaf < tree.len(),
        is_on_way(tree, node, leaf),
    ensures
        is_on_way(tree, tree[node].parent, leaf),
    decreases leaf,
{
    assert(has_parent(tree, node));
    if node == leaf {
        reveal_with_fuel(is_on_way, 2);
    } else {
        lemma_on_way_above(tree, node, tree[leaf].parent);
    }
}

proof fn lemma_on_way_is_not_later(tree: Seq<ArchiveNode>, node: int, leaf: int)
    requires
        is_on_way(tree, node, leaf),
    ensures
        node <= leaf,
    decreases leaf,
{
    if node != leaf {
        lemma_on_way_is_not_later(tree, node, tree[leaf].parent);
    }
}

proof fn lemma_selected_is_planned(
    rules: PlanRules<'_>,
    namespace: KvIrNamespace,
    start: PlanState,
    node: int,
)
    requires
        are_selections_of(rules.selections, rules.trees, rules.pairs),
        is_tree(tree_in(rules.trees, namespace)),
        0 < node < tree_in(rules.trees, namespace).len(),
        selection_in(rules.selections, namespace).selected[node] is Some,
        has_no_value_above(tree_in(rules.trees, namespace), rules.pairs, namespace, node),
        with_namespace(rules, namespace, start) is Ok,
    ensures
        has_node((with_namespace(rules, namespace, start)->Ok_0).plan, namespace, node),
{
    let tree = tree_in(rules.trees, namespace);
    let selection = selection_in(rules.selections, namespace);
    let end = with_namespace(rules, namespace, start)->Ok_0;
    lemma_way_is_visited(rules, namespace, start, node, node);
    let state = choose|state: PlanState| #[trigger]
        with_visited(rules, namespace, state, node) matches Ok(after) && goes_on(
            rules,
            after,
            end,
        );
    let after = with_visited(rules, namespace, state, node)->Ok_0;
    assert(selection_reaches(selection, tree, node));
    assert(is_on_way(tree, node, node));
    assert(selection.included[node]);
    lemma_value_goes_on(rules, namespace, state, node, selection.selected[node]->0);
    lemma_has_node_stays(rules, after, end, namespace, node);
}

/// Every value of a record stands at the node of its own pair.
pub proof fn values_stand_at_their_nodes(
    limits: KvIrArchiveLimits,
    trees: Trees,
    pairs: Seq<KvIrPair<'_>>,
    resolver: Option<(PathView, Option<KvIrNamespace>)>,
)
    ensures
        event_plan(limits, trees, pairs, resolver) matches Ok(state) ==> forall|i: int|
            0 <= i < state.plan.len() ==> stands_at_its_node(#[trigger] state.plan[i], pairs),
{
    lemma_nothing_selected(trees, pairs);
    let none = Selections { auto: no_selection(trees.auto), user: no_selection(trees.user) };
    lemma_selections_belong(trees, none, pairs, 0);
    match event_selections(trees, pairs) {
        Err(_) => {},
        Ok(selections) => {
            let rules = PlanRules { limits, trees, selections, pairs, resolver };
            lemma_namespaces_go_on(rules);
        },
    }
}

/// Whatever is selected at a node is a pair of the event, and one of that node.
pub proof fn lemma_selected_are_pairs(trees: Trees, pairs: Seq<KvIrPair<'_>>)
    ensures
        event_selections(trees, pairs) matches Ok(selections) ==> forall|
            namespace: KvIrNamespace,
            node: int,
        |
            0 <= node < tree_in(trees, namespace).len() ==> (#[trigger] selection_in(
                selections,
                namespace,
            ).selected[node] matches Some(pair) ==> 0 <= pair < pairs.len()
                && pairs[pair].namespace == namespace && pairs[pair].node_id == node),
{
    lemma_nothing_selected(trees, pairs);
    let none = Selections { auto: no_selection(trees.auto), user: no_selection(trees.user) };
    lemma_selections_belong(trees, none, pairs, 0);
}

proof fn lemma_nothing_selected(trees: Trees, pairs: Seq<KvIrPair<'_>>)
    ensures
        are_selections_of(
            Selections { auto: no_selection(trees.auto), user: no_selection(trees.user) },
            trees,
            pairs,
        ),
{
}

/// The plan of one namespace, and that of both.
proof fn lemma_namespaces_go_on(rules: PlanRules<'_>)
    requires
        are_selections_of(rules.selections, rules.trees, rules.pairs),
    ensures
        ({
            let empty = PlanState { plan: Seq::empty(), text: Seq::empty() };
            with_namespace(rules, KvIrNamespace::AutoGenerated, empty) matches Ok(first)
                ==> goes_on(rules, empty, first) && (with_namespace(
                rules,
                KvIrNamespace::UserGenerated,
                first,
            ) matches Ok(second) ==> goes_on(rules, first, second) && goes_on(
                rules,
                empty,
                second,
            ))
        }),
{
    let empty = PlanState { plan: Seq::empty(), text: Seq::empty() };
    lemma_siblings_go_on(
        rules,
        KvIrNamespace::AutoGenerated,
        empty,
        first_child_of(rules.trees.auto, 0),
        0,
    );
    match with_namespace(rules, KvIrNamespace::AutoGenerated, empty) {
        Err(_) => {},
        Ok(first) => {
            lemma_siblings_go_on(
                rules,
                KvIrNamespace::UserGenerated,
                first,
                first_child_of(rules.trees.user, 0),
                0,
            );
            match with_namespace(rules, KvIrNamespace::UserGenerated, first) {
                Err(_) => {},
                Ok(second) => {
                    lemma_goes_on(rules, empty, first, second);
                },
            }
        },
    }
}

/// No value is lost: the record of an event has an event at the node of every pair that does not
/// stand below another pair's node.
pub proof fn no_value_is_lost(
    limits: KvIrArchiveLimits,
    trees: Trees,
    pairs: Seq<KvIrPair<'_>>,
    resolver: Option<(PathView, Option<KvIrNamespace>)>,
    index: int,
)
    requires
        is_tree(trees.auto),
        is_tree(trees.user),
        0 <= index < pairs.len(),
        has_no_value_above(
            tree_in(trees, pairs[index].namespace),
            pairs,
            pairs[index].namespace,
            pairs[index].node_id as int,
        ),
    ensures
        event_plan(limits, trees, pairs, resolver) matches Ok(state) ==> has_node(
            state.plan,
            pairs[index].namespace,
            pairs[index].node_id as int,
        ),
{
    lemma_nothing_selected(trees, pairs);
    let none = Selections { auto: no_selection(trees.auto), user: no_selection(trees.user) };
    lemma_selections_belong(trees, none, pairs, 0);
    match event_selections(trees, pairs) {
        Err(_) => {},
        Ok(selections) => {
            let rules = PlanRules { limits, trees, selections, pairs, resolver };
            lemma_namespaces_go_on(rules);
            let empty = PlanState { plan: Seq::empty(), text: Seq::empty() };
            let namespace = pairs[index].namespace;
            let node = pairs[index].node_id as int;
            assert(selected_at(selections, namespace, node) == Some(index));
            lemma_no_pair_at_root(trees, none, pairs, 0, index);
            match with_namespace(rules, KvIrNamespace::AutoGenerated, empty) {
                Err(_) => {},
                Ok(first) => {
                    match with_namespace(rules, KvIrNamespace::UserGenerated, first) {
                        Err(_) => {},
                        Ok(second) => {
                            match namespace {
                                KvIrNamespace::AutoGenerated => {
                                    lemma_selected_is_planned(rules, namespace, empty, node);
                                    lemma_has_node_stays(rules, first, second, namespace, node);
                                },
                                KvIrNamespace::UserGenerated => {
                                    lemma_selected_is_planned(rules, namespace, first, node);
                                },
                            }
                        },
                    }
                },
            }
        },
    }
}

/// No pair is selected at the root.
proof fn lemma_no_pair_at_root(
    trees: Trees,
    selections: Selections,
    pairs: Seq<KvIrPair<'_>>,
    at: int,
    index: int,
)
    requires
        with_pairs_from(trees, selections, pairs, at) is Ok,
        0 <= at <= index < pairs.len(),
    ensures
        pairs[index].node_id != 0,
    decreases pairs.len() - at,
{
    if at < index {
        let pair = pairs[at];
        let chosen = with_selected(
            tree_in(trees, pair.namespace),
            selection_in(selections, pair.namespace),
            pair.namespace,
            pair.node_id,
            at,
        )->Ok_0;
        let next = match pair.namespace {
            KvIrNamespace::AutoGenerated => Selections { auto: chosen, ..selections },
            KvIrNamespace::UserGenerated => Selections { user: chosen, ..selections },
        };
        lemma_no_pair_at_root(trees, next, pairs, at + 1, index);
    }
}

} // verus!

//! Which values of an event are selected, and the flat events of its record.

use vstd::prelude::*;

use crate::archive_options::{
    archive_allocation, archive_limit, archive_refused, report_archive_limit, report_text_fault,
    unsupported_text, KvIrArchiveFailure, KvIrArchiveInvalidData, KvIrArchiveLimitResource,
    KvIrArchiveLimits, KvIrArchiveResource, KvIrArchiveUnsupported,
};
use crate::archive_schema::{
    first_child_of, has_parent, is_on_way, is_tree, matched_prefix, next_sibling_of, place,
    ArchiveNode, ArchiveTree,
};
use crate::kv_ir::{
    KvIrEncodedText, KvIrNamespace, KvIrNodeType, KvIrPair, KvIrValueKind,
};
use crate::kv_ir_text::{
    append_bytes, append_integer, append_text, appended, extends, grown, with_integer, with_text,
    GrowthLimits, TextFailure,
};
use crate::number::finite_bits;
use crate::text::QUOTE;
use crate::timestamp::{
    fractional_epoch_fixed, integer_epoch, utf8_text_epoch, JsonTimestampError,
    KvIrResolvedTimestamp, KvIrTimestampResolver, ResolvedView,
};
use crate::timestamp_path::PathView;
use vstd::slice::slice_subrange;

verus! {

/// Longest spelling of a float with nine fractional digits.
pub const FIXED_FLOAT_BYTES: usize = 384;

/// Selected and included nodes of one namespace.
pub struct Selection {
    /// Index of the pair at each node.
    pub selected: Seq<Option<int>>,
    /// Whether a pair lies at or below each node.
    pub included: Seq<bool>,
}

/// Nothing selected in a tree.
pub open spec fn no_selection(tree: Seq<ArchiveNode>) -> Selection {
    Selection {
        selected: Seq::new(tree.len(), |i: int| None::<int>),
        included: Seq::new(tree.len(), |i: int| false),
    }
}

/// The selection with the pair `index` at a node.
pub open spec fn with_selected(
    tree: Seq<ArchiveNode>,
    selection: Selection,
    namespace: KvIrNamespace,
    node_id: u32,
    index: int,
) -> Result<Selection, KvIrArchiveFailure> {
    let node = node_id as int;
    if node == 0 || node >= tree.len() {
        Err(
            KvIrArchiveFailure::Invalid(
                KvIrArchiveInvalidData::MissingSchemaNode { namespace, node_id },
            ),
        )
    } else if selection.selected[node] is Some {
        Err(
            KvIrArchiveFailure::Invalid(
                KvIrArchiveInvalidData::DuplicateEventNode { namespace, node_id },
            ),
        )
    } else {
        Ok(
            Selection {
                selected: selection.selected.update(node, Some(index)),
                included: Seq::new(
                    selection.included.len(),
                    |i: int| selection.included[i] || is_on_way(tree, i, node),
                ),
            },
        )
    }
}

/// Schema trees of both namespaces.
pub struct Trees {
    pub auto: Seq<ArchiveNode>,
    pub user: Seq<ArchiveNode>,
}

/// Selections of both namespaces.
pub struct Selections {
    pub auto: Selection,
    pub user: Selection,
}

pub open spec fn tree_in(trees: Trees, namespace: KvIrNamespace) -> Seq<ArchiveNode> {
    match namespace {
        KvIrNamespace::AutoGenerated => trees.auto,
        KvIrNamespace::UserGenerated => trees.user,
    }
}

pub open spec fn selection_in(selections: Selections, namespace: KvIrNamespace) -> Selection {
    match namespace {
        KvIrNamespace::AutoGenerated => selections.auto,
        KvIrNamespace::UserGenerated => selections.user,
    }
}

/// The selections with the pairs from `at` on.
pub open spec fn with_pairs_from(
    trees: Trees,
    selections: Selections,
    pairs: Seq<KvIrPair<'_>>,
    at: int,
) -> Result<Selections, KvIrArchiveFailure>
    decreases pairs.len() - at,
{
    if at < 0 || at >= pairs.len() {
        Ok(selections)
    } else {
        let pair = pairs[at];
        match with_selected(
            tree_in(trees, pair.namespace),
            selection_in(selections, pair.namespace),
            pair.namespace,
            pair.node_id,
            at,
        ) {
            Err(failure) => Err(failure),
            Ok(selection) => with_pairs_from(
                trees,
                match pair.namespace {
                    KvIrNamespace::AutoGenerated => Selections { auto: selection, ..selections },
                    KvIrNamespace::UserGenerated => Selections { user: selection, ..selections },
                },
                pairs,
                at + 1,
            ),
        }
    }
}

/// The selections of an event.
pub open spec fn event_selections(trees: Trees, pairs: Seq<KvIrPair<'_>>) -> Result<
    Selections,
    KvIrArchiveFailure,
> {
    with_pairs_from(
        trees,
        Selections { auto: no_selection(trees.auto), user: no_selection(trees.user) },
        pairs,
        0,
    )
}

/// One planned event by its meaning.
pub enum PlannedView {
    ObjectStart { namespace: KvIrNamespace, node: int },
    ObjectEnd,
    Value {
        namespace: KvIrNamespace,
        node: int,
        pair: int,
        /// Range of the value's text in the scratch bytes.
        text: Option<(int, int)>,
        is_array: bool,
        timestamp: Option<ResolvedView>,
    },
}

/// What a plan depends on besides the traversal.
pub struct PlanRules<'a> {
    pub limits: KvIrArchiveLimits,
    pub trees: Trees,
    pub selections: Selections,
    pub pairs: Seq<KvIrPair<'a>>,
    pub resolver: Option<(PathView, Option<KvIrNamespace>)>,
}

/// The plan so far, and its scratch bytes.
pub struct PlanState {
    pub plan: Seq<PlannedView>,
    pub text: Seq<u8>,
}

/// The plan with one event more.
pub open spec fn with_planned(limits: KvIrArchiveLimits, state: PlanState, event: PlannedView) -> Result<
    PlanState,
    KvIrArchiveFailure,
> {
    let length = state.plan.len() + 1;
    if length > usize::MAX {
        Err(KvIrArchiveFailure::SizeOverflow)
    } else if length > limits.record_events {
        Err(
            archive_limit(
                KvIrArchiveLimitResource::RecordEvents,
                length as int,
                limits.record_events,
            ),
        )
    } else {
        Ok(PlanState { plan: state.plan.push(event), ..state })
    }
}

/// Limits of a value whose text starts at the end of the scratch bytes.
pub open spec fn value_growth(limits: KvIrArchiveLimits, text: Seq<u8>) -> GrowthLimits {
    GrowthLimits {
        value_start: text.len() as usize,
        value_bytes: limits.reconstructed_value_bytes,
        buffer_bytes: limits.reconstructed_record_bytes,
    }
}

/// The failure that a text failure is reported as.
pub open spec fn plan_failure(
    failure: TextFailure,
    limits: KvIrArchiveLimits,
    namespace: KvIrNamespace,
    node_id: u32,
) -> KvIrArchiveFailure {
    match failure {
        TextFailure::Malformed(fault) => KvIrArchiveFailure::Unsupported {
            namespace,
            node_id,
            source: unsupported_text(fault),
        },
        TextFailure::ValueLimit { actual } => archive_limit(
            KvIrArchiveLimitResource::ReconstructedValueBytes,
            actual as int,
            limits.reconstructed_value_bytes,
        ),
        TextFailure::BufferLimit { actual } => archive_limit(
            KvIrArchiveLimitResource::ReconstructedRecordBytes,
            actual as int,
            limits.reconstructed_record_bytes,
        ),
        TextFailure::AllocationFailed { requested_additional } =>
            KvIrArchiveFailure::AllocationFailed {
            resource: KvIrArchiveResource::ReconstructedText,
            requested_additional,
        },
        TextFailure::SizeOverflow => KvIrArchiveFailure::SizeOverflow,
    }
}

/// Components of the path, where the resolver selects the namespace.
pub open spec fn path_in(
    resolver: Option<(PathView, Option<KvIrNamespace>)>,
    namespace: KvIrNamespace,
) -> Option<Seq<Seq<u8>>> {
    match resolver {
        Some((path, Some(selected))) => if selected == namespace {
            Some(path.components)
        } else {
            None
        },
        _ => None,
    }
}

/// Whether a node is the one that the timestamp path leads to.
pub open spec fn is_timestamp_node(
    rules: PlanRules<'_>,
    namespace: KvIrNamespace,
    node: int,
) -> bool {
    match rules.resolver {
        Some((path, _)) => matched_prefix(
            tree_in(rules.trees, namespace),
            path_in(rules.resolver, namespace),
            node,
        ) == Some(path.components.len() as int),
        None => false,
    }
}

/// A text within quotes.
pub open spec fn with_quoted_bytes(text: Seq<u8>, growth: GrowthLimits, value: Seq<u8>) -> Result<
    Seq<u8>,
    TextFailure,
> {
    match grown(text, growth, seq![QUOTE]) {
        Err(failure) => Err(failure),
        Ok(opened) => match grown(opened, growth, value) {
            Err(failure) => Err(failure),
            Ok(content) => grown(content, growth, seq![QUOTE]),
        },
    }
}

/// An encoded text within quotes.
pub open spec fn with_quoted_text(
    text: Seq<u8>,
    growth: GrowthLimits,
    value: KvIrEncodedText<'_>,
) -> Result<Seq<u8>, TextFailure> {
    match grown(text, growth, seq![QUOTE]) {
        Err(failure) => Err(failure),
        Ok(opened) => match with_text(opened, growth, value@, 0, 0, 0) {
            Err(failure) => Err(failure),
            Ok(content) => grown(content, growth, seq![QUOTE]),
        },
    }
}

/// The spelling of a float with nine fractional digits.
pub open spec fn with_fixed_float(text: Seq<u8>, growth: GrowthLimits, spelling: Seq<u8>) -> Result<
    Seq<u8>,
    TextFailure,
> {
    if spelling.len() > FIXED_FLOAT_BYTES {
        Err(TextFailure::SizeOverflow)
    } else {
        grown(text, growth, spelling)
    }
}

/// How a value goes into a record.
pub enum ValueForm {
    /// As it is.
    Plain,
    /// As an object without fields.
    EmptyObject,
    /// As a text that is reconstructed in the scratch bytes.
    Text(Result<Seq<u8>, TextFailure>),
    /// As a timestamp, by its exact spelling in the scratch bytes.
    Timestamp(Result<Seq<u8>, TextFailure>, Result<ResolvedView, JsonTimestampError>),
    /// Not at all.
    NonFinite(u64),
}

/// Bytes of the text that was appended within quotes.
pub open spec fn quoted_content(before: Seq<u8>, after: Seq<u8>) -> Seq<u8> {
    after.subrange(before.len() as int + 1, after.len() - 1)
}

/// Form of a value.
pub open spec fn value_form(
    value: KvIrValueKind<'_>,
    is_timestamp: bool,
    is_array: bool,
    text: Seq<u8>,
    growth: GrowthLimits,
) -> ValueForm {
    match value {
        KvIrValueKind::Float { bits, fixed_nine } => if !finite_bits(bits) {
            ValueForm::NonFinite(bits)
        } else if is_timestamp {
            ValueForm::Timestamp(
                with_fixed_float(text, growth, fixed_nine@),
                fractional_epoch_fixed(fixed_nine@),
            )
        } else {
            ValueForm::Plain
        },
        KvIrValueKind::Integer(value) => if is_timestamp {
            ValueForm::Timestamp(
                with_integer(text, growth, value as int),
                integer_epoch(value, false),
            )
        } else {
            ValueForm::Plain
        },
        KvIrValueKind::String(value) => if is_timestamp {
            ValueForm::Timestamp(
                with_quoted_bytes(text, growth, value@),
                utf8_text_epoch(value@),
            )
        } else {
            ValueForm::Plain
        },
        KvIrValueKind::EncodedText(value) => if is_timestamp && !is_array {
            let quoted = with_quoted_text(text, growth, value);
            ValueForm::Timestamp(
                quoted,
                match quoted {
                    Ok(after) => utf8_text_epoch(quoted_content(text, after)),
                    Err(_) => Err(JsonTimestampError::InvalidUtf8),
                },
            )
        } else {
            ValueForm::Text(with_text(text, growth, value@, 0, 0, 0))
        },
        KvIrValueKind::EmptyObject => ValueForm::EmptyObject,
        _ => ValueForm::Plain,
    }
}

/// The plan with the value of pair `index` at a node.
pub open spec fn with_planned_value(
    rules: PlanRules<'_>,
    namespace: KvIrNamespace,
    state: PlanState,
    node: int,
    index: int,
) -> Result<PlanState, KvIrArchiveFailure> {
    if index >= rules.pairs.len() {
        Err(
            KvIrArchiveFailure::Invalid(
                KvIrArchiveInvalidData::MissingPlannedPair { pair_index: index as usize },
            ),
        )
    } else {
        let pair = rules.pairs[index];
        let is_array = tree_in(rules.trees, namespace)[node].node_type
            == KvIrNodeType::UnstructuredArray;
        let event = PlannedView::Value {
            namespace,
            node,
            pair: index,
            text: None,
            is_array,
            timestamp: None,
        };
        match value_form(
            pair.value,
            is_timestamp_node(rules, namespace, node),
            is_array,
            state.text,
            value_growth(rules.limits, state.text),
        ) {
            ValueForm::NonFinite(bits) => Err(
                KvIrArchiveFailure::Unsupported {
                    namespace,
                    node_id: pair.node_id,
                    source: KvIrArchiveUnsupported::NonFiniteFloat { bits },
                },
            ),
            ValueForm::Plain => with_planned(rules.limits, state, event),
            ValueForm::EmptyObject => match with_planned(
                rules.limits,
                state,
                PlannedView::ObjectStart { namespace, node },
            ) {
                Err(failure) => Err(failure),
                Ok(opened) => with_planned(rules.limits, opened, PlannedView::ObjectEnd),
            },
            ValueForm::Text(result) => match result {
                Err(failure) => Err(plan_failure(failure, rules.limits, namespace, pair.node_id)),
                Ok(text) => with_planned(
                    rules.limits,
                    PlanState { text, ..state },
                    PlannedView::Value {
                        namespace,
                        node,
                        pair: index,
                        text: Some((state.text.len() as int, text.len() as int)),
                        is_array,
                        timestamp: None,
                    },
                ),
            },
            ValueForm::Timestamp(result, resolved) => match result {
                Err(failure) => Err(plan_failure(failure, rules.limits, namespace, pair.node_id)),
                Ok(text) => match resolved {
                    Err(source) => Err(
                        KvIrArchiveFailure::Timestamp { namespace, node_id: pair.node_id, source },
                    ),
                    Ok(timestamp) => with_planned(
                        rules.limits,
                        PlanState { text, ..state },
                        PlannedView::Value {
                            namespace,
                            node,
                            pair: index,
                            text: Some((state.text.len() as int, text.len() as int)),
                            is_array,
                            timestamp: Some(timestamp),
                        },
                    ),
                },
            },
        }
    }
}

/// The plan with a node and what is below it.
pub open spec fn with_visited(
    rules: PlanRules<'_>,
    namespace: KvIrNamespace,
    state: PlanState,
    node: int,
) -> Result<PlanState, KvIrArchiveFailure>
    decreases tree_in(rules.trees, namespace).len() - node, 1int,
{
    let tree = tree_in(rules.trees, namespace);
    let selection = selection_in(rules.selections, namespace);
    if !selection.included[node] {
        Ok(state)
    } else if selection.selected[node] is Some {
        with_planned_value(rules, namespace, state, node, selection.selected[node]->0)
    } else if tree[node].node_type != KvIrNodeType::Object {
        Err(
            KvIrArchiveFailure::Invalid(
                KvIrArchiveInvalidData::NonObjectAncestor { namespace, node_id: node as u32 },
            ),
        )
    } else {
        match with_planned(rules.limits, state, PlannedView::ObjectStart { namespace, node }) {
            Err(failure) => Err(failure),
            Ok(opened) => {
                let child = first_child_of(tree, node);
                match if child is Some && !(node < child->0 < tree.len()) {
                    Err(KvIrArchiveFailure::SizeOverflow)
                } else {
                    with_siblings(rules, namespace, opened, child, node)
                } {
                    Err(failure) => Err(failure),
                    Ok(content) => with_planned(rules.limits, content, PlannedView::ObjectEnd),
                }
            },
        }
    }
}

/// The plan with a node after `after`, its next siblings, and what is below them.
pub open spec fn with_siblings(
    rules: PlanRules<'_>,
    namespace: KvIrNamespace,
    state: PlanState,
    next: Option<int>,
    after: int,
) -> Result<PlanState, KvIrArchiveFailure>
    decreases tree_in(rules.trees, namespace).len() - after, 0int,
{
    let tree = tree_in(rules.trees, namespace);
    match next {
        None => Ok(state),
        Some(node) => if !(after < node < tree.len()) {
            Err(KvIrArchiveFailure::SizeOverflow)
        } else {
            match with_visited(rules, namespace, state, node) {
                Err(failure) => Err(failure),
                Ok(visited) => with_siblings(
                    rules,
                    namespace,
                    visited,
                    next_sibling_of(tree, node),
                    node,
                ),
            }
        },
    }
}

/// The plan with a whole namespace.
pub open spec fn with_namespace(
    rules: PlanRules<'_>,
    namespace: KvIrNamespace,
    state: PlanState,
) -> Result<PlanState, KvIrArchiveFailure> {
    with_siblings(
        rules,
        namespace,
        state,
        first_child_of(tree_in(rules.trees, namespace), 0),
        0,
    )
}

/// The plan of an event: auto-generated values first.
pub open spec fn event_plan(
    limits: KvIrArchiveLimits,
    trees: Trees,
    pairs: Seq<KvIrPair<'_>>,
    resolver: Option<(PathView, Option<KvIrNamespace>)>,
) -> Result<PlanState, KvIrArchiveFailure> {
    match event_selections(trees, pairs) {
        Err(failure) => Err(failure),
        Ok(selections) => {
            let rules = PlanRules { limits, trees, selections, pairs, resolver };
            match with_namespace(
                rules,
                KvIrNamespace::AutoGenerated,
                PlanState { plan: Seq::empty(), text: Seq::empty() },
            ) {
                Err(failure) => Err(failure),
                Ok(state) => with_namespace(rules, KvIrNamespace::UserGenerated, state),
            }
        },
    }
}

/// A range of the scratch bytes.
#[derive(Clone, Copy, Debug, PartialEq, Eq, Structural)]
pub struct ScratchSpan {
    pub start: usize,
    pub end: usize,
}

/// One planned event.
#[derive(Clone, Copy, Debug)]
pub enum PlannedEvent {
    ObjectStart { namespace: KvIrNamespace, node: usize },
    ObjectEnd,
    Value {
        namespace: KvIrNamespace,
        node: usize,
        pair: usize,
        text: Option<ScratchSpan>,
        is_array: bool,
        timestamp: Option<KvIrResolvedTimestamp>,
    },
}

pub open spec fn span_view(span: Option<ScratchSpan>) -> Option<(int, int)> {
    match span {
        Some(span) => Some((span.start as int, span.end as int)),
        None => None,
    }
}

pub open spec fn timestamp_view(timestamp: Option<KvIrResolvedTimestamp>) -> Option<ResolvedView> {
    match timestamp {
        Some(timestamp) => Some(timestamp@),
        None => None,
    }
}

impl View for PlannedEvent {
    type V = PlannedView;

    open spec fn view(&self) -> PlannedView {
        match *self {
            PlannedEvent::ObjectStart { namespace, node } => PlannedView::ObjectStart {
                namespace,
                node: node as int,
            },
            PlannedEvent::ObjectEnd => PlannedView::ObjectEnd,
            PlannedEvent::Value { namespace, node, pair, text, is_array, timestamp } =>
                PlannedView::Value {
                namespace,
                node: node as int,
                pair: pair as int,
                text: span_view(text),
                is_array,
                timestamp: timestamp_view(timestamp),
            },
        }
    }
}

/// Whether a value goes into a record as it is.
pub open spec fn is_plain(value: KvIrValueKind<'_>) -> bool {
    !(value is EncodedText) && !(value is EmptyObject)
}

/// Whether a planned event refers to what is there.
pub open spec fn is_planned_ok(
    event: PlannedView,
    trees: Trees,
    pairs: Seq<KvIrPair<'_>>,
    text_bytes: int,
    has_resolver: bool,
) -> bool {
    match event {
        PlannedView::ObjectStart { namespace, node } => 0 <= node < tree_in(trees, namespace).len(),
        PlannedView::ObjectEnd => true,
        PlannedView::Value { namespace, node, pair, text, is_array, timestamp } => {
            &&& 0 <= node < tree_in(trees, namespace).len()
            &&& 0 <= pair < pairs.len()
            &&& match text {
                Some((start, end)) => 0 <= start <= end <= text_bytes && (timestamp is Some
                    ==> has_resolver),
                None => is_plain(pairs[pair].value) && timestamp is None,
            }
        },
    }
}

/// Whether all planned events refer to what is there.
pub open spec fn is_plan_ok(
    plan: Seq<PlannedView>,
    trees: Trees,
    pairs: Seq<KvIrPair<'_>>,
    text_bytes: int,
    has_resolver: bool,
) -> bool {
    forall|i: int|
        0 <= i < plan.len() ==> is_planned_ok(
            #[trigger] plan[i],
            trees,
            pairs,
            text_bytes,
            has_resolver,
        )
}

/// One open container of a traversal.
#[derive(Clone, Copy, Debug)]
struct WalkFrame {
    next_child: Option<usize>,
    close_object: bool,
}

/// Last node before the next one.
spec fn before_next(next: Option<usize>) -> int {
    match next {
        Some(node) => node - 1,
        None => 0,
    }
}

/// What the container of a frame still adds.
spec fn with_frame(
    rules: PlanRules<'_>,
    namespace: KvIrNamespace,
    state: PlanState,
    frame: WalkFrame,
) -> Result<PlanState, KvIrArchiveFailure> {
    match with_siblings(
        rules,
        namespace,
        state,
        place(frame.next_child),
        before_next(frame.next_child),
    ) {
        Err(failure) => Err(failure),
        Ok(content) => if frame.close_object {
            with_planned(rules.limits, content, PlannedView::ObjectEnd)
        } else {
            Ok(content)
        },
    }
}

/// What the open containers still add, the innermost first.
spec fn with_frames(
    rules: PlanRules<'_>,
    namespace: KvIrNamespace,
    state: PlanState,
    frames: Seq<WalkFrame>,
) -> Result<PlanState, KvIrArchiveFailure>
    decreases frames.len(),
{
    if frames.len() == 0 {
        Ok(state)
    } else {
        match with_frame(rules, namespace, state, frames.last()) {
            Err(failure) => Err(failure),
            Ok(closed_state) => with_frames(rules, namespace, closed_state, frames.drop_last()),
        }
    }
}

/// Bound on the steps from a node after `after` on.
spec fn steps_from(tree: Seq<ArchiveNode>, next: Option<int>, after: int) -> nat
    decreases tree.len() - after,
{
    match next {
        None => 1,
        Some(node) => if !(after < node < tree.len()) {
            1
        } else {
            1 + steps_from(tree, first_child_of(tree, node), node) + steps_from(
                tree,
                next_sibling_of(tree, node),
                node,
            )
        },
    }
}

spec fn frame_steps(tree: Seq<ArchiveNode>, frames: Seq<WalkFrame>) -> nat
    decreases frames.len(),
{
    if frames.len() == 0 {
        0
    } else {
        frame_steps(tree, frames.drop_last()) + steps_from(
            tree,
            place(frames.last().next_child),
            before_next(frames.last().next_child),
        )
    }
}

proof fn lemma_steps_after(tree: Seq<ArchiveNode>, next: Option<int>, after: int, other: int)
    requires
        next matches Some(node) ==> after < node < tree.len() && other < node,
    ensures
        steps_from(tree, next, after) == steps_from(tree, next, other),
        steps_from(tree, next, after) >= 1,
{
}

proof fn lemma_siblings_after(
    rules: PlanRules<'_>,
    namespace: KvIrNamespace,
    state: PlanState,
    next: Option<int>,
    after: int,
    other: int,
)
    requires
        next matches Some(node) ==> after < node && other < node,
    ensures
        with_siblings(rules, namespace, state, next, after) == with_siblings(
            rules,
            namespace,
            state,
            next,
            other,
        ),
{
}

spec fn is_frame_ok(tree: Seq<ArchiveNode>, frame: WalkFrame) -> bool {
    frame.next_child matches Some(node) ==> 0 < node < tree.len()
}

/// A step that visits a node whole.
proof fn lemma_visited(
    rules: PlanRules<'_>,
    namespace: KvIrNamespace,
    state: PlanState,
    frames: Seq<WalkFrame>,
    node: usize,
    sibling: Option<usize>,
)
    requires
        frames.len() > 0,
        frames.last().next_child == Some(node),
        0 < node < tree_in(rules.trees, namespace).len(),
        place(sibling) == next_sibling_of(tree_in(rules.trees, namespace), node as int),
        sibling matches Some(sibling) ==> node < sibling < tree_in(rules.trees, namespace).len(),
    ensures
        ({
            let tree = tree_in(rules.trees, namespace);
            let moved = frames.update(
                frames.len() - 1,
                WalkFrame { next_child: sibling, ..frames.last() },
            );
            &&& with_frames(rules, namespace, state, frames) == match with_visited(
                rules,
                namespace,
                state,
                node as int,
            ) {
                Err(failure) => Err(failure),
                Ok(visited) => with_frames(rules, namespace, visited, moved),
            }
            &&& frame_steps(tree, frames) == frame_steps(tree, moved) + 1 + steps_from(
                tree,
                first_child_of(tree, node as int),
                node as int,
            )
        }),
{
    let tree = tree_in(rules.trees, namespace);
    let moved = frames.update(
        frames.len() - 1,
        WalkFrame { next_child: sibling, ..frames.last() },
    );
    assert(moved.drop_last() =~= frames.drop_last());
    lemma_steps_after(tree, place(sibling), node as int, before_next(sibling));
    match with_visited(rules, namespace, state, node as int) {
        Err(_) => {},
        Ok(visited) => {
            lemma_siblings_after(
                rules,
                namespace,
                visited,
                place(sibling),
                node as int,
                before_next(sibling),
            );
        },
    }
}

/// A step that opens an object.
proof fn lemma_opened(
    rules: PlanRules<'_>,
    namespace: KvIrNamespace,
    state: PlanState,
    opened: PlanState,
    moved: Seq<WalkFrame>,
    node: usize,
    child: Option<usize>,
)
    requires
        0 < node < tree_in(rules.trees, namespace).len(),
        place(child) == first_child_of(tree_in(rules.trees, namespace), node as int),
        child matches Some(child) ==> node < child < tree_in(rules.trees, namespace).len(),
        selection_in(rules.selections, namespace).included[node as int],
        selection_in(rules.selections, namespace).selected[node as int] is None,
        tree_in(rules.trees, namespace)[node as int].node_type == KvIrNodeType::Object,
        with_planned(
            rules.limits,
            state,
            PlannedView::ObjectStart { namespace, node: node as int },
        ) == Ok::<PlanState, KvIrArchiveFailure>(opened),
    ensures
        ({
            let tree = tree_in(rules.trees, namespace);
            let pushed = moved.push(WalkFrame { next_child: child, close_object: true });
            &&& with_frames(rules, namespace, opened, pushed) == match with_visited(
                rules,
                namespace,
                state,
                node as int,
            ) {
                Err(failure) => Err(failure),
                Ok(visited) => with_frames(rules, namespace, visited, moved),
            }
            &&& frame_steps(tree, pushed) == frame_steps(tree, moved) + steps_from(
                tree,
                first_child_of(tree, node as int),
                node as int,
            )
        }),
{
    let tree = tree_in(rules.trees, namespace);
    let pushed = moved.push(WalkFrame { next_child: child, close_object: true });
    assert(pushed.drop_last() =~= moved);
    lemma_steps_after(tree, place(child), node as int, before_next(child));
    lemma_siblings_after(
        rules,
        namespace,
        opened,
        place(child),
        node as int,
        before_next(child),
    );
}

/// What a plan is made from.
pub struct PlanContext<'a> {
    pub limits: KvIrArchiveLimits,
    pub auto_tree: &'a ArchiveTree,
    pub user_tree: &'a ArchiveTree,
    pub pairs: &'a [KvIrPair<'a>],
    pub resolver: Option<&'a KvIrTimestampResolver>,
}

pub open spec fn resolver_view(resolver: Option<&KvIrTimestampResolver>) -> Option<
    (PathView, Option<KvIrNamespace>),
> {
    match resolver {
        Some(resolver) => Some(resolver@),
        None => None,
    }
}

impl<'a> PlanContext<'a> {
    pub open spec fn trees(&self) -> Trees {
        Trees { auto: self.auto_tree@, user: self.user_tree@ }
    }

    pub open spec fn rules(&self, selections: Selections) -> PlanRules<'a> {
        PlanRules {
            limits: self.limits,
            trees: self.trees(),
            selections,
            pairs: self.pairs@,
            resolver: resolver_view(self.resolver),
        }
    }

    pub open spec fn wf(&self) -> bool {
        &&& self.auto_tree.wf()
        &&& self.user_tree.wf()
        &&& self.auto_tree@.len() > 0
        &&& self.user_tree@.len() > 0
        &&& self.auto_tree.path() == path_in(
            resolver_view(self.resolver),
            KvIrNamespace::AutoGenerated,
        )
        &&& self.user_tree.path() == path_in(
            resolver_view(self.resolver),
            KvIrNamespace::UserGenerated,
        )
    }

    /// Returns the schema tree of a namespace.
    fn tree(&self, namespace: KvIrNamespace) -> (tree: &'a ArchiveTree)
        requires
            self.wf(),
        ensures
            tree@ == tree_in(self.trees(), namespace),
            tree.wf(),
            tree@.len() > 0,
            tree.path() == path_in(resolver_view(self.resolver), namespace),
    {
        match namespace {
            KvIrNamespace::AutoGenerated => self.auto_tree,
            KvIrNamespace::UserGenerated => self.user_tree,
        }
    }

    /// Returns whether a node is the one that the timestamp path leads to.
    fn is_timestamp(&self, namespace: KvIrNamespace, node: usize, selections: Ghost<Selections>) -> (result:
        bool)
        requires
            self.wf(),
            node < tree_in(self.trees(), namespace).len(),
        ensures
            result == is_timestamp_node(self.rules(selections@), namespace, node as int),
    {
        match self.resolver {
            None => false,
            Some(resolver) => {
                let length = self.tree(namespace).prefix_length(node);
                let components = resolver.path().components();
                assert(resolver@.0.components.len() == components@.len());
                match length {
                    Some(length) => length == components.len(),
                    None => false,
                }
            },
        }
    }
}

/// Whether a record may need text of its own: for an encoded text, or for a timestamp.
pub open spec fn needs_text(pairs: Seq<KvIrPair<'_>>, resolves: bool) -> bool {
    resolves || exists|i: int| 0 <= i < pairs.len() && (#[trigger] pairs[i]).value is EncodedText
}

/// Whether this memory can be refused while the selected values are planned: for one event, for one
/// open object, and for no more reconstructed bytes than the limits allow.
pub open spec fn is_plan_request(
    limits: KvIrArchiveLimits,
    pairs: Seq<KvIrPair<'_>>,
    resolves: bool,
    failure: KvIrArchiveFailure,
) -> bool {
    ||| failure == archive_refused(KvIrArchiveResource::RecordPlan, 1) && 1 <= limits.record_events
    ||| failure == archive_refused(KvIrArchiveResource::TraversalStack, 1)
    ||| needs_text(pairs, resolves) && (
    failure matches KvIrArchiveFailure::AllocationFailed { resource, requested_additional }
        && resource == KvIrArchiveResource::ReconstructedText && 0 < requested_additional
        <= limits.reconstructed_value_bytes && requested_additional
        <= limits.reconstructed_record_bytes)
}

/// Whether this memory can be refused to the plan of an event: for the selection in each tree, and
/// for the plan once the pairs are selected.
pub open spec fn is_event_plan_request(
    limits: KvIrArchiveLimits,
    trees: Trees,
    pairs: Seq<KvIrPair<'_>>,
    resolves: bool,
    failure: KvIrArchiveFailure,
) -> bool {
    ||| failure == archive_refused(KvIrArchiveResource::SelectionMap, trees.auto.len() as int)
    ||| failure == archive_refused(KvIrArchiveResource::SelectionMap, trees.user.len() as int)
    ||| event_selections(trees, pairs) is Ok && is_plan_request(limits, pairs, resolves, failure)
}

/// What planning came to.
pub open spec fn planned_as(
    limits: KvIrArchiveLimits,
    pairs: Seq<KvIrPair<'_>>,
    resolves: bool,
    expected: Result<PlanState, KvIrArchiveFailure>,
    after: PlanState,
    result: Result<(), KvIrArchiveFailure>,
) -> bool {
    match result {
        Ok(_) => expected == Ok::<PlanState, KvIrArchiveFailure>(after),
        Err(failure) => is_plan_request(limits, pairs, resolves, failure) || expected == Err::<
            PlanState,
            KvIrArchiveFailure,
        >(failure),
    }
}

/// Index that stands for no pair.
const NO_PAIR: usize = usize::MAX;

pub open spec fn pair_place(index: usize) -> Option<int> {
    if index == usize::MAX {
        None
    } else {
        Some(index as int)
    }
}

pub open spec fn selection_view(selected: Seq<usize>, included: Seq<bool>) -> Selection {
    Selection { selected: selected.map_values(|index: usize| pair_place(index)), included }
}

/// Makes the selection of a tree with `length` nodes empty.
fn resize_selection(selected: &mut Vec<usize>, included: &mut Vec<bool>, length: usize) -> (result:
    Result<(), KvIrArchiveFailure>)
    ensures
        match result {
            Ok(_) => {
                &&& final(selected)@ == Seq::new(length as nat, |i: int| NO_PAIR)
                &&& final(included)@ == Seq::new(length as nat, |i: int| false)
            },
            Err(failure) => failure == archive_refused(
                KvIrArchiveResource::SelectionMap,
                length as int,
            ),
        },
{
    selected.clear();
    included.clear();
    let reserved = selected.try_reserve(length).is_ok() && included.try_reserve(length).is_ok();
    clear_reserved_selection(selected, included, length, reserved)
}

/// Makes the selection of a tree with `length` nodes empty, given whether there is memory for it.
fn clear_reserved_selection(
    selected: &mut Vec<usize>,
    included: &mut Vec<bool>,
    length: usize,
    reserved: bool,
) -> (result: Result<(), KvIrArchiveFailure>)
    ensures
        match result {
            Ok(_) => {
                &&& reserved
                &&& final(selected)@ == Seq::new(length as nat, |i: int| NO_PAIR)
                &&& final(included)@ == Seq::new(length as nat, |i: int| false)
            },
            Err(failure) => {
                &&& !reserved
                &&& final(selected)@ == Seq::<usize>::empty()
                &&& final(included)@ == Seq::<bool>::empty()
                &&& failure == archive_refused(KvIrArchiveResource::SelectionMap, length as int)
            },
        },
{
    selected.clear();
    included.clear();
    if !reserved {
        assert(selected@ =~= Seq::<usize>::empty());
        assert(included@ =~= Seq::<bool>::empty());
        return Err(archive_allocation(KvIrArchiveResource::SelectionMap, length));
    }
    let mut filled: usize = 0;
    while filled < length
        invariant
            filled <= length,
            selected@.len() == filled,
            included@.len() == filled,
            forall|i: int| 0 <= i < filled ==> selected@[i] == NO_PAIR,
            forall|i: int| 0 <= i < filled ==> !included@[i],
        decreases length - filled,
    {
        selected.push(NO_PAIR);
        included.push(false);
        filled += 1;
    }
    assert(selected@ =~= Seq::new(length as nat, |i: int| NO_PAIR));
    assert(included@ =~= Seq::new(length as nat, |i: int| false));
    Ok(())
}

/// Selects the pair `index` at a node.
fn select_pair(
    tree: &ArchiveTree,
    selected: &mut Vec<usize>,
    included: &mut Vec<bool>,
    namespace: KvIrNamespace,
    node_id: u32,
    index: usize,
) -> (result: Result<(), KvIrArchiveFailure>)
    requires
        tree.wf(),
        old(selected)@.len() == tree@.len(),
        old(included)@.len() == tree@.len(),
        index < usize::MAX,
    ensures
        ({
            let expected = with_selected(
                tree@,
                selection_view(old(selected)@, old(included)@),
                namespace,
                node_id,
                index as int,
            );
            match result {
                Ok(_) => expected == Ok::<Selection, KvIrArchiveFailure>(
                    selection_view(final(selected)@, final(included)@),
                ) && final(selected)@.len() == tree@.len() && final(included)@.len() == tree@.len(),
                Err(failure) => expected == Err::<Selection, KvIrArchiveFailure>(failure),
            }
        }),
{
    let node = node_id as usize;
    if node == 0 || node >= tree.len() {
        return Err(
            KvIrArchiveFailure::Invalid(
                KvIrArchiveInvalidData::MissingSchemaNode { namespace, node_id },
            ),
        );
    }
    if selected[node] != NO_PAIR {
        return Err(
            KvIrArchiveFailure::Invalid(
                KvIrArchiveInvalidData::DuplicateEventNode { namespace, node_id },
            ),
        );
    }
    let ghost view = selection_view(selected@, included@);
    let ghost before = included@;
    selected.set(node, index);
    let mut ancestor: usize = node;
    proof {
        tree.lemma_is_tree();
    }
    while ancestor != 0
        invariant
            tree.wf(),
            is_tree(tree@),
            node < tree@.len(),
            ancestor <= node,
            included@.len() == tree@.len(),
            before.len() == tree@.len(),
            forall|i: int|
                0 <= i < before.len() ==> (#[trigger] included@[i] || is_on_way(
                    tree@,
                    i,
                    ancestor as int,
                )) == (before[i] || is_on_way(tree@, i, node as int)),
        decreases ancestor,
    {
        proof {
            assert(has_parent(tree@, ancestor as int));
        }
        let ghost marked = included@;
        included.set(ancestor, true);
        let parent = tree.parent(ancestor);
        proof {
            assert forall|i: int| 0 <= i < before.len() implies (#[trigger] included@[i]
                || is_on_way(tree@, i, parent as int)) == (before[i] || is_on_way(
                tree@,
                i,
                node as int,
            )) by {
                assert((marked[i] || is_on_way(tree@, i, ancestor as int)) == (before[i]
                    || is_on_way(tree@, i, node as int)));
            }
        }
        ancestor = parent;
    }
    let ghost marked = included@;
    included.set(0, true);
    proof {
        let expected = with_selected(tree@, view, namespace, node_id, index as int);
        let after = selection_view(selected@, included@);
        assert(after.selected =~= expected->Ok_0.selected);
        assert forall|i: int| 0 <= i < before.len() implies included@[i] == (before[i]
            || is_on_way(tree@, i, node as int)) by {
            assert((marked[i] || is_on_way(tree@, i, 0)) == (before[i] || is_on_way(
                tree@,
                i,
                node as int,
            )));
        }
        assert(after.included =~= expected->Ok_0.included);
    }
    Ok(())
}

/// Reusable planner of records.
pub struct RecordPlanner {
    selected_auto: Vec<usize>,
    selected_user: Vec<usize>,
    included_auto: Vec<bool>,
    included_user: Vec<bool>,
    traversal: Vec<WalkFrame>,
    plan: Vec<PlannedEvent>,
    reconstructed: Vec<u8>,
}

pub open spec fn plan_views(plan: Seq<PlannedEvent>) -> Seq<PlannedView> {
    plan.map_values(|event: PlannedEvent| event@)
}

fn report_plan_failure(
    failure: TextFailure,
    limits: KvIrArchiveLimits,
    namespace: KvIrNamespace,
    node_id: u32,
) -> (result: KvIrArchiveFailure)
    ensures
        result == plan_failure(failure, limits, namespace, node_id),
{
    match failure {
        TextFailure::Malformed(fault) => KvIrArchiveFailure::Unsupported {
            namespace,
            node_id,
            source: report_text_fault(fault),
        },
        TextFailure::ValueLimit { actual } => report_archive_limit(
            KvIrArchiveLimitResource::ReconstructedValueBytes,
            actual as u64,
            limits.reconstructed_value_bytes,
        ),
        TextFailure::BufferLimit { actual } => report_archive_limit(
            KvIrArchiveLimitResource::ReconstructedRecordBytes,
            actual as u64,
            limits.reconstructed_record_bytes,
        ),
        TextFailure::AllocationFailed { requested_additional } => archive_allocation(
            KvIrArchiveResource::ReconstructedText,
            requested_additional,
        ),
        TextFailure::SizeOverflow => KvIrArchiveFailure::SizeOverflow,
    }
}

proof fn lemma_extends_twice(first: Seq<u8>, second: Seq<u8>, third: Seq<u8>)
    requires
        extends(second, first),
        extends(third, second),
    ensures
        extends(third, first),
{
    assert forall|i: int| 0 <= i < first.len() implies third[i] == first[i] by {
        assert(third.take(second.len() as int)[i] == third[i]);
        assert(second.take(first.len() as int)[i] == second[i]);
    }
    assert(third.take(first.len() as int) =~= first);
}

/// Appends a text within quotes.
fn append_quoted(output: &mut Vec<u8>, growth: GrowthLimits, value: &[u8]) -> (result: Result<
    (),
    TextFailure,
>)
    ensures
        appended(growth, with_quoted_bytes(old(output)@, growth, value@), final(output)@, result),
        extends(final(output)@, old(output)@),
{
    let quote: [u8; 1] = [QUOTE];
    assert(quote@ =~= seq![QUOTE]);
    append_bytes(output, growth, &quote)?;
    let ghost opened = output@;
    let content = append_bytes(output, growth, value);
    proof {
        lemma_extends_twice(old(output)@, opened, output@);
    }
    match content {
        Ok(_) => {},
        Err(failure) => {
            return Err(failure);
        },
    }
    let ghost middle = output@;
    let closed = append_bytes(output, growth, &quote);
    proof {
        lemma_extends_twice(old(output)@, middle, output@);
    }
    closed
}

/// Appends an encoded text within quotes.
fn append_quoted_text(output: &mut Vec<u8>, growth: GrowthLimits, value: KvIrEncodedText<'_>) -> (result:
    Result<(), TextFailure>)
    ensures
        appended(growth, with_quoted_text(old(output)@, growth, value), final(output)@, result),
        extends(final(output)@, old(output)@),
        result is Ok ==> final(output)@.len() >= old(output)@.len() + 2,
{
    let quote: [u8; 1] = [QUOTE];
    assert(quote@ =~= seq![QUOTE]);
    append_bytes(output, growth, &quote)?;
    let ghost opened = output@;
    let content = append_text(output, growth, value);
    proof {
        lemma_extends_twice(old(output)@, opened, output@);
    }
    match content {
        Ok(_) => {},
        Err(failure) => {
            return Err(failure);
        },
    }
    let ghost middle = output@;
    let closed = append_bytes(output, growth, &quote);
    proof {
        lemma_extends_twice(old(output)@, middle, output@);
    }
    closed
}

/// Appends the spelling of a float with nine fractional digits.
fn append_fixed_float(output: &mut Vec<u8>, growth: GrowthLimits, spelling: &[u8]) -> (result:
    Result<(), TextFailure>)
    ensures
        appended(growth, with_fixed_float(old(output)@, growth, spelling@), final(output)@, result),
        extends(final(output)@, old(output)@),
{
    assert(output@.take(output@.len() as int) =~= output@);
    if spelling.len() > FIXED_FLOAT_BYTES {
        return Err(TextFailure::SizeOverflow);
    }
    append_bytes(output, growth, spelling)
}

/// Appends a planned event, given whether there is memory for it.
pub fn push_reserved_event(plan: &mut Vec<PlannedEvent>, event: PlannedEvent, reserved: bool) -> (result:
    Result<(), KvIrArchiveFailure>)
    ensures
        match result {
            Ok(_) => reserved && final(plan)@ == old(plan)@.push(event),
            Err(failure) => !reserved && final(plan)@ == old(plan)@ && failure == archive_refused(
                KvIrArchiveResource::RecordPlan,
                1,
            ),
        },
{
    if !reserved {
        return Err(archive_allocation(KvIrArchiveResource::RecordPlan, 1));
    }
    plan.push(event);
    Ok(())
}

impl RecordPlanner {
    spec fn state(&self) -> PlanState {
        PlanState { plan: plan_views(self.plan@), text: self.reconstructed@ }
    }

    spec fn selections(&self) -> Selections {
        Selections {
            auto: selection_view(self.selected_auto@, self.included_auto@),
            user: selection_view(self.selected_user@, self.included_user@),
        }
    }

    spec fn wf(&self, context: &PlanContext<'_>) -> bool {
        &&& self.selected_auto@.len() == context.auto_tree@.len()
        &&& self.included_auto@.len() == context.auto_tree@.len()
        &&& self.selected_user@.len() == context.user_tree@.len()
        &&& self.included_user@.len() == context.user_tree@.len()
        &&& is_plan_ok(
            self.state().plan,
            context.trees(),
            context.pairs@,
            self.reconstructed@.len() as int,
            context.resolver is Some,
        )
    }

    spec fn same_selection(&self, other: &RecordPlanner) -> bool {
        &&& self.selected_auto@ == other.selected_auto@
        &&& self.selected_user@ == other.selected_user@
        &&& self.included_auto@ == other.included_auto@
        &&& self.included_user@ == other.included_user@
    }

    /// Meaning of the last plan.
    pub closed spec fn plan_view(&self) -> PlanState {
        self.state()
    }

    /// Creates a planner without a plan.
    pub fn new() -> (planner: Self)
        ensures
            planner.plan_view() == (PlanState { plan: Seq::empty(), text: Seq::empty() }),
    {
        let planner = RecordPlanner {
            selected_auto: Vec::new(),
            selected_user: Vec::new(),
            included_auto: Vec::new(),
            included_user: Vec::new(),
            traversal: Vec::new(),
            plan: Vec::new(),
            reconstructed: Vec::new(),
        };
        assert(planner.state().plan =~= Seq::<PlannedView>::empty());
        assert(planner.state().text =~= Seq::<u8>::empty());
        planner
    }

    /// Number of planned events.
    pub fn len(&self) -> (length: usize)
        ensures
            length == self.plan_view().plan.len(),
    {
        self.plan.len()
    }

    /// Returns a planned event.
    pub fn event(&self, index: usize) -> (event: PlannedEvent)
        requires
            index < self.plan_view().plan.len(),
        ensures
            event@ == self.plan_view().plan[index as int],
    {
        self.plan[index]
    }

    /// Returns the scratch bytes of the plan.
    pub fn text(&self) -> (bytes: &[u8])
        ensures
            bytes@ == self.plan_view().text,
    {
        self.reconstructed.as_slice()
    }

    fn push_plan(&mut self, context: &PlanContext<'_>, event: PlannedEvent) -> (result: Result<
        (),
        KvIrArchiveFailure,
    >)
        requires
            old(self).wf(context),
            is_planned_ok(
                event@,
                context.trees(),
                context.pairs@,
                old(self).reconstructed@.len() as int,
                context.resolver is Some,
            ),
        ensures
            final(self).wf(context),
            final(self).same_selection(old(self)),
            final(self).traversal@ == old(self).traversal@,
            planned_as(
                context.limits,
                context.pairs@,
                context.resolver is Some,
                with_planned(context.limits, old(self).state(), event@),
                final(self).state(),
                result,
            ),
    {
        if self.plan.len() == usize::MAX {
            return Err(KvIrArchiveFailure::SizeOverflow);
        }
        let length = self.plan.len() as u64 + 1;
        if length > context.limits.record_events {
            return Err(
                report_archive_limit(
                    KvIrArchiveLimitResource::RecordEvents,
                    length,
                    context.limits.record_events,
                ),
            );
        }
        let reserved = self.plan.try_reserve(1).is_ok();
        let result = push_reserved_event(&mut self.plan, event, reserved);
        proof {
            if result is Ok {
                assert(self.state().plan =~= old(self).state().plan.push(event@));
            } else {
                assert(self.state().plan =~= old(self).state().plan);
            }
        }
        result
    }

    /// Plans a value whose text was just appended, from `start` on.
    fn push_text_value(
        &mut self,
        context: &PlanContext<'_>,
        namespace: KvIrNamespace,
        node: usize,
        pair: usize,
        start: usize,
        is_array: bool,
        timestamp: Option<KvIrResolvedTimestamp>,
    ) -> (result: Result<(), KvIrArchiveFailure>)
        requires
            old(self).wf(context),
            node < tree_in(context.trees(), namespace).len(),
            pair < context.pairs@.len(),
            start <= old(self).reconstructed@.len(),
            timestamp is Some ==> context.resolver is Some,
        ensures
            final(self).wf(context),
            final(self).same_selection(old(self)),
            final(self).traversal@ == old(self).traversal@,
            planned_as(
                context.limits,
                context.pairs@,
                context.resolver is Some,
                with_planned(
                    context.limits,
                    old(self).state(),
                    PlannedView::Value {
                        namespace,
                        node: node as int,
                        pair: pair as int,
                        text: Some((start as int, old(self).reconstructed@.len() as int)),
                        is_array,
                        timestamp: timestamp_view(timestamp),
                    },
                ),
                final(self).state(),
                result,
            ),
    {
        let end = self.reconstructed.len();
        self.push_plan(
            context,
            PlannedEvent::Value {
                namespace,
                node,
                pair,
                text: Some(ScratchSpan { start, end }),
                is_array,
                timestamp,
            },
        )
    }

    /// Plans the value of a pair at a node.
    fn plan_selected(
        &mut self,
        context: &PlanContext<'_>,
        namespace: KvIrNamespace,
        node: usize,
        index: usize,
    ) -> (result: Result<(), KvIrArchiveFailure>)
        requires
            context.wf(),
            old(self).wf(context),
            node < tree_in(context.trees(), namespace).len(),
        ensures
            result is Ok ==> final(self).wf(context),
            final(self).same_selection(old(self)),
            final(self).traversal@ == old(self).traversal@,
            planned_as(
                context.limits,
                context.pairs@,
                context.resolver is Some,
                with_planned_value(
                    context.rules(old(self).selections()),
                    namespace,
                    old(self).state(),
                    node as int,
                    index as int,
                ),
                final(self).state(),
                result,
            ),
    {
        if index >= context.pairs.len() {
            return Err(
                KvIrArchiveFailure::Invalid(
                    KvIrArchiveInvalidData::MissingPlannedPair { pair_index: index },
                ),
            );
        }
        let pair = context.pairs[index];
        let is_array = context.tree(namespace).node_type(node) == KvIrNodeType::UnstructuredArray;
        let is_timestamp = context.is_timestamp(namespace, node, Ghost(self.selections()));
        let start = self.reconstructed.len();
        let growth = GrowthLimits {
            value_start: start,
            value_bytes: context.limits.reconstructed_value_bytes,
            buffer_bytes: context.limits.reconstructed_record_bytes,
        };
        let (text, resolved) = match pair.value {
            KvIrValueKind::EmptyObject => {
                self.push_plan(context, PlannedEvent::ObjectStart { namespace, node })?;
                return self.push_plan(context, PlannedEvent::ObjectEnd);
            },
            KvIrValueKind::Float { bits, fixed_nine } => {
                if (bits >> 52) & 0x7ff == 0x7ff {
                    return Err(
                        KvIrArchiveFailure::Unsupported {
                            namespace,
                            node_id: pair.node_id,
                            source: KvIrArchiveUnsupported::NonFiniteFloat { bits },
                        },
                    );
                }
                if !is_timestamp {
                    return self.push_plan(
                        context,
                        PlannedEvent::Value {
                            namespace,
                            node,
                            pair: index,
                            text: None,
                            is_array,
                            timestamp: None,
                        },
                    );
                }
                (
                    append_fixed_float(&mut self.reconstructed, growth, fixed_nine),
                    KvIrTimestampResolver::resolve_fixed_nine_float(fixed_nine),
                )
            },
            KvIrValueKind::Integer(value) => {
                if !is_timestamp {
                    return self.push_plan(
                        context,
                        PlannedEvent::Value {
                            namespace,
                            node,
                            pair: index,
                            text: None,
                            is_array,
                            timestamp: None,
                        },
                    );
                }
                (
                    append_integer(&mut self.reconstructed, growth, value),
                    KvIrTimestampResolver::resolve_integer(value),
                )
            },
            KvIrValueKind::String(value) => {
                if !is_timestamp {
                    return self.push_plan(
                        context,
                        PlannedEvent::Value {
                            namespace,
                            node,
                            pair: index,
                            text: None,
                            is_array,
                            timestamp: None,
                        },
                    );
                }
                (
                    append_quoted(&mut self.reconstructed, growth, value),
                    KvIrTimestampResolver::resolve_string(value),
                )
            },
            KvIrValueKind::EncodedText(value) => {
                if is_timestamp && !is_array {
                    let quoted = append_quoted_text(&mut self.reconstructed, growth, value);
                    let resolved = match quoted {
                        Ok(_) => KvIrTimestampResolver::resolve_string(
                            slice_subrange(
                                self.reconstructed.as_slice(),
                                start + 1,
                                self.reconstructed.len() - 1,
                            ),
                        ),
                        Err(_) => Err(JsonTimestampError::InvalidUtf8),
                    };
                    (quoted, resolved)
                } else {
                    match append_text(&mut self.reconstructed, growth, value) {
                        Ok(_) => {},
                        Err(failure) => {
                            return Err(
                                report_plan_failure(
                                    failure,
                                    context.limits,
                                    namespace,
                                    pair.node_id,
                                ),
                            );
                        },
                    }
                    return self.push_text_value(
                        context,
                        namespace,
                        node,
                        index,
                        start,
                        is_array,
                        None,
                    );
                }
            },
            _ => {
                return self.push_plan(
                    context,
                    PlannedEvent::Value {
                        namespace,
                        node,
                        pair: index,
                        text: None,
                        is_array,
                        timestamp: None,
                    },
                );
            },
        };
        match text {
            Ok(_) => {},
            Err(failure) => {
                return Err(
                    report_plan_failure(failure, context.limits, namespace, pair.node_id),
                );
            },
        }
        match resolved {
            Ok(timestamp) => self.push_text_value(
                context,
                namespace,
                node,
                index,
                start,
                is_array,
                Some(timestamp),
            ),
            Err(source) => Err(
                KvIrArchiveFailure::Timestamp { namespace, node_id: pair.node_id, source },
            ),
        }
    }

    fn push_frame(&mut self, frame: WalkFrame) -> (result: Result<(), KvIrArchiveFailure>)
        ensures
            final(self).same_selection(old(self)),
            final(self).plan@ == old(self).plan@,
            final(self).reconstructed@ == old(self).reconstructed@,
            match result {
                Ok(_) => final(self).traversal@ == old(self).traversal@.push(frame),
                Err(failure) => failure == archive_refused(KvIrArchiveResource::TraversalStack, 1),
            },
    {
        let reserved = self.traversal.try_reserve(1).is_ok();
        self.push_reserved_frame(frame, reserved)
    }

    /// Opens a frame of the walk, given whether there is memory for it.
    fn push_reserved_frame(&mut self, frame: WalkFrame, reserved: bool) -> (result: Result<
        (),
        KvIrArchiveFailure,
    >)
        ensures
            final(self).same_selection(old(self)),
            final(self).plan@ == old(self).plan@,
            final(self).reconstructed@ == old(self).reconstructed@,
            match result {
                Ok(_) => reserved && final(self).traversal@ == old(self).traversal@.push(frame),
                Err(failure) => {
                    &&& !reserved
                    &&& final(self).traversal@ == old(self).traversal@
                    &&& failure == archive_refused(KvIrArchiveResource::TraversalStack, 1)
                },
            },
    {
        if !reserved {
            return Err(archive_allocation(KvIrArchiveResource::TraversalStack, 1));
        }
        self.traversal.push(frame);
        Ok(())
    }

    /// Returns whether a node is included, and the index of the pair selected at it.
    fn selected_at(&self, context: &PlanContext<'_>, namespace: KvIrNamespace, node: usize) -> (result:
        (bool, usize))
        requires
            self.wf(context),
            node < tree_in(context.trees(), namespace).len(),
        ensures
            result.0 == selection_in(self.selections(), namespace).included[node as int],
            pair_place(result.1) == selection_in(
                self.selections(),
                namespace,
            ).selected[node as int],
    {
        match namespace {
            KvIrNamespace::AutoGenerated => (self.included_auto[node], self.selected_auto[node]),
            KvIrNamespace::UserGenerated => (self.included_user[node], self.selected_user[node]),
        }
    }

    /// Plans the values of a namespace, each within the objects on its way.
    fn plan_namespace(&mut self, context: &PlanContext<'_>, namespace: KvIrNamespace) -> (result:
        Result<(), KvIrArchiveFailure>)
        requires
            context.wf(),
            old(self).wf(context),
        ensures
            result is Ok ==> final(self).wf(context),
            final(self).same_selection(old(self)),
            planned_as(
                context.limits,
                context.pairs@,
                context.resolver is Some,
                with_namespace(
                    context.rules(old(self).selections()),
                    namespace,
                    old(self).state(),
                ),
                final(self).state(),
                result,
            ),
    {
        let ghost rules = context.rules(self.selections());
        let ghost selections = self.selections();
        let ghost tree_view = tree_in(rules.trees, namespace);
        let ghost expected = with_namespace(rules, namespace, self.state());
        self.traversal.clear();
        let tree = context.tree(namespace);
        let first_child = tree.first_child(0);
        self.push_frame(WalkFrame { next_child: first_child, close_object: false })?;
        proof {
            assert(self.traversal@.drop_last() =~= Seq::<WalkFrame>::empty());
            reveal_with_fuel(with_frames, 2);
            lemma_siblings_after(
                rules,
                namespace,
                self.state(),
                place(first_child),
                0,
                before_next(first_child),
            );
        }
        while self.traversal.len() > 0
            invariant
                context.wf(),
                self.wf(context),
                self.same_selection(old(self)),
                selections == self.selections(),
                rules == context.rules(selections),
                tree_view == tree_in(rules.trees, namespace),
                tree@ == tree_view,
                tree.wf(),
                expected == with_namespace(
                    context.rules(old(self).selections()),
                    namespace,
                    old(self).state(),
                ),
                with_frames(rules, namespace, self.state(), self.traversal@) == expected,
                forall|i: int|
                    0 <= i < self.traversal@.len() ==> is_frame_ok(
                        tree_view,
                        #[trigger] self.traversal@[i],
                    ),
            decreases frame_steps(tree_view, self.traversal@),
        {
            let ghost frames = self.traversal@;
            let last = self.traversal.len() - 1;
            let frame = self.traversal[last];
            assert(is_frame_ok(tree_view, self.traversal@[last as int]));
            match frame.next_child {
                None => {
                    self.traversal.pop();
                    assert(self.traversal@ =~= frames.drop_last());
                    if frame.close_object {
                        self.push_plan(context, PlannedEvent::ObjectEnd)?;
                    }
                },
                Some(node) => {
                    let sibling = tree.next_sibling(node);
                    let moved_frame = WalkFrame { next_child: sibling, ..frame };
                    self.traversal.set(last, moved_frame);
                    let ghost moved = self.traversal@;
                    proof {
                        lemma_visited(rules, namespace, self.state(), frames, node, sibling);
                    }
                    let (is_included, pair) = self.selected_at(context, namespace, node);
                    if is_included {
                        if pair != NO_PAIR {
                            self.plan_selected(context, namespace, node, pair)?;
                        } else {
                            if tree.node_type(node) != KvIrNodeType::Object {
                                return Err(
                                    KvIrArchiveFailure::Invalid(
                                        KvIrArchiveInvalidData::NonObjectAncestor {
                                            namespace,
                                            node_id: #[verifier::truncate] (node as u32),
                                        },
                                    ),
                                );
                            }
                            let child = tree.first_child(node);
                            let ghost before = self.state();
                            self.push_plan(context, PlannedEvent::ObjectStart { namespace, node })?;
                            let ghost opened = self.state();
                            self.push_frame(
                                WalkFrame { next_child: child, close_object: true },
                            )?;
                            proof {
                                lemma_opened(
                                    rules,
                                    namespace,
                                    before,
                                    opened,
                                    moved,
                                    node,
                                    child,
                                );
                            }
                        }
                    }
                },
            }
        }
        Ok(())
    }

    /// Selects the pairs of an event.
    fn prepare_selection(&mut self, context: &PlanContext<'_>) -> (result: Result<
        (),
        KvIrArchiveFailure,
    >)
        requires
            context.wf(),
            old(self).plan@.len() == 0,
        ensures
            final(self).plan@ == old(self).plan@,
            final(self).reconstructed@ == old(self).reconstructed@,
            match result {
                Ok(_) => final(self).wf(context) && event_selections(
                    context.trees(),
                    context.pairs@,
                ) == Ok::<Selections, KvIrArchiveFailure>(final(self).selections()),
                Err(failure) => failure == archive_refused(
                    KvIrArchiveResource::SelectionMap,
                    context.auto_tree@.len() as int,
                ) || failure == archive_refused(
                    KvIrArchiveResource::SelectionMap,
                    context.user_tree@.len() as int,
                ) || event_selections(context.trees(), context.pairs@) == Err::<
                    Selections,
                    KvIrArchiveFailure,
                >(failure),
            },
    {
        resize_selection(
            &mut self.selected_auto,
            &mut self.included_auto,
            context.auto_tree.len(),
        )?;
        resize_selection(
            &mut self.selected_user,
            &mut self.included_user,
            context.user_tree.len(),
        )?;
        let ghost trees = context.trees();
        let ghost pairs = context.pairs@;
        let mut index: usize = 0;
        proof {
            let selections = self.selections();
            assert(selections.auto.selected =~= no_selection(trees.auto).selected);
            assert(selections.auto.included =~= no_selection(trees.auto).included);
            assert(selections.user.selected =~= no_selection(trees.user).selected);
            assert(selections.user.included =~= no_selection(trees.user).included);
        }
        while index < context.pairs.len()
            invariant
                context.wf(),
                self.wf(context),
                self.plan@ == old(self).plan@,
                self.reconstructed@ == old(self).reconstructed@,
                trees == context.trees(),
                pairs == context.pairs@,
                index <= pairs.len(),
                with_pairs_from(trees, self.selections(), pairs, index as int) == event_selections(
                    trees,
                    pairs,
                ),
            decreases pairs.len() - index,
        {
            let pair = context.pairs[index];
            match pair.namespace {
                KvIrNamespace::AutoGenerated => {
                    select_pair(
                        context.auto_tree,
                        &mut self.selected_auto,
                        &mut self.included_auto,
                        pair.namespace,
                        pair.node_id,
                        index,
                    )?;
                },
                KvIrNamespace::UserGenerated => {
                    select_pair(
                        context.user_tree,
                        &mut self.selected_user,
                        &mut self.included_user,
                        pair.namespace,
                        pair.node_id,
                        index,
                    )?;
                },
            }
            index += 1;
        }
        Ok(())
    }

    /// Plans the record of an event.
    pub fn plan_event(&mut self, context: &PlanContext<'_>) -> (result: Result<
        (),
        KvIrArchiveFailure,
    >)
        requires
            context.wf(),
        ensures
            ({
                let expected = event_plan(
                    context.limits,
                    context.trees(),
                    context.pairs@,
                    resolver_view(context.resolver),
                );
                match result {
                    Ok(_) => expected == Ok::<PlanState, KvIrArchiveFailure>(
                        final(self).plan_view(),
                    ),
                    Err(failure) => is_event_plan_request(
                        context.limits,
                        context.trees(),
                        context.pairs@,
                        context.resolver is Some,
                        failure,
                    ) || expected == Err::<PlanState, KvIrArchiveFailure>(failure),
                }
            }),
            result is Ok ==> is_plan_ok(
                final(self).plan_view().plan,
                context.trees(),
                context.pairs@,
                final(self).plan_view().text.len() as int,
                context.resolver is Some,
            ),
    {
        self.plan.clear();
        self.reconstructed.clear();
        proof {
            assert(self.state().plan =~= Seq::<PlannedView>::empty());
            assert(self.state().text =~= Seq::<u8>::empty());
        }
        self.prepare_selection(context)?;
        self.plan_namespace(context, KvIrNamespace::AutoGenerated)?;
        self.plan_namespace(context, KvIrNamespace::UserGenerated)?;
        Ok(())
    }
}

} // verus!

//! Which schema nodes an event selects, and the depth-first order in which they come.

use vstd::prelude::*;

use crate::kv_ir::{KvIrNamespace, KvIrSchemaEntry};
use crate::owned_options::{
    KvIrOwnedEventError, KvIrOwnedEventLimitResource, KvIrOwnedEventResource,
};
use crate::probe_table::{
    insert_slot, lemma_empty_slot, lemma_empty_table, lemma_found_before_empty, next_slot, steps,
    table_ok,
};

verus! {

/// Whether every parent stands before its children.
pub open spec fn is_schema(schema: Seq<KvIrSchemaEntry<'_>>) -> bool {
    forall|i: int|
        0 <= i < schema.len() ==> ((#[trigger] schema[i]).parent_id matches Some(parent) ==> parent
            < i)
}

/// Whether a node is a selected child of another.
pub open spec fn is_child(
    schema: Seq<KvIrSchemaEntry<'_>>,
    ids: Seq<int>,
    parent: int,
    node: int,
) -> bool {
    ids.contains(node) && (schema[node].parent_id matches Some(id) && id == parent)
}

/// First selected child of a node at or after `from`.
pub open spec fn next_child(
    schema: Seq<KvIrSchemaEntry<'_>>,
    ids: Seq<int>,
    parent: int,
    from: int,
) -> Option<int>
    decreases schema.len() - from,
{
    if from < 0 || from >= schema.len() {
        None
    } else if is_child(schema, ids, parent, from) {
        Some(from)
    } else {
        next_child(schema, ids, parent, from + 1)
    }
}

/// The selected children of a node at or after `from`, each followed by what is below it.
pub open spec fn depth_first(
    schema: Seq<KvIrSchemaEntry<'_>>,
    ids: Seq<int>,
    parent: int,
    from: int,
) -> Seq<int>
    decreases schema.len() - from,
{
    match next_child(schema, ids, parent, from) {
        None => Seq::empty(),
        Some(child) => if !(from <= child < schema.len()) {
            Seq::empty()
        } else {
            seq![child] + depth_first(schema, ids, child, child + 1) + depth_first(
                schema,
                ids,
                parent,
                child + 1,
            )
        },
    }
}

pub proof fn lemma_next_child(
    schema: Seq<KvIrSchemaEntry<'_>>,
    ids: Seq<int>,
    parent: int,
    from: int,
)
    requires
        0 <= from,
    ensures
        match next_child(schema, ids, parent, from) {
            Some(child) => from <= child < schema.len() && is_child(schema, ids, parent, child)
                && forall|i: int|
                from <= i < child ==> !#[trigger] is_child(schema, ids, parent, i),
            None => forall|i: int|
                from <= i < schema.len() ==> !#[trigger] is_child(schema, ids, parent, i),
        },
    decreases schema.len() - from,
{
    if from < schema.len() && !is_child(schema, ids, parent, from) {
        lemma_next_child(schema, ids, parent, from + 1);
    }
}

/// A child does not depend on where the search starts, where there is none in between.
proof fn lemma_next_child_moves(
    schema: Seq<KvIrSchemaEntry<'_>>,
    ids: Seq<int>,
    parent: int,
    from: int,
    to: int,
)
    requires
        0 <= from <= to <= schema.len(),
        forall|i: int| from <= i < to ==> !#[trigger] is_child(schema, ids, parent, i),
    ensures
        next_child(schema, ids, parent, from) == next_child(schema, ids, parent, to),
    decreases to - from,
{
    if from < to {
        assert(!is_child(schema, ids, parent, from));
        lemma_next_child_moves(schema, ids, parent, from + 1, to);
    }
}

/// Parent of a node as a number.
pub open spec fn parent_of(schema: Seq<KvIrSchemaEntry<'_>>, node: int) -> int {
    match schema[node].parent_id {
        Some(parent) => parent as int,
        None => -1,
    }
}

/// What comes after a node and everything below it.
pub open spec fn rest_after(schema: Seq<KvIrSchemaEntry<'_>>, ids: Seq<int>, node: int) -> Seq<int>
    decreases node,
{
    let parent = parent_of(schema, node);
    depth_first(schema, ids, parent, node + 1) + if 0 < parent < node {
        rest_after(schema, ids, parent)
    } else {
        Seq::empty()
    }
}

/// A node, what is below it, and what comes after it.
pub open spec fn from_node(schema: Seq<KvIrSchemaEntry<'_>>, ids: Seq<int>, node: int) -> Seq<int> {
    seq![node] + depth_first(schema, ids, node, node + 1) + rest_after(schema, ids, node)
}

/// The walk goes on below a node.
pub proof fn lemma_walk_down(
    schema: Seq<KvIrSchemaEntry<'_>>,
    ids: Seq<int>,
    node: int,
    child: int,
)
    requires
        0 < node < schema.len(),
        next_child(schema, ids, node, node + 1) == Some(child),
    ensures
        from_node(schema, ids, node) == seq![node] + from_node(schema, ids, child),
        node < child < schema.len(),
        parent_of(schema, child) == node,
{
    lemma_next_child(schema, ids, node, node + 1);
    assert(from_node(schema, ids, node) =~= seq![node] + from_node(schema, ids, child));
}

/// The walk goes on beside a node.
pub proof fn lemma_walk_beside(
    schema: Seq<KvIrSchemaEntry<'_>>,
    ids: Seq<int>,
    node: int,
    sibling: int,
)
    requires
        0 < node < schema.len(),
        0 <= parent_of(schema, node) < node,
        next_child(schema, ids, parent_of(schema, node), node + 1) == Some(sibling),
    ensures
        rest_after(schema, ids, node) == from_node(schema, ids, sibling),
        node < sibling < schema.len(),
        parent_of(schema, sibling) == parent_of(schema, node),
{
    lemma_next_child(schema, ids, parent_of(schema, node), node + 1);
    assert(rest_after(schema, ids, node) =~= from_node(schema, ids, sibling));
}

/// The selected nodes of one namespace in the order of their selection, the root first, and the
/// pair at each of them.
pub struct Chosen {
    pub ids: Seq<int>,
    pub pairs: Seq<Option<int>>,
}

/// The root alone.
pub open spec fn nothing_chosen() -> Chosen {
    Chosen { ids: seq![0int], pairs: seq![None::<int>] }
}

/// The nodes from `node` up that are not selected yet.
pub open spec fn path_up(
    schema: Seq<KvIrSchemaEntry<'_>>,
    ids: Seq<int>,
    namespace: KvIrNamespace,
    node: u32,
) -> Result<Seq<u32>, KvIrOwnedEventError>
    decreases node,
{
    if ids.contains(node as int) {
        Ok(Seq::empty())
    } else if node >= schema.len() {
        Err(KvIrOwnedEventError::MissingSchemaNode { namespace, node_id: node })
    } else {
        match schema[node as int].parent_id {
            None => Err(KvIrOwnedEventError::InvalidSchemaPath { namespace, node_id: node }),
            Some(parent) => if parent >= node {
                Err(KvIrOwnedEventError::InvalidSchemaPath { namespace, node_id: node })
            } else {
                match path_up(schema, ids, namespace, parent) {
                    Err(error) => Err(error),
                    Ok(path) => Ok(seq![node] + path),
                }
            },
        }
    }
}

/// The nodes with the first `left` of a path, the last of them first.
pub open spec fn with_path(ids: Seq<int>, count: int, path: Seq<u32>, left: int, limit: u64) -> Result<
    Seq<int>,
    KvIrOwnedEventError,
>
    decreases left,
{
    if left <= 0 {
        Ok(ids)
    } else if count + 1 > limit {
        Err(
            KvIrOwnedEventError::Limit {
                resource: KvIrOwnedEventLimitResource::MaterializedNodes,
                actual: (count + 1) as u64,
                limit,
            },
        )
    } else if ids.len() > u32::MAX {
        Err(KvIrOwnedEventError::SizeOverflow)
    } else {
        with_path(ids.push(path[left - 1] as int), count + 1, path, left - 1, limit)
    }
}

/// The refusal of memory for `count` units of `resource`.
pub open spec fn memory_refused(resource: KvIrOwnedEventResource, count: int) -> KvIrOwnedEventError {
    KvIrOwnedEventError::AllocationFailed { resource, requested_additional: count as usize }
}

/// Whether memory for one selected node, or for the index of no more than `nodes` nodes, was
/// refused. The slots that are missing are never more than four to a node, beside the first ones.
pub open spec fn is_node_refused(nodes: nat, error: KvIrOwnedEventError) -> bool {
    ||| error == memory_refused(KvIrOwnedEventResource::TemporaryNodes, 1)
    ||| error matches KvIrOwnedEventError::AllocationFailed { resource, requested_additional }
        && resource == KvIrOwnedEventResource::TemporaryIndex && requested_additional <= 4 * nodes
        + 16
}

/// Whether this memory can be refused while a pair is selected: for the way up from a node that is
/// in the schema and not selected yet, and for the nodes on it once the first of them is within
/// the limit.
pub open spec fn pair_asks(
    schema: Seq<KvIrSchemaEntry<'_>>,
    chosen: Chosen,
    others: int,
    namespace: KvIrNamespace,
    node: u32,
    limit: u64,
    error: KvIrOwnedEventError,
) -> bool {
    ||| error == memory_refused(KvIrOwnedEventResource::TemporaryPath, 1)
        && !chosen.ids.contains(node as int) && node < schema.len()
    ||| chosen.ids.len() + others <= limit && (path_up(
        schema,
        chosen.ids,
        namespace,
        node,
    ) matches Ok(path) && path.len() > 0 && is_node_refused(
        chosen.ids.len() + path.len(),
        error,
    ))
}

/// The selection with a pair; `others` nodes are selected in the other namespace.
pub open spec fn with_pair(
    schema: Seq<KvIrSchemaEntry<'_>>,
    chosen: Chosen,
    others: int,
    namespace: KvIrNamespace,
    node: u32,
    index: int,
    limit: u64,
) -> Result<Chosen, KvIrOwnedEventError> {
    match path_up(schema, chosen.ids, namespace, node) {
        Err(error) => Err(error),
        Ok(path) => match with_path(
            chosen.ids,
            chosen.ids.len() - 1 + others,
            path,
            path.len() as int,
            limit,
        ) {
            Err(error) => Err(error),
            Ok(ids) => {
                let leaf = ids.index_of(node as int);
                if leaf < chosen.pairs.len() && chosen.pairs[leaf] is Some {
                    Err(KvIrOwnedEventError::DuplicatePair { namespace, node_id: node })
                } else {
                    Ok(
                        Chosen {
                            ids,
                            pairs: Seq::new(
                                ids.len(),
                                |i: int|
                                    if i == leaf {
                                        Some(index)
                                    } else if i < chosen.pairs.len() {
                                        chosen.pairs[i]
                                    } else {
                                        None
                                    },
                            ),
                        },
                    )
                }
            },
        },
    }
}

/// The pair at a selected node.
pub open spec fn pair_at(chosen: Chosen, node: int) -> Option<int> {
    chosen.pairs[chosen.ids.index_of(node)]
}

/// Hash of a node number.
pub open spec fn node_hash(id: u32) -> u32 {
    let first = id ^ (id >> 16);
    let second = first.wrapping_mul(0x7feb_352d);
    let third = second ^ (second >> 15);
    let fourth = third.wrapping_mul(0x846c_a68b);
    fourth ^ (fourth >> 16)
}

/// Mixes the bits of a node number.
fn hash_node_id(id: u32) -> (hash: u32)
    ensures
        hash == node_hash(id),
{
    let first = id ^ (id >> 16);
    let second = first.wrapping_mul(0x7feb_352d);
    let third = second ^ (second >> 15);
    let fourth = third.wrapping_mul(0x846c_a68b);
    fourth ^ (fourth >> 16)
}

/// One selected node.
#[derive(Clone, Copy, Debug)]
pub struct TempNode {
    pub schema_id: u32,
    pub parent: usize,
    pub pair_index: Option<u32>,
    pub first_child: Option<usize>,
    pub next_sibling: Option<usize>,
}

/// The selected nodes of one namespace, with an index by node number.
#[derive(Debug)]
pub struct TempTree {
    pub nodes: Vec<TempNode>,
    pub slots: Vec<u32>,
    pub order: Vec<u64>,
}

pub open spec fn node_ids(nodes: Seq<TempNode>) -> Seq<int> {
    Seq::new(nodes.len(), |i: int| nodes[i].schema_id as int)
}

pub open spec fn node_pairs(nodes: Seq<TempNode>) -> Seq<Option<int>> {
    Seq::new(
        nodes.len(),
        |i: int|
            match nodes[i].pair_index {
                Some(index) => Some(index as int),
                None => None,
            },
    )
}

/// Whether the nodes are distinct and stand after their parents.
pub open spec fn nodes_ok(nodes: Seq<TempNode>, schema: Seq<KvIrSchemaEntry<'_>>) -> bool {
    &&& 0 < nodes.len() <= 0x1_0000_0000
    &&& nodes[0].schema_id == 0
    &&& node_ids(nodes).no_duplicates()
    &&& forall|i: int| 0 < i < nodes.len() ==> #[trigger] is_node_ok(nodes, schema, i)
}

pub open spec fn is_node_ok(nodes: Seq<TempNode>, schema: Seq<KvIrSchemaEntry<'_>>, i: int) -> bool {
    &&& 0 < nodes[i].schema_id < schema.len()
    &&& nodes[i].parent < i
    &&& schema[nodes[i].schema_id as int].parent_id == Some(nodes[nodes[i].parent as int].schema_id)
}

pub open spec fn home_slots(nodes: Seq<TempNode>, size: int) -> Seq<int> {
    Seq::new(nodes.len(), |i: int| node_hash(nodes[i].schema_id) as int % size)
}

/// Sorts numbers in ascending order.
///
/// Rests on `slice::sort_unstable` of the standard library: the numbers are the same as before,
/// each as often, and none is followed by a smaller one.
#[verifier::external_body]
fn sort_numbers(numbers: &mut Vec<u64>)
    ensures
        final(numbers)@.to_multiset() == old(numbers)@.to_multiset(),
        forall|i: int, j: int|
            0 <= i <= j < final(numbers)@.len() ==> final(numbers)@[i] <= final(numbers)@[j],
{
    numbers.sort_unstable();
}

/// Whether a node of a path is not selected, and the next one is its parent.
spec fn is_step(
    schema: Seq<KvIrSchemaEntry<'_>>,
    ids: Seq<int>,
    path: Seq<u32>,
    top: u32,
    j: int,
) -> bool {
    &&& top < path[j] < schema.len()
    &&& !ids.contains(path[j] as int)
    &&& schema[path[j] as int].parent_id == Some(if j + 1 < path.len() {
        path[j + 1]
    } else {
        top
    })
}

/// Whether a path leads from a node up to the one below `top`.
spec fn is_path(
    schema: Seq<KvIrSchemaEntry<'_>>,
    ids: Seq<int>,
    path: Seq<u32>,
    leaf: u32,
    top: u32,
) -> bool {
    &&& path.len() == 0 ==> leaf == top
    &&& path.len() > 0 ==> path[0] == leaf
    &&& forall|j: int| 0 <= j < path.len() ==> #[trigger] is_step(schema, ids, path, top, j)
    &&& forall|j: int, k: int|
        0 <= j < k < path.len() ==> #[trigger] path[j] > #[trigger] path[k]
}

/// The pairs of more nodes, of which the new ones have none.
spec fn with_no_pairs(pairs: Seq<Option<int>>, length: nat) -> Seq<Option<int>> {
    Seq::new(
        length,
        |i: int|
            if i < pairs.len() {
                pairs[i]
            } else {
                None
            },
    )
}

/// Appends a node to a path, given whether there is memory for it.
pub fn push_reserved_step(path: &mut Vec<u32>, node_id: u32, reserved: bool) -> (result: Result<
    (),
    KvIrOwnedEventError,
>)
    ensures
        match result {
            Ok(_) => reserved && final(path)@ == old(path)@.push(node_id),
            Err(error) => !reserved && final(path)@ == old(path)@ && error == memory_refused(
                KvIrOwnedEventResource::TemporaryPath,
                1,
            ),
        },
{
    if !reserved {
        return Err(
            KvIrOwnedEventError::AllocationFailed {
                resource: KvIrOwnedEventResource::TemporaryPath,
                requested_additional: 1,
            },
        );
    }
    path.push(node_id);
    Ok(())
}

impl TempTree {
    pub open spec fn index_ok(&self) -> bool {
        if self.slots@.len() == 0 {
            self.nodes@.len() == 1
        } else {
            table_ok(self.slots@, home_slots(self.nodes@, self.slots@.len() as int))
        }
    }

    pub open spec fn wf(&self, schema: Seq<KvIrSchemaEntry<'_>>) -> bool {
        nodes_ok(self.nodes@, schema) && self.index_ok()
    }

    pub open spec fn chosen(&self) -> Chosen {
        Chosen { ids: node_ids(self.nodes@), pairs: node_pairs(self.nodes@) }
    }

    /// Creates a tree of the root alone.
    pub fn new() -> (result: Result<Self, KvIrOwnedEventError>)
        ensures
            match result {
                Ok(tree) => tree.nodes@.len() == 1 && tree.chosen() == nothing_chosen()
                    && tree.index_ok(),
                Err(error) => error == memory_refused(KvIrOwnedEventResource::TemporaryNodes, 1),
            },
    {
        let mut storage: Vec<TempNode> = Vec::new();
        let reserved = storage.try_reserve(1).is_ok();
        TempTree::with_storage(storage, reserved)
    }

    /// Creates a tree of the root alone in `storage`, given whether that has memory for it.
    pub fn with_storage(storage: Vec<TempNode>, reserved: bool) -> (result: Result<
        Self,
        KvIrOwnedEventError,
    >)
        ensures
            match result {
                Ok(tree) => reserved && tree.nodes@.len() == 1 && tree.chosen() == nothing_chosen()
                    && tree.index_ok(),
                Err(error) => !reserved && error == memory_refused(
                    KvIrOwnedEventResource::TemporaryNodes,
                    1,
                ),
            },
    {
        if !reserved {
            return Err(
                KvIrOwnedEventError::AllocationFailed {
                    resource: KvIrOwnedEventResource::TemporaryNodes,
                    requested_additional: 1,
                },
            );
        }
        let mut nodes = storage;
        nodes.clear();
        nodes.push(
            TempNode {
                schema_id: 0,
                parent: 0,
                pair_index: None,
                first_child: None,
                next_sibling: None,
            },
        );
        let tree = TempTree { nodes, slots: Vec::new(), order: Vec::new() };
        assert(tree.chosen().ids =~= nothing_chosen().ids);
        assert(tree.chosen().pairs =~= nothing_chosen().pairs);
        Ok(tree)
    }

    /// Makes the tree one of the root alone.
    pub fn reset(&mut self, schema: Ghost<Seq<KvIrSchemaEntry<'_>>>)
        requires
            old(self).nodes@.len() > 0,
        ensures
            final(self).wf(schema@),
            final(self).chosen() == nothing_chosen(),
            final(self).nodes@.len() == 1,
    {
        self.nodes.truncate(1);
        self.nodes.set(
            0,
            TempNode {
                schema_id: 0,
                parent: 0,
                pair_index: None,
                first_child: None,
                next_sibling: None,
            },
        );
        self.order.clear();
        let size = self.slots.len();
        let mut at: usize = 0;
        while at < size
            invariant
                at <= size,
                size == self.slots@.len(),
                forall|i: int| 0 <= i < at ==> self.slots@[i] == 0,
                self.nodes@.len() == 1,
                self.nodes@[0].schema_id == 0,
                self.nodes@[0].pair_index is None,
            decreases size - at,
        {
            self.slots.set(at, 0);
            at += 1;
        }
        proof {
            assert(self.chosen().ids =~= nothing_chosen().ids);
            assert(self.chosen().pairs =~= nothing_chosen().pairs);
            if size > 0 {
                let home = node_hash(0) as int % size as int;
                lemma_empty_table(self.slots@, home);
                assert(home_slots(self.nodes@, size as int) =~= seq![home]);
            }
        }
    }

    /// Returns where a node stands, if it is selected.
    pub fn find(&self, schema_id: u32, schema: Ghost<Seq<KvIrSchemaEntry<'_>>>) -> (place: Option<
        usize,
    >)
        requires
            self.wf(schema@),
        ensures
            match place {
                Some(place) => place < self.nodes@.len() && self.nodes@[place as int].schema_id
                    == schema_id,
                None => !self.chosen().ids.contains(schema_id as int),
            },
    {
        if schema_id == 0 {
            return Some(0);
        }
        let size = self.slots.len();
        if size == 0 {
            return None;
        }
        let home = hash_node_id(schema_id) as usize % size;
        let ghost homes = home_slots(self.nodes@, size as int);
        let ghost empty = lemma_empty_slot(self.slots@);
        let mut at: usize = home;
        while self.slots[at] != 0
            invariant
                self.wf(schema@),
                homes == home_slots(self.nodes@, size as int),
                table_ok(self.slots@, homes),
                size == self.slots@.len(),
                home == node_hash(schema_id) as int % size as int,
                home < size,
                at < size,
                0 <= empty < size,
                self.slots@[empty] == 0,
                steps(home as int, at as int, size as int) <= steps(
                    home as int,
                    empty,
                    size as int,
                ),
                forall|p: int|
                    0 <= p < size && steps(home as int, p, size as int) < steps(
                        home as int,
                        at as int,
                        size as int,
                    ) ==> #[trigger] self.slots@[p] != 0
                        && self.nodes@[self.slots@[p] as int].schema_id != schema_id,
            decreases
                    steps(home as int, empty, size as int) - steps(
                        home as int,
                        at as int,
                        size as int,
                    ),
        {
            let place = self.slots[at] as usize;
            if self.nodes[place].schema_id == schema_id {
                return Some(place);
            }
            at = next_slot(at, size);
        }
        proof {
            let ids = self.chosen().ids;
            if ids.contains(schema_id as int) {
                let i = ids.index_of(schema_id as int);
                assert(self.nodes@[i].schema_id == schema_id);
                let found = lemma_found_before_empty(self.slots@, homes, i, at as int);
                assert(self.slots@[found] != 0);
            }
        }
        None
    }

    /// Makes room in the index for one node more.
    fn prepare_insert(&mut self, schema: Ghost<Seq<KvIrSchemaEntry<'_>>>) -> (result: Result<
        (),
        KvIrOwnedEventError,
    >)
        requires
            old(self).wf(schema@),
        ensures
            final(self).wf(schema@),
            final(self).nodes@ == old(self).nodes@,
            match result {
                Ok(_) => final(self).nodes@.len() < final(self).slots@.len(),
                Err(error) => is_node_refused(old(self).nodes@.len(), error),
            },
    {
        let length = self.nodes.len();
        let mut wanted: u64 = self.slots.len() as u64;
        if wanted == 0 {
            wanted = 16;
        }
        while length as u64 > wanted / 4 * 3
            invariant
                0 < length <= 0x1_0000_0000,
                wanted > 0,
                self.slots@.len() <= wanted,
                wanted > self.slots@.len() ==> wanted <= 4 * length + 16,
            decreases 0x4_0000_0000 - wanted,
        {
            wanted = wanted * 2;
        }
        if wanted > usize::MAX as u64 {
            return Err(
                KvIrOwnedEventError::AllocationFailed {
                    resource: KvIrOwnedEventResource::TemporaryIndex,
                    requested_additional: usize::MAX - self.slots.len(),
                },
            );
        }
        let required = wanted as usize;
        if required == self.slots.len() {
            return Ok(());
        }
        let mut storage: Vec<u32> = Vec::new();
        let reserved = storage.try_reserve(required).is_ok();
        self.rebuild(storage, required, reserved, schema)
    }

    /// Builds the index anew with `required` slots in `storage`, given whether that has memory for
    /// them.
    fn rebuild(
        &mut self,
        storage: Vec<u32>,
        required: usize,
        reserved: bool,
        schema: Ghost<Seq<KvIrSchemaEntry<'_>>>,
    ) -> (result: Result<(), KvIrOwnedEventError>)
        requires
            old(self).wf(schema@),
            old(self).nodes@.len() < required,
            old(self).slots@.len() <= required,
        ensures
            final(self).wf(schema@),
            final(self).nodes@ == old(self).nodes@,
            match result {
                Ok(_) => reserved && final(self).slots@.len() == required,
                Err(error) => {
                    &&& !reserved
                    &&& final(self).slots@ == old(self).slots@
                    &&& error == memory_refused(
                        KvIrOwnedEventResource::TemporaryIndex,
                        required - old(self).slots@.len(),
                    )
                },
            },
    {
        if !reserved {
            return Err(
                KvIrOwnedEventError::AllocationFailed {
                    resource: KvIrOwnedEventResource::TemporaryIndex,
                    requested_additional: required - self.slots.len(),
                },
            );
        }
        let length = self.nodes.len();
        let mut slots = storage;
        slots.clear();
        while slots.len() < required
            invariant
                slots@.len() <= required,
                forall|i: int| 0 <= i < slots@.len() ==> slots@[i] == 0,
            decreases required - slots@.len(),
        {
            slots.push(0);
        }
        let ghost homes = home_slots(self.nodes@, required as int);
        let mut place: usize = 1;
        proof {
            lemma_empty_table(slots@, homes[0]);
            assert(homes.take(1) =~= seq![homes[0]]);
        }
        while place < length
            invariant
                1 <= place <= length,
                length == self.nodes@.len(),
                length <= 0x1_0000_0000,
                length < required,
                slots@.len() == required,
                homes == home_slots(self.nodes@, required as int),
                table_ok(slots@, homes.take(place as int)),
            decreases length - place,
        {
            let home = hash_node_id(self.nodes[place].schema_id) as usize % required;
            insert_slot(
                &mut slots,
                home,
                place as u32,
                Ghost(homes.take(place as int)),
            );
            assert(homes.take(place as int).push(home as int) =~= homes.take(place + 1));
            place += 1;
        }
        assert(homes.take(length as int) =~= homes);
        self.slots = slots;
        Ok(())
    }

    /// Adds a node below another.
    fn insert(&mut self, schema_id: u32, parent: usize, schema: Ghost<Seq<KvIrSchemaEntry<'_>>>) -> (result:
        Result<usize, KvIrOwnedEventError>)
        requires
            old(self).wf(schema@),
            0 < schema_id < schema@.len(),
            parent < old(self).nodes@.len(),
            schema@[schema_id as int].parent_id == Some(old(self).nodes@[parent as int].schema_id),
            !old(self).chosen().ids.contains(schema_id as int),
        ensures
            final(self).nodes@.len() > 0,
            match result {
                Ok(place) => {
                    &&& final(self).wf(schema@)
                    &&& place == old(self).nodes@.len()
                    &&& old(self).nodes@.len() <= u32::MAX
                    &&& final(self).chosen().ids == old(self).chosen().ids.push(schema_id as int)
                    &&& final(self).chosen().pairs == old(self).chosen().pairs.push(None)
                },
                Err(error) => is_node_refused(old(self).nodes@.len(), error) || (
                error is SizeOverflow && old(self).nodes@.len() > u32::MAX),
            },
    {
        self.prepare_insert(schema)?;
        let reserved = self.nodes.try_reserve(1).is_ok();
        self.insert_reserved(schema_id, parent, reserved, schema)
    }

    /// Adds a node below another, given whether there is memory for it. Too many nodes are found
    /// then.
    fn insert_reserved(
        &mut self,
        schema_id: u32,
        parent: usize,
        reserved: bool,
        schema: Ghost<Seq<KvIrSchemaEntry<'_>>>,
    ) -> (result: Result<usize, KvIrOwnedEventError>)
        requires
            old(self).wf(schema@),
            old(self).nodes@.len() < old(self).slots@.len(),
            0 < schema_id < schema@.len(),
            parent < old(self).nodes@.len(),
            schema@[schema_id as int].parent_id == Some(old(self).nodes@[parent as int].schema_id),
            !old(self).chosen().ids.contains(schema_id as int),
        ensures
            match result {
                Ok(place) => {
                    &&& reserved
                    &&& final(self).wf(schema@)
                    &&& place == old(self).nodes@.len()
                    &&& old(self).nodes@.len() <= u32::MAX
                    &&& final(self).chosen().ids == old(self).chosen().ids.push(schema_id as int)
                    &&& final(self).chosen().pairs == old(self).chosen().pairs.push(None)
                },
                Err(error) => {
                    &&& *final(self) == *old(self)
                    &&& if reserved {
                        &&& old(self).nodes@.len() > u32::MAX
                        &&& error == KvIrOwnedEventError::SizeOverflow
                    } else {
                        error == memory_refused(KvIrOwnedEventResource::TemporaryNodes, 1)
                    }
                },
            },
    {
        if !reserved {
            return Err(
                KvIrOwnedEventError::AllocationFailed {
                    resource: KvIrOwnedEventResource::TemporaryNodes,
                    requested_additional: 1,
                },
            );
        }
        let place = self.nodes.len();
        if place as u64 > 0xffff_ffff {
            return Err(KvIrOwnedEventError::SizeOverflow);
        }
        let ghost before = self.nodes@;
        let ghost size = self.slots@.len() as int;
        self.nodes.push(
            TempNode {
                schema_id,
                parent,
                pair_index: None,
                first_child: None,
                next_sibling: None,
            },
        );
        let home = hash_node_id(schema_id) as usize % self.slots.len();
        insert_slot(&mut self.slots, home, place as u32, Ghost(home_slots(before, size)));
        proof {
            let after = self.nodes@;
            assert(home_slots(after, size) =~= home_slots(before, size).push(home as int));
            assert(node_ids(after) =~= node_ids(before).push(schema_id as int));
            assert(node_pairs(after) =~= node_pairs(before).push(None));
            assert forall|i: int, j: int|
                0 <= i < after.len() && 0 <= j < after.len() && i != j implies node_ids(after)[i]
                != node_ids(after)[j] by {
                if i < before.len() {
                    assert(node_ids(before)[i] == node_ids(after)[i]);
                    assert(node_ids(before).contains(node_ids(before)[i]));
                }
                if j < before.len() {
                    assert(node_ids(before)[j] == node_ids(after)[j]);
                    assert(node_ids(before).contains(node_ids(before)[j]));
                }
            }
            assert forall|i: int| 0 < i < after.len() implies #[trigger] is_node_ok(
                after,
                schema@,
                i,
            ) by {
                if i < before.len() {
                    assert(is_node_ok(before, schema@, i));
                }
            }
        }
        Ok(place)
    }

    /// Collects the nodes from a node up that are not selected yet, and returns where the walk up
    /// met a selected node.
    fn collect_path(
        &self,
        schema: &[KvIrSchemaEntry<'_>],
        namespace: KvIrNamespace,
        leaf_id: u32,
        path: &mut Vec<u32>,
    ) -> (result: Result<usize, KvIrOwnedEventError>)
        requires
            self.wf(schema@),
            is_schema(schema@),
        ensures
            match result {
                Ok(place) => {
                    &&& path_up(schema@, self.chosen().ids, namespace, leaf_id) == Ok::<
                        Seq<u32>,
                        KvIrOwnedEventError,
                    >(final(path)@)
                    &&& place < self.nodes@.len()
                    &&& is_path(
                        schema@,
                        self.chosen().ids,
                        final(path)@,
                        leaf_id,
                        self.nodes@[place as int].schema_id,
                    )
                },
                Err(error) => (error == memory_refused(KvIrOwnedEventResource::TemporaryPath, 1)
                    && !self.chosen().ids.contains(leaf_id as int) && leaf_id < schema@.len())
                    || path_up(schema@, self.chosen().ids, namespace, leaf_id) == Err::<
                    Seq<u32>,
                    KvIrOwnedEventError,
                >(error),
            },
    {
        path.clear();
        let ghost schema_view = schema@;
        let ghost ids = self.chosen().ids;
        let ghost expected = path_up(schema@, ids, namespace, leaf_id);
        let mut node_id: u32 = leaf_id;
        loop
            invariant
                self.wf(schema_view),
                schema_view == schema@,
                is_schema(schema_view),
                ids == self.chosen().ids,
                expected == path_up(schema_view, ids, namespace, leaf_id),
                expected == (match path_up(schema_view, ids, namespace, node_id) {
                    Err(error) => Err::<Seq<u32>, KvIrOwnedEventError>(error),
                    Ok(rest) => Ok(path@ + rest),
                }),
                is_path(schema_view, ids, path@, leaf_id, node_id),
                node_id != leaf_id ==> !ids.contains(leaf_id as int) && leaf_id
                    < schema_view.len(),
            decreases node_id,
        {
            match self.find(node_id, Ghost(schema_view)) {
                Some(place) => {
                    proof {
                        assert(ids[place as int] == node_id);
                        assert(ids.contains(node_id as int));
                        assert(path@ + Seq::<u32>::empty() =~= path@);
                    }
                    return Ok(place);
                },
                None => {},
            }
            if node_id as usize >= schema.len() {
                return Err(KvIrOwnedEventError::MissingSchemaNode { namespace, node_id });
            }
            let ghost before = path@;
            let reserved = path.try_reserve(1).is_ok();
            push_reserved_step(path, node_id, reserved)?;
            match schema[node_id as usize].parent_id {
                None => {
                    return Err(KvIrOwnedEventError::InvalidSchemaPath { namespace, node_id });
                },
                Some(parent) => {
                    assert(schema_view[node_id as int].parent_id == Some(parent));
                    proof {
                        match path_up(schema_view, ids, namespace, parent) {
                            Ok(rest) => {
                                assert(before + (seq![node_id] + rest) =~= path@ + rest);
                            },
                            Err(_) => {},
                        }
                        assert forall|j: int| 0 <= j < path@.len() implies is_step(
                            schema_view,
                            ids,
                            path@,
                            parent,
                            j,
                        ) by {
                            if j < before.len() {
                                assert(is_step(schema_view, ids, before, node_id, j));
                            }
                        }
                        assert forall|j: int, k: int|
                            0 <= j < k < path@.len() implies #[trigger] path@[j]
                            > #[trigger] path@[k] by {
                            assert(is_step(schema_view, ids, before, node_id, j));
                            assert(path@[j] == before[j]);
                            if k < before.len() {
                                assert(path@[k] == before[k]);
                            }
                        }
                    }
                    node_id = parent;
                },
            }
        }
    }

    /// Adds the nodes of a path, the last of them first, and returns where the first one stands.
    fn insert_path(
        &mut self,
        path: &Vec<u32>,
        top: usize,
        materialized_nodes: &mut u64,
        node_limit: u64,
        leaf_id: Ghost<u32>,
        others: Ghost<int>,
        schema: Ghost<Seq<KvIrSchemaEntry<'_>>>,
    ) -> (result: Result<usize, KvIrOwnedEventError>)
        requires
            old(self).wf(schema@),
            0 <= others@ <= 0x1_0000_0000,
            *old(materialized_nodes) == old(self).nodes@.len() - 1 + others@,
            top < old(self).nodes@.len(),
            is_path(
                schema@,
                old(self).chosen().ids,
                path@,
                leaf_id@,
                old(self).nodes@[top as int].schema_id,
            ),
        ensures
            final(self).nodes@.len() > 0,
            ({
                let expected = with_path(
                    old(self).chosen().ids,
                    *old(materialized_nodes) as int,
                    path@,
                    path@.len() as int,
                    node_limit,
                );
                match result {
                    Ok(place) => {
                        &&& final(self).wf(schema@)
                        &&& expected == Ok::<Seq<int>, KvIrOwnedEventError>(
                            final(self).chosen().ids,
                        )
                        &&& *final(materialized_nodes) == final(self).nodes@.len() - 1 + others@
                        &&& place < final(self).nodes@.len()
                        &&& final(self).nodes@[place as int].schema_id == leaf_id@
                        &&& old(self).nodes@.len() <= final(self).nodes@.len()
                        &&& final(self).chosen().pairs == with_no_pairs(
                            old(self).chosen().pairs,
                            final(self).nodes@.len(),
                        )
                    },
                    Err(error) => (is_node_refused(
                        old(self).nodes@.len() + path@.len(),
                        error,
                    ) && path@.len() > 0 && old(self).nodes@.len() + others@ <= node_limit) || expected == Err::<
                        Seq<int>,
                        KvIrOwnedEventError,
                    >(error),
                }
            }),
    {
        let ghost chosen = self.chosen();
        let ghost top_id = self.nodes@[top as int].schema_id;
        let ghost expected = with_path(
            chosen.ids,
            *materialized_nodes as int,
            path@,
            path@.len() as int,
            node_limit,
        );
        let mut parent: usize = top;
        let mut left: usize = path.len();
        proof {
            assert(self.chosen().pairs =~= with_no_pairs(chosen.pairs, self.nodes@.len()));
            assert forall|j: int| 0 <= j < left implies !chosen.ids.contains(
                #[trigger] path@[j] as int,
            ) by {
                assert(is_step(schema@, chosen.ids, path@, top_id, j));
            }
        }
        while left > 0
            invariant
                left <= path@.len(),
                self.wf(schema@),
                0 <= others@ <= 0x1_0000_0000,
                *materialized_nodes == self.nodes@.len() - 1 + others@,
                expected == with_path(
                    self.chosen().ids,
                    *materialized_nodes as int,
                    path@,
                    left as int,
                    node_limit,
                ),
                chosen == old(self).chosen(),
                chosen.ids.len() == old(self).nodes@.len(),
                self.nodes@.len() + left == old(self).nodes@.len() + path@.len(),
                expected == with_path(
                    old(self).chosen().ids,
                    *old(materialized_nodes) as int,
                    path@,
                    path@.len() as int,
                    node_limit,
                ),
                chosen.pairs.len() == chosen.ids.len(),
                self.chosen().pairs == with_no_pairs(chosen.pairs, self.nodes@.len()),
                parent < self.nodes@.len(),
                self.nodes@[parent as int].schema_id == (if left < path@.len() {
                    path@[left as int]
                } else {
                    top_id
                }),
                is_path(schema@, chosen.ids, path@, leaf_id@, top_id),
                forall|j: int|
                    0 <= j < left ==> !self.chosen().ids.contains(#[trigger] path@[j] as int),
            decreases left,
        {
            let count = *materialized_nodes + 1;
            *materialized_nodes = count;
            if count > node_limit {
                return Err(
                    KvIrOwnedEventError::Limit {
                        resource: KvIrOwnedEventLimitResource::MaterializedNodes,
                        actual: count,
                        limit: node_limit,
                    },
                );
            }
            let ghost before = self.chosen();
            let schema_id = path[left - 1];
            assert(is_step(schema@, chosen.ids, path@, top_id, left - 1));
            assert(!before.ids.contains(path@[left - 1] as int));
            parent = self.insert(schema_id, parent, schema)?;
            proof {
                let after = self.chosen();
                assert forall|j: int| 0 <= j < left - 1 implies !after.ids.contains(
                    #[trigger] path@[j] as int,
                ) by {
                    assert(!before.ids.contains(path@[j] as int));
                    assert(path@[j] > path@[left - 1]);
                    if after.ids.contains(path@[j] as int) {
                        let i = after.ids.index_of(path@[j] as int);
                        assert(after.ids[i] == path@[j]);
                        if i < before.ids.len() {
                            assert(before.ids[i] == path@[j]);
                        }
                    }
                }
                assert(after.ids.len() == self.nodes@.len());
                assert(after.ids[parent as int] == schema_id);
                assert(after.pairs =~= with_no_pairs(chosen.pairs, self.nodes@.len()));
            }
            left = left - 1;
        }
        Ok(parent)
    }

    /// Selects the node of a pair, and the nodes on its way to the root.
    pub fn select_pair(
        &mut self,
        schema: &[KvIrSchemaEntry<'_>],
        namespace: KvIrNamespace,
        leaf_id: u32,
        pair_index: u32,
        path: &mut Vec<u32>,
        materialized_nodes: &mut u64,
        node_limit: u64,
        others: Ghost<int>,
    ) -> (result: Result<(), KvIrOwnedEventError>)
        requires
            old(self).wf(schema@),
            is_schema(schema@),
            0 <= others@ <= 0x1_0000_0000,
            *old(materialized_nodes) == old(self).nodes@.len() - 1 + others@,
        ensures
            final(self).nodes@.len() > 0,
            ({
                let expected = with_pair(
                    schema@,
                    old(self).chosen(),
                    others@,
                    namespace,
                    leaf_id,
                    pair_index as int,
                    node_limit,
                );
                match result {
                    Ok(_) => {
                        &&& final(self).wf(schema@)
                        &&& expected == Ok::<Chosen, KvIrOwnedEventError>(final(self).chosen())
                        &&& *final(materialized_nodes) == final(self).nodes@.len() - 1 + others@
                    },
                    Err(error) => pair_asks(
                        schema@,
                        old(self).chosen(),
                        others@,
                        namespace,
                        leaf_id,
                        node_limit,
                        error,
                    ) || expected == Err::<Chosen, KvIrOwnedEventError>(error),
                }
            }),
    {
        let ghost chosen = self.chosen();
        let top = self.collect_path(schema, namespace, leaf_id, path)?;
        let place = self.insert_path(
            path,
            top,
            materialized_nodes,
            node_limit,
            Ghost(leaf_id),
            others,
            Ghost(schema@),
        )?;
        let leaf = self.nodes[place];
        proof {
            let ids = self.chosen().ids;
            assert(ids[place as int] == leaf_id);
            assert(ids.contains(leaf_id as int));
            let first = ids.index_of(leaf_id as int);
            assert(ids[first] == leaf_id && 0 <= first < ids.len());
            assert(first == place);
            assert(self.chosen().pairs[place as int] == (match leaf.pair_index {
                Some(index) => Some(index as int),
                None => None,
            }));
        }
        if leaf.pair_index.is_some() {
            return Err(KvIrOwnedEventError::DuplicatePair { namespace, node_id: leaf_id });
        }
        let ghost before = self.nodes@;
        let ghost pairs = self.chosen().pairs;
        self.nodes.set(place, TempNode { pair_index: Some(pair_index), ..leaf });
        proof {
            let after = self.nodes@;
            let size = self.slots@.len() as int;
            assert(node_ids(after) =~= node_ids(before));
            assert(home_slots(after, size) =~= home_slots(before, size));
            assert forall|i: int| 0 < i < after.len() implies #[trigger] is_node_ok(
                after,
                schema@,
                i,
            ) by {
                assert(is_node_ok(before, schema@, i));
            }
            assert(self.chosen().pairs =~= pairs.update(place as int, Some(pair_index as int)));
            let expected = with_pair(
                schema@,
                chosen,
                others@,
                namespace,
                leaf_id,
                pair_index as int,
                node_limit,
            );
            assert(self.chosen().pairs =~= expected->Ok_0.pairs);
        }
        Ok(())
    }

    /// Links every node to its first child and its next sibling, in the order of node numbers.
    pub fn build_children(&mut self, schema: Ghost<Seq<KvIrSchemaEntry<'_>>>) -> (result: Result<
        (),
        KvIrOwnedEventError,
    >)
        requires
            old(self).wf(schema@),
            is_schema(schema@),
        ensures
            final(self).nodes@.len() > 0,
            final(self).chosen() == old(self).chosen(),
            match result {
                Ok(_) => final(self).wf(schema@) && is_linked_tree(final(self).nodes@, schema@),
                Err(error) => 1 < old(self).nodes@.len() && error == memory_refused(
                    KvIrOwnedEventResource::TemporaryOrder,
                    old(self).nodes@.len() - 1,
                ),
            },
    {
        let length = self.nodes.len();
        self.order.clear();
        let reserved = length <= 1 || self.order.try_reserve(length - 1).is_ok();
        self.link_reserved(reserved, schema)
    }

    /// Links the nodes, given whether there is memory for their order.
    fn link_reserved(&mut self, reserved: bool, schema: Ghost<Seq<KvIrSchemaEntry<'_>>>) -> (result:
        Result<(), KvIrOwnedEventError>)
        requires
            old(self).wf(schema@),
            is_schema(schema@),
        ensures
            final(self).nodes@.len() > 0,
            final(self).chosen() == old(self).chosen(),
            match result {
                Ok(_) => {
                    &&& reserved
                    &&& final(self).wf(schema@)
                    &&& is_linked_tree(final(self).nodes@, schema@)
                },
                Err(error) => {
                    &&& !reserved
                    &&& final(self).nodes@ == old(self).nodes@
                    &&& error == memory_refused(
                        KvIrOwnedEventResource::TemporaryOrder,
                        old(self).nodes@.len() - 1,
                    )
                },
            },
    {
        let ghost start = self.nodes@;
        let length = self.nodes.len();
        if !reserved {
            return Err(
                KvIrOwnedEventError::AllocationFailed {
                    resource: KvIrOwnedEventResource::TemporaryOrder,
                    requested_additional: length - 1,
                },
            );
        }
        self.order.clear();
        let mut place: usize = 0;
        while place < length
            invariant
                place <= length,
                length == start.len(),
                length <= 0x1_0000_0000,
                same_nodes(start, self.nodes@),
                self.slots@ == old(self).slots@,
                forall|i: int| 0 <= i < place ==> (#[trigger] self.nodes@[i]).first_child is None,
                self.order@ == keys_up_to(start, place as int),
            decreases length - place,
        {
            let node = self.nodes[place];
            self.nodes.set(place, TempNode { first_child: None, next_sibling: None, ..node });
            if place > 0 {
                self.order.push(node.schema_id as u64 * 0x1_0000_0000 + place as u64);
            }
            assert(self.order@ =~= keys_up_to(start, place + 1));
            place += 1;
        }
        sort_numbers(&mut self.order);
        proof {
            lemma_sorted_keys(start, keys_up_to(start, length as int), self.order@);
        }
        let ghost ids = node_ids(start);
        let mut left: usize = self.order.len();
        proof {
            let end = schema@.len() as int;
            assert forall|i: int| 0 <= i < start.len() implies #[trigger] is_linked_node_from(
                self.nodes@,
                schema@,
                ids,
                end,
                i,
            ) by {
                assert(self.nodes@[i].first_child is None);
                if i > 0 {
                    assert(is_node_ok(start, schema@, i));
                }
            }
        }
        while left > 0
            invariant
                left <= self.order@.len(),
                is_schema(schema@),
                nodes_ok(start, schema@),
                start.len() == length,
                ids == node_ids(start),
                same_nodes(start, self.nodes@),
                self.slots@ == old(self).slots@,
                keys_ok(start, self.order@),
                is_linked_from(
                    self.nodes@,
                    schema@,
                    ids,
                    bound_at(schema@, self.order@, left as int),
                ),
            decreases left,
        {
            let key = self.order[left - 1];
            let child = (key % 0x1_0000_0000) as usize;
            let ghost before = self.nodes@;
            proof {
                assert(is_key(start, self.order@, left - 1));
                assert(is_node_ok(start, schema@, child as int));
            }
            let node = self.nodes[child];
            let parent = node.parent;
            let first_child = self.nodes[parent].first_child;
            self.nodes.set(child, TempNode { next_sibling: first_child, ..node });
            let parent_node = self.nodes[parent];
            self.nodes.set(parent, TempNode { first_child: Some(child), ..parent_node });
            proof {
                lemma_linked_step(
                    start,
                    before,
                    self.nodes@,
                    schema@,
                    self.order@,
                    left as int,
                    child as int,
                );
            }
            left = left - 1;
        }
        proof {
            lemma_linked_whole(start, self.nodes@, schema@, self.order@);
            assert(node_ids(self.nodes@) =~= ids);
            assert(node_pairs(self.nodes@) =~= node_pairs(start));
            let size = self.slots@.len() as int;
            assert(home_slots(self.nodes@, size) =~= home_slots(start, size));
            assert forall|i: int| 0 < i < start.len() implies #[trigger] is_node_ok(
                self.nodes@,
                schema@,
                i,
            ) by {
                assert(is_node_ok(start, schema@, i));
            }
        }
        Ok(())
    }
}

/// Whether only the links differ.
spec fn same_nodes(start: Seq<TempNode>, nodes: Seq<TempNode>) -> bool {
    &&& start.len() == nodes.len()
    &&& forall|i: int|
        #![trigger nodes[i]]
        0 <= i < start.len() ==> nodes[i].schema_id == start[i].schema_id && nodes[i].parent
            == start[i].parent && nodes[i].pair_index == start[i].pair_index
}

/// The number by which a node is sorted.
spec fn key_of(nodes: Seq<TempNode>, i: int) -> u64 {
    (nodes[i].schema_id * 0x1_0000_0000 + i) as u64
}

/// The keys of the first nodes, without the root.
spec fn keys_up_to(nodes: Seq<TempNode>, end: int) -> Seq<u64> {
    Seq::new(
        if end > 0 {
            (end - 1) as nat
        } else {
            0
        },
        |j: int| key_of(nodes, j + 1),
    )
}

/// Whether a key is the one of the node that it names.
spec fn is_key(nodes: Seq<TempNode>, order: Seq<u64>, j: int) -> bool {
    let i = order[j] % 0x1_0000_0000;
    0 < i < nodes.len() && order[j] == key_of(nodes, i as int) && order[j] / 0x1_0000_0000
        == nodes[i as int].schema_id
}

/// Whether keys name all nodes but the root, in ascending order of node numbers.
spec fn keys_ok(nodes: Seq<TempNode>, order: Seq<u64>) -> bool {
    &&& forall|j: int| 0 <= j < order.len() ==> #[trigger] is_key(nodes, order, j)
    &&& forall|i: int| 0 < i < nodes.len() ==> #[trigger] order.contains(key_of(nodes, i))
    &&& forall|j: int, k: int|
        0 <= j < k < order.len() ==> #[trigger] order[j] / 0x1_0000_0000 < #[trigger] order[k]
            / 0x1_0000_0000
}

proof fn lemma_sorted_keys(nodes: Seq<TempNode>, keys: Seq<u64>, order: Seq<u64>)
    requires
        0 < nodes.len() <= 0x1_0000_0000,
        node_ids(nodes).no_duplicates(),
        keys == keys_up_to(nodes, nodes.len() as int),
        order.to_multiset() == keys.to_multiset(),
        forall|i: int, j: int| 0 <= i <= j < order.len() ==> order[i] <= order[j],
    ensures
        keys_ok(nodes, order),
{
    keys.to_multiset_ensures();
    order.to_multiset_ensures();
    assert forall|i: int, j: int| 0 <= i < keys.len() && 0 <= j < keys.len() && i != j implies keys[i]
        != keys[j] by {
        assert(node_ids(nodes)[i + 1] != node_ids(nodes)[j + 1]);
        assert(keys[i] == key_of(nodes, i + 1));
        assert(keys[j] == key_of(nodes, j + 1));
    }
    keys.lemma_multiset_has_no_duplicates();
    order.lemma_multiset_has_no_duplicates_conv();
    assert forall|j: int| 0 <= j < order.len() implies #[trigger] is_key(nodes, order, j) by {
        assert(order.contains(order[j]));
        assert(order.to_multiset().count(order[j]) > 0);
        assert(keys.contains(order[j]));
        let p = keys.index_of(order[j]);
        assert(keys[p] == key_of(nodes, p + 1));
    }
    assert forall|i: int| 0 < i < nodes.len() implies #[trigger] order.contains(
        key_of(nodes, i),
    ) by {
        assert(keys[i - 1] == key_of(nodes, i));
        assert(keys.contains(keys[i - 1]));
        assert(keys.to_multiset().count(keys[i - 1]) > 0);
    }
    assert forall|j: int, k: int| 0 <= j < k < order.len() implies #[trigger] order[j]
        / 0x1_0000_0000 < #[trigger] order[k] / 0x1_0000_0000 by {
        assert(order[j] <= order[k]);
        assert(is_key(nodes, order, j));
        assert(is_key(nodes, order, k));
        let first = (order[j] % 0x1_0000_0000) as int;
        let second = (order[k] % 0x1_0000_0000) as int;
        if order[j] / 0x1_0000_0000 == order[k] / 0x1_0000_0000 {
            assert(node_ids(nodes)[first] == node_ids(nodes)[second]);
            assert(first == second);
            assert(order[j] == order[k]);
        }
    }
}

/// Node number of the key at `at`, or the end of the schema.
spec fn bound_at(schema: Seq<KvIrSchemaEntry<'_>>, order: Seq<u64>, at: int) -> int {
    if at < order.len() {
        order[at] as int / 0x1_0000_0000
    } else {
        schema.len() as int
    }
}

/// Node number that a link leads to.
pub open spec fn linked_id(nodes: Seq<TempNode>, link: Option<usize>) -> Option<int> {
    match link {
        Some(place) => Some(nodes[place as int].schema_id as int),
        None => None,
    }
}

/// Whether a link leads to a node below the root.
pub open spec fn is_link_ok(nodes: Seq<TempNode>, link: Option<usize>) -> bool {
    link matches Some(place) ==> 0 < place < nodes.len()
}

/// Whether a node is linked to its first child and its next sibling.
pub open spec fn is_linked_node(
    nodes: Seq<TempNode>,
    schema: Seq<KvIrSchemaEntry<'_>>,
    i: int,
) -> bool {
    let ids = node_ids(nodes);
    let id = nodes[i].schema_id as int;
    &&& is_link_ok(nodes, nodes[i].first_child)
    &&& linked_id(nodes, nodes[i].first_child) == next_child(schema, ids, id, id + 1)
    &&& i > 0 ==> is_link_ok(nodes, nodes[i].next_sibling) && linked_id(
        nodes,
        nodes[i].next_sibling,
    ) == next_child(schema, ids, parent_of(schema, id), id + 1)
}

/// Whether all nodes are linked.
pub open spec fn is_linked_tree(nodes: Seq<TempNode>, schema: Seq<KvIrSchemaEntry<'_>>) -> bool {
    forall|i: int| 0 <= i < nodes.len() ==> #[trigger] is_linked_node(nodes, schema, i)
}

/// Whether a node is linked as far as nodes from `bound` on are concerned.
spec fn is_linked_node_from(
    nodes: Seq<TempNode>,
    schema: Seq<KvIrSchemaEntry<'_>>,
    ids: Seq<int>,
    bound: int,
    i: int,
) -> bool {
    let id = nodes[i].schema_id as int;
    &&& is_link_ok(nodes, nodes[i].first_child)
    &&& linked_id(nodes, nodes[i].first_child) == next_child(schema, ids, id, bound)
    &&& i > 0 && id >= bound ==> is_link_ok(nodes, nodes[i].next_sibling) && linked_id(
        nodes,
        nodes[i].next_sibling,
    ) == next_child(schema, ids, parent_of(schema, id), id + 1)
}

spec fn is_linked_from(
    nodes: Seq<TempNode>,
    schema: Seq<KvIrSchemaEntry<'_>>,
    ids: Seq<int>,
    bound: int,
) -> bool {
    forall|i: int|
        0 <= i < nodes.len() ==> #[trigger] is_linked_node_from(nodes, schema, ids, bound, i)
}

/// No node stands between two neighbouring keys.
proof fn lemma_gap(
    nodes: Seq<TempNode>,
    schema: Seq<KvIrSchemaEntry<'_>>,
    order: Seq<u64>,
    at: int,
    node: int,
)
    requires
        nodes_ok(nodes, schema),
        keys_ok(nodes, order),
        0 <= at <= order.len(),
        0 < node < bound_at(schema, order, at),
        at > 0 ==> bound_at(schema, order, at - 1) < node,
    ensures
        !node_ids(nodes).contains(node),
{
    let ids = node_ids(nodes);
    if ids.contains(node) {
        let i = ids.index_of(node);
        assert(ids[i] == node);
        assert(i > 0);
        assert(order.contains(key_of(nodes, i)));
        let j = order.index_of(key_of(nodes, i));
        assert(order[j] == key_of(nodes, i));
        assert(is_key(nodes, order, j));
        assert(order[j] as int / 0x1_0000_0000 == node);
        if j >= at {
            if j > at {
                assert(order[at] / 0x1_0000_0000 < order[j] / 0x1_0000_0000);
            }
        } else if j < at - 1 {
            assert(order[j] / 0x1_0000_0000 < order[at - 1] / 0x1_0000_0000);
        }
    }
}

proof fn lemma_linked_step(
    start: Seq<TempNode>,
    before: Seq<TempNode>,
    after: Seq<TempNode>,
    schema: Seq<KvIrSchemaEntry<'_>>,
    order: Seq<u64>,
    left: int,
    child: int,
)
    requires
        is_schema(schema),
        nodes_ok(start, schema),
        same_nodes(start, before),
        keys_ok(start, order),
        0 < left <= order.len(),
        child == order[left - 1] % 0x1_0000_0000,
        is_linked_from(before, schema, node_ids(start), bound_at(schema, order, left)),
        after == ({
            let parent = before[child].parent as int;
            let linked = before.update(
                child,
                TempNode { next_sibling: before[parent].first_child, ..before[child] },
            );
            linked.update(parent, TempNode { first_child: Some(child as usize), ..linked[parent] })
        }),
    ensures
        same_nodes(start, after),
        is_linked_from(after, schema, node_ids(start), bound_at(schema, order, left - 1)),
{
    let ids = node_ids(start);
    let bound = bound_at(schema, order, left);
    assert(is_key(start, order, left - 1));
    assert(is_node_ok(start, schema, child));
    let id = start[child].schema_id as int;
    let parent = start[child].parent as int;
    assert(bound_at(schema, order, left - 1) == id);
    assert(id < bound) by {
        if left < order.len() {
            assert(order[left - 1] / 0x1_0000_0000 < order[left] / 0x1_0000_0000);
            assert(is_key(start, order, left));
        }
    }
    assert(bound <= schema.len()) by {
        if left < order.len() {
            assert(is_key(start, order, left));
            assert(is_node_ok(start, schema, (order[left] % 0x1_0000_0000) as int));
        }
    }
    assert(ids[child] == id);
    assert(ids.contains(id));
    assert forall|node: int| id < node < bound implies !ids.contains(node) by {
        lemma_gap(start, schema, order, left, node);
    }
    assert forall|i: int| 0 <= i < after.len() implies #[trigger] is_linked_node_from(
        after,
        schema,
        ids,
        id,
        i,
    ) by {
        assert(is_linked_node_from(before, schema, ids, bound, i));
        assert(is_linked_node_from(before, schema, ids, bound, parent));
        let own = after[i].schema_id as int;
        assert(own == start[i].schema_id);
        assert forall|node: int| id < node < bound implies !#[trigger] is_child(
            schema,
            ids,
            own,
            node,
        ) by {}
        lemma_next_child_moves(schema, ids, own, id + 1, bound);
        if own == start[parent].schema_id {
            assert(ids[i] == ids[parent]);
            assert(i == parent);
            assert(is_child(schema, ids, own, id));
        } else {
            assert(!is_child(schema, ids, own, id));
        }
        if i > 0 && own >= id {
            if own == id {
                assert(ids[i] == ids[child]);
                assert(i == child);
                let above = start[parent].schema_id as int;
                assert(parent_of(schema, id) == above);
                assert forall|node: int| id < node < bound implies !#[trigger] is_child(
                    schema,
                    ids,
                    above,
                    node,
                ) by {}
                lemma_next_child_moves(schema, ids, above, id + 1, bound);
            } else {
                assert(ids[i] == own);
                assert(ids.contains(own));
                assert(own >= bound);
            }
        }
    }
}

proof fn lemma_linked_whole(
    start: Seq<TempNode>,
    nodes: Seq<TempNode>,
    schema: Seq<KvIrSchemaEntry<'_>>,
    order: Seq<u64>,
)
    requires
        is_schema(schema),
        nodes_ok(start, schema),
        same_nodes(start, nodes),
        keys_ok(start, order),
        is_linked_from(nodes, schema, node_ids(start), bound_at(schema, order, 0)),
    ensures
        is_linked_tree(nodes, schema),
{
    let ids = node_ids(start);
    let bound = bound_at(schema, order, 0);
    assert(node_ids(nodes) =~= ids);
    assert(0 <= bound <= schema.len()) by {
        if 0 < order.len() {
            assert(is_key(start, order, 0));
            assert(is_node_ok(start, schema, (order[0] % 0x1_0000_0000) as int));
        }
    }
    assert forall|node: int| 0 < node < bound implies !ids.contains(node) by {
        lemma_gap(start, schema, order, 0, node);
    }
    assert forall|i: int| 0 <= i < nodes.len() implies #[trigger] is_linked_node(
        nodes,
        schema,
        i,
    ) by {
        assert(is_linked_node_from(nodes, schema, ids, bound, i));
        let id = nodes[i].schema_id as int;
        if i > 0 {
            assert(is_node_ok(start, schema, i));
            assert(ids[i] == id);
            assert(ids.contains(id));
            assert(id >= bound);
            assert forall|node: int| bound <= node < id + 1 implies !#[trigger] is_child(
                schema,
                ids,
                id,
                node,
            ) by {
                if is_child(schema, ids, id, node) {
                    assert(schema[node].parent_id matches Some(parent) && parent < node);
                }
            }
            lemma_next_child_moves(schema, ids, id, bound, id + 1);
        } else {
            if schema.len() == 0 {
                assert(next_child(schema, ids, id, bound) is None);
            } else if bound == 0 {
                assert(is_key(start, order, 0));
                assert(is_node_ok(start, schema, (order[0] % 0x1_0000_0000) as int));
            } else {
                assert forall|node: int| 1 <= node < bound implies !#[trigger] is_child(
                    schema,
                    ids,
                    id,
                    node,
                ) by {}
                lemma_next_child_moves(schema, ids, id, 1, bound);
            }
        }
    }
}

} // verus!

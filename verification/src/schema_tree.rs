//! Schema trees of the serializer: packed nodes with an exact index for wide trees.

use vstd::prelude::*;
use vstd::slice::slice_subrange;

use crate::kv_ir::KvIrNodeType;
use crate::probe_table::{
    grown_slots, insert_slot, is_leaving, lemma_empty_slot, lemma_empty_table,
    lemma_found_before_empty, lemma_left, lemma_moved, lemma_start_leaving, lemma_stayed, next_slot,
    steps, table_ok,
};
use crate::serializer_options::{
    allocation, limit_error, serializer_limit, was_refused, KvIrSerializerError,
    KvIrSerializerLimitResource,
};
use crate::text::{append_slice, bytes_equal};

verus! {

/// Trees with no more nodes than this, the root aside, are searched from end to end.
pub const LINEAR_SCHEMA_SCAN_LIMIT: usize = 32;

/// A seeded hash state of the `ahash` crate.
#[verifier::external_type_specification]
#[verifier::external_body]
pub struct ExRandomState(ahash::RandomState);

/// Whether memory for the index of a tree of `nodes` nodes was refused. A tree that is searched
/// from end to end needs none, and the slots that are missing are never more than four to a node.
pub open spec fn is_slots_refused(nodes: int, error: KvIrSerializerError) -> bool {
    error matches KvIrSerializerError::AllocationFailed { resource, requested_additional }
        && resource@ == "schema index slots"@ && LINEAR_SCHEMA_SCAN_LIMIT < nodes && 0
        < requested_additional <= 4 * nodes
}

/// Slots that an index of `slots` slots needs for one node more than `nodes`.
pub open spec fn needed_slots(slots: int, nodes: int) -> int {
    if slots == 0 && nodes <= LINEAR_SCHEMA_SCAN_LIMIT {
        0
    } else {
        grown_slots(
            if slots == 0 {
                16
            } else {
                slots
            },
            nodes,
        )
    }
}

/// Whether this memory can be refused to a node that is added to `tree`: for the node, for its
/// key, and for the index of a wide tree.
pub open spec fn is_node_request(
    tree: Seq<NodeView>,
    key: Seq<u8>,
    error: KvIrSerializerError,
) -> bool {
    ||| was_refused(error, "schema nodes"@, 1)
    ||| was_refused(error, "schema keys"@, key.len() as int) && 0 < key.len()
    ||| is_slots_refused(tree.len() as int, error)
}

/// What a hash state gives for each identity of a node: parent, type tag, and key.
///
/// The seeds are part of the state: nothing is said of how the hashes of two states relate.
pub uninterp spec fn state_hashes(state: ahash::RandomState) -> Map<(u32, u8, Seq<u8>), u64>;

/// Calls `ahash::RandomState::new`, which draws its seeds; nothing is said of the state.
#[verifier::external_body]
fn new_hash_state() -> (state: ahash::RandomState) {
    ahash::RandomState::new()
}

/// Calls `ahash::RandomState::hash_one`, whose result is fixed by the state and what is hashed.
#[verifier::external_body]
fn hash_identity(state: &ahash::RandomState, parent_id: u32, tag: u8, key: &[u8]) -> (hash: u64)
    ensures
        hash == state_hashes(*state)[(parent_id, tag, key@)],
{
    state.hash_one((parent_id, tag, key))
}

/// One node by its meaning.
pub struct NodeView {
    pub parent_id: u32,
    pub node_type: KvIrNodeType,
    pub key: Seq<u8>,
}

/// One packed node: its key ends at `key_end` in the shared key bytes.
#[derive(Clone, Copy, Debug)]
pub struct SchemaNode {
    pub parent_id: u32,
    pub node_type: KvIrNodeType,
    pub key_end: usize,
}

/// Tag under which a type is hashed.
pub open spec fn type_tag(node_type: KvIrNodeType) -> u8 {
    match node_type {
        KvIrNodeType::Integer => 0,
        KvIrNodeType::Float => 1,
        KvIrNodeType::Boolean => 2,
        KvIrNodeType::String => 3,
        KvIrNodeType::UnstructuredArray => 4,
        KvIrNodeType::Object => 5,
    }
}

fn node_type_hash_tag(node_type: KvIrNodeType) -> (tag: u8)
    ensures
        tag == type_tag(node_type),
{
    match node_type {
        KvIrNodeType::Integer => 0,
        KvIrNodeType::Float => 1,
        KvIrNodeType::Boolean => 2,
        KvIrNodeType::String => 3,
        KvIrNodeType::UnstructuredArray => 4,
        KvIrNodeType::Object => 5,
    }
}

/// Key of a packed node.
pub open spec fn packed_key(nodes: Seq<SchemaNode>, keys: Seq<u8>, index: int) -> Seq<u8> {
    if index == 0 {
        Seq::empty()
    } else {
        keys.subrange(nodes[index - 1].key_end as int, nodes[index].key_end as int)
    }
}

/// Meaning of packed nodes.
pub open spec fn unpacked(nodes: Seq<SchemaNode>, keys: Seq<u8>) -> Seq<NodeView> {
    Seq::new(
        nodes.len(),
        |index: int|
            NodeView {
                parent_id: nodes[index].parent_id,
                node_type: nodes[index].node_type,
                key: packed_key(nodes, keys, index),
            },
    )
}

/// Whether packed nodes are sound: the root first, and keys one after the other.
pub open spec fn packed_ok(nodes: Seq<SchemaNode>, keys: Seq<u8>) -> bool {
    &&& 0 < nodes.len()
    &&& nodes[0].key_end == 0
    &&& nodes.last().key_end == keys.len()
    &&& forall|first: int, second: int|
        0 <= first <= second < nodes.len() ==> #[trigger] nodes[first].key_end
            <= #[trigger] nodes[second].key_end
}

/// Whether a node has the given identity.
pub open spec fn has_identity(
    node: NodeView,
    parent_id: u32,
    key: Seq<u8>,
    node_type: KvIrNodeType,
) -> bool {
    node.parent_id == parent_id && node.node_type == node_type && node.key == key
}

/// Whether no two nodes, the root aside, have the same identity.
pub open spec fn all_distinct(tree: Seq<NodeView>) -> bool {
    forall|first: int, second: int|
        1 <= first < tree.len() && 1 <= second < tree.len() && #[trigger] tree[first]
            == #[trigger] tree[second] ==> first == second
}

/// The node with the given identity, from `at` on.
pub open spec fn node_from(
    tree: Seq<NodeView>,
    at: int,
    parent_id: u32,
    key: Seq<u8>,
    node_type: KvIrNodeType,
) -> Option<int>
    decreases tree.len() - at,
{
    if at < 0 || at >= tree.len() {
        None
    } else if has_identity(tree[at], parent_id, key, node_type) {
        Some(at)
    } else {
        node_from(tree, at + 1, parent_id, key, node_type)
    }
}

/// The node with the given identity, the root aside.
pub open spec fn node_of(
    tree: Seq<NodeView>,
    parent_id: u32,
    key: Seq<u8>,
    node_type: KvIrNodeType,
) -> Option<int> {
    node_from(tree, 1, parent_id, key, node_type)
}

/// The tree with one node more, and the node's ID.
pub open spec fn with_node(tree: Seq<NodeView>, node: NodeView, limit: u64) -> Result<
    (Seq<NodeView>, u32),
    KvIrSerializerError,
> {
    if tree.len() > u32::MAX {
        Err(
            serializer_limit(
                KvIrSerializerLimitResource::SchemaNodesPerNamespace,
                u32::MAX + 1,
                limit,
            ),
        )
    } else if tree.len() > limit {
        Err(
            serializer_limit(
                KvIrSerializerLimitResource::SchemaNodesPerNamespace,
                tree.len() as int,
                limit,
            ),
        )
    } else if tree.len() > usize::MAX / 8 {
        Err(KvIrSerializerError::SizeOverflow)
    } else {
        Ok((tree.push(node), tree.len() as u32))
    }
}

/// A tree of the root alone.
pub open spec fn root_tree() -> Seq<NodeView> {
    seq![NodeView { parent_id: 0, node_type: KvIrNodeType::Object, key: Seq::empty() }]
}

pub proof fn lemma_node_from(
    tree: Seq<NodeView>,
    at: int,
    parent_id: u32,
    key: Seq<u8>,
    node_type: KvIrNodeType,
)
    requires
        0 <= at,
    ensures
        match node_from(tree, at, parent_id, key, node_type) {
            Some(index) => at <= index < tree.len() && has_identity(
                tree[index],
                parent_id,
                key,
                node_type,
            ),
            None => forall|i: int|
                at <= i < tree.len() ==> !has_identity(
                    #[trigger] tree[i],
                    parent_id,
                    key,
                    node_type,
                ),
        },
    decreases tree.len() - at,
{
    if at < tree.len() && !has_identity(tree[at], parent_id, key, node_type) {
        lemma_node_from(tree, at + 1, parent_id, key, node_type);
    }
}

/// Exact index into the nodes of a tree.
///
/// Slots hold node IDs; zero, the ID of the root, marks an empty slot. Hashes are seeded, so that
/// chosen keys cannot crowd the table, and every hit is checked against the complete identity.
pub struct SchemaIndex {
    hash_builder: Option<ahash::RandomState>,
    slots: Vec<u32>,
    fixed_hash: Option<u64>,
}

impl SchemaIndex {
    spec fn hash_of(&self, parent_id: u32, key: Seq<u8>, node_type: KvIrNodeType) -> u64 {
        match self.fixed_hash {
            Some(hash) => hash,
            None => state_hashes(self.hash_builder->0)[(parent_id, type_tag(node_type), key)],
        }
    }

    /// Slot at which the search for a node starts.
    spec fn home_of(&self, node: NodeView) -> int {
        self.hash_of(node.parent_id, node.key, node.node_type) as int % self.slots@.len() as int
    }

    spec fn homes(&self, tree: Seq<NodeView>) -> Seq<int> {
        Seq::new(tree.len(), |index: int| self.home_of(tree[index]))
    }

    spec fn wf(&self, tree: Seq<NodeView>) -> bool {
        self.slots@.len() > 0 ==> self.hash_builder is Some && table_ok(
            self.slots@,
            self.homes(tree),
        )
    }

    spec fn same_hashes(&self, other: &SchemaIndex) -> bool {
        self.hash_builder == other.hash_builder && self.fixed_hash == other.fixed_hash
    }

    fn hash_key(&self, parent_id: u32, key: &[u8], node_type: KvIrNodeType) -> (hash: u64)
        requires
            self.hash_builder is Some,
        ensures
            hash == self.hash_of(parent_id, key@, node_type),
    {
        match self.fixed_hash {
            Some(hash) => {
                return hash;
            },
            None => {},
        }
        match &self.hash_builder {
            Some(state) => hash_identity(state, parent_id, node_type_hash_tag(node_type), key),
            None => 0,
        }
    }

    fn starting_slot(hash: u64, size: usize) -> (slot: usize)
        requires
            size > 0,
        ensures
            slot == hash as int % size as int,
            slot < size,
    {
        (hash % size as u64) as usize
    }

    /// Looks a node up; also returns its hash, where the index is in use.
    fn locate(
        &self,
        nodes: &Vec<SchemaNode>,
        keys: &Vec<u8>,
        parent_id: u32,
        key: &[u8],
        node_type: KvIrNodeType,
    ) -> (result: (u64, Option<u32>))
        requires
            packed_ok(nodes@, keys@),
            self.wf(unpacked(nodes@, keys@)),
            self.slots@.len() > 0,
        ensures
            result.0 == self.hash_of(parent_id, key@, node_type),
            match result.1 {
                Some(node_id) => 1 <= node_id < nodes@.len() && has_identity(
                    unpacked(nodes@, keys@)[node_id as int],
                    parent_id,
                    key@,
                    node_type,
                ),
                None => forall|i: int|
                    1 <= i < nodes@.len() ==> !has_identity(
                        #[trigger] unpacked(nodes@, keys@)[i],
                        parent_id,
                        key@,
                        node_type,
                    ),
            },
    {
        let hash = self.hash_key(parent_id, key, node_type);
        let size = self.slots.len();
        let home = SchemaIndex::starting_slot(hash, size);
        let ghost tree = unpacked(nodes@, keys@);
        let ghost homes = self.homes(tree);
        let ghost empty = lemma_empty_slot(self.slots@);
        let mut at: usize = home;
        loop
            invariant
                packed_ok(nodes@, keys@),
                tree == unpacked(nodes@, keys@),
                homes == self.homes(tree),
                table_ok(self.slots@, homes),
                size == self.slots@.len(),
                hash == self.hash_of(parent_id, key@, node_type),
                home == hash as int % size as int,
                home < size,
                at < size,
                0 <= empty < size,
                self.slots@[empty] == 0,
                steps(home as int, at as int, size as int) <= steps(
                    home as int,
                    empty,
                    size as int,
                ),
                forall|p: int|
                    0 <= p < size && steps(home as int, p, size as int) < steps(
                        home as int,
                        at as int,
                        size as int,
                    ) ==> #[trigger] self.slots@[p] != 0 && !has_identity(
                        tree[self.slots@[p] as int],
                        parent_id,
                        key@,
                        node_type,
                    ),
            decreases
                    steps(home as int, empty, size as int) - steps(
                        home as int,
                        at as int,
                        size as int,
                    ),
        {
            let node_id = self.slots[at];
            if node_id == 0 {
                proof {
                    assert forall|i: int| 1 <= i < tree.len() implies !has_identity(
                        #[trigger] tree[i],
                        parent_id,
                        key@,
                        node_type,
                    ) by {
                        if has_identity(tree[i], parent_id, key@, node_type) {
                            assert(homes[i] == home);
                            let p = lemma_found_before_empty(self.slots@, homes, i, at as int);
                            assert(self.slots@[p] == i);
                        }
                    }
                }
                return (hash, None);
            }
            if node_matches(nodes, keys, node_id, parent_id, key, node_type) {
                return (hash, Some(node_id));
            }
            at = next_slot(at, size);
        }
    }

    /// Returns how many slots the index needs for one node more; none while the tree is searched
    /// from end to end.
    fn required_slots(&self, entries: usize) -> (required: usize)
        requires
            entries <= usize::MAX / 8,
            self.slots@.len() > 0 ==> entries > LINEAR_SCHEMA_SCAN_LIMIT,
        ensures
            required == needed_slots(self.slots@.len() as int, entries as int),
            required >= self.slots@.len(),
            required > 0 ==> entries < required,
            required > self.slots@.len() ==> entries > LINEAR_SCHEMA_SCAN_LIMIT && required <= 4
                * entries,
    {
        if self.slots.len() == 0 && entries <= LINEAR_SCHEMA_SCAN_LIMIT {
            return 0;
        }
        let mut required: usize = self.slots.len();
        if required == 0 {
            required = 16;
        }
        while entries > required / 4 * 3
            invariant
                entries <= usize::MAX / 8,
                required > 0,
                required >= self.slots@.len(),
                entries > LINEAR_SCHEMA_SCAN_LIMIT,
                required > self.slots@.len() ==> required <= 4 * entries,
                grown_slots(required as int, entries as int) == needed_slots(
                    self.slots@.len() as int,
                    entries as int,
                ),
            decreases usize::MAX - required,
        {
            assert(required < 2 * entries + 4);
            required = required * 2;
        }
        required
    }

    /// Builds the index anew, with `required` slots in `storage`.
    fn rebuild(
        &mut self,
        nodes: &Vec<SchemaNode>,
        keys: &Vec<u8>,
        storage: Vec<u32>,
        required: usize,
    )
        requires
            packed_ok(nodes@, keys@),
            old(self).wf(unpacked(nodes@, keys@)),
            nodes@.len() < required,
            nodes@.len() <= u32::MAX,
        ensures
            final(self).wf(unpacked(nodes@, keys@)),
            final(self).fixed_hash == old(self).fixed_hash,
            old(self).slots@.len() > 0 ==> final(self).same_hashes(old(self)),
            final(self).slots@.len() == required,
    {
        let ghost tree = unpacked(nodes@, keys@);
        let entries = nodes.len();
        let mut slots = storage;
        slots.clear();
        if self.hash_builder.is_none() {
            self.hash_builder = Some(new_hash_state());
        }
        let mut filled: usize = 0;
        while filled < required
            invariant
                filled <= required,
                slots@.len() == filled,
                forall|i: int| 0 <= i < filled ==> slots@[i] == 0,
            decreases required - filled,
        {
            slots.push(0);
            filled += 1;
        }
        let ghost next = SchemaIndex {
            hash_builder: self.hash_builder,
            slots,
            fixed_hash: self.fixed_hash,
        };
        let ghost homes = next.homes(tree);
        proof {
            assert forall|i: int| 0 <= i < homes.len() implies 0 <= #[trigger] homes[i]
                < required by {
                assert(homes[i] == next.home_of(tree[i]));
            }
            lemma_empty_table(slots@, homes[0]);
            assert(seq![homes[0]] =~= homes.take(1));
        }
        let mut index: usize = 1;
        while index < nodes.len()
            invariant
                1 <= index <= nodes@.len(),
                packed_ok(nodes@, keys@),
                tree == unpacked(nodes@, keys@),
                nodes@.len() <= u32::MAX,
                entries == nodes@.len(),
                entries < required,
                slots@.len() == required,
                self.hash_builder is Some,
                self.same_hashes(&next),
                next.slots@.len() == required,
                homes == next.homes(tree),
                table_ok(slots@, homes.take(index as int)),
            decreases nodes@.len() - index,
        {
            let node = nodes[index];
            let key = node_key(nodes, keys, index);
            let hash = self.hash_key(node.parent_id, key, node.node_type);
            let home = SchemaIndex::starting_slot(hash, required);
            insert_slot(&mut slots, home, index as u32, Ghost(homes.take(index as int)));
            proof {
                assert(homes[index as int] == next.home_of(tree[index as int]));
                assert(homes.take(index + 1) =~= homes.take(index as int).push(home as int));
            }
            index += 1;
        }
        self.slots = slots;
        proof {
            assert(self.homes(tree) =~= homes);
            assert(homes.take(homes.len() as int) =~= homes);
        }
    }

    /// Takes the last node out of the index and closes the gap it leaves.
    fn remove(&mut self, nodes: &Vec<SchemaNode>, keys: &Vec<u8>, node_id: u32)
        requires
            packed_ok(nodes@, keys@),
            old(self).wf(unpacked(nodes@, keys@)),
            1 <= node_id,
            node_id + 1 == nodes@.len(),
        ensures
            final(self).wf(unpacked(nodes@, keys@).drop_last()),
            final(self).same_hashes(old(self)),
    {
        if self.slots.len() == 0 {
            return;
        }
        let ghost tree = unpacked(nodes@, keys@);
        let ghost homes = self.homes(tree);
        let ghost all_slots = self.slots@;
        let size = self.slots.len();
        let index = node_id as usize;
        let node = nodes[index];
        let key = node_key(nodes, keys, index);
        let hash = self.hash_key(node.parent_id, key, node.node_type);
        let home = SchemaIndex::starting_slot(hash, size);
        let ghost empty = lemma_empty_slot(all_slots);
        proof {
            assert(homes[index as int] == self.home_of(tree[index as int]));
            assert(homes[index as int] == home);
        }
        let mut hole: usize = home;
        proof {
            let there = lemma_found_before_empty(all_slots, homes, node_id as int, empty);
        }
        while self.slots[hole] != node_id
            invariant
                self.slots@ == all_slots,
                self.same_hashes(old(self)),
                table_ok(all_slots, homes),
                homes[node_id as int] == home,
                1 <= node_id < homes.len(),
                size == all_slots.len(),
                home < size,
                hole < size,
                0 <= empty < size,
                all_slots[empty] == 0,
                steps(home as int, hole as int, size as int) <= steps(
                    home as int,
                    empty,
                    size as int,
                ),
                forall|p: int|
                    0 <= p < size && steps(home as int, p, size as int) < steps(
                        home as int,
                        hole as int,
                        size as int,
                    ) ==> #[trigger] all_slots[p] != node_id,
            decreases
                    steps(home as int, empty, size as int) - steps(
                        home as int,
                        hole as int,
                        size as int,
                    ),
        {
            proof {
                let there = lemma_found_before_empty(all_slots, homes, node_id as int, empty);
                assert(all_slots[there] == node_id);
                assert(steps(home as int, there, size as int) >= steps(
                    home as int,
                    hole as int,
                    size as int,
                ));
                assert(hole != empty);
            }
            hole = next_slot(hole, size);
        }
        proof {
            assert(hole != empty);
            assert(size > 1);
        }
        let mut next: usize = next_slot(hole, size);
        proof {
            lemma_start_leaving(all_slots, homes, hole as int, next as int);
        }
        loop
            invariant
                packed_ok(nodes@, keys@),
                tree == unpacked(nodes@, keys@),
                node_id + 1 == nodes@.len(),
                self.same_hashes(old(self)),
                self.hash_builder is Some,
                size == self.slots@.len(),
                homes == self.homes(tree),
                homes.len() == nodes@.len(),
                hole < size,
                next < size,
                0 <= empty < size,
                self.slots@[empty] == 0,
                is_leaving(self.slots@, homes, node_id as int, hole as int, next as int),
                steps(hole as int, next as int, size as int) <= steps(
                    hole as int,
                    empty,
                    size as int,
                ),
            decreases steps(next as int, empty, size as int),
        {
            let candidate = self.slots[next];
            if candidate == 0 {
                proof {
                    assert(homes.len() - 1 == node_id);
                    lemma_left(self.slots@, homes, hole as int, next as int);
                }
                self.slots.set(hole, 0);
                proof {
                    assert(self.homes(tree.drop_last()) =~= homes.drop_last());
                }
                return;
            }
            proof {
                assert(next != empty);
                assert(self.slots@[next as int] < homes.len());
            }
            let candidate_index = candidate as usize;
            let candidate_node = nodes[candidate_index];
            let candidate_key = node_key(nodes, keys, candidate_index);
            let candidate_hash = self.hash_key(
                candidate_node.parent_id,
                candidate_key,
                candidate_node.node_type,
            );
            let ideal = SchemaIndex::starting_slot(candidate_hash, size);
            proof {
                assert(homes[candidate as int] == self.home_of(tree[candidate as int]));
                assert(homes[candidate as int] == ideal);
            }
            let candidate_steps = slot_steps(ideal, next, size);
            let hole_steps = slot_steps(ideal, hole, size);
            let following = next_slot(next, size);
            let ghost before = self.slots@;
            if candidate_steps > hole_steps {
                proof {
                    lemma_moved(
                        self.slots@,
                        homes,
                        node_id as int,
                        hole as int,
                        next as int,
                        following as int,
                    );
                    assert(empty != hole);
                }
                self.slots.set(hole, candidate);
                hole = next;
                proof {
                    assert(self.homes(tree) =~= homes);
                }
            } else {
                proof {
                    lemma_stayed(
                        self.slots@,
                        homes,
                        node_id as int,
                        hole as int,
                        next as int,
                        following as int,
                    );
                }
            }
            next = following;
        }
    }
}

/// Steps from one slot forward to another.
fn slot_steps(from: usize, to: usize, size: usize) -> (count: usize)
    requires
        from < size,
        to < size,
    ensures
        count == steps(from as int, to as int, size as int),
{
    if to >= from {
        to - from
    } else {
        size - (from - to)
    }
}

/// Key of a packed node.
fn node_key<'a>(nodes: &Vec<SchemaNode>, keys: &'a Vec<u8>, index: usize) -> (key: &'a [u8])
    requires
        packed_ok(nodes@, keys@),
        index < nodes@.len(),
    ensures
        key@ == packed_key(nodes@, keys@, index as int),
{
    if index == 0 {
        let key = slice_subrange(keys.as_slice(), 0, 0);
        assert(key@ =~= Seq::<u8>::empty());
        return key;
    }
    proof {
        let last = nodes@.len() - 1;
        assert(nodes@[index as int].key_end <= nodes@[last].key_end);
        assert(nodes@[index - 1].key_end <= nodes@[index as int].key_end);
    }
    slice_subrange(keys.as_slice(), nodes[index - 1].key_end, nodes[index].key_end)
}

/// Whether a node has the given identity.
fn node_matches(
    nodes: &Vec<SchemaNode>,
    keys: &Vec<u8>,
    node_id: u32,
    parent_id: u32,
    key: &[u8],
    node_type: KvIrNodeType,
) -> (result: bool)
    requires
        packed_ok(nodes@, keys@),
        node_id < nodes@.len(),
    ensures
        result == has_identity(
            unpacked(nodes@, keys@)[node_id as int],
            parent_id,
            key@,
            node_type,
        ),
{
    let index = node_id as usize;
    let node = nodes[index];
    node.parent_id == parent_id && node.node_type == node_type && bytes_equal(
        node_key(nodes, keys, index),
        key,
    )
}

/// Which memory there is for a node: for the node, for its key, and for the index.
struct NodeGrants {
    node: bool,
    key: bool,
    index: bool,
}

/// A schema tree.
pub struct SchemaTree {
    nodes: Vec<SchemaNode>,
    keys: Vec<u8>,
    index: SchemaIndex,
}

impl View for SchemaTree {
    type V = Seq<NodeView>;

    closed spec fn view(&self) -> Seq<NodeView> {
        unpacked(self.nodes@, self.keys@)
    }
}

impl SchemaTree {
    pub closed spec fn wf(&self) -> bool {
        &&& packed_ok(self.nodes@, self.keys@)
        &&& all_distinct(self@)
        &&& self.index.wf(self@)
        &&& self.nodes@.len() <= u32::MAX + 1
        &&& self.index.slots@.len() > 0 ==> self.nodes@.len() > LINEAR_SCHEMA_SCAN_LIMIT
    }

    /// Whether a hash is the one under which the index, where it is in use, keeps an identity.
    pub closed spec fn is_hash_of(
        &self,
        hash: u64,
        parent_id: u32,
        key: Seq<u8>,
        node_type: KvIrNodeType,
    ) -> bool {
        self.index.slots@.len() > 0 ==> hash == self.index.hash_of(parent_id, key, node_type)
    }

    /// Creates a tree of the root alone.
    pub fn new() -> (result: Result<Self, KvIrSerializerError>)
        ensures
            match result {
                Ok(tree) => tree.wf() && tree@ == root_tree(),
                Err(error) => was_refused(error, "schema nodes"@, 1),
            },
    {
        SchemaTree::with_fixed_hash(None)
    }

    /// Creates a tree of the root alone whose index keeps every node under one hash, if one is
    /// given.
    pub fn with_fixed_hash(fixed_hash: Option<u64>) -> (result: Result<Self, KvIrSerializerError>)
        ensures
            match result {
                Ok(tree) => tree.wf() && tree@ == root_tree(),
                Err(error) => was_refused(error, "schema nodes"@, 1),
            },
    {
        let mut storage: Vec<SchemaNode> = Vec::new();
        let reserved = storage.try_reserve(1).is_ok();
        SchemaTree::with_storage(fixed_hash, storage, reserved)
    }

    /// Creates a tree of the root alone in `storage`, given whether that has memory for it.
    fn with_storage(
        fixed_hash: Option<u64>,
        storage: Vec<SchemaNode>,
        reserved: bool,
    ) -> (result: Result<Self, KvIrSerializerError>)
        ensures
            match result {
                Ok(tree) => reserved && tree.wf() && tree@ == root_tree(),
                Err(error) => !reserved && was_refused(error, "schema nodes"@, 1),
            },
    {
        if !reserved {
            return Err(allocation("schema nodes", 1));
        }
        let mut nodes = storage;
        nodes.clear();
        nodes.push(SchemaNode { parent_id: 0, node_type: KvIrNodeType::Object, key_end: 0 });
        let tree = SchemaTree {
            nodes,
            keys: Vec::new(),
            index: SchemaIndex { hash_builder: None, slots: Vec::new(), fixed_hash },
        };
        assert(tree@ =~= root_tree());
        Ok(tree)
    }

    /// Returns the number of nodes, the root included.
    pub fn len(&self) -> (length: usize)
        ensures
            length == self@.len(),
    {
        self.nodes.len()
    }

    /// Returns the number of slots of the index; none while the tree is searched from end to end.
    pub fn index_slots(&self) -> (slots: usize)
        requires
            self.wf(),
        ensures
            slots == 0 || slots >= self@.len(),
    {
        self.index.slots.len()
    }

    /// Returns the number of key bytes of all nodes.
    pub fn key_bytes(&self) -> (length: usize)
        requires
            self.wf(),
        ensures
            self@.len() == 1 ==> length == 0,
    {
        self.keys.len()
    }

    /// Finds the node with the given identity; also returns the hash to insert it under.
    pub fn find(&self, parent_id: u32, key: &[u8], node_type: KvIrNodeType) -> (result: (
        u64,
        Option<u32>,
    ))
        requires
            self.wf(),
        ensures
            self.is_hash_of(result.0, parent_id, key@, node_type),
            match result.1 {
                Some(node_id) => node_of(self@, parent_id, key@, node_type) == Some(
                    node_id as int,
                ) && 1 <= node_id < self@.len(),
                None => node_of(self@, parent_id, key@, node_type) is None,
            },
    {
        proof {
            lemma_node_from(self@, 1, parent_id, key@, node_type);
        }
        if self.index.slots.len() > 0 {
            let (hash, found) = self.index.locate(
                &self.nodes,
                &self.keys,
                parent_id,
                key,
                node_type,
            );
            proof {
                match found {
                    Some(node_id) => {
                        let expected = node_of(self@, parent_id, key@, node_type);
                        assert(self@[node_id as int] == self@[expected->0]);
                    },
                    None => {},
                }
            }
            return (hash, found);
        }
        let mut index: usize = 1;
        while index < self.nodes.len()
            invariant
                1 <= index <= self.nodes@.len(),
                packed_ok(self.nodes@, self.keys@),
                self.nodes@.len() <= u32::MAX + 1,
                self.index.slots@.len() == 0,
                node_from(self@, index as int, parent_id, key@, node_type) == node_of(
                    self@,
                    parent_id,
                    key@,
                    node_type,
                ),
            decreases self.nodes@.len() - index,
        {
            if node_matches(&self.nodes, &self.keys, index as u32, parent_id, key, node_type) {
                return (0, Some(index as u32));
            }
            index += 1;
        }
        (0, None)
    }

    /// Adds a node that the tree does not have yet, under the hash that [`Self::find`] gave.
    pub fn insert(
        &mut self,
        hash: u64,
        parent_id: u32,
        key: &[u8],
        node_type: KvIrNodeType,
        limit: u64,
    ) -> (result: Result<u32, KvIrSerializerError>)
        requires
            old(self).wf(),
            old(self).is_hash_of(hash, parent_id, key@, node_type),
            node_of(old(self)@, parent_id, key@, node_type) is None,
        ensures
            final(self).wf(),
            match with_node(old(self)@, NodeView { parent_id, node_type, key: key@ }, limit) {
                Err(error) => final(self)@ == old(self)@ && result == Err::<
                    u32,
                    KvIrSerializerError,
                >(error),
                Ok((tree, id)) => match result {
                    Ok(node_id) => node_id == id && final(self)@ == tree,
                    Err(error) => final(self)@ == old(self)@ && is_node_request(
                        old(self)@,
                        key@,
                        error,
                    ),
                },
            },
    {
        let length = self.nodes.len();
        if length as u64 > 0xffff_ffff {
            return Err(
                limit_error(
                    KvIrSerializerLimitResource::SchemaNodesPerNamespace,
                    0x1_0000_0000,
                    limit,
                ),
            );
        }
        if length as u64 > limit {
            return Err(
                limit_error(
                    KvIrSerializerLimitResource::SchemaNodesPerNamespace,
                    length as u64,
                    limit,
                ),
            );
        }
        if length > usize::MAX / 8 {
            return Err(KvIrSerializerError::SizeOverflow);
        }
        let node_reserved = self.nodes.try_reserve(1).is_ok();
        let key_reserved = node_reserved && key.len() <= usize::MAX - self.keys.len() && (key.len()
            == 0 || self.keys.try_reserve(key.len()).is_ok());
        let required = self.index.required_slots(length);
        let mut slots: Vec<u32> = Vec::new();
        let index_reserved = required == self.index.slots.len() || (key_reserved
            && slots.try_reserve(required).is_ok());
        self.insert_reserved(
            hash,
            parent_id,
            key,
            node_type,
            slots,
            NodeGrants { node: node_reserved, key: key_reserved, index: index_reserved },
        )
    }

    /// Adds a node that the tree does not have yet, given which memory there is for it; `storage`
    /// is what was reserved for the index.
    fn insert_reserved(
        &mut self,
        hash: u64,
        parent_id: u32,
        key: &[u8],
        node_type: KvIrNodeType,
        storage: Vec<u32>,
        grants: NodeGrants,
    ) -> (result: Result<u32, KvIrSerializerError>)
        requires
            old(self).wf(),
            old(self).is_hash_of(hash, parent_id, key@, node_type),
            node_of(old(self)@, parent_id, key@, node_type) is None,
            old(self)@.len() <= u32::MAX,
            old(self)@.len() <= usize::MAX / 8,
            grants.key ==> old(self).keys@.len() + key@.len() <= usize::MAX,
            grants.index || needed_slots(
                old(self).index.slots@.len() as int,
                old(self)@.len() as int,
            ) > old(self).index.slots@.len(),
        ensures
            final(self).wf(),
            match result {
                Ok(node_id) => {
                    &&& grants.node && grants.key && grants.index
                    &&& node_id == old(self)@.len()
                    &&& final(self)@ == old(self)@.push(NodeView { parent_id, node_type, key: key@ })
                },
                Err(error) => {
                    &&& final(self)@ == old(self)@
                    &&& if !grants.node {
                        was_refused(error, "schema nodes"@, 1)
                    } else if !grants.key {
                        was_refused(error, "schema keys"@, key@.len() as int)
                    } else {
                        let slots = old(self).index.slots@.len() as int;
                        &&& !grants.index
                        &&& was_refused(
                            error,
                            "schema index slots"@,
                            needed_slots(slots, old(self)@.len() as int) - slots,
                        )
                        &&& is_slots_refused(old(self)@.len() as int, error)
                    }
                },
            },
    {
        if !grants.node {
            return Err(allocation("schema nodes", 1));
        }
        if !grants.key {
            return Err(allocation("schema keys", key.len()));
        }
        let length = self.nodes.len();
        let node_id = length as u32;
        let key_end = self.keys.len() + key.len();
        let was_indexed = self.index.slots.len() > 0;
        let required = self.index.required_slots(length);
        if required > self.index.slots.len() {
            if !grants.index {
                return Err(allocation("schema index slots", required - self.index.slots.len()));
            }
            self.index.rebuild(&self.nodes, &self.keys, storage, required);
        }
        let indexed = self.index.slots.len() > 0;
        let hash = if indexed && !was_indexed {
            self.index.hash_key(parent_id, key, node_type)
        } else {
            hash
        };
        let ghost tree = self@;
        let ghost node = NodeView { parent_id, node_type, key: key@ };
        append_slice(&mut self.keys, key);
        self.nodes.push(SchemaNode { parent_id, node_type, key_end });
        proof {
            lemma_pushed(
                old(self).nodes@,
                old(self).keys@,
                SchemaNode { parent_id, node_type, key_end },
                key@,
            );
            assert(self@ == tree.push(node));
            lemma_node_from(tree, 1, parent_id, key@, node_type);
            assert forall|first: int, second: int|
                1 <= first < self@.len() && 1 <= second < self@.len() && #[trigger] self@[first]
                    == #[trigger] self@[second] implies first == second by {
                if first < tree.len() && second < tree.len() {
                    assert(tree[first] == tree[second]);
                } else if first < tree.len() {
                    assert(has_identity(tree[first], parent_id, key@, node_type));
                } else if second < tree.len() {
                    assert(has_identity(tree[second], parent_id, key@, node_type));
                }
            }
        }
        if indexed {
            let size = self.index.slots.len();
            let home = SchemaIndex::starting_slot(hash, size);
            let ghost homes = self.index.homes(tree);
            insert_slot(&mut self.index.slots, home, node_id, Ghost(homes));
            proof {
                assert(self.index.homes(tree.push(node)) =~= homes.push(home as int)) by {
                    assert forall|i: int| 0 <= i < tree.len() implies self.index.homes(
                        tree.push(node),
                    )[i] == homes[i] by {
                        assert(tree.push(node)[i] == tree[i]);
                    }
                }
            }
        }
        Ok(node_id)
    }

    /// Drops the nodes from `snapshot` on.
    pub fn rollback(&mut self, snapshot: usize)
        requires
            old(self).wf(),
            1 <= snapshot <= old(self)@.len(),
        ensures
            final(self).wf(),
            final(self)@ == old(self)@.take(snapshot as int),
    {
        let key_end = self.nodes[snapshot - 1].key_end;
        proof {
            assert(self.nodes@[snapshot - 1].key_end <= self.nodes@[self.nodes@.len() - 1].key_end);
        }
        if snapshot - 1 <= LINEAR_SCHEMA_SCAN_LIMIT {
            self.nodes.truncate(snapshot);
            self.keys.truncate(key_end);
            self.index.slots.clear();
            proof {
                lemma_truncated(old(self).nodes@, old(self).keys@, snapshot as int);
                lemma_distinct_prefix(old(self)@, snapshot as int);
            }
            return;
        }
        while self.nodes.len() > snapshot
            invariant
                1 <= snapshot <= self.nodes@.len() <= old(self).nodes@.len(),
                self.nodes@ == old(self).nodes@.take(self.nodes@.len() as int),
                self.keys@ == old(self).keys@.take(self.nodes@.last().key_end as int),
                packed_ok(old(self).nodes@, old(self).keys@),
                packed_ok(self.nodes@, self.keys@),
                self@ == old(self)@.take(self.nodes@.len() as int),
                self.index.wf(self@),
                self.nodes@.len() <= u32::MAX + 1,
            decreases self.nodes@.len(),
        {
            let node_id = (self.nodes.len() - 1) as u32;
            let ghost tree = self@;
            let ghost length = self.nodes@.len() as int;
            self.index.remove(&self.nodes, &self.keys, node_id);
            let _ = self.nodes.pop();
            let last_end = self.nodes[self.nodes.len() - 1].key_end;
            proof {
                assert(self.nodes@ =~= old(self).nodes@.take(length - 1));
                assert(old(self).nodes@[length - 2].key_end <= old(self).nodes@[length - 1].key_end);
                assert(old(self).nodes@[length - 1].key_end <= old(self).nodes@[old(self).nodes@.len() - 1].key_end);
            }
            self.keys.truncate(last_end);
            proof {
                assert(self.keys@ =~= old(self).keys@.take(last_end as int));
                lemma_truncated(old(self).nodes@, old(self).keys@, length - 1);
                assert(tree.drop_last() =~= old(self)@.take(length - 1));
            }
        }
        proof {
            lemma_distinct_prefix(old(self)@, snapshot as int);
        }
    }
}

proof fn lemma_distinct_prefix(tree: Seq<NodeView>, length: int)
    requires
        0 <= length <= tree.len(),
        all_distinct(tree),
    ensures
        all_distinct(tree.take(length)),
{
    assert forall|first: int, second: int|
        1 <= first < length && 1 <= second < length && #[trigger] tree.take(length)[first]
            == #[trigger] tree.take(length)[second] implies first == second by {
        assert(tree[first] == tree[second]);
    }
}

/// Cutting packed nodes off cuts their meaning off.
proof fn lemma_truncated(nodes: Seq<SchemaNode>, keys: Seq<u8>, length: int)
    requires
        packed_ok(nodes, keys),
        1 <= length <= nodes.len(),
    ensures
        ({
            let end = nodes[length - 1].key_end as int;
            &&& end <= keys.len()
            &&& packed_ok(nodes.take(length), keys.take(end))
            &&& unpacked(nodes.take(length), keys.take(end)) == unpacked(nodes, keys).take(length)
        }),
{
    let end = nodes[length - 1].key_end as int;
    assert(nodes[length - 1].key_end <= nodes[nodes.len() - 1].key_end);
    let cut = nodes.take(length);
    let cut_keys = keys.take(end);
    assert forall|first: int, second: int| 0 <= first <= second < cut.len() implies #[trigger] cut[first].key_end
        <= #[trigger] cut[second].key_end by {
        assert(nodes[first].key_end <= nodes[second].key_end);
    }
    assert forall|i: int| 0 <= i < length implies unpacked(cut, cut_keys)[i] == unpacked(
        nodes,
        keys,
    )[i] by {
        assert(nodes[i].key_end <= nodes[length - 1].key_end);
        if i > 0 {
            assert(nodes[i - 1].key_end <= nodes[i].key_end);
            assert(packed_key(cut, cut_keys, i) =~= packed_key(nodes, keys, i));
        }
    }
    assert(unpacked(cut, cut_keys) =~= unpacked(nodes, keys).take(length));
}

/// Adding a packed node adds its meaning.
proof fn lemma_pushed(nodes: Seq<SchemaNode>, keys: Seq<u8>, node: SchemaNode, key: Seq<u8>)
    requires
        packed_ok(nodes, keys),
        node.key_end == keys.len() + key.len(),
    ensures
        packed_ok(nodes.push(node), keys + key),
        unpacked(nodes.push(node), keys + key) == unpacked(nodes, keys).push(
            NodeView { parent_id: node.parent_id, node_type: node.node_type, key },
        ),
{
    let all = nodes.push(node);
    let all_keys = keys + key;
    assert forall|first: int, second: int| 0 <= first <= second < all.len() implies #[trigger] all[first].key_end
        <= #[trigger] all[second].key_end by {
        if second < nodes.len() {
            assert(nodes[first].key_end <= nodes[second].key_end);
        } else if first < nodes.len() {
            assert(nodes[first].key_end <= nodes[nodes.len() - 1].key_end);
        }
    }
    assert forall|i: int| 0 <= i < nodes.len() implies unpacked(all, all_keys)[i] == unpacked(
        nodes,
        keys,
    )[i] by {
        assert(nodes[i].key_end <= nodes[nodes.len() - 1].key_end);
        if i > 0 {
            assert(nodes[i - 1].key_end <= nodes[i].key_end);
            assert(packed_key(all, all_keys, i) =~= packed_key(nodes, keys, i));
        }
    }
    assert(packed_key(all, all_keys, nodes.len() as int) =~= key);
    assert(unpacked(all, all_keys) =~= unpacked(nodes, keys).push(
        NodeView { parent_id: node.parent_id, node_type: node.node_type, key },
    ));
}

} // verus!

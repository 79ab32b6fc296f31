//! Schema trees of the archive adapter: children in the order of their declaration.

use vstd::prelude::*;

use crate::archive_options::{
    archive_allocation, archive_refused, KvIrArchiveFailure, KvIrArchiveInvalidData,
    KvIrArchiveResource,
};
use crate::kv_ir::{KvIrNodeType, KvIrSchemaNode};
use crate::text::{append_slice, bytes_equal};
use crate::timestamp_path::component_views;

verus! {

/// One node by its meaning.
pub struct ArchiveNode {
    pub parent: int,
    pub key: Seq<u8>,
    pub node_type: KvIrNodeType,
}

/// One linked node.
#[derive(Debug)]
pub struct LinkedNode {
    parent: usize,
    first_child: Option<usize>,
    last_child: Option<usize>,
    next_sibling: Option<usize>,
    key: Vec<u8>,
    node_type: KvIrNodeType,
    timestamp_prefix_length: Option<usize>,
}

/// First child of a node at or after `from`.
pub open spec fn child_from(tree: Seq<ArchiveNode>, parent: int, from: int) -> Option<int>
    decreases tree.len() - from,
{
    if from < 0 || from >= tree.len() {
        None
    } else if tree[from].parent == parent {
        Some(from)
    } else {
        child_from(tree, parent, from + 1)
    }
}

/// First child of a node; the root is no child.
pub open spec fn first_child_of(tree: Seq<ArchiveNode>, node: int) -> Option<int> {
    child_from(tree, node, if node < 1 {
        1
    } else {
        node + 1
    })
}

/// Next child of the same parent.
pub open spec fn next_sibling_of(tree: Seq<ArchiveNode>, node: int) -> Option<int> {
    child_from(tree, tree[node].parent, node + 1)
}

/// A tree of the root alone.
pub open spec fn archive_root() -> Seq<ArchiveNode> {
    seq![ArchiveNode { parent: 0, key: Seq::empty(), node_type: KvIrNodeType::Object }]
}

/// Whether every node but the root has an object before it as its parent.
pub open spec fn is_tree(tree: Seq<ArchiveNode>) -> bool {
    forall|i: int| 1 <= i < tree.len() ==> #[trigger] has_parent(tree, i)
}

/// Whether a node has an object before it as its parent.
pub open spec fn has_parent(tree: Seq<ArchiveNode>, node: int) -> bool {
    0 <= tree[node].parent < node && tree[tree[node].parent].node_type == KvIrNodeType::Object
}

/// Whether `ancestor` lies on the way from `node` to the root, `node` included.
pub open spec fn is_on_way(tree: Seq<ArchiveNode>, ancestor: int, node: int) -> bool
    decreases node,
{
    node == ancestor || (0 < node < tree.len() && 0 <= tree[node].parent < node && is_on_way(
        tree,
        ancestor,
        tree[node].parent,
    ))
}

/// How many components of a path the way from the root to a node has matched, if all of it has.
pub open spec fn matched_prefix(
    tree: Seq<ArchiveNode>,
    components: Option<Seq<Seq<u8>>>,
    node: int,
) -> Option<int>
    decreases node,
{
    match components {
        None => None,
        Some(path) => if node <= 0 {
            Some(0)
        } else if !(0 <= tree[node].parent < node) {
            None
        } else {
            match matched_prefix(tree, components, tree[node].parent) {
                Some(length) => if length < path.len() && path[length] == tree[node].key {
                    Some(length + 1)
                } else {
                    None
                },
                None => None,
            }
        },
    }
}

pub proof fn lemma_matched_prefix(
    tree: Seq<ArchiveNode>,
    components: Option<Seq<Seq<u8>>>,
    node: int,
)
    ensures
        matched_prefix(tree, components, node) matches Some(length) ==> 0 <= length
            <= components->0.len(),
    decreases node,
{
    if components is Some && node > 0 && 0 <= tree[node].parent < node {
        lemma_matched_prefix(tree, components, tree[node].parent);
    }
}

/// The matched prefix depends on the nodes up to the node alone.
proof fn lemma_matched_prefix_stable(
    tree: Seq<ArchiveNode>,
    longer: Seq<ArchiveNode>,
    components: Option<Seq<Seq<u8>>>,
    node: int,
)
    requires
        node < tree.len() <= longer.len(),
        forall|i: int| 0 <= i < tree.len() ==> tree[i] == longer[i],
    ensures
        matched_prefix(tree, components, node) == matched_prefix(longer, components, node),
    decreases node,
{
    if components is Some && node > 0 && 0 <= tree[node].parent < node {
        lemma_matched_prefix_stable(tree, longer, components, tree[node].parent);
    }
}

pub proof fn lemma_child_from(tree: Seq<ArchiveNode>, parent: int, from: int)
    requires
        0 <= from,
    ensures
        match child_from(tree, parent, from) {
            Some(child) => from <= child < tree.len() && tree[child].parent == parent
                && forall|i: int| from <= i < child ==> (#[trigger] tree[i]).parent != parent,
            None => forall|i: int|
                from <= i < tree.len() ==> (#[trigger] tree[i]).parent != parent,
        },
    decreases tree.len() - from,
{
    if from < tree.len() && tree[from].parent != parent {
        lemma_child_from(tree, parent, from + 1);
    }
}

/// A node that is added last becomes the next child only where there was none.
proof fn lemma_child_from_push(
    tree: Seq<ArchiveNode>,
    node: ArchiveNode,
    parent: int,
    from: int,
)
    requires
        0 <= from <= tree.len(),
    ensures
        child_from(tree.push(node), parent, from) == (match child_from(tree, parent, from) {
            Some(child) => Some(child),
            None => if node.parent == parent {
                Some(tree.len() as int)
            } else {
                None
            },
        }),
    decreases tree.len() - from,
{
    let longer = tree.push(node);
    if from < tree.len() {
        assert(longer[from] == tree[from]);
        if tree[from].parent != parent {
            lemma_child_from_push(tree, node, parent, from + 1);
        }
    } else {
        assert(longer[from] == node);
        assert(child_from(longer, parent, from + 1) is None);
    }
}

pub open spec fn linked_view(nodes: Seq<LinkedNode>) -> Seq<ArchiveNode> {
    Seq::new(nodes.len(), |i: int| nodes[i].meaning())
}

pub open spec fn place(value: Option<usize>) -> Option<int> {
    match value {
        Some(value) => Some(value as int),
        None => None,
    }
}

impl LinkedNode {
    pub closed spec fn meaning(self) -> ArchiveNode {
        ArchiveNode { parent: self.parent as int, key: self.key@, node_type: self.node_type }
    }

    /// Links and prefix of node `i` of a tree.
    pub closed spec fn is_linked(
        self,
        tree: Seq<ArchiveNode>,
        components: Option<Seq<Seq<u8>>>,
        i: int,
    ) -> bool {
        &&& place(self.first_child) == first_child_of(tree, i)
        &&& i > 0 ==> place(self.next_sibling) == next_sibling_of(tree, i)
        &&& place(self.timestamp_prefix_length) == matched_prefix(tree, components, i)
        &&& match self.last_child {
            Some(last) => i < last < tree.len() && tree[last as int].parent == i && child_from(
                tree,
                i,
                last + 1,
            ) is None,
            None => first_child_of(tree, i) is None,
        }
    }
}

/// Components that a node has matched, where its parent has matched `matched` of them.
fn extend_prefix(matched: Option<usize>, components: Option<&[Vec<u8>]>, key: &[u8]) -> (length:
    Option<usize>)
    ensures
        place(length) == (match (place(matched), path_view(components)) {
            (Some(matched), Some(path)) => if matched < path.len() && path[matched] == key@ {
                Some(matched + 1)
            } else {
                None
            },
            _ => None,
        }),
{
    match components {
        None => None,
        Some(components) => match matched {
            None => None,
            Some(matched) => {
                if matched < components.len() && bytes_equal(components[matched].as_slice(), key) {
                    Some(matched + 1)
                } else {
                    None
                }
            },
        },
    }
}

/// Whether a node is what it was, but for the links that a new last node changes.
spec fn is_relinked(
    before: LinkedNode,
    after: LinkedNode,
    i: int,
    parent: int,
    previous: Option<usize>,
    added: usize,
) -> bool {
    &&& after.parent == before.parent
    &&& after.key@ == before.key@
    &&& after.node_type == before.node_type
    &&& after.timestamp_prefix_length == before.timestamp_prefix_length
    &&& after.first_child == (if i == parent && previous is None {
        Some(added)
    } else {
        before.first_child
    })
    &&& after.next_sibling == (if place(previous) == Some(i) {
        Some(added)
    } else {
        before.next_sibling
    })
    &&& after.last_child == (if i == parent {
        Some(added)
    } else {
        before.last_child
    })
}

/// A node stays linked when a node is added last.
proof fn lemma_stays_linked(
    before: LinkedNode,
    after: LinkedNode,
    parent_node: LinkedNode,
    tree: Seq<ArchiveNode>,
    added: ArchiveNode,
    path: Option<Seq<Seq<u8>>>,
    i: int,
)
    requires
        is_tree(tree),
        0 <= i < tree.len() <= usize::MAX,
        tree[i] == before.meaning(),
        tree[0].parent == 0,
        0 <= added.parent < tree.len(),
        before.is_linked(tree, path, i),
        parent_node.is_linked(tree, path, added.parent),
        i == added.parent ==> before == parent_node,
        is_relinked(
            before,
            after,
            i,
            added.parent,
            parent_node.last_child,
            tree.len() as usize,
        ),
    ensures
        after.is_linked(tree.push(added), path, i),
{
    let longer = tree.push(added);
    let start = if i < 1 {
        1
    } else {
        i + 1
    };
    lemma_matched_prefix_stable(tree, longer, path, i);
    lemma_child_from(tree, i, start);
    lemma_child_from_push(tree, added, i, start);
    assert(longer[i] == tree[i]);
    if i > 0 {
        lemma_child_from(tree, tree[i].parent, i + 1);
        lemma_child_from_push(tree, added, tree[i].parent, i + 1);
        assert(place(after.next_sibling) == next_sibling_of(longer, i)) by {
            match parent_node.last_child {
                Some(last) => {
                    lemma_child_from(tree, added.parent, last + 1);
                    assert(has_parent(tree, i));
                    if last != i && tree[i].parent == added.parent {
                        assert(tree[last as int].parent == added.parent);
                        assert(i < last);
                    }
                },
                None => {
                    lemma_child_from(tree, added.parent, if added.parent < 1 {
                        1
                    } else {
                        added.parent + 1
                    });
                    if tree[i].parent == added.parent {
                        assert(has_parent(tree, i));
                    }
                },
            }
        }
    }
    if i == added.parent {
        lemma_child_from(longer, i, tree.len() as int + 1);
        assert(longer[tree.len() as int].parent == i);
    } else {
        match before.last_child {
            Some(last) => {
                lemma_child_from_push(tree, added, i, last + 1);
                assert(longer[last as int] == tree[last as int]);
            },
            None => {},
        }
    }
}

/// A schema tree.
pub struct ArchiveTree {
    nodes: Vec<LinkedNode>,
    components: Ghost<Option<Seq<Seq<u8>>>>,
}

impl View for ArchiveTree {
    type V = Seq<ArchiveNode>;

    closed spec fn view(&self) -> Seq<ArchiveNode> {
        linked_view(self.nodes@)
    }
}

/// The components of a path as sequences.
pub open spec fn path_view(components: Option<&[Vec<u8>]>) -> Option<Seq<Seq<u8>>> {
    match components {
        Some(components) => Some(component_views(components@)),
        None => None,
    }
}

/// The tree with a declared node.
pub open spec fn with_declared(tree: Seq<ArchiveNode>, node: KvIrSchemaNode<'_>) -> Result<
    Seq<ArchiveNode>,
    KvIrArchiveFailure,
> {
    if node.node_id != tree.len() {
        if tree.len() > u32::MAX {
            Err(KvIrArchiveFailure::SizeOverflow)
        } else {
            Err(
                KvIrArchiveFailure::Invalid(
                    KvIrArchiveInvalidData::SchemaNodeOutOfSequence {
                        namespace: node.namespace,
                        expected: tree.len() as u32,
                        actual: node.node_id,
                    },
                ),
            )
        }
    } else if node.parent_id >= tree.len() || tree[node.parent_id as int].node_type
        != KvIrNodeType::Object {
        Err(
            KvIrArchiveFailure::Invalid(
                KvIrArchiveInvalidData::NonObjectAncestor {
                    namespace: node.namespace,
                    node_id: node.parent_id,
                },
            ),
        )
    } else {
        Ok(
            tree.push(
                ArchiveNode {
                    parent: node.parent_id as int,
                    key: node.key@,
                    node_type: node.node_type,
                },
            ),
        )
    }
}

/// Whether this memory can be refused to a declared node: for its key, and for itself.
pub open spec fn is_declaration_request(
    node: KvIrSchemaNode<'_>,
    failure: KvIrArchiveFailure,
) -> bool {
    ||| failure == archive_refused(KvIrArchiveResource::SchemaKey, node.key@.len() as int) && 0
        < node.key@.len()
    ||| failure == archive_refused(KvIrArchiveResource::SchemaNodes, 1)
}

impl ArchiveTree {
    pub closed spec fn wf(&self) -> bool {
        &&& is_tree(self@)
        &&& self.nodes@.len() > 0 ==> self.nodes@[0].parent == 0
        &&& forall|i: int|
            0 <= i < self.nodes@.len() ==> (#[trigger] self.nodes@[i]).is_linked(
                self@,
                self.components@,
                i,
            )
    }

    /// Path that the nodes are matched against.
    pub closed spec fn path(&self) -> Option<Seq<Seq<u8>>> {
        self.components@
    }

    pub proof fn lemma_is_tree(&self)
        requires
            self.wf(),
        ensures
            is_tree(self@),
    {
    }

    /// Creates a tree without nodes.
    pub fn empty() -> (tree: Self)
        ensures
            tree.wf(),
            tree@ == Seq::<ArchiveNode>::empty(),
            tree.path() is None,
    {
        let tree = ArchiveTree { nodes: Vec::new(), components: Ghost(None) };
        assert(tree@ =~= Seq::<ArchiveNode>::empty());
        tree
    }

    /// Returns the number of nodes.
    pub fn len(&self) -> (length: usize)
        ensures
            length == self@.len(),
    {
        self.nodes.len()
    }

    /// Returns the key of a node.
    pub fn key(&self, node: usize) -> (key: &[u8])
        requires
            node < self@.len(),
        ensures
            key@ == self@[node as int].key,
    {
        self.nodes[node].key.as_slice()
    }

    /// Returns the type of a node.
    pub fn node_type(&self, node: usize) -> (node_type: KvIrNodeType)
        requires
            node < self@.len(),
        ensures
            node_type == self@[node as int].node_type,
    {
        self.nodes[node].node_type
    }

    /// Returns the parent of a node.
    pub fn parent(&self, node: usize) -> (parent: usize)
        requires
            self.wf(),
            node < self@.len(),
        ensures
            parent == self@[node as int].parent,
            node > 0 ==> parent < node,
    {
        proof {
            if node > 0 {
                assert(has_parent(self@, node as int));
            }
        }
        self.nodes[node].parent
    }

    /// Returns the first child of a node.
    pub fn first_child(&self, node: usize) -> (child: Option<usize>)
        requires
            self.wf(),
            node < self@.len(),
        ensures
            place(child) == first_child_of(self@, node as int),
            child matches Some(child) ==> node < child < self@.len(),
    {
        proof {
            assert(self.nodes@[node as int].is_linked(self@, self.components@, node as int));
            lemma_child_from(self@, node as int, node + 1);
        }
        self.nodes[node].first_child
    }

    /// Returns the next child of the same parent.
    pub fn next_sibling(&self, node: usize) -> (sibling: Option<usize>)
        requires
            self.wf(),
            0 < node < self@.len(),
        ensures
            place(sibling) == next_sibling_of(self@, node as int),
            sibling matches Some(sibling) ==> node < sibling < self@.len(),
    {
        proof {
            assert(self.nodes@[node as int].is_linked(self@, self.components@, node as int));
            lemma_child_from(self@, self@[node as int].parent, node + 1);
        }
        self.nodes[node].next_sibling
    }

    /// Returns how many components of the path the way to a node has matched, if all of it has.
    pub fn prefix_length(&self, node: usize) -> (length: Option<usize>)
        requires
            self.wf(),
            node < self@.len(),
        ensures
            place(length) == matched_prefix(self@, self.path(), node as int),
    {
        proof {
            assert(self.nodes@[node as int].is_linked(self@, self.components@, node as int));
        }
        self.nodes[node].timestamp_prefix_length
    }

    /// Makes the tree one of the root alone, matched against no path.
    pub fn reset(&mut self) -> (result: Result<(), KvIrArchiveFailure>)
        requires
            old(self).wf(),
        ensures
            final(self).wf(),
            match result {
                Ok(_) => final(self)@ == archive_root() && final(self).path() is None,
                Err(failure) => {
                    &&& final(self)@ == Seq::<ArchiveNode>::empty()
                    &&& final(self).path() is None
                    &&& failure == archive_refused(KvIrArchiveResource::SchemaNodes, 1)
                },
            },
    {
        self.nodes.clear();
        self.components = Ghost(None);
        assert(self@ =~= Seq::<ArchiveNode>::empty());
        let reserved = self.nodes.try_reserve(1).is_ok();
        self.plant_root(reserved)
    }

    /// Adds the root to an empty tree, given whether there is memory for it.
    fn plant_root(&mut self, reserved: bool) -> (result: Result<(), KvIrArchiveFailure>)
        requires
            old(self).wf(),
            old(self)@.len() == 0,
            old(self).path() is None,
        ensures
            final(self).wf(),
            final(self).path() is None,
            match result {
                Ok(_) => reserved && final(self)@ == archive_root(),
                Err(failure) => {
                    &&& !reserved
                    &&& final(self)@ == old(self)@
                    &&& failure == archive_refused(KvIrArchiveResource::SchemaNodes, 1)
                },
            },
    {
        if !reserved {
            return Err(archive_allocation(KvIrArchiveResource::SchemaNodes, 1));
        }
        let key: Vec<u8> = Vec::new();
        assert(key@ =~= Seq::<u8>::empty());
        self.nodes.push(
            LinkedNode {
                parent: 0,
                first_child: None,
                last_child: None,
                next_sibling: None,
                key,
                node_type: KvIrNodeType::Object,
                timestamp_prefix_length: None,
            },
        );
        assert(self@ =~= archive_root());
        Ok(())
    }

    /// Matches all nodes against a path.
    pub fn configure_timestamp(&mut self, components: Option<&[Vec<u8>]>)
        requires
            old(self).wf(),
        ensures
            final(self).wf(),
            final(self)@ == old(self)@,
            final(self).path() == path_view(components),
    {
        let ghost path = path_view(components);
        let ghost tree = self@;
        let mut node: usize = 0;
        while node < self.nodes.len()
            invariant
                node <= self.nodes@.len(),
                self@ == tree,
                tree == old(self)@,
                is_tree(tree),
                self.components@ == old(self).components@,
                path == path_view(components),
                self.nodes@.len() == old(self).nodes@.len(),
                self.nodes@.len() > 0 ==> self.nodes@[0].parent == 0,
                forall|i: int|
                    0 <= i < node ==> (#[trigger] self.nodes@[i]).is_linked(tree, path, i),
                forall|i: int|
                    node <= i < self.nodes@.len() ==> (#[trigger] self.nodes@[i]).is_linked(
                        tree,
                        self.components@,
                        i,
                    ),
            decreases self.nodes@.len() - node,
        {
            let ghost before = self.nodes@;
            let length = if node == 0 {
                if components.is_some() {
                    Some(0)
                } else {
                    None
                }
            } else {
                let parent = self.nodes[node].parent;
                proof {
                    assert(has_parent(tree, node as int));
                    assert(before[parent as int].is_linked(tree, path, parent as int));
                    assert(tree[node as int].key == before[node as int].key@);
                }
                extend_prefix(
                    self.nodes[parent].timestamp_prefix_length,
                    components,
                    self.nodes[node].key.as_slice(),
                )
            };
            assert(place(length) == matched_prefix(tree, path, node as int));
            self.nodes[node].timestamp_prefix_length = length;
            proof {
                assert(self.nodes@ =~= before.update(node as int, self.nodes@[node as int]));
                assert(self@ =~= tree);
                assert forall|i: int| 0 <= i <= node implies (#[trigger] self.nodes@[i]).is_linked(
                    tree,
                    path,
                    i,
                ) by {
                    assert(before[i].is_linked(
                        tree,
                        if i < node {
                            path
                        } else {
                            self.components@
                        },
                        i,
                    ));
                }
                assert forall|i: int| node < i < self.nodes@.len() implies (
                #[trigger] self.nodes@[i]).is_linked(tree, self.components@, i) by {
                    assert(before[i].is_linked(tree, self.components@, i));
                }
            }
            node += 1;
        }
        self.components = Ghost(path);
    }

    /// Adds a declared node.
    pub fn insert(&mut self, node: KvIrSchemaNode<'_>, components: Option<&[Vec<u8>]>) -> (result:
        Result<(), KvIrArchiveFailure>)
        requires
            old(self).wf(),
            old(self).path() == path_view(components),
        ensures
            final(self).wf(),
            final(self).path() == old(self).path(),
            match with_declared(old(self)@, node) {
                Err(failure) => final(self)@ == old(self)@ && result == Err::<
                    (),
                    KvIrArchiveFailure,
                >(failure),
                Ok(tree) => match result {
                    Ok(_) => final(self)@ == tree,
                    Err(failure) => final(self)@ == old(self)@ && is_declaration_request(
                        node,
                        failure,
                    ),
                },
            },
    {
        let length = self.nodes.len();
        if node.node_id as u64 != length as u64 {
            if length as u64 > 0xffff_ffff {
                return Err(KvIrArchiveFailure::SizeOverflow);
            }
            return Err(
                KvIrArchiveFailure::Invalid(
                    KvIrArchiveInvalidData::SchemaNodeOutOfSequence {
                        namespace: node.namespace,
                        expected: length as u32,
                        actual: node.node_id,
                    },
                ),
            );
        }
        let parent = node.parent_id as usize;
        if parent >= length || self.nodes[parent].node_type != KvIrNodeType::Object {
            return Err(
                KvIrArchiveFailure::Invalid(
                    KvIrArchiveInvalidData::NonObjectAncestor {
                        namespace: node.namespace,
                        node_id: node.parent_id,
                    },
                ),
            );
        }
        let mut key: Vec<u8> = Vec::new();
        let key_reserved = node.key.len() == 0 || key.try_reserve(node.key.len()).is_ok();
        let node_reserved = key_reserved && self.nodes.try_reserve(1).is_ok();
        self.insert_reserved(node, components, key, key_reserved, node_reserved)
    }

    /// Adds a declared node, given whether there is memory for its key in `storage`, and for the
    /// node.
    pub fn insert_reserved(
        &mut self,
        node: KvIrSchemaNode<'_>,
        components: Option<&[Vec<u8>]>,
        storage: Vec<u8>,
        key_reserved: bool,
        node_reserved: bool,
    ) -> (result: Result<(), KvIrArchiveFailure>)
        requires
            old(self).wf(),
            old(self).path() == path_view(components),
            with_declared(old(self)@, node) is Ok,
        ensures
            final(self).wf(),
            final(self).path() == old(self).path(),
            match result {
                Ok(_) => key_reserved && node_reserved && with_declared(old(self)@, node) == Ok::<
                    Seq<ArchiveNode>,
                    KvIrArchiveFailure,
                >(final(self)@),
                Err(failure) => {
                    &&& final(self)@ == old(self)@
                    &&& if key_reserved {
                        &&& !node_reserved
                        &&& failure == archive_refused(KvIrArchiveResource::SchemaNodes, 1)
                    } else {
                        failure == archive_refused(
                            KvIrArchiveResource::SchemaKey,
                            node.key@.len() as int,
                        )
                    }
                },
            },
    {
        if !key_reserved {
            return Err(archive_allocation(KvIrArchiveResource::SchemaKey, node.key.len()));
        }
        let mut key = storage;
        key.clear();
        append_slice(&mut key, node.key);
        assert(key@ =~= node.key@);
        if !node_reserved {
            return Err(archive_allocation(KvIrArchiveResource::SchemaNodes, 1));
        }
        let length = self.nodes.len();
        let parent = node.parent_id as usize;
        let ghost tree = self@;
        let ghost path = self.components@;
        let ghost before = self.nodes@;
        let ghost added = ArchiveNode {
            parent: parent as int,
            key: node.key@,
            node_type: node.node_type,
        };
        let ghost longer = tree.push(added);
        proof {
            assert(before[parent as int].is_linked(tree, path, parent as int));
            lemma_matched_prefix(tree, path, parent as int);
            lemma_matched_prefix_stable(tree, longer, path, parent as int);
        }
        let prefix = extend_prefix(
            self.nodes[parent].timestamp_prefix_length,
            components,
            key.as_slice(),
        );
        assert(longer[length as int] == added);
        assert(place(prefix) == matched_prefix(longer, path, length as int));
        let previous = self.nodes[parent].last_child;
        self.nodes.push(
            LinkedNode {
                parent,
                first_child: None,
                last_child: None,
                next_sibling: None,
                key,
                node_type: node.node_type,
                timestamp_prefix_length: prefix,
            },
        );
        match previous {
            Some(previous) => {
                self.nodes[previous].next_sibling = Some(length);
            },
            None => {
                self.nodes[parent].first_child = Some(length);
            },
        }
        self.nodes[parent].last_child = Some(length);
        proof {
            let after = self.nodes@;
            assert(after.len() == length + 1);
            assert forall|i: int| 0 <= i < length implies is_relinked(
                #[trigger] before[i],
                after[i],
                i,
                parent as int,
                previous,
                length,
            ) by {}
            assert forall|i: int| 0 <= i < longer.len() implies self@[i] == longer[i] by {
                if i < length {
                    assert(is_relinked(before[i], after[i], i, parent as int, previous, length));
                }
            }
            assert(self@ =~= longer);
            assert(is_tree(longer)) by {
                assert forall|i: int| 1 <= i < longer.len() implies #[trigger] has_parent(
                    longer,
                    i,
                ) by {
                    if i < length {
                        assert(has_parent(tree, i));
                        assert(longer[tree[i].parent] == tree[tree[i].parent]);
                    }
                }
            }
            assert forall|i: int| 0 <= i < after.len() implies (#[trigger] after[i]).is_linked(
                longer,
                path,
                i,
            ) by {
                if i < length {
                    lemma_stays_linked(
                        before[i],
                        after[i],
                        before[parent as int],
                        tree,
                        added,
                        path,
                        i,
                    );
                } else {
                    lemma_child_from(longer, i, i + 1);
                }
            }
        }
        Ok(())
    }
}

} // verus!

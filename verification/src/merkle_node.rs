//! Nodes of the position tree, the keys that they are stored under, and the
//! batches of changes that an update of the tree hands back.

use crate::hash_value::HashValue;
use vstd::prelude::*;

verus! {

/// A ledger version.
pub type Version = u64;

/// Place of a node: the version that created it and its path of nibbles from
/// the root.
#[derive(Debug, PartialEq, Eq)]
pub struct NodeKey {
    pub version: Version,
    pub nibble_path: Vec<u8>,
}

/// What a [`NodeKey`] names.
pub struct NodeKeyView {
    pub version: Version,
    pub nibble_path: Seq<u8>,
}

impl View for NodeKey {
    type V = NodeKeyView;

    open spec fn view(&self) -> NodeKeyView {
        NodeKeyView { version: self.version, nibble_path: self.nibble_path@ }
    }
}

impl NodeKeyView {
    /// The place of the root node at `version`: the empty path.
    pub open spec fn root(version: Version) -> NodeKeyView {
        NodeKeyView { version, nibble_path: Seq::empty() }
    }
}

impl NodeKey {
    /// The place of the root node at `version`.
    pub fn new_empty_path(version: Version) -> (r: NodeKey)
        ensures
            r@ == NodeKeyView::root(version),
            r.version == version,
            r.nibble_path@.len() == 0,
    {
        NodeKey { version, nibble_path: Vec::new() }
    }
}

/// What stands below an entry of an internal node.
#[derive(Clone, Copy, Debug, PartialEq, Eq)]
pub enum NodeType {
    Leaf,
    Null,
    Internal { leaf_count: usize },
}

/// Entry of an internal node: the subtree below one nibble and the version
/// that last wrote it.
#[derive(Clone, Copy, Debug, PartialEq, Eq)]
pub struct Child {
    pub hash: HashValue,
    pub version: Version,
    pub node_type: NodeType,
}

/// Inner node, with at most one entry for each nibble.
#[derive(Debug, PartialEq, Eq)]
pub struct InternalNode {
    pub children: [Option<Child>; 16],
    pub leaf_count: usize,
}

/// Leaf: the hash of a key, the hash of its value, and the key itself with the
/// version that wrote it.
#[derive(Debug, PartialEq, Eq)]
pub struct LeafNode<K> {
    pub account_key: HashValue,
    pub value_hash: HashValue,
    pub value_index: (K, Version),
}

/// A node of the position tree.
#[derive(Debug, PartialEq, Eq)]
pub enum Node<K> {
    Internal(InternalNode),
    Leaf(LeafNode<K>),
    Null,
}

/// A node together with its hash.
#[derive(Debug, PartialEq, Eq)]
pub struct HashedNode<K> {
    pub node: Node<K>,
    pub hash: HashValue,
}

/// Mark that the node at `node_key` is no longer part of the tree from
/// `stale_since_version` on.
#[derive(Debug, PartialEq, Eq)]
pub struct StaleNodeIndex {
    pub stale_since_version: Version,
    pub node_key: NodeKey,
}

/// What a [`StaleNodeIndex`] says.
pub struct StaleRow {
    pub stale_since_version: Version,
    pub node_key: NodeKeyView,
}

impl View for StaleNodeIndex {
    type V = StaleRow;

    open spec fn view(&self) -> StaleRow {
        StaleRow { stale_since_version: self.stale_since_version, node_key: self.node_key@ }
    }
}

/// Nodes to store and nodes gone stale, in groups.
#[derive(Debug, PartialEq, Eq)]
pub struct TreeUpdateBatch<K> {
    pub node_batch: Vec<Vec<(NodeKey, Node<K>)>>,
    pub stale_node_index_batch: Vec<Vec<StaleNodeIndex>>,
}

/// What a [`TreeUpdateBatch`] holds, its groups joined in their order.
#[verifier::ext_equal]
pub struct BatchView<K> {
    pub nodes: Seq<(NodeKeyView, Node<K>)>,
    pub stale: Seq<StaleRow>,
}

impl<K> BatchView<K> {
    /// No change at all.
    pub open spec fn empty() -> Self {
        BatchView { nodes: Seq::empty(), stale: Seq::empty() }
    }

    /// The changes of `self`, then those of `other`.
    pub open spec fn combine(self, other: Self) -> Self {
        BatchView { nodes: self.nodes + other.nodes, stale: self.stale + other.stale }
    }
}

/// The nodes of one group, by place.
pub open spec fn node_group<K>(group: Seq<(NodeKey, Node<K>)>) -> Seq<(NodeKeyView, Node<K>)> {
    group.map_values(|entry: (NodeKey, Node<K>)| (entry.0@, entry.1))
}

/// The stale marks of one group.
pub open spec fn stale_group(group: Seq<StaleNodeIndex>) -> Seq<StaleRow> {
    group.map_values(|row: StaleNodeIndex| row@)
}

/// The nodes of all groups, joined in their order.
pub open spec fn node_groups<K>(groups: Seq<Vec<(NodeKey, Node<K>)>>) -> Seq<
    (NodeKeyView, Node<K>),
> {
    groups.map_values(|group: Vec<(NodeKey, Node<K>)>| node_group(group@)).flatten()
}

/// The stale marks of all groups, joined in their order.
pub open spec fn stale_groups(groups: Seq<Vec<StaleNodeIndex>>) -> Seq<StaleRow> {
    groups.map_values(|group: Vec<StaleNodeIndex>| stale_group(group@)).flatten()
}

/// Joining one more group of nodes appends its nodes.
pub proof fn lemma_node_groups_push<K>(
    groups: Seq<Vec<(NodeKey, Node<K>)>>,
    group: Vec<(NodeKey, Node<K>)>,
)
    ensures
        node_groups(groups.push(group)) == node_groups(groups) + node_group(group@),
{
    let f = |group: Vec<(NodeKey, Node<K>)>| node_group(group@);
    assert(groups.push(group).map_values(f) =~= groups.map_values(f).push(node_group(group@)));
    groups.map_values(f).lemma_flatten_push(node_group(group@));
}

/// Joining one more group of stale marks appends its marks.
pub proof fn lemma_stale_groups_push(groups: Seq<Vec<StaleNodeIndex>>, group: Vec<StaleNodeIndex>)
    ensures
        stale_groups(groups.push(group)) == stale_groups(groups) + stale_group(group@),
{
    let f = |group: Vec<StaleNodeIndex>| stale_group(group@);
    assert(groups.push(group).map_values(f) =~= groups.map_values(f).push(stale_group(group@)));
    groups.map_values(f).lemma_flatten_push(stale_group(group@));
}

impl<K> View for TreeUpdateBatch<K> {
    type V = BatchView<K>;

    open spec fn view(&self) -> BatchView<K> {
        BatchView {
            nodes: node_groups(self.node_batch@),
            stale: stale_groups(self.stale_node_index_batch@),
        }
    }
}

impl<K> TreeUpdateBatch<K> {
    /// The batch without changes.
    pub fn new() -> (r: Self)
        ensures
            r@ == BatchView::<K>::empty(),
            r.node_batch@.len() == 0,
            r.stale_node_index_batch@.len() == 0,
    {
        let r = TreeUpdateBatch { node_batch: Vec::new(), stale_node_index_batch: Vec::new() };
        assert(r@ =~= BatchView::<K>::empty());
        r
    }

    /// Adds the changes of `other` behind those that are there.
    pub fn combine(&mut self, other: Self)
        ensures
            final(self)@ == old(self)@.combine(other@),
            final(self).node_batch@ == old(self).node_batch@ + other.node_batch@,
            final(self).stale_node_index_batch@ == old(self).stale_node_index_batch@
                + other.stale_node_index_batch@,
    {
        let ghost before = *self;
        let mut other = other;
        let ghost added = other;
        self.node_batch.append(&mut other.node_batch);
        self.stale_node_index_batch.append(&mut other.stale_node_index_batch);
        proof {
            let f = |group: Vec<(NodeKey, Node<K>)>| node_group(group@);
            let g = |group: Vec<StaleNodeIndex>| stale_group(group@);
            let (nodes, more_nodes) = (before.node_batch@, added.node_batch@);
            let (stale, more_stale) = (
                before.stale_node_index_batch@,
                added.stale_node_index_batch@,
            );
            assert((nodes + more_nodes).map_values(f) =~= nodes.map_values(f)
                + more_nodes.map_values(f));
            vstd::seq_lib::lemma_flatten_concat(nodes.map_values(f), more_nodes.map_values(f));
            assert((stale + more_stale).map_values(g) =~= stale.map_values(g)
                + more_stale.map_values(g));
            vstd::seq_lib::lemma_flatten_concat(stale.map_values(g), more_stale.map_values(g));
        }
    }
}

/// A batch holds the nodes and the stale marks of its groups, group after group, each
/// with its version and its path.
pub proof fn law_batch_holds_its_groups<K>(batch: TreeUpdateBatch<K>)
    ensures
        ({
            let nodes = batch.node_batch@.map_values(
                |group: Vec<(NodeKey, Node<K>)>| group@,
            ).flatten();
            let marks = batch.stale_node_index_batch@.map_values(
                |group: Vec<StaleNodeIndex>| group@,
            ).flatten();
            &&& batch@.nodes.len() == nodes.len()
            &&& forall|i: int|
                0 <= i < nodes.len() ==> {
                    &&& (#[trigger] batch@.nodes[i]).0.version == nodes[i].0.version
                    &&& batch@.nodes[i].0.nibble_path == nodes[i].0.nibble_path@
                    &&& batch@.nodes[i].1 == nodes[i].1
                }
            &&& batch@.stale.len() == marks.len()
            &&& forall|i: int|
                0 <= i < marks.len() ==> {
                    &&& (#[trigger] batch@.stale[i]).stale_since_version
                        == marks[i].stale_since_version
                    &&& batch@.stale[i].node_key.version == marks[i].node_key.version
                    &&& batch@.stale[i].node_key.nibble_path == marks[i].node_key.nibble_path@
                }
        }),
{
    lemma_node_groups_flat(batch.node_batch@);
    lemma_stale_groups_flat(batch.stale_node_index_batch@);
}

/// Viewing the nodes of groups is the same before and after the groups are joined.
pub proof fn lemma_node_groups_flat<K>(groups: Seq<Vec<(NodeKey, Node<K>)>>)
    ensures
        node_groups(groups) == node_group(
            groups.map_values(|group: Vec<(NodeKey, Node<K>)>| group@).flatten(),
        ),
    decreases groups.len(),
{
    let raw = |group: Vec<(NodeKey, Node<K>)>| group@;
    if groups.len() == 0 {
        assert(groups =~= Seq::empty());
        assert(groups.map_values(raw).flatten() =~= Seq::empty());
        assert(node_groups(groups) =~= Seq::empty());
        assert(node_group(groups.map_values(raw).flatten()) =~= Seq::empty());
    } else {
        let fewer = groups.drop_last();
        lemma_node_groups_flat(fewer);
        assert(fewer.push(groups.last()) =~= groups);
        lemma_node_groups_push(fewer, groups.last());
        assert(groups.map_values(raw) =~= fewer.map_values(raw).push(groups.last()@));
        fewer.map_values(raw).lemma_flatten_push(groups.last()@);
        assert(node_group(fewer.map_values(raw).flatten() + groups.last()@) =~= node_group(
            fewer.map_values(raw).flatten(),
        ) + node_group(groups.last()@));
    }
}

/// Viewing the stale marks of groups is the same before and after the groups are joined.
pub proof fn lemma_stale_groups_flat(groups: Seq<Vec<StaleNodeIndex>>)
    ensures
        stale_groups(groups) == stale_group(
            groups.map_values(|group: Vec<StaleNodeIndex>| group@).flatten(),
        ),
    decreases groups.len(),
{
    let raw = |group: Vec<StaleNodeIndex>| group@;
    if groups.len() == 0 {
        assert(groups =~= Seq::empty());
        assert(groups.map_values(raw).flatten() =~= Seq::empty());
        assert(stale_groups(groups) =~= Seq::empty());
        assert(stale_group(groups.map_values(raw).flatten()) =~= Seq::empty());
    } else {
        let fewer = groups.drop_last();
        lemma_stale_groups_flat(fewer);
        assert(fewer.push(groups.last()) =~= groups);
        lemma_stale_groups_push(fewer, groups.last());
        assert(groups.map_values(raw) =~= fewer.map_values(raw).push(groups.last()@));
        fewer.map_values(raw).lemma_flatten_push(groups.last()@);
        assert(stale_group(fewer.map_values(raw).flatten() + groups.last()@) =~= stale_group(
            fewer.map_values(raw).flatten(),
        ) + stale_group(groups.last()@));
    }
}

} // verus!

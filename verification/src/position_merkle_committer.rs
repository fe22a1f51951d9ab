//! Commits batches of position updates to the position tree.
//!
//! A commit alternates work that the tree and its database do with decisions
//! that are made here. Each decision is a function: it takes what the last
//! piece of work gave back and returns the [`Step`] to take next.

use crate::error;
use crate::error::DbError;
use crate::hash_value::HashValue;
use crate::merkle_node;
use crate::merkle_node::{
    BatchView, HashedNode, InternalNode, Node, NodeKey, NodeKeyView, StaleNodeIndex, StaleRow,
    TreeUpdateBatch, Version,
};
use vstd::prelude::*;
use vstd::string::StringExecFns;

verus! {

/// One write to the tree: the hash of the key, the key, and the hash of the
/// value, or `None` where the key is deleted.
#[derive(Debug, PartialEq, Eq)]
pub struct MerkleLeafUpdate<K> {
    pub state_key_hash: HashValue,
    pub state_key: K,
    pub value_hash: Option<HashValue>,
}

/// A row to put into the tree's database.
#[derive(Debug, PartialEq, Eq)]
pub enum SchemaPut<K> {
    /// A node, under its key.
    Node(NodeKey, Node<K>),
    /// A stale mark that the pruner may act on.
    Stale(StaleNodeIndex),
    /// A stale mark of a node that belongs to the snapshot of an earlier epoch.
    StaleCrossEpoch(StaleNodeIndex),
}

/// What a [`SchemaPut`] puts.
pub enum MerkleRow<K> {
    Node(NodeKeyView, Node<K>),
    Stale(StaleRow),
    StaleCrossEpoch(StaleRow),
}

impl<K> View for SchemaPut<K> {
    type V = MerkleRow<K>;

    open spec fn view(&self) -> MerkleRow<K> {
        match *self {
            SchemaPut::Node(key, node) => MerkleRow::Node(key@, node),
            SchemaPut::Stale(row) => MerkleRow::Stale(row@),
            SchemaPut::StaleCrossEpoch(row) => MerkleRow::StaleCrossEpoch(row@),
        }
    }
}

/// The rows that a list of puts puts, in its order.
pub open spec fn rows<K>(puts: Seq<SchemaPut<K>>) -> Seq<MerkleRow<K>> {
    puts.map_values(|put: SchemaPut<K>| put@)
}

/// The marked node was created at or before the end of the previous epoch, and so
/// belongs to that epoch's snapshot.
pub open spec fn crosses_epoch(epoch_end: Option<Version>, mark: StaleRow) -> bool {
    epoch_end is Some && mark.node_key.version <= epoch_end->0
}

/// The table that a stale mark goes to.
pub open spec fn stale_row_of<K>(epoch_end: Option<Version>, row: StaleRow) -> MerkleRow<K> {
    if crosses_epoch(epoch_end, row) {
        MerkleRow::StaleCrossEpoch(row)
    } else {
        MerkleRow::Stale(row)
    }
}

/// The root that a commit at `version` builds on: the one read at the version
/// before, of which version 0 has none.
pub open spec fn usable_prior<K>(version: Version, prior: Option<HashedNode<K>>) -> Option<
    HashedNode<K>,
> {
    if version == 0 {
        None
    } else {
        prior
    }
}

/// The node of a prior root; without one, the tree is empty.
pub open spec fn prior_node<K>(prior: Option<HashedNode<K>>) -> Node<K> {
    match prior {
        Some(root) => root.node,
        None => Node::Null,
    }
}

/// The hash of a prior root; without one, the tree is empty.
pub open spec fn prior_hash<K>(prior: Option<HashedNode<K>>) -> HashValue {
    match prior {
        Some(root) => root.hash,
        None => HashValue::empty_tree(),
    }
}

/// The rows of a commit without updates: the prior root again, at the new
/// version, and the mark that it is stale at the old one.
pub open spec fn carry_forward_rows<K>(
    version: Version,
    epoch_end: Option<Version>,
    prior: Option<HashedNode<K>>,
) -> Seq<MerkleRow<K>> {
    let root = MerkleRow::Node(NodeKeyView::root(version), prior_node(prior));
    if prior is Some {
        let stale = StaleRow {
            stale_since_version: version,
            node_key: NodeKeyView::root((version - 1) as Version),
        };
        seq![root, stale_row_of(epoch_end, stale)]
    } else {
        seq![root]
    }
}

/// The rows that store nodes.
pub open spec fn node_rows<K>(nodes: Seq<(NodeKeyView, Node<K>)>) -> Seq<MerkleRow<K>> {
    nodes.map_values(|entry: (NodeKeyView, Node<K>)| MerkleRow::Node(entry.0, entry.1))
}

/// The rows that store stale marks.
pub open spec fn stale_rows<K>(epoch_end: Option<Version>, stale: Seq<StaleRow>) -> Seq<
    MerkleRow<K>,
> {
    stale.map_values(|row: StaleRow| stale_row_of::<K>(epoch_end, row))
}

/// The rows of a commit that changed the tree by `batch`.
pub open spec fn tree_rows<K>(batch: BatchView<K>, epoch_end: Option<Version>) -> Seq<
    MerkleRow<K>,
> {
    node_rows(batch.nodes) + stale_rows(epoch_end, batch.stale)
}

/// For each shard, the version that last wrote its subtree, as the entries of
/// the root say.
pub open spec fn shard_versions<K>(root: Node<K>) -> Seq<Option<Version>> {
    Seq::new(
        16,
        |shard: int|
            match root {
                Node::Internal(internal) => match internal.children[shard] {
                    Some(child) => Some(child.version),
                    None => None,
                },
                _ => None,
            },
    )
}

/// The leaf that an update asks for: under the hash of its key, the hash of the
/// value and the key, or nothing where the key is deleted.
pub open spec fn leaf_of<K>(update: MerkleLeafUpdate<K>) -> (HashValue, Option<(HashValue, K)>) {
    (
        update.state_key_hash,
        match update.value_hash {
            Some(value_hash) => Some((value_hash, update.state_key)),
            None => None,
        },
    )
}

/// The leaves of one shard, in the order of the updates.
pub open spec fn shard_leaves<K>(updates: Seq<MerkleLeafUpdate<K>>, shard: int) -> Seq<
    (HashValue, Option<(HashValue, K)>),
> {
    updates.filter(
        |update: MerkleLeafUpdate<K>| update.state_key_hash.leading_nibble() == shard,
    ).map_values(|update: MerkleLeafUpdate<K>| leaf_of(update))
}

/// Update of one shard's subtree.
#[derive(Debug, PartialEq, Eq)]
pub struct ShardPut<'a, K> {
    pub shard_id: u8,
    pub value_set: Vec<(HashValue, Option<(HashValue, &'a K)>)>,
    pub persisted_version: Option<Version>,
    pub version: Version,
}

/// What a [`ShardPut`] asks for.
#[verifier::ext_equal]
pub struct ShardPutView<K> {
    pub shard_id: u8,
    pub value_set: Seq<(HashValue, Option<(HashValue, K)>)>,
    pub persisted_version: Option<Version>,
    pub version: Version,
}

/// An entry of a value set, with the key in place of the reference to it.
pub open spec fn owned_leaf<K>(leaf: (HashValue, Option<(HashValue, &K)>)) -> (
    HashValue,
    Option<(HashValue, K)>,
) {
    (
        leaf.0,
        match leaf.1 {
            Some(value) => Some((value.0, *value.1)),
            None => None,
        },
    )
}

impl<'a, K> View for ShardPut<'a, K> {
    type V = ShardPutView<K>;

    open spec fn view(&self) -> ShardPutView<K> {
        ShardPutView {
            shard_id: self.shard_id,
            value_set: self.value_set@.map_values(
                |leaf: (HashValue, Option<(HashValue, &'a K)>)| owned_leaf(leaf),
            ),
            persisted_version: self.persisted_version,
            version: self.version,
        }
    }
}

/// Join of the shards' subtrees under a new root.
#[derive(Debug, PartialEq, Eq)]
pub struct TopLevelsPut<K> {
    pub shard_root_nodes: Vec<Node<K>>,
    pub persisted_version: Option<Version>,
    pub version: Version,
}

/// A commit with updates, before all shards are done.
pub struct ShardStage<'a, K> {
    version: Version,
    epoch_end: Option<Version>,
    updates: &'a [MerkleLeafUpdate<K>],
    prior_existed: bool,
    persisted: [Option<Version>; 16],
    roots: Vec<Node<K>>,
    batch: TreeUpdateBatch<K>,
}

/// What a [`ShardStage`] holds.
#[verifier::ext_equal]
pub struct ShardStageView<K> {
    pub version: Version,
    pub epoch_end: Option<Version>,
    pub updates: Seq<MerkleLeafUpdate<K>>,
    pub prior_existed: bool,
    pub persisted: Seq<Option<Version>>,
    /// The roots of the shards that are done, in the order of the shards.
    pub roots: Seq<Node<K>>,
    /// The changes of the shards that are done.
    pub batch: BatchView<K>,
}

impl<K> ShardStageView<K> {
    /// The stage that a commit with updates starts in.
    pub open spec fn first(
        version: Version,
        epoch_end: Option<Version>,
        updates: Seq<MerkleLeafUpdate<K>>,
        prior: Option<HashedNode<K>>,
    ) -> Self {
        ShardStageView {
            version,
            epoch_end,
            updates,
            prior_existed: prior is Some,
            persisted: shard_versions(prior_node(prior)),
            roots: Seq::empty(),
            batch: BatchView::empty(),
        }
    }

    /// The stage after one more shard is done.
    pub open spec fn after(self, root: Node<K>, batch: BatchView<K>) -> Self {
        ShardStageView { roots: self.roots.push(root), batch: self.batch.combine(batch), ..self }
    }

    /// The update that the stage waits for: that of the first shard not done.
    pub open spec fn request(self) -> ShardPutView<K> {
        ShardPutView {
            shard_id: self.roots.len() as u8,
            value_set: shard_leaves(self.updates, self.roots.len() as int),
            persisted_version: self.persisted[self.roots.len() as int],
            version: self.version,
        }
    }

    /// The version whose root the new root replaces.
    pub open spec fn replaced_root(self) -> Option<Version> {
        if self.prior_existed {
            Some((self.version - 1) as Version)
        } else {
            None
        }
    }
}

impl<'a, K> ShardStage<'a, K> {
    /// The changes of the shards that are done, in groups.
    pub closed spec fn changes(self) -> TreeUpdateBatch<K> {
        self.batch
    }

    /// Some shard is not done, and only versions after the first have a prior root.
    #[verifier::type_invariant]
    spec fn inv(self) -> bool {
        &&& self.roots@.len() < 16
        &&& self.prior_existed ==> self.version > 0
    }
}

impl<'a, K> View for ShardStage<'a, K> {
    type V = ShardStageView<K>;

    closed spec fn view(&self) -> ShardStageView<K> {
        ShardStageView {
            version: self.version,
            epoch_end: self.epoch_end,
            updates: self.updates@,
            prior_existed: self.prior_existed,
            persisted: self.persisted@,
            roots: self.roots@,
            batch: self.batch@,
        }
    }
}

/// A commit with updates, before its shards are joined.
pub struct TopStage<K> {
    epoch_end: Option<Version>,
    batch: TreeUpdateBatch<K>,
}

impl<K> TopStage<K> {
    /// The end of the previous epoch.
    pub closed spec fn epoch_end(self) -> Option<Version> {
        self.epoch_end
    }

    /// The changes of all shards, in groups.
    pub closed spec fn changes(self) -> TreeUpdateBatch<K> {
        self.batch
    }

    /// The changes of all shards.
    pub closed spec fn batch(self) -> BatchView<K> {
        self.batch@
    }
}

/// A commit whose rows are being written.
pub struct WriteStage {
    root_hash: HashValue,
    carry_forward: bool,
}

impl WriteStage {
    /// The root hash that the commit returns.
    pub closed spec fn root_hash(self) -> HashValue {
        self.root_hash
    }

    /// Whether the commit carries the prior root forward.
    pub closed spec fn carry_forward(self) -> bool {
        self.carry_forward
    }
}

/// How a write failed: at a put of one kind of row, or as a whole.
#[derive(Debug, PartialEq, Eq)]
pub enum WriteFailure {
    NodePut(String),
    StalePut(String),
    CrossEpochPut(String),
    Commit(String),
}

/// What a commit does next.
pub enum Step<'a, K> {
    /// Update one shard's subtree, then go on with [`ShardStage::shard_done`].
    PutShard(ShardStage<'a, K>, ShardPut<'a, K>),
    /// Join the shards, then go on with [`TopStage::top_levels_done`].
    PutTopLevels(TopStage<K>, TopLevelsPut<K>),
    /// Write the rows at once, in this order, then go on with [`WriteStage::written`].
    Write(WriteStage, Vec<SchemaPut<K>>),
}

/// The put that places a stale mark.
spec fn placed_mark<K>(epoch_end: Option<Version>, mark: StaleNodeIndex) -> SchemaPut<K> {
    if epoch_end is Some && mark.node_key.version <= epoch_end->0 {
        SchemaPut::StaleCrossEpoch(mark)
    } else {
        SchemaPut::Stale(mark)
    }
}

/// The put of a stale mark.
fn stale_put<K>(epoch_end: Option<Version>, row: StaleNodeIndex) -> (r: SchemaPut<K>)
    ensures
        r@ == stale_row_of::<K>(epoch_end, row@),
        r == if epoch_end is Some && row.node_key.version <= epoch_end->0 {
            SchemaPut::<K>::StaleCrossEpoch(row)
        } else {
            SchemaPut::<K>::Stale(row)
        },
{
    match epoch_end {
        Some(end) if row.node_key.version <= end => SchemaPut::StaleCrossEpoch(row),
        _ => SchemaPut::Stale(row),
    }
}

/// Commit without updates: the rows that carry the prior root forward.
///
/// The new root has the entries of the prior one, at their versions: a later
/// commit finds the shards through it. A commit with no root before it stores
/// the empty tree, so that the next version finds a root too.
pub fn carry_forward<K>(
    version: Version,
    epoch_end: Option<Version>,
    prior: Option<HashedNode<K>>,
) -> (r: (WriteStage, Vec<SchemaPut<K>>))
    requires
        prior is Some ==> version > 0,
    ensures
        r.0.carry_forward(),
        r.0.root_hash() == prior_hash(prior),
        rows(r.1@) == carry_forward_rows(version, epoch_end, prior),
        match prior {
            Some(root) => {
                &&& r.0.root_hash() == root.hash
                &&& r.1@.len() == 2
                &&& r.1@[0] matches SchemaPut::Node(key, node)
                &&& key.version == version
                &&& key.nibble_path@.len() == 0
                &&& node == root.node
                &&& match r.1@[1] {
                    SchemaPut::Node(..) => false,
                    SchemaPut::Stale(mark) => {
                        &&& mark.stale_since_version == version
                        &&& mark.node_key.version == version - 1
                        &&& mark.node_key.nibble_path@.len() == 0
                        &&& epoch_end is None || epoch_end->0 < version - 1
                    },
                    SchemaPut::StaleCrossEpoch(mark) => {
                        &&& mark.stale_since_version == version
                        &&& mark.node_key.version == version - 1
                        &&& mark.node_key.nibble_path@.len() == 0
                        &&& epoch_end is Some && version - 1 <= epoch_end->0
                    },
                }
            },
            None => {
                &&& r.0.root_hash() == HashValue::empty_tree()
                &&& r.1@.len() == 1
                &&& r.1@[0] matches SchemaPut::Node(key, node)
                &&& key.version == version
                &&& key.nibble_path@.len() == 0
                &&& node is Null
            },
        },
{
    let mut puts: Vec<SchemaPut<K>> = Vec::new();
    let root_hash;
    match prior {
        Some(root) => {
            root_hash = root.hash;
            puts.push(SchemaPut::Node(NodeKey::new_empty_path(version), root.node));
            let row = StaleNodeIndex {
                stale_since_version: version,
                node_key: NodeKey::new_empty_path(version - 1),
            };
            puts.push(stale_put(epoch_end, row));
        },
        None => {
            root_hash = HashValue::sparse_merkle_placeholder();
            puts.push(SchemaPut::Node(NodeKey::new_empty_path(version), Node::Null));
        },
    }
    assert(rows(puts@) =~= carry_forward_rows(version, epoch_end, prior));
    (WriteStage { root_hash, carry_forward: true }, puts)
}

/// The rows that store the changes of a batch: all nodes, then all stale marks,
/// each where the end of the previous epoch sends it.
pub fn commit_tree_batch<K>(batch: TreeUpdateBatch<K>, epoch_end: Option<Version>) -> (r: Vec<
    SchemaPut<K>,
>)
    ensures
        rows(r@) == tree_rows(batch@, epoch_end),
        ({
            let nodes = (batch.node_batch@).map_values(
                |group: Vec<(NodeKey, Node<K>)>| group@,
            ).flatten();
            let marks = (batch.stale_node_index_batch@).map_values(
                |group: Vec<StaleNodeIndex>| group@,
            ).flatten();
            &&& r@.len() == nodes.len() + marks.len()
            &&& forall|i: int|
                0 <= i < nodes.len() ==> #[trigger] r@[i] == SchemaPut::Node(nodes[i].0, nodes[i].1)
            &&& forall|i: int|
                nodes.len() <= i < r@.len() ==> {
                    let mark = marks[i - nodes.len()];
                    #[trigger] r@[i] == if epoch_end is Some && mark.node_key.version <= epoch_end->0 {
                        SchemaPut::<K>::StaleCrossEpoch(mark)
                    } else {
                        SchemaPut::Stale(mark)
                    }
                }
        }),
{
    let ghost node_batch = batch.node_batch@;
    let ghost stale_batch = batch.stale_node_index_batch@;
    let ghost nodes_of = |group: Vec<(NodeKey, Node<K>)>| group@;
    let ghost marks_of = |group: Vec<StaleNodeIndex>| group@;
    let ghost node_put = |entry: (NodeKey, Node<K>)| SchemaPut::Node(entry.0, entry.1);
    let ghost mark_put = |mark: StaleNodeIndex| placed_mark::<K>(epoch_end, mark);
    let mut puts: Vec<SchemaPut<K>> = Vec::new();
    assert(node_batch.take(0) =~= Seq::empty());
    assert(rows(puts@) =~= node_rows(merkle_node::node_groups(node_batch.take(0))));
    assert(puts@ =~= node_batch.take(0).map_values(nodes_of).flatten().map_values(node_put)) by {
        assert(node_batch.take(0).map_values(nodes_of) =~= Seq::empty());
    }
    for group in groups: batch.node_batch
        invariant
            groups.seq() == node_batch,
            nodes_of == |group: Vec<(NodeKey, Node<K>)>| group@,
            node_put == |entry: (NodeKey, Node<K>)| SchemaPut::Node(entry.0, entry.1),
            puts@ == node_batch.take(groups.index() as int).map_values(
                nodes_of,
            ).flatten().map_values(node_put),
            rows(puts@) == node_rows(
                merkle_node::node_groups(node_batch.take(groups.index() as int)),
            ),
    {
        proof {
            let done = node_batch.take(groups.index() as int);
            merkle_node::lemma_node_groups_push(done, group);
            assert(node_batch.take(groups.index() + 1) =~= done.push(group));
            assert(done.push(group).map_values(nodes_of) =~= done.map_values(nodes_of).push(group@));
            done.map_values(nodes_of).lemma_flatten_push(group@);
            assert((done.map_values(nodes_of).flatten() + group@).map_values(node_put)
                =~= done.map_values(nodes_of).flatten().map_values(node_put) + group@.map_values(
                node_put,
            ));
            assert(node_rows(merkle_node::node_groups(done.push(group))) =~= node_rows(
                merkle_node::node_groups(done),
            ) + node_rows(merkle_node::node_group(group@)));
        }
        put_nodes(&mut puts, group);
    }
    assert(node_batch.take(node_batch.len() as int) =~= node_batch);
    let ghost nodes = node_rows(batch@.nodes);
    let ghost node_puts = puts@;
    assert(node_puts =~= node_puts + stale_batch.take(0).map_values(marks_of).flatten().map_values(
        mark_put,
    )) by {
        assert(stale_batch.take(0).map_values(marks_of) =~= Seq::empty());
    }
    assert(stale_batch.take(0) =~= Seq::empty());
    assert(nodes =~= nodes + stale_rows::<K>(
        epoch_end,
        merkle_node::stale_groups(stale_batch.take(0)),
    ));
    for group in groups: batch.stale_node_index_batch
        invariant
            groups.seq() == stale_batch,
            marks_of == |group: Vec<StaleNodeIndex>| group@,
            mark_put == |mark: StaleNodeIndex| placed_mark::<K>(epoch_end, mark),
            puts@ == node_puts + stale_batch.take(groups.index() as int).map_values(
                marks_of,
            ).flatten().map_values(mark_put),
            rows(puts@) == nodes + stale_rows::<K>(
                epoch_end,
                merkle_node::stale_groups(stale_batch.take(groups.index() as int)),
            ),
    {
        proof {
            let done = stale_batch.take(groups.index() as int);
            merkle_node::lemma_stale_groups_push(done, group);
            assert(stale_batch.take(groups.index() + 1) =~= done.push(group));
            assert(done.push(group).map_values(marks_of) =~= done.map_values(marks_of).push(group@));
            done.map_values(marks_of).lemma_flatten_push(group@);
            assert(node_puts + (done.map_values(marks_of).flatten() + group@).map_values(mark_put)
                =~= node_puts + done.map_values(marks_of).flatten().map_values(mark_put)
                + group@.map_values(mark_put));
            assert(nodes + stale_rows::<K>(epoch_end, merkle_node::stale_groups(done.push(group)))
                =~= nodes + stale_rows::<K>(epoch_end, merkle_node::stale_groups(done))
                + stale_rows::<K>(epoch_end, merkle_node::stale_group(group@)));
        }
        put_stale_marks(&mut puts, group, epoch_end);
    }
    assert(stale_batch.take(stale_batch.len() as int) =~= stale_batch);
    puts
}

/// Appends the puts of one group of nodes.
fn put_nodes<K>(puts: &mut Vec<SchemaPut<K>>, group: Vec<(NodeKey, Node<K>)>)
    ensures
        rows(final(puts)@) == rows(old(puts)@) + node_rows(merkle_node::node_group(group@)),
        final(puts)@ == old(puts)@ + group@.map_values(
            |entry: (NodeKey, Node<K>)| SchemaPut::Node(entry.0, entry.1),
        ),
{
    let ghost start = puts@;
    let ghost node_put = |entry: (NodeKey, Node<K>)| SchemaPut::Node(entry.0, entry.1);
    let ghost members = group@;
    let ghost before = rows(puts@);
    assert(before =~= before + node_rows(merkle_node::node_group(members.take(0))));
    assert(start =~= start + members.take(0).map_values(node_put));
    for entry in entries: group
        invariant
            entries.seq() == members,
            node_put == |entry: (NodeKey, Node<K>)| SchemaPut::Node(entry.0, entry.1),
            puts@ == start + members.take(entries.index() as int).map_values(node_put),
            rows(puts@) == before + node_rows(
                merkle_node::node_group(members.take(entries.index() as int)),
            ),
    {
        let ghost pushed = entry;
        let ghost i = entries.index() as int;
        let ghost sofar = puts@;
        puts.push(SchemaPut::Node(entry.0, entry.1));
        assert(rows(puts@) =~= rows(sofar).push(MerkleRow::Node(pushed.0@, pushed.1)));
        assert(members.take(i + 1) =~= members.take(i).push(pushed));
        assert(puts@ =~= start + members.take(i + 1).map_values(node_put));
        assert(rows(puts@) =~= before + node_rows(merkle_node::node_group(members.take(i + 1))));
    }
    assert(members.take(members.len() as int) =~= members);
}

/// Appends the puts of one group of stale marks.
fn put_stale_marks<K>(
    puts: &mut Vec<SchemaPut<K>>,
    group: Vec<StaleNodeIndex>,
    epoch_end: Option<Version>,
)
    ensures
        rows(final(puts)@) == rows(old(puts)@) + stale_rows::<K>(
            epoch_end,
            merkle_node::stale_group(group@),
        ),
        final(puts)@ == old(puts)@ + group@.map_values(
            |mark: StaleNodeIndex| placed_mark::<K>(epoch_end, mark),
        ),
{
    let ghost start = puts@;
    let ghost mark_put = |mark: StaleNodeIndex| placed_mark::<K>(epoch_end, mark);
    let ghost members = group@;
    let ghost before = rows(puts@);
    assert(before =~= before + stale_rows::<K>(
        epoch_end,
        merkle_node::stale_group(members.take(0)),
    ));
    assert(start =~= start + members.take(0).map_values(mark_put));
    for row in marks: group
        invariant
            marks.seq() == members,
            mark_put == |mark: StaleNodeIndex| placed_mark::<K>(epoch_end, mark),
            puts@ == start + members.take(marks.index() as int).map_values(mark_put),
            rows(puts@) == before + stale_rows::<K>(
                epoch_end,
                merkle_node::stale_group(members.take(marks.index() as int)),
            ),
    {
        let ghost pushed = row;
        let ghost i = marks.index() as int;
        let ghost sofar = puts@;
        puts.push(stale_put(epoch_end, row));
        assert(rows(puts@) =~= rows(sofar).push(stale_row_of::<K>(epoch_end, pushed@)));
        assert(members.take(i + 1) =~= members.take(i).push(pushed));
        assert(puts@ =~= start + members.take(i + 1).map_values(mark_put));
        assert(rows(puts@) =~= before + stale_rows::<K>(
            epoch_end,
            merkle_node::stale_group(members.take(i + 1)),
        ));
    }
    assert(members.take(members.len() as int) =~= members);
}

/// The leaves of one shard, in the order of the updates.
fn value_set_of_shard<'a, K>(updates: &'a [MerkleLeafUpdate<K>], shard_id: u8) -> (r: Vec<
    (HashValue, Option<(HashValue, &'a K)>),
>)
    ensures
        r@.map_values(|leaf: (HashValue, Option<(HashValue, &'a K)>)| owned_leaf(leaf))
            == shard_leaves(updates@, shard_id as int),
        ({
            let own = updates@.filter(
                |update: MerkleLeafUpdate<K>| update.state_key_hash.bytes[0] / 16 == shard_id,
            );
            &&& r@.len() == own.len()
            &&& forall|i: int|
                0 <= i < own.len() ==> {
                    &&& (#[trigger] r@[i]).0 == own[i].state_key_hash
                    &&& match r@[i].1 {
                        Some(leaf) => own[i].value_hash == Some(leaf.0) && *leaf.1 == own[i].state_key,
                        None => own[i].value_hash is None,
                    }
                }
        }),
{
    let ghost own = |leaf: (HashValue, Option<(HashValue, &'a K)>)| owned_leaf(leaf);
    let ghost chosen = |update: MerkleLeafUpdate<K>|
        update.state_key_hash.leading_nibble() == shard_id as int;
    let mut leaves: Vec<(HashValue, Option<(HashValue, &'a K)>)> = Vec::new();
    let mut i: usize = 0;
    assert(leaves@.map_values(own) =~= shard_leaves(updates@.take(0), shard_id as int)) by {
        assert(updates@.take(0) =~= Seq::empty());
        reveal(Seq::filter);
    }
    while i < updates.len()
        invariant
            i <= updates.len(),
            own == |leaf: (HashValue, Option<(HashValue, &'a K)>)| owned_leaf(leaf),
            chosen == |update: MerkleLeafUpdate<K>|
                update.state_key_hash.leading_nibble() == shard_id as int,
            leaves@.map_values(own) == shard_leaves(updates@.take(i as int), shard_id as int),
        decreases updates.len() - i,
    {
        let update = &updates[i];
        let ghost before = leaves@;
        if update.state_key_hash.get_leading_nibble() == shard_id {
            let value = match update.value_hash {
                Some(value_hash) => Some((value_hash, &update.state_key)),
                None => None,
            };
            leaves.push((update.state_key_hash, value));
            assert(leaves@.map_values(own) =~= before.map_values(own).push(leaf_of(*update)));
        }
        proof {
            let done = updates@.take(i as int);
            assert(updates@.take(i + 1) =~= done.push(*update));
            assert(done.push(*update).drop_last() =~= done);
            reveal(Seq::filter);
            assert(shard_leaves(done.push(*update), shard_id as int) =~= if chosen(*update) {
                shard_leaves(done, shard_id as int).push(leaf_of(*update))
            } else {
                shard_leaves(done, shard_id as int)
            });
        }
        i += 1;
    }
    assert(updates@.take(updates@.len() as int) =~= updates@);
    proof {
        let named = |update: MerkleLeafUpdate<K>| update.state_key_hash.bytes[0] / 16 == shard_id;
        assert(named =~= chosen);
        let kept = updates@.filter(named);
        assert(leaves@.map_values(own).len() == kept.len());
        assert forall|i: int| 0 <= i < kept.len() implies {
            &&& (#[trigger] leaves@[i]).0 == kept[i].state_key_hash
            &&& match leaves@[i].1 {
                Some(leaf) => kept[i].value_hash == Some(leaf.0) && *leaf.1 == kept[i].state_key,
                None => kept[i].value_hash is None,
            }
        } by {
            assert(leaves@.map_values(own)[i] == owned_leaf(leaves@[i]));
            assert(leaves@.map_values(own)[i] == leaf_of(kept[i]));
        }
    }
    leaves
}

/// For each shard, the version that last wrote its subtree.
fn persisted_versions<K>(root: &Node<K>) -> (r: [Option<Version>; 16])
    ensures
        r@ == shard_versions(*root),
        forall|shard: int|
            0 <= shard < 16 ==> #[trigger] r@[shard] == match *root {
                Node::Internal(internal) => match internal.children[shard] {
                    Some(child) => Some(child.version),
                    None => None,
                },
                _ => None,
            },
{
    let mut persisted: [Option<Version>; 16] = [None; 16];
    if let Node::Internal(internal) = root {
        let mut shard: usize = 0;
        while shard < 16
            invariant
                shard <= 16,
                *root == Node::<K>::Internal(*internal),
                forall|i: int| 0 <= i < shard ==> persisted[i] == shard_versions(*root)[i],
                forall|i: int| shard <= i < 16 ==> persisted[i] is None,
            decreases 16 - shard,
        {
            if let Some(child) = &internal.children[shard] {
                persisted[shard] = Some(child.version);
            }
            shard += 1;
        }
    }
    assert(persisted@ =~= shard_versions(*root));
    persisted
}

/// Drives commits to the position tree behind a handle to its database.
#[derive(Debug)]
pub struct PositionMerkleCommitter<D> {
    merkle_db: D,
}

impl<D> PositionMerkleCommitter<D> {
    /// The handle to the database of the tree.
    pub closed spec fn merkle_db_spec(self) -> D {
        self.merkle_db
    }

    pub fn new(merkle_db: D) -> (r: Self)
        ensures
            r.merkle_db_spec() == merkle_db,
    {
        PositionMerkleCommitter { merkle_db }
    }

    /// The handle to the database of the tree.
    pub fn merkle_db(&self) -> (r: &D)
        ensures
            *r == self.merkle_db_spec(),
    {
        &self.merkle_db
    }

    /// The node that a commit at `version` has to read first: the root of the
    /// version before. The first version reads none.
    pub fn apply_batch_request(&self, version: Version) -> (r: Option<NodeKey>)
        ensures
            version == 0 ==> r is None,
            version > 0 ==> r is Some && r->0@ == NodeKeyView::root((version - 1) as Version),
            version > 0 ==> r is Some && r->0.version == version - 1 && r->0.nibble_path@.len() == 0,
    {
        if version == 0 {
            None
        } else {
            Some(NodeKey::new_empty_path(version - 1))
        }
    }

    /// Starts the commit of `updates` at `version`, given the root that was read
    /// at the version before.
    ///
    /// Without updates the prior root is carried forward. With updates, the
    /// shards are updated one after the other; the version at which the prior
    /// root last saw a shard tells where the shard's subtree is stored.
    ///
    /// A root is never a bare leaf: a tree with one leaf has an internal root.
    pub fn apply_batch<'a, K>(
        &self,
        version: Version,
        previous_epoch_ending_version: Option<Version>,
        updates: &'a [MerkleLeafUpdate<K>],
        prior: Option<HashedNode<K>>,
    ) -> (r: Step<'a, K>)
        requires
            !(prior_node(usable_prior(version, prior)) is Leaf),
        ensures
            updates@.len() == 0 ==> {
                &&& r matches Step::Write(stage, puts)
                &&& stage.carry_forward()
                &&& stage.root_hash() == prior_hash(usable_prior(version, prior))
                &&& rows(puts@) == carry_forward_rows(
                    version,
                    previous_epoch_ending_version,
                    usable_prior(version, prior),
                )
            },
            updates@.len() > 0 ==> {
                &&& r matches Step::PutShard(stage, put)
                &&& stage@ == ShardStageView::first(
                    version,
                    previous_epoch_ending_version,
                    updates@,
                    usable_prior(version, prior),
                )
                &&& put@ == stage@.request()
            },
            updates@.len() == 0 ==> {
                let used = if version == 0 {
                    None
                } else {
                    prior
                };
                &&& r matches Step::Write(stage, puts)
                &&& stage.carry_forward()
                &&& match used {
                    Some(root) => {
                        &&& stage.root_hash() == root.hash
                        &&& puts@.len() == 2
                        &&& puts@[0] matches SchemaPut::Node(key, node)
                        &&& key.version == version
                        &&& key.nibble_path@.len() == 0
                        &&& node == root.node
                        &&& match puts@[1] {
                            SchemaPut::Node(..) => false,
                            SchemaPut::Stale(mark) => {
                                &&& mark.stale_since_version == version
                                &&& mark.node_key.version == version - 1
                                &&& mark.node_key.nibble_path@.len() == 0
                                &&& previous_epoch_ending_version is None || previous_epoch_ending_version->0 < version - 1
                            },
                            SchemaPut::StaleCrossEpoch(mark) => {
                                &&& mark.stale_since_version == version
                                &&& mark.node_key.version == version - 1
                                &&& mark.node_key.nibble_path@.len() == 0
                                &&& previous_epoch_ending_version is Some && version - 1 <= previous_epoch_ending_version->0
                            },
                        }
                    },
                    None => {
                        &&& stage.root_hash() == HashValue::empty_tree()
                        &&& puts@.len() == 1
                        &&& puts@[0] matches SchemaPut::Node(key, node)
                        &&& key.version == version
                        &&& key.nibble_path@.len() == 0
                        &&& node is Null
                    },
                }
            },
            updates@.len() > 0 ==> {
                &&& r matches Step::PutShard(stage, put)
                &&& stage@.version == version
                &&& stage@.epoch_end == previous_epoch_ending_version
                &&& stage@.updates == updates@
                &&& stage@.prior_existed == (version > 0 && prior is Some)
                &&& stage@.persisted.len() == 16
                &&& forall|shard: int|
                    0 <= shard < 16 ==> #[trigger] stage@.persisted[shard] == match prior {
                        Some(HashedNode { node: Node::Internal(root), .. }) => if version == 0 {
                            None
                        } else {
                            match root.children[shard] {
                                Some(child) => Some(child.version),
                                None => None,
                            }
                        },
                        _ => None,
                    }
                &&& stage@.roots.len() == 0
                &&& stage.changes().node_batch@.len() == 0
                &&& stage.changes().stale_node_index_batch@.len() == 0
                &&& put.shard_id == stage@.roots.len()
                &&& put.persisted_version == stage@.persisted[stage@.roots.len() as int]
                &&& put.version == stage@.version
                &&& ({
                    let own = stage@.updates.filter(
                        |update: MerkleLeafUpdate<K>| update.state_key_hash.bytes[0] / 16 == put.shard_id,
                    );
                    &&& put.value_set@.len() == own.len()
                    &&& forall|i: int|
                        0 <= i < own.len() ==> {
                            &&& (#[trigger] put.value_set@[i]).0 == own[i].state_key_hash
                            &&& match put.value_set@[i].1 {
                                Some(leaf) => own[i].value_hash == Some(leaf.0) && *leaf.1 == own[i].state_key,
                                None => own[i].value_hash is None,
                            }
                        }
                })
            },
    {
        let prior = if version == 0 {
            None
        } else {
            prior
        };
        if updates.len() == 0 {
            let (stage, puts) = carry_forward(version, previous_epoch_ending_version, prior);
            return Step::Write(stage, puts);
        }
        let (persisted, prior_existed) = match &prior {
            Some(root) => (persisted_versions(&root.node), true),
            None => (persisted_versions::<K>(&Node::Null), false),
        };
        let stage = ShardStage {
            version,
            epoch_end: previous_epoch_ending_version,
            updates,
            prior_existed,
            persisted,
            roots: Vec::new(),
            batch: TreeUpdateBatch::new(),
        };
        let put = stage.next_put();
        Step::PutShard(stage, put)
    }
}

impl<'a, K> ShardStage<'a, K> {
    /// The update of the first shard that is not done.
    fn next_put(&self) -> (r: ShardPut<'a, K>)
        ensures
            r@ == self@.request(),
            ({
                &&& r.shard_id == self@.roots.len()
                &&& r.persisted_version == self@.persisted[self@.roots.len() as int]
                &&& r.version == self@.version
                &&& ({
                    let own = self@.updates.filter(
                        |update: MerkleLeafUpdate<K>| update.state_key_hash.bytes[0] / 16 == r.shard_id,
                    );
                    &&& r.value_set@.len() == own.len()
                    &&& forall|i: int|
                        0 <= i < own.len() ==> {
                            &&& (#[trigger] r.value_set@[i]).0 == own[i].state_key_hash
                            &&& match r.value_set@[i].1 {
                                Some(leaf) => own[i].value_hash == Some(leaf.0) && *leaf.1 == own[i].state_key,
                                None => own[i].value_hash is None,
                            }
                        }
                })
            }),
    {
        proof {
            use_type_invariant(self);
        }
        let shard: usize = self.roots.len();
        let shard_id: u8 = shard as u8;
        ShardPut {
            shard_id,
            value_set: value_set_of_shard(self.updates, shard_id),
            persisted_version: self.persisted[shard],
            version: self.version,
        }
    }

    /// Goes on after the update of a shard gave back the shard's new root and
    /// the changes to its nodes, or failed.
    pub fn shard_done(self, reply: Result<(Node<K>, TreeUpdateBatch<K>), String>) -> (r: Result<
        Step<'a, K>,
        DbError,
    >)
        ensures
            self@.roots.len() < 16,
            match reply {
                Err(detail) => {
                    &&& r matches Err(failure)
                    &&& failure.text@ == "position JMT batch_put_value_set_for_shard("@
                        + error::decimal(self@.roots.len()) + ") failed: "@ + detail@
                },
                Ok((root, batch)) => {
                    let next = self@.after(root, batch@);
                    if self@.roots.len() < 15 {
                        &&& r matches Ok(Step::PutShard(stage, put))
                        &&& stage@ == next
                        &&& put@ == next.request()
                    } else {
                        &&& r matches Ok(Step::PutTopLevels(stage, put))
                        &&& stage.epoch_end() == self@.epoch_end
                        &&& stage.batch() == next.batch
                        &&& put.shard_root_nodes@ == next.roots
                        &&& put.persisted_version == self@.replaced_root()
                        &&& put.version == self@.version
                    }
                },
            },
            match reply {
                Err(_) => true,
                Ok((root, batch)) => {
                    if self@.roots.len() < 15 {
                        &&& r matches Ok(Step::PutShard(stage, put))
                        &&& stage@.version == self@.version
                        &&& stage@.epoch_end == self@.epoch_end
                        &&& stage@.updates == self@.updates
                        &&& stage@.prior_existed == self@.prior_existed
                        &&& stage@.persisted == self@.persisted
                        &&& stage@.roots == self@.roots.push(root)
                        &&& stage.changes().node_batch@ == self.changes().node_batch@
                            + batch.node_batch@
                        &&& stage.changes().stale_node_index_batch@
                            == self.changes().stale_node_index_batch@
                            + batch.stale_node_index_batch@
                        &&& put.shard_id == stage@.roots.len()
                        &&& put.persisted_version == stage@.persisted[stage@.roots.len() as int]
                        &&& put.version == stage@.version
                        &&& ({
                            let own = stage@.updates.filter(
                                |update: MerkleLeafUpdate<K>| update.state_key_hash.bytes[0] / 16 == put.shard_id,
                            );
                            &&& put.value_set@.len() == own.len()
                            &&& forall|i: int|
                                0 <= i < own.len() ==> {
                                    &&& (#[trigger] put.value_set@[i]).0 == own[i].state_key_hash
                                    &&& match put.value_set@[i].1 {
                                        Some(leaf) => own[i].value_hash == Some(leaf.0) && *leaf.1 == own[i].state_key,
                                        None => own[i].value_hash is None,
                                    }
                                }
                        })
                    } else {
                        &&& r matches Ok(Step::PutTopLevels(stage, put))
                        &&& stage.epoch_end() == self@.epoch_end
                        &&& stage.changes().node_batch@ == self.changes().node_batch@
                            + batch.node_batch@
                        &&& stage.changes().stale_node_index_batch@
                            == self.changes().stale_node_index_batch@
                            + batch.stale_node_index_batch@
                        &&& put.shard_root_nodes@ == self@.roots.push(root)
                        &&& put.persisted_version == if self@.prior_existed {
                            Some((self@.version - 1) as Version)
                        } else {
                            None
                        }
                        &&& put.version == self@.version
                        &&& self@.prior_existed ==> self@.version > 0
                    }
                },
            },
    {
        proof {
            use_type_invariant(&self);
        }
        let ShardStage {
            version,
            epoch_end,
            updates,
            prior_existed,
            persisted,
            mut roots,
            mut batch,
        } = self;
        match reply {
            Err(detail) => {
                let mut text = String::from_str("position JMT batch_put_value_set_for_shard(");
                error::append_decimal(&mut text, roots.len());
                text.append(") failed: ");
                text.append(detail.as_str());
                Err(DbError { text })
            },
            Ok((root, changes)) => {
                roots.push(root);
                batch.combine(changes);
                if roots.len() < 16 {
                    let stage = ShardStage {
                        version,
                        epoch_end,
                        updates,
                        prior_existed,
                        persisted,
                        roots,
                        batch,
                    };
                    let put = stage.next_put();
                    Ok(Step::PutShard(stage, put))
                } else {
                    let persisted_version = if prior_existed {
                        Some(version - 1)
                    } else {
                        None
                    };
                    Ok(
                        Step::PutTopLevels(
                            TopStage { epoch_end, batch },
                            TopLevelsPut { shard_root_nodes: roots, persisted_version, version },
                        ),
                    )
                }
            },
        }
    }
}

impl<K> TopStage<K> {
    /// Goes on after the join of the shards gave back the root hash, the number
    /// of leaves and the changes at the top of the tree, or failed.
    pub fn top_levels_done<'a>(
        self,
        reply: Result<(HashValue, usize, TreeUpdateBatch<K>), String>,
    ) -> (r: Result<Step<'a, K>, DbError>)
        ensures
            match reply {
                Err(detail) => {
                    &&& r matches Err(failure)
                    &&& failure.text@ == "position JMT put_top_levels_nodes failed: "@ + detail@
                },
                Ok((root_hash, leaf_count, batch)) => {
                    &&& r matches Ok(Step::Write(stage, puts))
                    &&& !stage.carry_forward()
                    &&& stage.root_hash() == root_hash
                    &&& rows(puts@) == tree_rows(self.batch().combine(batch@), self.epoch_end())
                },
            },
            match reply {
                Err(_) => true,
                Ok((root_hash, leaf_count, batch)) => {
                    &&& r matches Ok(Step::Write(stage, puts))
                    &&& stage.root_hash() == root_hash
                    &&& ({
                        let nodes = (self.changes().node_batch@ + batch.node_batch@).map_values(
                            |group: Vec<(NodeKey, Node<K>)>| group@,
                        ).flatten();
                        let marks = (self.changes().stale_node_index_batch@ + batch.stale_node_index_batch@).map_values(
                            |group: Vec<StaleNodeIndex>| group@,
                        ).flatten();
                        &&& puts@.len() == nodes.len() + marks.len()
                        &&& forall|i: int|
                            0 <= i < nodes.len() ==> #[trigger] puts@[i] == SchemaPut::Node(nodes[i].0, nodes[i].1)
                        &&& forall|i: int|
                            nodes.len() <= i < puts@.len() ==> {
                                let mark = marks[i - nodes.len()];
                                #[trigger] puts@[i] == if self.epoch_end() is Some && mark.node_key.version <= self.epoch_end()->0 {
                                    SchemaPut::<K>::StaleCrossEpoch(mark)
                                } else {
                                    SchemaPut::Stale(mark)
                                }
                            }
                    })
                },
            },
    {
        match reply {
            Err(detail) => Err(
                DbError::other("position JMT put_top_levels_nodes failed: ", detail.as_str()),
            ),
            Ok((root_hash, _leaf_count, changes)) => {
                let TopStage { epoch_end, mut batch } = self;
                batch.combine(changes);
                let puts = commit_tree_batch(batch, epoch_end);
                Ok(Step::Write(WriteStage { root_hash, carry_forward: false }, puts))
            },
        }
    }
}

/// The text that a failed write is reported with, before the failure's own.
pub open spec fn write_failure_context(carry_forward: bool, failure: WriteFailure) -> Seq<char> {
    match failure {
        WriteFailure::NodePut(_) => if carry_forward {
            "position carry-forward node put failed: "@
        } else {
            "JMT node put failed: "@
        },
        WriteFailure::StalePut(_) => if carry_forward {
            "carry-forward stale put failed: "@
        } else {
            "JMT stale index put failed: "@
        },
        WriteFailure::CrossEpochPut(_) => if carry_forward {
            "carry-forward cross-epoch stale put failed: "@
        } else {
            "JMT cross-epoch stale index put failed: "@
        },
        WriteFailure::Commit(_) => if carry_forward {
            "position_merkle_db carry-forward commit failed: "@
        } else {
            "position_merkle_db commit failed: "@
        },
    }
}

/// The failure's own text.
pub open spec fn write_failure_detail(failure: WriteFailure) -> Seq<char> {
    match failure {
        WriteFailure::NodePut(detail) => detail@,
        WriteFailure::StalePut(detail) => detail@,
        WriteFailure::CrossEpochPut(detail) => detail@,
        WriteFailure::Commit(detail) => detail@,
    }
}

impl WriteStage {
    /// Ends the commit after its rows were written, or not.
    pub fn written(self, reply: Result<(), WriteFailure>) -> (r: Result<HashValue, DbError>)
        ensures
            match reply {
                Ok(_) => r == Ok::<HashValue, DbError>(self.root_hash()),
                Err(failure) => {
                    &&& r matches Err(reported)
                    &&& reported.text@ == write_failure_context(self.carry_forward(), failure)
                        + write_failure_detail(failure)
                },
            },
            match reply {
                Ok(_) => true,
                Err(failure) => {
                    &&& r matches Err(reported)
                    &&& reported.text@ == match failure {
                        WriteFailure::NodePut(detail) => if self.carry_forward() {
                            "position carry-forward node put failed: "@ + detail@
                        } else {
                            "JMT node put failed: "@ + detail@
                        },
                        WriteFailure::StalePut(detail) => if self.carry_forward() {
                            "carry-forward stale put failed: "@ + detail@
                        } else {
                            "JMT stale index put failed: "@ + detail@
                        },
                        WriteFailure::CrossEpochPut(detail) => if self.carry_forward() {
                            "carry-forward cross-epoch stale put failed: "@ + detail@
                        } else {
                            "JMT cross-epoch stale index put failed: "@ + detail@
                        },
                        WriteFailure::Commit(detail) => if self.carry_forward() {
                            "position_merkle_db carry-forward commit failed: "@ + detail@
                        } else {
                            "position_merkle_db commit failed: "@ + detail@
                        },
                    }
                },
            },
    {
        let failure = match reply {
            Ok(_) => {
                return Ok(self.root_hash);
            },
            Err(failure) => failure,
        };
        let (context, detail) = match failure {
            WriteFailure::NodePut(detail) => (
                if self.carry_forward {
                    "position carry-forward node put failed: "
                } else {
                    "JMT node put failed: "
                },
                detail,
            ),
            WriteFailure::StalePut(detail) => (
                if self.carry_forward {
                    "carry-forward stale put failed: "
                } else {
                    "JMT stale index put failed: "
                },
                detail,
            ),
            WriteFailure::CrossEpochPut(detail) => (
                if self.carry_forward {
                    "carry-forward cross-epoch stale put failed: "
                } else {
                    "JMT cross-epoch stale index put failed: "
                },
                detail,
            ),
            WriteFailure::Commit(detail) => (
                if self.carry_forward {
                    "position_merkle_db carry-forward commit failed: "
                } else {
                    "position_merkle_db commit failed: "
                },
                detail,
            ),
        };
        Err(DbError::other(context, detail.as_str()))
    }
}

/// A shard's subtree is stored at the version that the root's entry for the shard has,
/// whatever stands below the entry, and a shard without an entry is not stored.
pub proof fn law_stored_shards_are_entries<K>(root: InternalNode, shard: int)
    requires
        0 <= shard < 16,
    ensures
        shard_versions(Node::<K>::Internal(root)).len() == 16,
        shard_versions(Node::<K>::Internal(root))[shard] is Some <==> root.children[shard] is Some,
        root.children[shard] matches Some(child) ==> shard_versions(
            Node::<K>::Internal(root),
        )[shard] == Some(child.version),
        shard_versions(Node::<K>::Null)[shard] is None,
{
}

/// Two roots with entries of the same versions lead a commit to the same subtrees,
/// whatever else the roots hold.
pub proof fn law_entry_versions_alone_count<K>(root: InternalNode, other: InternalNode)
    requires
        forall|shard: int|
            0 <= shard < 16 ==> match (#[trigger] root.children[shard], other.children[shard]) {
                (Some(child), Some(twin)) => child.version == twin.version,
                (None, None) => true,
                _ => false,
            },
    ensures
        shard_versions(Node::<K>::Internal(root)) == shard_versions(Node::<K>::Internal(other)),
{
    assert forall|shard: int| 0 <= shard < 16 implies shard_versions(
        Node::<K>::Internal(root),
    )[shard] == shard_versions(Node::<K>::Internal(other))[shard] by {
        assert(root.children[shard] == root.children[shard]);
    }
    assert(shard_versions(Node::<K>::Internal(root)) =~= shard_versions(
        Node::<K>::Internal(other),
    ));
}

/// The version of the marked node and the end of the previous epoch alone decide on
/// the table of a stale mark: at or before the end, it is that across epochs, and
/// without an end or after it, that of the pruner.
pub proof fn law_version_decides_on_table<K>(batch: BatchView<K>, epoch_end: Option<Version>)
    ensures
        ({
            let rows = tree_rows(batch, epoch_end);
            let nodes = batch.nodes.len();
            &&& rows.len() == nodes + batch.stale.len()
            &&& forall|i: int|
                0 <= i < nodes ==> #[trigger] rows[i] == MerkleRow::Node(
                    batch.nodes[i].0,
                    batch.nodes[i].1,
                )
            &&& forall|i: int|
                0 <= i < batch.stale.len() ==> {
                    let mark = #[trigger] batch.stale[i];
                    &&& epoch_end is None ==> rows[nodes + i] == MerkleRow::<K>::Stale(mark)
                    &&& epoch_end matches Some(end) ==> {
                        &&& mark.node_key.version <= end ==> rows[nodes + i]
                            == MerkleRow::<K>::StaleCrossEpoch(mark)
                        &&& end < mark.node_key.version ==> rows[nodes + i]
                            == MerkleRow::<K>::Stale(mark)
                    }
                }
        }),
{
}

/// A put puts what it holds: a node under its version and path, or a stale mark of a
/// node's version and path, into the table that it names.
pub proof fn law_puts_put_what_they_hold<K>(puts: Seq<SchemaPut<K>>)
    ensures
        rows(puts).len() == puts.len(),
        forall|i: int|
            0 <= i < puts.len() ==> match (#[trigger] puts[i]) {
                SchemaPut::Node(key, node) => {
                    &&& rows(puts)[i] matches MerkleRow::Node(place, stored)
                    &&& place.version == key.version
                    &&& place.nibble_path == key.nibble_path@
                    &&& stored == node
                },
                SchemaPut::Stale(mark) => {
                    &&& rows(puts)[i] matches MerkleRow::Stale(row)
                    &&& row.stale_since_version == mark.stale_since_version
                    &&& row.node_key.version == mark.node_key.version
                    &&& row.node_key.nibble_path == mark.node_key.nibble_path@
                },
                SchemaPut::StaleCrossEpoch(mark) => {
                    &&& rows(puts)[i] matches MerkleRow::StaleCrossEpoch(row)
                    &&& row.stale_since_version == mark.stale_since_version
                    &&& row.node_key.version == mark.node_key.version
                    &&& row.node_key.nibble_path == mark.node_key.nibble_path@
                },
            },
{
}

/// The text of a failed write names the kind of commit and the kind of row, or that
/// the write as a whole failed, before the failure's own text.
pub proof fn law_failed_writes_are_told_apart(detail: String)
    ensures
        write_failure_context(true, WriteFailure::NodePut(detail))
            == "position carry-forward node put failed: "@,
        write_failure_context(true, WriteFailure::StalePut(detail))
            == "carry-forward stale put failed: "@,
        write_failure_context(true, WriteFailure::CrossEpochPut(detail))
            == "carry-forward cross-epoch stale put failed: "@,
        write_failure_context(true, WriteFailure::Commit(detail))
            == "position_merkle_db carry-forward commit failed: "@,
        write_failure_context(false, WriteFailure::NodePut(detail)) == "JMT node put failed: "@,
        write_failure_context(false, WriteFailure::StalePut(detail))
            == "JMT stale index put failed: "@,
        write_failure_context(false, WriteFailure::CrossEpochPut(detail))
            == "JMT cross-epoch stale index put failed: "@,
        write_failure_context(false, WriteFailure::Commit(detail))
            == "position_merkle_db commit failed: "@,
        write_failure_detail(WriteFailure::NodePut(detail)) == detail@,
        write_failure_detail(WriteFailure::StalePut(detail)) == detail@,
        write_failure_detail(WriteFailure::CrossEpochPut(detail)) == detail@,
        write_failure_detail(WriteFailure::Commit(detail)) == detail@,
{
}

} // verus!

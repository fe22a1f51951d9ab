//! What histories of commits leave behind, given what the tree answers.
//!
//! The tree above the database is given by a [`Tree`]: how it hashes, which leaves
//! it reads below a shard's root, and which root hash it has over given leaves.

use crate::hash_value;
use crate::hash_value::HashValue;
use crate::merkle_node::{BatchView, LeafNode, Node, NodeKeyView, Version};
use crate::merkle_tables;
use crate::merkle_tables::MerkleTables;
use crate::position_merkle_committer;
use crate::position_merkle_committer::{MerkleLeafUpdate, ShardPutView, ShardStageView};
use crate::position_merkle_db;
use crate::position_merkle_db::LeafWalk;
use vstd::prelude::*;

verus! {

/// Leaves: for the hash of a key, the hash of the value, and the key.
pub type Leaves<K> = Map<HashValue, (HashValue, K)>;

/// A change of a leaf, as the value set of a shard has it.
pub type Change<K> = (HashValue, Option<(HashValue, K)>);

/// Leaves after one change.
pub open spec fn changed<K>(leaves: Leaves<K>, change: Change<K>) -> Leaves<K> {
    match change.1 {
        Some(leaf) => leaves.insert(change.0, leaf),
        None => leaves.remove(change.0),
    }
}

/// Leaves after changes one after the other.
pub open spec fn updated<K>(leaves: Leaves<K>, changes: Seq<Change<K>>) -> Leaves<K>
    decreases changes.len(),
{
    if changes.len() == 0 {
        leaves
    } else {
        changed(updated(leaves, changes.drop_last()), changes.last())
    }
}

/// The changes that updates ask for.
pub open spec fn changes_of<K>(updates: Seq<MerkleLeafUpdate<K>>) -> Seq<Change<K>> {
    updates.map_values(
        |update: MerkleLeafUpdate<K>|
            (
                update.state_key_hash,
                match update.value_hash {
                    Some(value_hash) => Some((value_hash, update.state_key)),
                    None => None,
                },
            ),
    )
}

/// The leaves that updates leave, from an empty tree on.
pub open spec fn live<K>(updates: Seq<MerkleLeafUpdate<K>>) -> Leaves<K> {
    updated(Map::empty(), changes_of(updates))
}

/// Update `i` is the last one to its hash.
pub open spec fn last_update<K>(updates: Seq<MerkleLeafUpdate<K>>, i: int) -> bool {
    &&& 0 <= i < updates.len()
    &&& forall|j: int|
        i < j < updates.len() ==> (#[trigger] updates[j]).state_key_hash
            != updates[i].state_key_hash
}

/// No two updates are to the same hash.
pub open spec fn distinct_hashes<K>(updates: Seq<MerkleLeafUpdate<K>>) -> bool {
    forall|i: int, j: int|
        0 <= i < j < updates.len() ==> (#[trigger] updates[i]).state_key_hash != (
        #[trigger] updates[j]).state_key_hash
}

/// The leaves of one shard: those whose hash has the shard's nibble.
pub open spec fn in_shard<K>(leaves: Leaves<K>, shard: int) -> Leaves<K> {
    Map::new(
        |hash: HashValue| leaves.contains_key(hash) && hash.leading_nibble() == shard,
        |hash: HashValue| leaves[hash],
    )
}

/// The leaves of all shards, each hash looked up in the shard of its nibble.
pub open spec fn joined<K>(shards: Seq<Leaves<K>>) -> Leaves<K> {
    Map::new(
        |hash: HashValue| shards[hash.leading_nibble() as int].contains_key(hash),
        |hash: HashValue| shards[hash.leading_nibble() as int][hash],
    )
}

/// The hashes of the values, by the hashes of the keys.
pub open spec fn value_hashes<K>(leaves: Leaves<K>) -> Map<HashValue, HashValue> {
    leaves.map_values(|leaf: (HashValue, K)| leaf.0)
}

/// Changes in two parts are those of one part after the other.
proof fn lemma_updated_add<K>(leaves: Leaves<K>, first: Seq<Change<K>>, second: Seq<Change<K>>)
    ensures
        updated(leaves, first + second) == updated(updated(leaves, first), second),
    decreases second.len(),
{
    if second.len() == 0 {
        assert(first + second =~= first);
    } else {
        assert((first + second).drop_last() =~= first + second.drop_last());
        lemma_updated_add(leaves, first, second.drop_last());
    }
}

/// The updates of one shard change the leaves of the shard as all updates change all
/// leaves.
proof fn lemma_updated_in_shard<K>(
    leaves: Leaves<K>,
    updates: Seq<MerkleLeafUpdate<K>>,
    shard: int,
)
    ensures
        updated(in_shard(leaves, shard), position_merkle_committer::shard_leaves(updates, shard))
            == in_shard(updated(leaves, changes_of(updates)), shard),
    decreases updates.len(),
{
    let of_shard = position_merkle_committer::shard_leaves(updates, shard);
    reveal(Seq::filter);
    if updates.len() == 0 {
        assert(of_shard =~= Seq::empty());
    } else {
        let fewer = updates.drop_last();
        let update = updates.last();
        let leaf = position_merkle_committer::leaf_of(update);
        let before = updated(leaves, changes_of(fewer));
        lemma_updated_in_shard(leaves, fewer, shard);
        assert(changes_of(updates).drop_last() =~= changes_of(fewer));
        if update.state_key_hash.leading_nibble() == shard {
            assert(of_shard =~= position_merkle_committer::shard_leaves(fewer, shard).push(leaf));
            assert(of_shard.drop_last() =~= position_merkle_committer::shard_leaves(fewer, shard));
            assert(changed(in_shard(before, shard), leaf) =~= in_shard(changed(before, leaf), shard));
        } else {
            assert(of_shard =~= position_merkle_committer::shard_leaves(fewer, shard));
            assert(in_shard(before, shard) =~= in_shard(changed(before, leaf), shard));
        }
    }
}

/// All leaves are the leaves of the shards together.
proof fn lemma_joined<K>(leaves: Leaves<K>)
    ensures
        joined(Seq::new(16, |shard: int| in_shard(leaves, shard))) == leaves,
{
    assert(joined(Seq::new(16, |shard: int| in_shard(leaves, shard))) =~= leaves);
}

/// The last update to a hash decides on its leaf, and without an update to its hash
/// a leaf stays as it is.
pub proof fn law_last_update_decides<K>(leaves: Leaves<K>, updates: Seq<MerkleLeafUpdate<K>>)
    ensures
        ({
            let after = updated(leaves, changes_of(updates));
            &&& forall|i: int| #[trigger]
                last_update(updates, i) ==> match updates[i].value_hash {
                    Some(value_hash) => {
                        &&& after.contains_key(updates[i].state_key_hash)
                        &&& after[updates[i].state_key_hash] == (value_hash, updates[i].state_key)
                    },
                    None => !after.contains_key(updates[i].state_key_hash),
                }
            &&& forall|hash: HashValue|
                (forall|i: int|
                    0 <= i < updates.len() ==> (#[trigger] updates[i]).state_key_hash != hash)
                    ==> #[trigger] after.contains_key(hash) == leaves.contains_key(hash) && (
                leaves.contains_key(hash) ==> after[hash] == leaves[hash])
        }),
    decreases updates.len(),
{
    if updates.len() > 0 {
        let fewer = updates.drop_last();
        let update = updates.last();
        let before = updated(leaves, changes_of(fewer));
        let after = updated(leaves, changes_of(updates));
        law_last_update_decides(leaves, fewer);
        assert(changes_of(updates).drop_last() =~= changes_of(fewer));
        assert(after == changed(before, position_merkle_committer::leaf_of(update)));
        assert forall|i: int| #[trigger] last_update(updates, i) implies match updates[i].value_hash {
            Some(value_hash) => {
                &&& after.contains_key(updates[i].state_key_hash)
                &&& after[updates[i].state_key_hash] == (value_hash, updates[i].state_key)
            },
            None => !after.contains_key(updates[i].state_key_hash),
        } by {
            if i < updates.len() - 1 {
                assert(updates[updates.len() - 1].state_key_hash != updates[i].state_key_hash);
                assert forall|j: int| i < j < fewer.len() implies (#[trigger] fewer[j]).state_key_hash
                    != fewer[i].state_key_hash by {
                    assert(updates[j].state_key_hash != updates[i].state_key_hash);
                }
                assert(last_update(fewer, i));
            }
        }
        assert forall|hash: HashValue|
            (forall|i: int|
                0 <= i < updates.len() ==> (#[trigger] updates[i]).state_key_hash
                    != hash) implies #[trigger] after.contains_key(hash) == leaves.contains_key(hash)
            && (leaves.contains_key(hash) ==> after[hash] == leaves[hash]) by {
            assert(updates[updates.len() - 1].state_key_hash != hash);
            assert forall|i: int| 0 <= i < fewer.len() implies (#[trigger] fewer[i]).state_key_hash
                != hash by {
                assert(updates[i].state_key_hash != hash);
            }
            assert(before.contains_key(hash) == leaves.contains_key(hash));
        }
    }
}

/// Where a hash is updated, one of its updates is the last.
proof fn lemma_last_update_exists<K>(updates: Seq<MerkleLeafUpdate<K>>, some: int) -> (i: int)
    requires
        0 <= some < updates.len(),
    ensures
        last_update(updates, i),
        updates[i].state_key_hash == updates[some].state_key_hash,
    decreases updates.len() - some,
{
    if exists|later: int|
        some < later < updates.len() && (#[trigger] updates[later]).state_key_hash
            == updates[some].state_key_hash {
        let later = choose|later: int|
            some < later < updates.len() && (#[trigger] updates[later]).state_key_hash
                == updates[some].state_key_hash;
        lemma_last_update_exists(updates, later)
    } else {
        some
    }
}

/// The order of updates to different hashes does not count.
pub proof fn law_order_of_updates<K>(
    leaves: Leaves<K>,
    updates: Seq<MerkleLeafUpdate<K>>,
    others: Seq<MerkleLeafUpdate<K>>,
)
    requires
        distinct_hashes(updates),
        distinct_hashes(others),
        forall|update: MerkleLeafUpdate<K>| #[trigger]
            updates.contains(update) <==> others.contains(update),
    ensures
        updated(leaves, changes_of(updates)) == updated(leaves, changes_of(others)),
{
    let a = updated(leaves, changes_of(updates));
    let b = updated(leaves, changes_of(others));
    law_last_update_decides(leaves, updates);
    law_last_update_decides(leaves, others);
    assert forall|hash: HashValue| #[trigger]
        a.dom().contains(hash) == b.dom().contains(hash) && (a.contains_key(hash) ==> a[hash]
            == b[hash]) by {
        if exists|i: int| 0 <= i < updates.len() && (#[trigger] updates[i]).state_key_hash == hash {
            let i = choose|i: int|
                0 <= i < updates.len() && (#[trigger] updates[i]).state_key_hash == hash;
            assert(updates.contains(updates[i]));
            assert(others.contains(updates[i]));
            let j = choose|j: int| 0 <= j < others.len() && others[j] == updates[i];
            assert(last_update(updates, i));
            assert(last_update(others, j));
        } else {
            assert forall|j: int| 0 <= j < others.len() implies (#[trigger] others[j]).state_key_hash
                != hash by {
                assert(others.contains(others[j]));
                assert(updates.contains(others[j]));
            }
            assert(a.contains_key(hash) == leaves.contains_key(hash));
            assert(b.contains_key(hash) == leaves.contains_key(hash));
        }
    }
    assert(a.dom() =~= b.dom());
    assert(a =~= b);
}

/// The nodes and the others are the same up to the version.
pub open spec fn agree_up_to<K>(
    nodes: Map<NodeKeyView, Node<K>>,
    others: Map<NodeKeyView, Node<K>>,
    version: Version,
) -> bool {
    forall|key: NodeKeyView|
        key.version <= version ==> #[trigger] nodes.contains_key(key) == others.contains_key(key)
            && (nodes.contains_key(key) ==> nodes[key] == others[key])
}

/// A tree over the tables of the database.
#[verifier::reject_recursive_types(K)]
pub struct Tree<K> {
    /// The hash of a node.
    pub hash_of: spec_fn(Node<K>) -> HashValue,
    /// The leaves of a shard's subtree that the nodes hold, its root stored at a
    /// version.
    pub subtree: spec_fn(Map<NodeKeyView, Node<K>>, int, Version) -> Leaves<K>,
    /// The root hash of the tree with the given hashes of values, by hashes of keys.
    pub root_over: spec_fn(Map<HashValue, HashValue>) -> HashValue,
}

impl<K> Tree<K> {
    /// The tree without leaves has the hash of the empty tree, and a subtree consists
    /// of nodes up to the version of its root.
    pub open spec fn wf(self) -> bool {
        &&& (self.hash_of)(Node::Null) == HashValue::empty_tree()
        &&& (self.root_over)(Map::empty()) == HashValue::empty_tree()
        &&& forall|
            nodes: Map<NodeKeyView, Node<K>>,
            others: Map<NodeKeyView, Node<K>>,
            shard: int,
            version: Version,
        |
            #![trigger (self.subtree)(nodes, shard, version), (self.subtree)(others, shard, version)]
            agree_up_to(nodes, others, version) ==> (self.subtree)(nodes, shard, version) == (
            self.subtree)(others, shard, version)
    }

    /// The leaves of a shard, where its subtree is stored at the version; a shard that
    /// is not stored has none.
    pub open spec fn shard(
        self,
        nodes: Map<NodeKeyView, Node<K>>,
        shard: int,
        version: Option<Version>,
    ) -> Leaves<K> {
        match version {
            Some(stored) => (self.subtree)(nodes, shard, stored),
            None => Map::empty(),
        }
    }

    /// The leaves of each shard below a root.
    pub open spec fn shards_below(
        self,
        nodes: Map<NodeKeyView, Node<K>>,
        root: Node<K>,
    ) -> Seq<Leaves<K>> {
        Seq::new(
            16,
            |shard: int|
                match root {
                    Node::Internal(internal) => match internal.children[shard] {
                        Some(child) => (self.subtree)(nodes, shard, child.version),
                        None => Map::empty(),
                    },
                    _ => Map::empty(),
                },
        )
    }
}

/// A commit, and what the tree answers to it.
pub struct Commit<K> {
    pub epoch_end: Option<Version>,
    pub updates: Seq<MerkleLeafUpdate<K>>,
    /// For each shard, its new root and the changes to its nodes.
    pub shards: Seq<(Node<K>, BatchView<K>)>,
    /// The hash of the new root.
    pub root_hash: HashValue,
    /// The changes at the top of the tree.
    pub top: BatchView<K>,
}

impl<K> Commit<K> {
    /// The stage of the commit at `version` after its first `shards` shards.
    pub open spec fn stage(
        self,
        tree: Tree<K>,
        tables: MerkleTables<K>,
        version: Version,
        shards: int,
    ) -> ShardStageView<K> {
        merkle_tables::after_shards(
            ShardStageView::first(
                version,
                self.epoch_end,
                self.updates,
                tables.prior_of(version, tree.hash_of),
            ),
            self.shards.take(shards),
        )
    }

    /// What the commit asks of a shard.
    pub open spec fn request(
        self,
        tree: Tree<K>,
        tables: MerkleTables<K>,
        version: Version,
        shard: int,
    ) -> ShardPutView<K> {
        self.stage(tree, tables, version, shard).request()
    }

    /// The tables after the commit.
    pub open spec fn after(
        self,
        tree: Tree<K>,
        tables: MerkleTables<K>,
        version: Version,
    ) -> MerkleTables<K> {
        if self.updates.len() == 0 {
            tables.after_empty_commit(version, self.epoch_end, tree.hash_of)
        } else {
            let stage = self.stage(tree, tables, version, 16);
            tables.put_all(
                position_merkle_committer::tree_rows(
                    stage.batch.combine(self.top),
                    stage.epoch_end,
                ),
            )
        }
    }

    /// The root hash that the commit returns.
    pub open spec fn returned(
        self,
        tree: Tree<K>,
        tables: MerkleTables<K>,
        version: Version,
    ) -> HashValue {
        if self.updates.len() == 0 {
            position_merkle_committer::prior_hash(tables.prior_of(version, tree.hash_of))
        } else {
            self.root_hash
        }
    }

    /// The changes at the top store a root at `version` that has the root hash.
    pub open spec fn stores_root(self, tree: Tree<K>, version: Version) -> bool {
        exists|i: int|
            0 <= i < self.top.nodes.len() && (#[trigger] self.top.nodes[i]).0 == NodeKeyView::root(
                version,
            ) && merkle_tables::last_of_its_key(self.top.nodes, i) && (tree.hash_of)(
                self.top.nodes[i].1,
            ) == self.root_hash
    }

    /// The tree answers for every shard, and with nodes of `version` alone.
    pub open spec fn writes_own_version(self, version: Version) -> bool {
        &&& self.shards.len() == 16
        &&& forall|shard: int|
            0 <= shard < 16 ==> of_version(
                (#[trigger] self.shards[shard]).1.nodes,
                version,
            )
        &&& of_version(self.top.nodes, version)
    }

    /// The tree answers as it should: it writes nodes of the version alone, and stores
    /// a root, which is no leaf and refers to no later version. Below the new root
    /// each shard has the leaves that it had at the version asked for, changed by the
    /// value set. The root hash is that over all leaves.
    pub open spec fn answered(self, tree: Tree<K>, tables: MerkleTables<K>, version: Version) -> bool {
        let after = self.after(tree, tables, version);
        let root = after.nodes[NodeKeyView::root(version)];
        &&& self.writes_own_version(version)
        &&& self.stores_root(tree, version)
        &&& !(root is Leaf)
        &&& refers_up_to(root, version)
        &&& forall|shard: int|
            0 <= shard < 16 ==> #[trigger] tree.shards_below(after.nodes, root)[shard] == updated(
                tree.shard(
                    tables.nodes,
                    shard,
                    self.request(tree, tables, version, shard).persisted_version,
                ),
                self.request(tree, tables, version, shard).value_set,
            )
        &&& self.root_hash == (tree.root_over)(
            value_hashes(joined(tree.shards_below(after.nodes, root))),
        )
    }
}

/// All nodes are nodes of the version.
pub open spec fn of_version<K>(nodes: Seq<(NodeKeyView, Node<K>)>, version: Version) -> bool {
    forall|i: int| 0 <= i < nodes.len() ==> (#[trigger] nodes[i]).0.version == version
}

/// The root refers to shards of versions up to `version`.
pub open spec fn refers_up_to<K>(root: Node<K>, version: Version) -> bool {
    forall|shard: int|
        root is Internal && 0 <= shard < 16 ==> match #[trigger] root->Internal_0.children[shard] {
            Some(child) => child.version <= version,
            None => true,
        }
}

/// After a commit, with updates or without, its version has a root, and the hash of
/// the root is the one that the commit returns.
pub proof fn law_commit_stores_returned_root<K>(
    tree: Tree<K>,
    tables: MerkleTables<K>,
    version: Version,
    commit: Commit<K>,
)
    requires
        (tree.hash_of)(Node::Null) == HashValue::empty_tree(),
        commit.updates.len() > 0 ==> commit.stores_root(tree, version),
    ensures
        ({
            let after = commit.after(tree, tables, version);
            &&& after.root_at(version, tree.hash_of) matches Some(root)
            &&& root.hash == commit.returned(tree, tables, version)
            &&& after.root_hash_at(version, tree.hash_of) == commit.returned(tree, tables, version)
        }),
{
    if commit.updates.len() == 0 {
        merkle_tables::law_empty_commit_keeps_root(
            tables,
            version,
            commit.epoch_end,
            tree.hash_of,
        );
    } else {
        let stage = commit.stage(tree, tables, version, 16);
        let batch = stage.batch.combine(commit.top);
        let top = commit.top.nodes;
        let i = choose|i: int|
            0 <= i < top.len() && (#[trigger] top[i]).0 == NodeKeyView::root(version)
                && merkle_tables::last_of_its_key(top, i) && (tree.hash_of)(top[i].1)
                == commit.root_hash;
        let root = stage.batch.nodes.len() + i;
        assert(batch.nodes[root] == top[i]);
        assert forall|j: int| root < j < batch.nodes.len() implies (#[trigger] batch.nodes[j]).0
            != batch.nodes[root].0 by {
            assert(batch.nodes[j] == top[j - stage.batch.nodes.len()]);
        }
        merkle_tables::law_tree_commit_stores_root(
            tables,
            batch,
            stage.epoch_end,
            version,
            root,
            tree.hash_of,
        );
    }
}

/// The nodes gathered from shards that write nodes of a version alone.
proof fn lemma_gathered_of_version<K>(
    stage: ShardStageView<K>,
    replies: Seq<(Node<K>, BatchView<K>)>,
    version: Version,
)
    requires
        of_version(stage.batch.nodes, version),
        forall|i: int|
            0 <= i < replies.len() ==> of_version((#[trigger] replies[i]).1.nodes, version),
    ensures
        of_version(merkle_tables::after_shards(stage, replies).batch.nodes, version),
    decreases replies.len(),
{
    if replies.len() > 0 {
        let fewer = replies.drop_last();
        assert forall|i: int| 0 <= i < fewer.len() implies of_version(
            (#[trigger] fewer[i]).1.nodes,
            version,
        ) by {
            assert(fewer[i] == replies[i]);
        }
        lemma_gathered_of_version(stage, fewer, version);
        assert(of_version(replies[replies.len() - 1].1.nodes, version));
    }
}

/// A commit at one version changes no node of another version, and so no root.
pub proof fn law_commit_keeps_other_versions<K>(
    tree: Tree<K>,
    tables: MerkleTables<K>,
    version: Version,
    commit: Commit<K>,
)
    requires
        commit.updates.len() > 0 ==> commit.writes_own_version(version),
    ensures
        ({
            let after = commit.after(tree, tables, version);
            &&& forall|key: NodeKeyView|
                key.version != version ==> #[trigger] after.nodes.contains_key(key)
                    == tables.nodes.contains_key(key) && (tables.nodes.contains_key(key)
                    ==> after.nodes[key] == tables.nodes[key])
            &&& forall|other: Version|
                other != version ==> #[trigger] after.root_at(other, tree.hash_of)
                    == tables.root_at(other, tree.hash_of) && after.root_hash_at(
                    other,
                    tree.hash_of,
                ) == tables.root_hash_at(other, tree.hash_of)
        }),
{
    let after = commit.after(tree, tables, version);
    if commit.updates.len() == 0 {
        merkle_tables::law_carry_forward_changes(
            tables,
            version,
            commit.epoch_end,
            tree.hash_of,
        );
    } else {
        let stage = commit.stage(tree, tables, version, 16);
        let batch = stage.batch.combine(commit.top);
        let first = ShardStageView::first(
            version,
            commit.epoch_end,
            commit.updates,
            tables.prior_of(version, tree.hash_of),
        );
        let replies = commit.shards.take(16);
        assert forall|i: int| 0 <= i < replies.len() implies of_version(
            (#[trigger] replies[i]).1.nodes,
            version,
        ) by {
            assert(replies[i] == commit.shards[i]);
        }
        lemma_gathered_of_version(first, replies, version);
        assert(of_version(batch.nodes, version));
        merkle_tables::law_tree_commit_changes(tables, batch, stage.epoch_end);
        assert forall|key: NodeKeyView| key.version != version implies #[trigger] after.nodes.contains_key(
            key,
        ) == tables.nodes.contains_key(key) && (tables.nodes.contains_key(key) ==> after.nodes[key]
            == tables.nodes[key]) by {
            assert(!merkle_tables::has_node(batch.nodes, key));
        }
    }
    assert forall|other: Version| other != version implies #[trigger] after.root_at(
        other,
        tree.hash_of,
    ) == tables.root_at(other, tree.hash_of) && after.root_hash_at(other, tree.hash_of)
        == tables.root_hash_at(other, tree.hash_of) by {
        assert(after.nodes.contains_key(NodeKeyView::root(other)) == tables.nodes.contains_key(
            NodeKeyView::root(other),
        ));
    }
}

/// Commits without updates write root nodes from the first of their versions on.
proof fn lemma_empty_commits_keep_earlier<K>(
    tree: Tree<K>,
    tables: MerkleTables<K>,
    first: Version,
    epoch_ends: Seq<Option<Version>>,
)
    requires
        first + epoch_ends.len() <= Version::MAX,
    ensures
        forall|key: NodeKeyView|
            key.version < first ==> #[trigger] tables.after_empty_commits(
                first,
                epoch_ends,
                tree.hash_of,
            ).nodes.contains_key(key) == tables.nodes.contains_key(key) && (
            tables.nodes.contains_key(key) ==> tables.after_empty_commits(
                first,
                epoch_ends,
                tree.hash_of,
            ).nodes[key] == tables.nodes[key]),
    decreases epoch_ends.len(),
{
    if epoch_ends.len() > 0 {
        let earlier = epoch_ends.drop_last();
        lemma_empty_commits_keep_earlier(tree, tables, first, earlier);
        merkle_tables::law_carry_forward_changes(
            tables.after_empty_commits(first, earlier, tree.hash_of),
            (first + earlier.len()) as Version,
            epoch_ends.last(),
            tree.hash_of,
        );
        assert forall|key: NodeKeyView| key.version < first implies #[trigger] tables.after_empty_commits(
            first,
            epoch_ends,
            tree.hash_of,
        ).nodes.contains_key(key) == tables.nodes.contains_key(key) && (tables.nodes.contains_key(
            key,
        ) ==> tables.after_empty_commits(first, epoch_ends, tree.hash_of).nodes[key]
            == tables.nodes[key]) by {
            assert(tables.after_empty_commits(first, earlier, tree.hash_of).nodes.contains_key(key)
                == tables.nodes.contains_key(key));
        }
    }
}

/// What a commit asks of a shard, without the stages.
proof fn lemma_request<K>(
    tree: Tree<K>,
    tables: MerkleTables<K>,
    version: Version,
    commit: Commit<K>,
    shard: int,
)
    requires
        0 <= shard < 16,
        shard <= commit.shards.len(),
    ensures
        ({
            let request = commit.request(tree, tables, version, shard);
            &&& request.shard_id == shard
            &&& request.value_set == position_merkle_committer::shard_leaves(commit.updates, shard)
            &&& request.persisted_version == position_merkle_committer::shard_versions(
                position_merkle_committer::prior_node(tables.prior_of(version, tree.hash_of)),
            )[shard]
            &&& request.version == version
        }),
{
    merkle_tables::law_shards_in_order(
        version,
        commit.epoch_end,
        commit.updates,
        tables.prior_of(version, tree.hash_of),
        commit.shards.take(shard),
    );
}

/// However many commits without updates come before it, a commit asks the same of
/// each shard, for its own version, whatever the shards before answered.
pub proof fn law_empty_commits_keep_requests<K>(
    tree: Tree<K>,
    tables: MerkleTables<K>,
    first: Version,
    epoch_ends: Seq<Option<Version>>,
    at_once: Commit<K>,
    later: Commit<K>,
    shard: int,
)
    requires
        (tree.hash_of)(Node::Null) == HashValue::empty_tree(),
        first + epoch_ends.len() <= Version::MAX,
        at_once.updates == later.updates,
        0 <= shard < 16,
        shard <= at_once.shards.len(),
        shard <= later.shards.len(),
    ensures
        ({
            let between = tables.after_empty_commits(first, epoch_ends, tree.hash_of);
            let version = (first + epoch_ends.len()) as Version;
            later.request(tree, between, version, shard) == (ShardPutView {
                version,
                ..at_once.request(tree, tables, first, shard)
            })
        }),
{
    let between = tables.after_empty_commits(first, epoch_ends, tree.hash_of);
    let version = (first + epoch_ends.len()) as Version;
    merkle_tables::law_empty_commits_keep_root(tables, first, epoch_ends, tree.hash_of);
    lemma_request(tree, tables, first, at_once, shard);
    lemma_request(tree, between, version, later, shard);
}

/// However many commits without updates come before it, a commit with updates returns
/// the same root hash.
pub proof fn law_empty_commits_keep_next_root_hash<K>(
    tree: Tree<K>,
    tables: MerkleTables<K>,
    first: Version,
    epoch_ends: Seq<Option<Version>>,
    at_once: Commit<K>,
    later: Commit<K>,
)
    requires
        tree.wf(),
        first + epoch_ends.len() <= Version::MAX,
        first > 0 ==> refers_up_to(
            position_merkle_committer::prior_node(tables.prior_of(first, tree.hash_of)),
            (first - 1) as Version,
        ),
        at_once.updates == later.updates,
        at_once.updates.len() > 0,
        at_once.answered(tree, tables, first),
        later.answered(
            tree,
            tables.after_empty_commits(first, epoch_ends, tree.hash_of),
            (first + epoch_ends.len()) as Version,
        ),
    ensures
        later.returned(
            tree,
            tables.after_empty_commits(first, epoch_ends, tree.hash_of),
            (first + epoch_ends.len()) as Version,
        ) == at_once.returned(tree, tables, first),
{
    let between = tables.after_empty_commits(first, epoch_ends, tree.hash_of);
    let version = (first + epoch_ends.len()) as Version;
    let prior = position_merkle_committer::prior_node(tables.prior_of(first, tree.hash_of));
    let a = at_once.after(tree, tables, first).nodes;
    let b = later.after(tree, between, version).nodes;
    let a_shards = tree.shards_below(a, a[NodeKeyView::root(first)]);
    let b_shards = tree.shards_below(b, b[NodeKeyView::root(version)]);
    lemma_empty_commits_keep_earlier(tree, tables, first, epoch_ends);
    assert forall|shard: int| 0 <= shard < 16 implies #[trigger] a_shards[shard]
        == b_shards[shard] by {
        law_empty_commits_keep_requests(tree, tables, first, epoch_ends, at_once, later, shard);
        lemma_request(tree, tables, first, at_once, shard);
        let stored = position_merkle_committer::shard_versions(prior)[shard];
        if let Some(at) = stored {
            assert(at < first);
            assert(agree_up_to(between.nodes, tables.nodes, at));
            assert((tree.subtree)(between.nodes, shard, at) == (tree.subtree)(
                tables.nodes,
                shard,
                at,
            ));
        }
    }
    assert(a_shards =~= b_shards);
}

/// The tables after commits at the versions from 0 on, from empty tables.
pub open spec fn tables_after<K>(tree: Tree<K>, history: Seq<Commit<K>>) -> MerkleTables<K>
    decreases history.len(),
{
    if history.len() == 0 {
        MerkleTables {
            nodes: Map::empty(),
            stale: Set::empty(),
            stale_cross_epoch: Set::empty(),
        }
    } else {
        history.last().after(
            tree,
            tables_after(tree, history.drop_last()),
            (history.len() - 1) as Version,
        )
    }
}

/// The tree answers each commit with updates as it should.
pub open spec fn all_answered<K>(tree: Tree<K>, history: Seq<Commit<K>>) -> bool
    decreases history.len(),
{
    history.len() > 0 ==> {
        &&& all_answered(tree, history.drop_last())
        &&& history.last().updates.len() > 0 ==> history.last().answered(
            tree,
            tables_after(tree, history.drop_last()),
            (history.len() - 1) as Version,
        )
    }
}

/// The root hash that the last of the commits returns.
pub open spec fn last_returned<K>(tree: Tree<K>, history: Seq<Commit<K>>) -> HashValue {
    history.last().returned(
        tree,
        tables_after(tree, history.drop_last()),
        (history.len() - 1) as Version,
    )
}

/// The updates of all commits, in their order.
pub open spec fn all_updates<K>(history: Seq<Commit<K>>) -> Seq<MerkleLeafUpdate<K>> {
    history.map_values(|commit: Commit<K>| commit.updates).flatten()
}

/// The leaves after the commits up to `version`.
pub open spec fn live_at<K>(history: Seq<Commit<K>>, version: Version) -> Leaves<K> {
    live(all_updates(history.take(version + 1)))
}

/// The version has a root, which is no leaf and has exactly the given leaves below
/// it, each in the shard of its hash, and the root hash over them.
pub open spec fn holds<K>(
    tree: Tree<K>,
    tables: MerkleTables<K>,
    version: Version,
    leaves: Leaves<K>,
) -> bool {
    let root = tables.nodes[NodeKeyView::root(version)];
    &&& tables.nodes.contains_key(NodeKeyView::root(version))
    &&& !(root is Leaf)
    &&& refers_up_to(root, version)
    &&& forall|shard: int|
        0 <= shard < 16 ==> #[trigger] tree.shards_below(tables.nodes, root)[shard] == in_shard(
            leaves,
            shard,
        )
    &&& tables.root_hash_at(version, tree.hash_of) == (tree.root_over)(value_hashes(leaves))
}

/// What a version holds stays when only later versions are written.
proof fn lemma_holds_still<K>(
    tree: Tree<K>,
    tables: MerkleTables<K>,
    after: MerkleTables<K>,
    version: Version,
    leaves: Leaves<K>,
)
    requires
        tree.wf(),
        holds(tree, tables, version, leaves),
        agree_up_to(tables.nodes, after.nodes, version),
    ensures
        holds(tree, after, version, leaves),
{
    let key = NodeKeyView::root(version);
    assert(tables.nodes.contains_key(key) == after.nodes.contains_key(key));
    let root = tables.nodes[key];
    assert forall|shard: int| 0 <= shard < 16 implies #[trigger] tree.shards_below(
        after.nodes,
        root,
    )[shard] == in_shard(leaves, shard) by {
        assert(tree.shards_below(tables.nodes, root)[shard] == in_shard(leaves, shard));
        if let Some(at) = position_merkle_committer::shard_versions(root)[shard] {
            assert(at <= version);
            assert(agree_up_to(tables.nodes, after.nodes, at));
            assert((tree.subtree)(tables.nodes, shard, at) == (tree.subtree)(
                after.nodes,
                shard,
                at,
            ));
        }
    }
}

/// The updates of a history with one more commit.
proof fn lemma_live_push<K>(history: Seq<Commit<K>>, commit: Commit<K>)
    ensures
        live(all_updates(history.push(commit))) == updated(
            live(all_updates(history)),
            changes_of(commit.updates),
        ),
{
    let updates = |commit: Commit<K>| commit.updates;
    assert(history.push(commit).map_values(updates) =~= history.map_values(updates).push(
        commit.updates,
    ));
    history.map_values(updates).lemma_flatten_push(commit.updates);
    assert(changes_of(all_updates(history) + commit.updates) =~= changes_of(all_updates(history))
        + changes_of(commit.updates));
    lemma_updated_add(
        Map::empty(),
        changes_of(all_updates(history)),
        changes_of(commit.updates),
    );
}

/// One commit on top of a history whose last version holds the leaves so far.
proof fn lemma_commit_holds<K>(
    tree: Tree<K>,
    tables: MerkleTables<K>,
    version: Version,
    commit: Commit<K>,
    leaves: Leaves<K>,
)
    requires
        tree.wf(),
        commit.updates.len() > 0 ==> commit.answered(tree, tables, version),
        version == 0 ==> leaves == Map::<HashValue, (HashValue, K)>::empty(),
        version > 0 ==> holds(tree, tables, (version - 1) as Version, leaves),
    ensures
        holds(
            tree,
            commit.after(tree, tables, version),
            version,
            updated(leaves, changes_of(commit.updates)),
        ),
        commit.returned(tree, tables, version) == (tree.root_over)(
            value_hashes(updated(leaves, changes_of(commit.updates))),
        ),
{
    let after = commit.after(tree, tables, version);
    let prior = position_merkle_committer::prior_node(tables.prior_of(version, tree.hash_of));
    let root = after.nodes[NodeKeyView::root(version)];
    let now = updated(leaves, changes_of(commit.updates));
    law_commit_stores_returned_root(tree, tables, version, commit);
    law_commit_keeps_other_versions(tree, tables, version, commit);
    assert forall|shard: int| 0 <= shard < 16 implies #[trigger] tree.shards_below(
        tables.nodes,
        prior,
    )[shard] == in_shard(leaves, shard) by {
        if version == 0 {
            assert(in_shard(leaves, shard) =~= Map::empty());
        }
    }
    if commit.updates.len() == 0 {
        merkle_tables::law_carry_forward_changes(tables, version, commit.epoch_end, tree.hash_of);
        assert(root == prior);
        assert(now == leaves);
        assert forall|shard: int| 0 <= shard < 16 implies #[trigger] tree.shards_below(
            after.nodes,
            root,
        )[shard] == in_shard(now, shard) by {
            assert(tree.shards_below(tables.nodes, prior)[shard] == in_shard(leaves, shard));
            if let Some(at) = position_merkle_committer::shard_versions(prior)[shard] {
                assert(agree_up_to(tables.nodes, after.nodes, at));
                assert((tree.subtree)(tables.nodes, shard, at) == (tree.subtree)(
                    after.nodes,
                    shard,
                    at,
                ));
            }
        }
        if version == 0 {
            assert(value_hashes(leaves) =~= Map::empty());
        }
    } else {
        let below = tree.shards_below(after.nodes, root);
        assert forall|shard: int| 0 <= shard < 16 implies #[trigger] below[shard] == in_shard(
            now,
            shard,
        ) by {
            lemma_request(tree, tables, version, commit, shard);
            assert(tree.shards_below(tables.nodes, prior)[shard] == in_shard(leaves, shard));
            lemma_updated_in_shard(leaves, commit.updates, shard);
        }
        lemma_joined(now);
        assert(below =~= Seq::new(16, |shard: int| in_shard(now, shard)));
    }
}

/// Every version of a history holds the leaves that the updates up to it leave.
proof fn lemma_history_holds<K>(tree: Tree<K>, history: Seq<Commit<K>>)
    requires
        tree.wf(),
        all_answered(tree, history),
        history.len() <= Version::MAX + 1,
    ensures
        forall|version: Version|
            version < history.len() ==> #[trigger] holds(
                tree,
                tables_after(tree, history),
                version,
                live_at(history, version),
            ),
        history.len() > 0 ==> last_returned(tree, history) == (tree.root_over)(
            value_hashes(live(all_updates(history))),
        ),
    decreases history.len(),
{
    if history.len() > 0 {
        let earlier = history.drop_last();
        let commit = history.last();
        let last = (history.len() - 1) as Version;
        let tables = tables_after(tree, earlier);
        let after = tables_after(tree, history);
        lemma_history_holds(tree, earlier);
        assert(earlier.push(commit) =~= history);
        lemma_live_push(earlier, commit);
        assert(history.take(last + 1) =~= history);
        let leaves = live(all_updates(earlier));
        if last == 0 {
            assert(changes_of(all_updates(earlier)) =~= Seq::empty());
        } else {
            assert(earlier.take((last - 1) + 1) =~= earlier);
            assert(holds(tree, tables, (last - 1) as Version, live_at(earlier, (last - 1) as Version)));
        }
        lemma_commit_holds(tree, tables, last, commit, leaves);
        law_commit_keeps_other_versions(tree, tables, last, commit);
        assert forall|version: Version| version < history.len() implies #[trigger] holds(
            tree,
            after,
            version,
            live_at(history, version),
        ) by {
            if version < last {
                assert(history.take(version + 1) =~= earlier.take(version + 1));
                assert(holds(tree, tables, version, live_at(earlier, version)));
                assert(agree_up_to(tables.nodes, after.nodes, version));
                lemma_holds_still(tree, tables, after, version, live_at(earlier, version));
            }
        }
    }
}

/// The root hash that the last of the commits returns is the root hash over the
/// leaves that their updates leave, and the root hash of every version is the one
/// over the leaves that the updates up to it leave. Without leaves it is the hash of
/// the empty tree. No root is a bare leaf.
pub proof fn law_root_hash_is_over_live_leaves<K>(tree: Tree<K>, history: Seq<Commit<K>>)
    requires
        tree.wf(),
        all_answered(tree, history),
        0 < history.len() <= Version::MAX + 1,
    ensures
        last_returned(tree, history) == (tree.root_over)(value_hashes(live(all_updates(history)))),
        live(all_updates(history)) == Map::<HashValue, (HashValue, K)>::empty() ==> last_returned(
            tree,
            history,
        ) == HashValue::empty_tree(),
        forall|version: Version|
            version < history.len() ==> #[trigger] tables_after(tree, history).root_hash_at(
                version,
                tree.hash_of,
            ) == (tree.root_over)(value_hashes(live_at(history, version))),
        forall|version: Version|
            version < history.len() ==> {
                let root = #[trigger] tables_after(tree, history).root_at(version, tree.hash_of);
                root is Some && !(root->0.node is Leaf)
            },
{
    lemma_history_holds(tree, history);
    if live(all_updates(history)) == Map::<HashValue, (HashValue, K)>::empty() {
        assert(value_hashes(live(all_updates(history))) =~= Map::empty());
    }
    assert forall|version: Version| version < history.len() implies #[trigger] tables_after(
        tree,
        history,
    ).root_hash_at(version, tree.hash_of) == (tree.root_over)(
        value_hashes(live_at(history, version)),
    ) by {
        assert(holds(tree, tables_after(tree, history), version, live_at(history, version)));
    }
    assert forall|version: Version| version < history.len() implies {
        let root = #[trigger] tables_after(tree, history).root_at(version, tree.hash_of);
        root is Some && !(root->0.node is Leaf)
    } by {
        assert(holds(tree, tables_after(tree, history), version, live_at(history, version)));
    }
}

/// Where one leaf is left, the root hash is the hash of that leaf, with a tree that
/// gives a single leaf as the root hash over it.
pub proof fn law_single_leaf_is_root_hash<K>(
    tree: Tree<K>,
    history: Seq<Commit<K>>,
    leaf: LeafNode<K>,
)
    requires
        tree.wf(),
        all_answered(tree, history),
        0 < history.len() <= Version::MAX + 1,
        (tree.root_over)(map![leaf.account_key => leaf.value_hash]) == (tree.hash_of)(
            Node::Leaf(leaf),
        ),
        live(all_updates(history)) == map![
            leaf.account_key => (leaf.value_hash, leaf.value_index.0)
        ],
    ensures
        last_returned(tree, history) == (tree.hash_of)(Node::Leaf(leaf)),
{
    law_root_hash_is_over_live_leaves(tree, history);
    assert(value_hashes(live(all_updates(history))) =~= map![leaf.account_key => leaf.value_hash]);
}

/// The root hash depends on the hashes of the values that are left alone: not on how
/// the updates are split into commits, nor on their order, nor on the ends of epochs.
pub proof fn law_same_leaves_same_root_hash<K>(
    tree: Tree<K>,
    history: Seq<Commit<K>>,
    other: Seq<Commit<K>>,
)
    requires
        tree.wf(),
        all_answered(tree, history),
        all_answered(tree, other),
        0 < history.len() <= Version::MAX + 1,
        0 < other.len() <= Version::MAX + 1,
        value_hashes(live(all_updates(history))) == value_hashes(live(all_updates(other))),
    ensures
        last_returned(tree, history) == last_returned(tree, other),
{
    law_root_hash_is_over_live_leaves(tree, history);
    law_root_hash_is_over_live_leaves(tree, other);
}

/// The leaves walked are exactly those of the shards from the start of the walk on.
pub open spec fn walks<K>(walk: LeafWalk, shards: Seq<Leaves<K>>, walked: Seq<LeafNode<K>>) -> bool {
    &&& forall|i: int|
        0 <= i < walked.len() ==> !(#[trigger] walked[i]).account_key.before(walk.start)
            && exists|shard: int|
            0 <= shard < shards.len() && has_leaf(#[trigger] shards[shard], walked[i])
    &&& forall|shard: int, hash: HashValue|
        0 <= shard < shards.len() && #[trigger] shards[shard].contains_key(hash) && !hash.before(
            walk.start,
        ) ==> exists|i: int|
            0 <= i < walked.len() && (#[trigger] walked[i]).account_key == hash && has_leaf(
                shards[shard],
                walked[i],
            )
}

/// What a walk yields for leaves, one after the other.
pub open spec fn items_of<K>(walked: Seq<LeafNode<K>>) -> Seq<(K, HashValue)> {
    walked.map_values(|leaf: LeafNode<K>| position_merkle_db::item_of(leaf))
}

/// The leaf is among the leaves.
pub open spec fn has_leaf<K>(leaves: Leaves<K>, leaf: LeafNode<K>) -> bool {
    &&& leaves.contains_key(leaf.account_key)
    &&& leaves[leaf.account_key] == (leaf.value_hash, leaf.value_index.0)
}

/// The update leaves the item behind: it is the last one to its hash, and has a value.
pub open spec fn leaves_item<K>(
    updates: Seq<MerkleLeafUpdate<K>>,
    i: int,
    item: (K, HashValue),
) -> bool {
    &&& last_update(updates, i)
    &&& updates[i].state_key == item.0
    &&& updates[i].value_hash == Some(item.1)
}

/// The leaves of each shard at a version of a history.
pub open spec fn shards_at<K>(
    tree: Tree<K>,
    history: Seq<Commit<K>>,
    version: Version,
) -> Seq<Leaves<K>> {
    let nodes = tables_after(tree, history).nodes;
    tree.shards_below(nodes, nodes[NodeKeyView::root(version)])
}

/// The leaves stand in the order of the hashes of their keys.
pub open spec fn in_hash_order<K>(walked: Seq<LeafNode<K>>) -> bool {
    forall|i: int, j: int|
        0 <= i < j < walked.len() ==> (#[trigger] walked[i]).account_key.before(
            (#[trigger] walked[j]).account_key,
        )
}

/// The update is the one that left the leaf behind.
pub open spec fn leaves_leaf<K>(
    updates: Seq<MerkleLeafUpdate<K>>,
    i: int,
    leaf: LeafNode<K>,
) -> bool {
    &&& leaves_item(updates, i, position_merkle_db::item_of(leaf))
    &&& updates[i].state_key_hash == leaf.account_key
}

/// Some update left the leaf behind.
pub open spec fn is_left<K>(updates: Seq<MerkleLeafUpdate<K>>, leaf: LeafNode<K>) -> bool {
    exists|i: int| #[trigger] leaves_leaf(updates, i, leaf)
}

/// Every leaf walked was left behind by an update, and every update that left a leaf
/// behind has its leaf walked.
proof fn lemma_walked_leaves<K>(
    tree: Tree<K>,
    history: Seq<Commit<K>>,
    walk: LeafWalk,
    walked: Seq<LeafNode<K>>,
)
    requires
        tree.wf(),
        all_answered(tree, history),
        walk.version < history.len() <= Version::MAX + 1,
        walk.starts_first(),
        walks(walk, shards_at(tree, history, walk.version), walked),
    ensures
        ({
            let updates = all_updates(history.take(walk.version + 1));
            &&& forall|w: int|
                0 <= w < walked.len() ==> is_left(updates, #[trigger] walked[w])
            &&& forall|i: int| #[trigger]
                last_update(updates, i) && updates[i].value_hash is Some ==> exists|w: int|
                    0 <= w < walked.len() && leaves_leaf(updates, i, #[trigger] walked[w])
        }),
{
    let version = walk.version;
    let updates = all_updates(history.take(version + 1));
    let leaves = live_at(history, version);
    let shards = shards_at(tree, history, version);
    lemma_history_holds(tree, history);
    assert(holds(tree, tables_after(tree, history), version, leaves));
    law_last_update_decides(Map::<HashValue, (HashValue, K)>::empty(), updates);
    assert forall|w: int| 0 <= w < walked.len() implies is_left(
        updates,
        #[trigger] walked[w],
    ) by {
        let leaf = walked[w];
        let shard = choose|shard: int|
            0 <= shard < shards.len() && has_leaf(#[trigger] shards[shard], leaf);
        assert(shards[shard] == in_shard(leaves, shard));
        assert(leaves.contains_key(leaf.account_key));
        let some = choose|i: int|
            0 <= i < updates.len() && (#[trigger] updates[i]).state_key_hash == leaf.account_key;
        let i = lemma_last_update_exists(updates, some);
        assert(leaves_leaf(updates, i, leaf));
    }
    assert forall|i: int| #[trigger]
        last_update(updates, i) && updates[i].value_hash is Some implies exists|w: int|
        0 <= w < walked.len() && leaves_leaf(updates, i, #[trigger] walked[w]) by {
        let hash = updates[i].state_key_hash;
        let shard = hash.leading_nibble() as int;
        assert(shards[shard] == in_shard(leaves, shard));
        assert(shards[shard].contains_key(hash));
        if hash.before(walk.start) {
            hash_value::lemma_asymmetric(hash, walk.start);
        }
        let w = choose|w: int|
            0 <= w < walked.len() && (#[trigger] walked[w]).account_key == hash && has_leaf(
                shards[shard],
                walked[w],
            );
        assert(leaves_leaf(updates, i, walked[w]));
    }
}

/// A walk over the leaves at a version yields exactly the keys whose last update up to
/// the version has a value, each with the hash of that value.
pub proof fn law_walk_yields_live_keys<K>(
    tree: Tree<K>,
    history: Seq<Commit<K>>,
    walk: LeafWalk,
    walked: Seq<LeafNode<K>>,
)
    requires
        tree.wf(),
        all_answered(tree, history),
        walk.version < history.len() <= Version::MAX + 1,
        walk.starts_first(),
        walks(walk, shards_at(tree, history, walk.version), walked),
    ensures
        forall|item: (K, HashValue)| #[trigger]
            items_of(walked).contains(item) <==> exists|i: int| #[trigger]
                leaves_item(all_updates(history.take(walk.version + 1)), i, item),
{
    let items = items_of(walked);
    let updates = all_updates(history.take(walk.version + 1));
    lemma_walked_leaves(tree, history, walk, walked);
    assert forall|item: (K, HashValue)| #[trigger] items.contains(item) implies exists|i: int|
        #[trigger] leaves_item(updates, i, item) by {
        let w = choose|w: int| 0 <= w < items.len() && items[w] == item;
        let i = choose|i: int| #[trigger] leaves_leaf(updates, i, walked[w]);
        assert(leaves_item(updates, i, item));
    }
    assert forall|item: (K, HashValue)|
        (exists|i: int| #[trigger] leaves_item(updates, i, item)) implies #[trigger] items.contains(
        item,
    ) by {
        let i = choose|i: int| #[trigger] leaves_item(updates, i, item);
        assert(last_update(updates, i));
        let w = choose|w: int|
            0 <= w < walked.len() && leaves_leaf(updates, i, #[trigger] walked[w]);
        assert(items[w] == item);
    }
}

/// A walk that goes through the leaves in the order of their hashes yields its items
/// in the lexicographic order of the hashes of their keys, and each live key once.
pub proof fn law_walk_yields_in_hash_order<K>(
    tree: Tree<K>,
    history: Seq<Commit<K>>,
    walk: LeafWalk,
    walked: Seq<LeafNode<K>>,
)
    requires
        tree.wf(),
        all_answered(tree, history),
        walk.version < history.len() <= Version::MAX + 1,
        walk.starts_first(),
        walks(walk, shards_at(tree, history, walk.version), walked),
        in_hash_order(walked),
    ensures
        ({
            let updates = all_updates(history.take(walk.version + 1));
            &&& items_of(walked).len() == walked.len()
            &&& forall|w: int|
                0 <= w < walked.len() ==> {
                    &&& items_of(walked)[w] == position_merkle_db::item_of(walked[w])
                    &&& is_left(updates, #[trigger] walked[w])
                }
            &&& forall|w: int, x: int, i: int, j: int|
                0 <= w < x < walked.len() && #[trigger] leaves_leaf(updates, i, walked[w])
                    && #[trigger] leaves_leaf(updates, j, walked[x])
                    ==> updates[i].state_key_hash.before(updates[j].state_key_hash)
            &&& forall|i: int| #[trigger]
                last_update(updates, i) && updates[i].value_hash is Some ==> exists|w: int|
                    0 <= w < walked.len() && leaves_leaf(updates, i, #[trigger] walked[w])
            &&& forall|w: int, x: int, i: int|
                0 <= w < walked.len() && 0 <= x < walked.len() && #[trigger] leaves_leaf(
                    updates,
                    i,
                    walked[w],
                ) && #[trigger] leaves_leaf(updates, i, walked[x]) ==> w == x
            &&& walked.no_duplicates()
        }),
{
    lemma_walked_leaves(tree, history, walk, walked);
    assert forall|w: int, x: int|
        0 <= w < walked.len() && 0 <= x < walked.len() && (#[trigger] walked[w]).account_key == (
        #[trigger] walked[x]).account_key implies w == x by {
        if w < x {
            hash_value::lemma_asymmetric(walked[w].account_key, walked[x].account_key);
        } else if x < w {
            hash_value::lemma_asymmetric(walked[x].account_key, walked[w].account_key);
        }
    }
}

} // verus!

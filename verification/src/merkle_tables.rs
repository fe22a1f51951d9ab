//! What the commits of [`crate::position_merkle_committer`] do to the tables of
//! the tree's database, over any number of commits.

use crate::hash_value::HashValue;
use crate::merkle_node::{BatchView, HashedNode, Node, NodeKeyView, StaleRow, Version};
use crate::position_merkle_committer;
use crate::position_merkle_committer::{MerkleLeafUpdate, MerkleRow, ShardStageView};
use crate::position_merkle_db;
use vstd::prelude::*;

verus! {

/// The tables of the tree's database.
#[verifier::ext_equal]
#[verifier::reject_recursive_types(K)]
pub struct MerkleTables<K> {
    pub nodes: Map<NodeKeyView, Node<K>>,
    pub stale: Set<StaleRow>,
    pub stale_cross_epoch: Set<StaleRow>,
}

impl<K> MerkleTables<K> {
    /// The tables after one row is put.
    pub open spec fn put(self, row: MerkleRow<K>) -> Self {
        match row {
            MerkleRow::Node(key, node) => MerkleTables {
                nodes: self.nodes.insert(key, node),
                ..self
            },
            MerkleRow::Stale(mark) => MerkleTables { stale: self.stale.insert(mark), ..self },
            MerkleRow::StaleCrossEpoch(mark) => MerkleTables {
                stale_cross_epoch: self.stale_cross_epoch.insert(mark),
                ..self
            },
        }
    }

    /// The tables after rows are put one after the other.
    pub open spec fn put_all(self, rows: Seq<MerkleRow<K>>) -> Self
        decreases rows.len(),
    {
        if rows.len() == 0 {
            self
        } else {
            self.put_all(rows.drop_last()).put(rows.last())
        }
    }

    /// The root node at `version`, with its hash, where there is one.
    pub open spec fn root_at(
        self,
        version: Version,
        hash_of: spec_fn(Node<K>) -> HashValue,
    ) -> Option<HashedNode<K>> {
        if self.nodes.contains_key(NodeKeyView::root(version)) {
            let node = self.nodes[NodeKeyView::root(version)];
            Some(HashedNode { node, hash: hash_of(node) })
        } else {
            None
        }
    }

    /// The root that a commit at `version` builds on.
    pub open spec fn prior_of(
        self,
        version: Version,
        hash_of: spec_fn(Node<K>) -> HashValue,
    ) -> Option<HashedNode<K>> {
        if version == 0 {
            None
        } else {
            self.root_at((version - 1) as Version, hash_of)
        }
    }

    /// The root hash at `version`: that of the empty tree where no root is stored.
    pub open spec fn root_hash_at(
        self,
        version: Version,
        hash_of: spec_fn(Node<K>) -> HashValue,
    ) -> HashValue {
        position_merkle_db::root_hash_of(
            match self.root_at(version, hash_of) {
                Some(root) => Some(root.hash),
                None => None,
            },
        )
    }

    /// The tables after a commit without updates.
    pub open spec fn after_empty_commit(
        self,
        version: Version,
        epoch_end: Option<Version>,
        hash_of: spec_fn(Node<K>) -> HashValue,
    ) -> Self {
        self.put_all(
            position_merkle_committer::carry_forward_rows(
                version,
                epoch_end,
                self.prior_of(version, hash_of),
            ),
        )
    }

    /// The tables after commits without updates at consecutive versions from
    /// `first` on, one for each of `epoch_ends`.
    pub open spec fn after_empty_commits(
        self,
        first: Version,
        epoch_ends: Seq<Option<Version>>,
        hash_of: spec_fn(Node<K>) -> HashValue,
    ) -> Self
        decreases epoch_ends.len(),
    {
        if epoch_ends.len() == 0 {
            self
        } else {
            self.after_empty_commits(first, epoch_ends.drop_last(), hash_of).after_empty_commit(
                (first + epoch_ends.len() - 1) as Version,
                epoch_ends.last(),
                hash_of,
            )
        }
    }
}

/// A commit without updates changes the tables in this way alone: the prior root
/// stands at the new version too, and is marked stale at the old one, in the
/// table that the end of the previous epoch decides.
pub proof fn law_carry_forward_changes<K>(
    tables: MerkleTables<K>,
    version: Version,
    epoch_end: Option<Version>,
    hash_of: spec_fn(Node<K>) -> HashValue,
)
    ensures
        ({
            let after = tables.after_empty_commit(version, epoch_end, hash_of);
            let prior = tables.prior_of(version, hash_of);
            let mark = StaleRow {
                stale_since_version: version,
                node_key: NodeKeyView::root((version - 1) as Version),
            };
            let cross_epoch = position_merkle_committer::crosses_epoch(epoch_end, mark);
            &&& prior is Some ==> cross_epoch == (epoch_end is Some && version - 1 <= epoch_end->0)
            &&& after.nodes == tables.nodes.insert(
                NodeKeyView::root(version),
                position_merkle_committer::prior_node(prior),
            )
            &&& after.stale == if prior is Some && !cross_epoch {
                tables.stale.insert(mark)
            } else {
                tables.stale
            }
            &&& after.stale_cross_epoch == if prior is Some && cross_epoch {
                tables.stale_cross_epoch.insert(mark)
            } else {
                tables.stale_cross_epoch
            }
        }),
{
    let prior = tables.prior_of(version, hash_of);
    let rows = position_merkle_committer::carry_forward_rows(version, epoch_end, prior);
    reveal_with_fuel(MerkleTables::put_all, 3);
    if prior is Some {
        assert(rows.drop_last().drop_last() =~= Seq::empty());
        assert(rows.drop_last().last() == rows[0]);
    } else {
        assert(rows.drop_last() =~= Seq::empty());
    }
}

/// A commit without updates stores, under the version and the empty path, the node
/// that is stored there for the version before, whatever it is, and marks that one
/// stale: for the pruner if it is younger than the end of the previous epoch, and
/// across epochs otherwise. Where nothing is stored there, it stores the empty tree and
/// marks nothing. It changes nothing else.
pub proof fn law_carry_forward_copies_stored_root<K>(
    tables: MerkleTables<K>,
    version: Version,
    epoch_end: Option<Version>,
    hash_of: spec_fn(Node<K>) -> HashValue,
)
    ensures
        ({
            let after = tables.after_empty_commit(version, epoch_end, hash_of);
            let new = NodeKeyView { version, nibble_path: Seq::empty() };
            let old = NodeKeyView {
                version: (version - 1) as Version,
                nibble_path: Seq::empty(),
            };
            let mark = StaleRow { stale_since_version: version, node_key: old };
            if version > 0 && tables.nodes.contains_key(old) {
                &&& after.nodes == tables.nodes.insert(new, tables.nodes[old])
                &&& epoch_end is Some && version - 1 <= epoch_end->0 ==> {
                    &&& after.stale_cross_epoch == tables.stale_cross_epoch.insert(mark)
                    &&& after.stale == tables.stale
                }
                &&& epoch_end is None || epoch_end->0 < version - 1 ==> {
                    &&& after.stale == tables.stale.insert(mark)
                    &&& after.stale_cross_epoch == tables.stale_cross_epoch
                }
            } else {
                &&& after.nodes == tables.nodes.insert(new, Node::Null)
                &&& after.stale == tables.stale
                &&& after.stale_cross_epoch == tables.stale_cross_epoch
            }
        }),
{
    law_carry_forward_changes(tables, version, epoch_end, hash_of);
}

/// The root that a commit at `version` builds on is the one that is stored at the
/// version before, of any shape and size, and none at version 0.
pub proof fn law_commit_builds_on_stored_root<K>(
    tables: MerkleTables<K>,
    version: Version,
    hash_of: spec_fn(Node<K>) -> HashValue,
    read: Option<HashedNode<K>>,
)
    requires
        version > 0 ==> match read {
            Some(root) => {
                let key = NodeKeyView {
                    version: (version - 1) as Version,
                    nibble_path: Seq::empty(),
                };
                &&& tables.nodes.contains_key(key)
                &&& root.node == tables.nodes[key]
                &&& root.hash == hash_of(tables.nodes[key])
            },
            None => !tables.nodes.contains_key(
                NodeKeyView { version: (version - 1) as Version, nibble_path: Seq::empty() },
            ),
        },
    ensures
        position_merkle_committer::usable_prior(version, read) == tables.prior_of(version, hash_of),
        version > 0 ==> position_merkle_committer::usable_prior(version, read) == read,
        version == 0 ==> position_merkle_committer::usable_prior(version, read) is None,
{
}

/// After a commit without updates, the version has a root: the same tree as the
/// version before, with the hash that the commit returns.
pub proof fn law_empty_commit_keeps_root<K>(
    tables: MerkleTables<K>,
    version: Version,
    epoch_end: Option<Version>,
    hash_of: spec_fn(Node<K>) -> HashValue,
)
    requires
        hash_of(Node::Null) == HashValue::empty_tree(),
    ensures
        ({
            let after = tables.after_empty_commit(version, epoch_end, hash_of);
            let prior = tables.prior_of(version, hash_of);
            &&& after.root_at(version, hash_of) matches Some(root)
            &&& root.node == position_merkle_committer::prior_node(prior)
            &&& root.hash == position_merkle_committer::prior_hash(prior)
            &&& after.root_hash_at(version, hash_of) == position_merkle_committer::prior_hash(prior)
            &&& version > 0 ==> after.root_hash_at(version, hash_of) == tables.root_hash_at(
                (version - 1) as Version,
                hash_of,
            )
            &&& version > 0 && tables.root_at((version - 1) as Version, hash_of) is Some
                ==> after.root_at(version, hash_of) == tables.root_at(
                (version - 1) as Version,
                hash_of,
            )
            &&& version == 0 ==> after.root_hash_at(version, hash_of) == HashValue::empty_tree()
        }),
{
    law_carry_forward_changes(tables, version, epoch_end, hash_of);
}

/// However many commits without updates follow each other, each of their
/// versions has a root, and it is the root of the version before the first of
/// them: the next commit sees the same tree, hash and shard versions as if they
/// had not been there.
pub proof fn law_empty_commits_keep_root<K>(
    tables: MerkleTables<K>,
    first: Version,
    epoch_ends: Seq<Option<Version>>,
    hash_of: spec_fn(Node<K>) -> HashValue,
)
    requires
        hash_of(Node::Null) == HashValue::empty_tree(),
        first + epoch_ends.len() <= Version::MAX,
    ensures
        ({
            let after = tables.after_empty_commits(first, epoch_ends, hash_of);
            let prior = tables.prior_of(first, hash_of);
            let next = after.prior_of((first + epoch_ends.len()) as Version, hash_of);
            &&& position_merkle_committer::prior_node(next)
                == position_merkle_committer::prior_node(prior)
            &&& position_merkle_committer::prior_hash(next)
                == position_merkle_committer::prior_hash(prior)
            &&& position_merkle_committer::shard_versions(
                position_merkle_committer::prior_node(next),
            ) == position_merkle_committer::shard_versions(
                position_merkle_committer::prior_node(prior),
            )
            &&& forall|version: Version|
                first <= version < first + epoch_ends.len() ==> {
                    &&& #[trigger] after.root_at(version, hash_of) is Some
                    &&& after.root_at(version, hash_of)->0.node
                        == position_merkle_committer::prior_node(prior)
                    &&& after.root_hash_at(version, hash_of)
                        == position_merkle_committer::prior_hash(prior)
                }
        }),
    decreases epoch_ends.len(),
{
    if epoch_ends.len() > 0 {
        let earlier = epoch_ends.drop_last();
        let last = (first + earlier.len()) as Version;
        let before = tables.after_empty_commits(first, earlier, hash_of);
        law_empty_commits_keep_root(tables, first, earlier, hash_of);
        law_empty_commit_keeps_root(before, last, epoch_ends.last(), hash_of);
        law_carry_forward_changes(before, last, epoch_ends.last(), hash_of);
        let after = tables.after_empty_commits(first, epoch_ends, hash_of);
        assert forall|version: Version| first <= version < first + epoch_ends.len() implies {
            &&& #[trigger] after.root_at(version, hash_of) is Some
            &&& after.root_at(version, hash_of)->0.node == position_merkle_committer::prior_node(
                tables.prior_of(first, hash_of),
            )
            &&& after.root_hash_at(version, hash_of) == position_merkle_committer::prior_hash(
                tables.prior_of(first, hash_of),
            )
        } by {
            if version < last {
                assert(before.root_at(version, hash_of) is Some);
                assert(after.root_at(version, hash_of) == before.root_at(version, hash_of));
            }
        }
    }
}

/// Putting two lists of rows is putting one after the other.
proof fn lemma_put_all_add<K>(
    tables: MerkleTables<K>,
    first: Seq<MerkleRow<K>>,
    second: Seq<MerkleRow<K>>,
)
    ensures
        tables.put_all(first + second) == tables.put_all(first).put_all(second),
    decreases second.len(),
{
    if second.len() == 0 {
        assert(first + second =~= first);
    } else {
        assert((first + second).drop_last() =~= first + second.drop_last());
        lemma_put_all_add(tables, first, second.drop_last());
    }
}

/// Some entry of `nodes` has the key.
pub open spec fn has_node<K>(nodes: Seq<(NodeKeyView, Node<K>)>, key: NodeKeyView) -> bool {
    exists|i: int| 0 <= i < nodes.len() && (#[trigger] nodes[i]).0 == key
}

/// Entry `i` of `nodes` is the last one with its key.
pub open spec fn last_of_its_key<K>(nodes: Seq<(NodeKeyView, Node<K>)>, i: int) -> bool {
    forall|j: int| i < j < nodes.len() ==> (#[trigger] nodes[j]).0 != nodes[i].0
}

proof fn lemma_put_nodes<K>(tables: MerkleTables<K>, nodes: Seq<(NodeKeyView, Node<K>)>)
    ensures
        ({
            let after = tables.put_all(position_merkle_committer::node_rows(nodes));
            &&& after.stale == tables.stale
            &&& after.stale_cross_epoch == tables.stale_cross_epoch
            &&& forall|key: NodeKeyView| #[trigger]
                after.nodes.contains_key(key) <==> tables.nodes.contains_key(key) || has_node(
                    nodes,
                    key,
                )
            &&& forall|key: NodeKeyView|
                !has_node(nodes, key) && tables.nodes.contains_key(key)
                    ==> #[trigger] after.nodes[key] == tables.nodes[key]
            &&& forall|i: int|
                0 <= i < nodes.len() && last_of_its_key(nodes, i)
                    ==> after.nodes[(#[trigger] nodes[i]).0] == nodes[i].1
        }),
    decreases nodes.len(),
{
    let rows = position_merkle_committer::node_rows(nodes);
    if nodes.len() > 0 {
        let fewer = nodes.drop_last();
        let (last_key, last_node) = nodes.last();
        lemma_put_nodes(tables, fewer);
        assert(rows.drop_last() =~= position_merkle_committer::node_rows(fewer));
        assert(rows.last() == MerkleRow::Node(last_key, last_node));
        let between = tables.put_all(position_merkle_committer::node_rows(fewer));
        let after = tables.put_all(rows);
        assert(after.nodes == between.nodes.insert(last_key, last_node));
        assert forall|key: NodeKeyView| #[trigger]
            after.nodes.contains_key(key) <==> tables.nodes.contains_key(key) || has_node(
                nodes,
                key,
            ) by {
            lemma_has_node_drop_last(nodes, key);
            assert(between.nodes.contains_key(key) <==> tables.nodes.contains_key(key) || has_node(
                fewer,
                key,
            ));
        }
        assert forall|key: NodeKeyView|
            !has_node(nodes, key) && tables.nodes.contains_key(key) implies #[trigger] after.nodes[key]
            == tables.nodes[key] by {
            lemma_has_node_drop_last(nodes, key);
            assert(between.nodes[key] == tables.nodes[key]);
        }
        assert forall|i: int| 0 <= i < nodes.len() && last_of_its_key(nodes, i) implies after.nodes[(
        #[trigger] nodes[i]).0] == nodes[i].1 by {
            if i < nodes.len() - 1 {
                assert(nodes[nodes.len() - 1].0 != nodes[i].0);
                assert(fewer[i] == nodes[i]);
                assert forall|j: int| i < j < fewer.len() implies (#[trigger] fewer[j]).0
                    != fewer[i].0 by {
                    assert(nodes[j].0 != nodes[i].0);
                }
                assert(last_of_its_key(fewer, i));
            }
        }
    }
}

/// The keys of nodes, without the last of the nodes.
proof fn lemma_has_node_drop_last<K>(nodes: Seq<(NodeKeyView, Node<K>)>, key: NodeKeyView)
    requires
        nodes.len() > 0,
    ensures
        has_node(nodes, key) == (has_node(nodes.drop_last(), key) || key == nodes.last().0),
{
    let fewer = nodes.drop_last();
    if has_node(fewer, key) {
        let i = choose|i: int| 0 <= i < fewer.len() && (#[trigger] fewer[i]).0 == key;
        assert(nodes[i] == fewer[i]);
    }
    assert(nodes[nodes.len() - 1] == nodes.last());
    if has_node(nodes, key) && key != nodes.last().0 {
        let i = choose|i: int| 0 <= i < nodes.len() && (#[trigger] nodes[i]).0 == key;
        assert(fewer[i] == nodes[i]);
    }
}

proof fn lemma_put_stale<K>(
    tables: MerkleTables<K>,
    epoch_end: Option<Version>,
    stale: Seq<StaleRow>,
)
    ensures
        ({
            let after = tables.put_all(position_merkle_committer::stale_rows(epoch_end, stale));
            &&& after.nodes == tables.nodes
            &&& forall|mark: StaleRow| #[trigger]
                after.stale.contains(mark) <==> tables.stale.contains(mark) || (stale.contains(mark)
                    && !position_merkle_committer::crosses_epoch(epoch_end, mark))
            &&& forall|mark: StaleRow| #[trigger]
                after.stale_cross_epoch.contains(mark) <==> tables.stale_cross_epoch.contains(mark)
                    || (stale.contains(mark) && position_merkle_committer::crosses_epoch(epoch_end, mark))
        }),
    decreases stale.len(),
{
    let rows = position_merkle_committer::stale_rows::<K>(epoch_end, stale);
    if stale.len() > 0 {
        let fewer = stale.drop_last();
        lemma_put_stale(tables, epoch_end, fewer);
        assert(rows.drop_last() =~= position_merkle_committer::stale_rows::<K>(epoch_end, fewer));
        assert forall|mark: StaleRow| stale.contains(mark) <==> fewer.contains(mark) || mark
            == stale.last() by {
            if fewer.contains(mark) {
                let i = choose|i: int| 0 <= i < fewer.len() && fewer[i] == mark;
                assert(stale[i] == mark);
            }
            if stale.contains(mark) && mark != stale.last() {
                let i = choose|i: int| 0 <= i < stale.len() && stale[i] == mark;
                assert(fewer[i] == mark);
            }
            assert(stale[stale.len() - 1] == stale.last());
        }
    }
}

/// A commit with updates changes the tables in this way alone: every node of the
/// batch is stored, the last one under a key staying; every stale mark of the
/// batch enters one table, that of earlier epochs if the node was created at or
/// before the end of the previous epoch, the pruner's otherwise.
pub proof fn law_tree_commit_changes<K>(
    tables: MerkleTables<K>,
    batch: BatchView<K>,
    epoch_end: Option<Version>,
)
    ensures
        ({
            let after = tables.put_all(position_merkle_committer::tree_rows(batch, epoch_end));
            &&& forall|key: NodeKeyView| #[trigger]
                after.nodes.contains_key(key) <==> tables.nodes.contains_key(key) || has_node(
                    batch.nodes,
                    key,
                )
            &&& forall|key: NodeKeyView|
                !has_node(batch.nodes, key) && tables.nodes.contains_key(key)
                    ==> #[trigger] after.nodes[key] == tables.nodes[key]
            &&& forall|i: int|
                0 <= i < batch.nodes.len() && last_of_its_key(batch.nodes, i)
                    ==> after.nodes[(#[trigger] batch.nodes[i]).0] == batch.nodes[i].1
            &&& forall|mark: StaleRow| #[trigger]
                after.stale.contains(mark) <==> tables.stale.contains(mark) || (
                batch.stale.contains(mark) && !position_merkle_committer::crosses_epoch(epoch_end, mark))
            &&& forall|mark: StaleRow| #[trigger]
                after.stale_cross_epoch.contains(mark) <==> tables.stale_cross_epoch.contains(mark)
                    || (batch.stale.contains(mark) && position_merkle_committer::crosses_epoch(epoch_end, mark))
            &&& forall|mark: StaleRow| #[trigger]
                batch.stale.contains(mark) ==> {
                    &&& epoch_end is Some && mark.node_key.version <= epoch_end->0
                        ==> after.stale_cross_epoch.contains(mark) && (after.stale.contains(mark)
                        == tables.stale.contains(mark))
                    &&& epoch_end is None || epoch_end->0 < mark.node_key.version
                        ==> after.stale.contains(mark) && (after.stale_cross_epoch.contains(mark)
                        == tables.stale_cross_epoch.contains(mark))
                }
            &&& forall|mark: StaleRow|
                !(#[trigger] batch.stale.contains(mark)) ==> {
                    &&& after.stale.contains(mark) == tables.stale.contains(mark)
                    &&& after.stale_cross_epoch.contains(mark) == tables.stale_cross_epoch.contains(
                        mark,
                    )
                }
        }),
{
    let nodes = position_merkle_committer::node_rows(batch.nodes);
    let stale = position_merkle_committer::stale_rows::<K>(epoch_end, batch.stale);
    lemma_put_all_add(tables, nodes, stale);
    lemma_put_nodes(tables, batch.nodes);
    lemma_put_stale(tables.put_all(nodes), epoch_end, batch.stale);
}

/// Where the tree hands back a new root for the version, a commit with updates
/// leaves the version with that root.
pub proof fn law_tree_commit_stores_root<K>(
    tables: MerkleTables<K>,
    batch: BatchView<K>,
    epoch_end: Option<Version>,
    version: Version,
    root: int,
    hash_of: spec_fn(Node<K>) -> HashValue,
)
    requires
        0 <= root < batch.nodes.len(),
        batch.nodes[root].0 == NodeKeyView::root(version),
        last_of_its_key(batch.nodes, root),
    ensures
        ({
            let after = tables.put_all(position_merkle_committer::tree_rows(batch, epoch_end));
            let node = batch.nodes[root].1;
            &&& after.root_at(version, hash_of) == Some(HashedNode { node, hash: hash_of(node) })
            &&& after.root_hash_at(version, hash_of) == hash_of(node)
        }),
{
    law_tree_commit_changes(tables, batch, epoch_end);
}

/// The number of leaves in the first `shards` shards.
pub open spec fn leaves_in_shards<K>(updates: Seq<MerkleLeafUpdate<K>>, shards: nat) -> nat
    decreases shards,
{
    if shards == 0 {
        0
    } else {
        leaves_in_shards(updates, (shards - 1) as nat) + position_merkle_committer::shard_leaves(
            updates,
            shards - 1,
        ).len()
    }
}

/// The leaf counts of the shards, with one more update.
proof fn lemma_leaves_in_shards_push<K>(
    updates: Seq<MerkleLeafUpdate<K>>,
    update: MerkleLeafUpdate<K>,
    shards: nat,
)
    ensures
        leaves_in_shards(updates.push(update), shards) == leaves_in_shards(updates, shards) + if (
        update.state_key_hash.leading_nibble() < shards) {
            1nat
        } else {
            0nat
        },
    decreases shards,
{
    if shards > 0 {
        lemma_leaves_in_shards_push(updates, update, (shards - 1) as nat);
        reveal(Seq::filter);
        assert(updates.push(update).drop_last() =~= updates);
    }
}

/// Each update goes to one shard: its leaf is among the leaves of the shard that
/// the leading nibble of the key's hash names, every leaf of a shard comes from an
/// update with that nibble, and the shards have as many leaves together as there
/// are updates.
pub proof fn law_shards_share_updates<K>(updates: Seq<MerkleLeafUpdate<K>>)
    ensures
        forall|i: int|
            0 <= i < updates.len() ==> position_merkle_committer::shard_leaves(
                updates,
                updates[i].state_key_hash.leading_nibble() as int,
            ).contains(position_merkle_committer::leaf_of(#[trigger] updates[i])),
        forall|shard: int, i: int|
            0 <= i < position_merkle_committer::shard_leaves(updates, shard).len()
                ==> (#[trigger] position_merkle_committer::shard_leaves(
                updates,
                shard,
            )[i]).0.leading_nibble() == shard,
        leaves_in_shards(updates, 16) == updates.len(),
        forall|i: int|
            0 <= i < updates.len() ==> {
                let leaf = position_merkle_committer::leaf_of(#[trigger] updates[i]);
                &&& position_merkle_committer::shard_leaves(
                    updates,
                    updates[i].state_key_hash.bytes[0] as int / 16,
                ).contains(leaf)
                &&& leaf.0 == updates[i].state_key_hash
                &&& leaf.1 is Some == updates[i].value_hash is Some
                &&& leaf.1 is Some ==> leaf.1->0 == (updates[i].value_hash->0, updates[i].state_key)
            },
{
    assert forall|i: int| 0 <= i < updates.len() implies position_merkle_committer::shard_leaves(
        updates,
        updates[i].state_key_hash.leading_nibble() as int,
    ).contains(position_merkle_committer::leaf_of(#[trigger] updates[i])) by {
        let shard = updates[i].state_key_hash.leading_nibble() as int;
        let chosen = |update: MerkleLeafUpdate<K>| update.state_key_hash.leading_nibble() == shard;
        updates.lemma_filter_contains(chosen, i);
        let kept = updates.filter(chosen);
        let k = choose|k: int| 0 <= k < kept.len() && kept[k] == updates[i];
        assert(position_merkle_committer::shard_leaves(updates, shard)[k]
            == position_merkle_committer::leaf_of(updates[i]));
    }
    assert forall|shard: int, i: int|
        0 <= i < position_merkle_committer::shard_leaves(updates, shard).len() implies (
    #[trigger] position_merkle_committer::shard_leaves(updates, shard)[i]).0.leading_nibble()
        == shard by {
        let chosen = |update: MerkleLeafUpdate<K>| update.state_key_hash.leading_nibble() == shard;
        updates.lemma_filter_pred(chosen, i);
    }
    lemma_leaf_count(updates);
}

proof fn lemma_leaf_count<K>(updates: Seq<MerkleLeafUpdate<K>>)
    ensures
        leaves_in_shards(updates, 16) == updates.len(),
    decreases updates.len(),
{
    if updates.len() == 0 {
        reveal(Seq::filter);
        reveal_with_fuel(leaves_in_shards, 17);
    } else {
        let fewer = updates.drop_last();
        lemma_leaf_count(fewer);
        assert(fewer.push(updates.last()) =~= updates);
        lemma_leaves_in_shards_push(fewer, updates.last(), 16);
    }
}

/// The stage of a commit after the given replies of its first shards.
pub open spec fn after_shards<K>(
    stage: ShardStageView<K>,
    replies: Seq<(Node<K>, BatchView<K>)>,
) -> ShardStageView<K>
    decreases replies.len(),
{
    if replies.len() == 0 {
        stage
    } else {
        after_shards(stage, replies.drop_last()).after(replies.last().0, replies.last().1)
    }
}

/// A commit with updates asks for the shards one after the other, each with the
/// leaves that belong to it and with the version at which the prior root last saw
/// it, whatever the shards before gave back. It keeps the roots and the changes in
/// the order of the shards.
pub proof fn law_shards_in_order<K>(
    version: Version,
    epoch_end: Option<Version>,
    updates: Seq<MerkleLeafUpdate<K>>,
    prior: Option<HashedNode<K>>,
    replies: Seq<(Node<K>, BatchView<K>)>,
)
    requires
        replies.len() <= 16,
    ensures
        ({
            let stage = after_shards(
                ShardStageView::first(version, epoch_end, updates, prior),
                replies,
            );
            let done = replies.len() as int;
            &&& done < 16 ==> {
                &&& stage.request().shard_id == done
                &&& stage.request().value_set == position_merkle_committer::shard_leaves(
                    updates,
                    done,
                )
                &&& stage.request().persisted_version == position_merkle_committer::shard_versions(
                    position_merkle_committer::prior_node(prior),
                )[done]
                &&& stage.request().version == version
                &&& stage.request().persisted_version == match prior {
                    Some(HashedNode { node: Node::Internal(root), .. }) => match root.children[done] {
                        Some(child) => Some(child.version),
                        None => None,
                    },
                    _ => None,
                }
            }
            &&& stage.version == version
            &&& stage.epoch_end == epoch_end
            &&& stage.updates == updates
            &&& stage.prior_existed == prior is Some
            &&& stage.persisted == position_merkle_committer::shard_versions(
                position_merkle_committer::prior_node(prior),
            )
            &&& stage.roots == replies.map_values(|reply: (Node<K>, BatchView<K>)| reply.0)
            &&& stage.batch.nodes == replies.map_values(
                |reply: (Node<K>, BatchView<K>)| reply.1.nodes,
            ).flatten()
            &&& stage.batch.stale == replies.map_values(
                |reply: (Node<K>, BatchView<K>)| reply.1.stale,
            ).flatten()
        }),
    decreases replies.len(),
{
    let roots = |reply: (Node<K>, BatchView<K>)| reply.0;
    let nodes = |reply: (Node<K>, BatchView<K>)| reply.1.nodes;
    let stale = |reply: (Node<K>, BatchView<K>)| reply.1.stale;
    if replies.len() == 0 {
        assert(replies.map_values(roots) =~= Seq::empty());
        assert(replies.map_values(nodes).flatten() =~= Seq::empty());
        assert(replies.map_values(stale).flatten() =~= Seq::empty());
    } else {
        let fewer = replies.drop_last();
        law_shards_in_order(version, epoch_end, updates, prior, fewer);
        let last = replies.last();
        assert(replies.map_values(roots) =~= fewer.map_values(roots).push(last.0));
        assert(replies.map_values(nodes) =~= fewer.map_values(nodes).push(last.1.nodes));
        assert(replies.map_values(stale) =~= fewer.map_values(stale).push(last.1.stale));
        fewer.map_values(nodes).lemma_flatten_push(last.1.nodes);
        fewer.map_values(stale).lemma_flatten_push(last.1.stale);
    }
}

/// The rows of a commit with updates are the nodes that the shards gave back, in the
/// order of the shards, then those of the top of the tree; and after all nodes the
/// stale marks, in the same order.
pub proof fn law_commit_rows_in_order<K>(
    version: Version,
    epoch_end: Option<Version>,
    updates: Seq<MerkleLeafUpdate<K>>,
    prior: Option<HashedNode<K>>,
    replies: Seq<(Node<K>, BatchView<K>)>,
    top: BatchView<K>,
)
    requires
        replies.len() == 16,
    ensures
        ({
            let stage = after_shards(
                ShardStageView::first(version, epoch_end, updates, prior),
                replies,
            );
            let nodes = replies.map_values(
                |reply: (Node<K>, BatchView<K>)| reply.1.nodes,
            ).flatten() + top.nodes;
            let stale = replies.map_values(
                |reply: (Node<K>, BatchView<K>)| reply.1.stale,
            ).flatten() + top.stale;
            position_merkle_committer::tree_rows(stage.batch.combine(top), stage.epoch_end)
                == position_merkle_committer::node_rows(nodes)
                + position_merkle_committer::stale_rows(epoch_end, stale)
        }),
{
    law_shards_in_order(version, epoch_end, updates, prior, replies);
}

/// The new root of a commit with updates replaces the root of the version before where
/// that has one, whatever the shards answer, and none otherwise.
pub proof fn law_new_root_replaces_prior_root<K>(
    version: Version,
    epoch_end: Option<Version>,
    updates: Seq<MerkleLeafUpdate<K>>,
    prior: Option<HashedNode<K>>,
    replies: Seq<(Node<K>, BatchView<K>)>,
)
    requires
        replies.len() <= 16,
        prior is Some ==> version > 0,
    ensures
        ({
            let replaced = after_shards(
                ShardStageView::first(version, epoch_end, updates, prior),
                replies,
            ).replaced_root();
            &&& replaced is Some <==> prior is Some
            &&& replaced is Some ==> replaced->0 + 1 == version
        }),
{
    law_shards_in_order(version, epoch_end, updates, prior, replies);
}

/// The leaves that a shard is asked to take are those of the updates whose hash starts
/// with the shard's hex digit, in the order of the updates, each with the hash of its
/// key, and with the hash of its value and its key unless it is a deletion.
pub proof fn law_shard_takes_its_updates<K>(updates: Seq<MerkleLeafUpdate<K>>, shard: int)
    ensures
        ({
            let own = updates.filter(
                |update: MerkleLeafUpdate<K>| update.state_key_hash.bytes[0] as int / 16 == shard,
            );
            let leaves = position_merkle_committer::shard_leaves(updates, shard);
            &&& leaves.len() == own.len()
            &&& forall|i: int|
                0 <= i < own.len() ==> {
                    &&& (#[trigger] leaves[i]).0 == own[i].state_key_hash
                    &&& leaves[i].1 is Some <==> own[i].value_hash is Some
                    &&& leaves[i].1 is Some ==> leaves[i].1->0 == (
                        own[i].value_hash->0,
                        own[i].state_key,
                    )
                }
        }),
{
    let own = |update: MerkleLeafUpdate<K>| update.state_key_hash.bytes[0] as int / 16 == shard;
    assert(own =~= |update: MerkleLeafUpdate<K>| update.state_key_hash.leading_nibble() == shard);
}

} // verus!

use position_db::hash_value::HashValue;
use position_db::merkle_node::{
    Child, HashedNode, InternalNode, LeafNode, Node, NodeKey, NodeType, StaleNodeIndex,
    TreeUpdateBatch,
};
use position_db::position_merkle_committer::{
    carry_forward, commit_tree_batch, MerkleLeafUpdate, PositionMerkleCommitter, SchemaPut,
    ShardPut, Step, WriteFailure,
};
use position_db::state_root::empty_position_root;
use std::collections::{BTreeMap, BTreeSet};

type Key = &'static str;
type Place = (u64, Vec<u8>);

fn hash(byte: u8) -> HashValue {
    HashValue { bytes: [byte; 32] }
}

fn key(version: u64, path: Vec<u8>) -> NodeKey {
    NodeKey { version, nibble_path: path }
}

fn stale(since: u64, version: u64, path: Vec<u8>) -> StaleNodeIndex {
    StaleNodeIndex { stale_since_version: since, node_key: key(version, path) }
}

fn child(byte: u8, version: u64) -> Child {
    Child { hash: hash(byte), version, node_type: NodeType::Leaf }
}

fn internal(entries: &[(usize, Child)]) -> Node<Key> {
    let mut children = [None; 16];
    for (nibble, child) in entries {
        children[*nibble] = Some(*child);
    }
    Node::Internal(InternalNode { children, leaf_count: entries.len() })
}

fn copy(node: &Node<Key>) -> Node<Key> {
    match node {
        Node::Null => Node::Null,
        Node::Internal(n) => {
            Node::Internal(InternalNode { children: n.children, leaf_count: n.leaf_count })
        },
        Node::Leaf(l) => Node::Leaf(LeafNode {
            account_key: l.account_key,
            value_hash: l.value_hash,
            value_index: l.value_index,
        }),
    }
}

/// A stand-in for the hash of a node.
fn hash_of(node: &Node<Key>) -> HashValue {
    match node {
        Node::Null => empty_position_root(),
        Node::Leaf(leaf) => leaf.value_hash,
        Node::Internal(n) => {
            let mut bytes = [0x5a; 32];
            for (i, child) in n.children.iter().enumerate() {
                if let Some(child) = child {
                    bytes[i] ^= child.hash.bytes[i].wrapping_add(child.version as u8);
                }
            }
            HashValue { bytes }
        },
    }
}

fn update(first: u8, key: Key, value: Option<u8>) -> MerkleLeafUpdate<Key> {
    MerkleLeafUpdate { state_key_hash: hash(first), state_key: key, value_hash: value.map(hash) }
}

#[derive(Default)]
struct Tables {
    nodes: BTreeMap<Place, Node<Key>>,
    stale: BTreeSet<(u64, Place)>,
    cross_epoch: BTreeSet<(u64, Place)>,
    requests: Vec<(u8, Vec<Key>, Option<u64>)>,
}

fn place(key: NodeKey) -> Place {
    (key.version, key.nibble_path)
}

impl Tables {
    fn write(&mut self, puts: Vec<SchemaPut<Key>>) {
        for put in puts {
            match put {
                SchemaPut::Node(key, node) => {
                    self.nodes.insert(place(key), node);
                },
                SchemaPut::Stale(row) => {
                    self.stale.insert((row.stale_since_version, place(row.node_key)));
                },
                SchemaPut::StaleCrossEpoch(row) => {
                    self.cross_epoch.insert((row.stale_since_version, place(row.node_key)));
                },
            }
        }
    }

    fn root(&self, version: u64) -> Option<HashedNode<Key>> {
        self.nodes
            .get(&(version, vec![]))
            .map(|node| HashedNode { node: copy(node), hash: hash_of(node) })
    }

    /// A stand-in for the update of a shard: the shard's root is a leaf of its last
    /// value, stored at the version where it last changed.
    fn put_shard(&mut self, put: ShardPut<Key>) -> (Node<Key>, TreeUpdateBatch<Key>) {
        self.requests.push((
            put.shard_id,
            put.value_set.iter().filter_map(|(_, v)| v.map(|(_, k)| *k)).collect(),
            put.persisted_version,
        ));
        let at = vec![put.shard_id];
        let mut batch = TreeUpdateBatch::new();
        let old = put.persisted_version.map(|v| copy(&self.nodes[&(v, at.clone())]));
        match put.value_set.last() {
            None => (old.unwrap_or(Node::Null), batch),
            Some((account_key, value)) => {
                if let Some(version) = put.persisted_version {
                    batch.stale_node_index_batch.push(vec![stale(put.version, version, at.clone())]);
                }
                let root = match value {
                    None => Node::Null,
                    Some((value_hash, k)) => Node::Leaf(LeafNode {
                        account_key: *account_key,
                        value_hash: *value_hash,
                        value_index: (**k, put.version),
                    }),
                };
                batch.node_batch.push(vec![(key(put.version, at), copy(&root))]);
                (root, batch)
            },
        }
    }

    fn commit(
        &mut self,
        version: u64,
        epoch_end: Option<u64>,
        updates: &[MerkleLeafUpdate<Key>],
    ) -> HashValue {
        let committer = PositionMerkleCommitter::new("tree");
        assert_eq!(*committer.merkle_db(), "tree");
        let prior = match committer.apply_batch_request(version) {
            Some(k) => {
                assert_eq!(k, key(version - 1, vec![]));
                self.root(version - 1)
            },
            None => None,
        };
        let mut step = committer.apply_batch(version, epoch_end, updates, prior);
        loop {
            step = match step {
                Step::PutShard(stage, put) => {
                    assert_eq!(put.version, version);
                    let reply = self.put_shard(put);
                    stage.shard_done(Ok(reply)).ok().unwrap()
                },
                Step::PutTopLevels(stage, put) => {
                    assert_eq!(put.shard_root_nodes.len(), 16);
                    assert_eq!(put.version, version);
                    let mut batch = TreeUpdateBatch::new();
                    let mut entries = vec![];
                    for (i, root) in put.shard_root_nodes.iter().enumerate() {
                        if let Node::Leaf(leaf) = root {
                            entries.push((i, Child {
                                hash: leaf.value_hash,
                                version: leaf.value_index.1,
                                node_type: NodeType::Leaf,
                            }));
                        }
                    }
                    let root = internal(&entries);
                    let root_hash = hash_of(&root);
                    batch.node_batch.push(vec![(key(version, vec![]), root)]);
                    if let Some(old) = put.persisted_version {
                        batch.stale_node_index_batch.push(vec![stale(version, old, vec![])]);
                    }
                    stage.top_levels_done(Ok((root_hash, entries.len(), batch))).ok().unwrap()
                },
                Step::Write(stage, puts) => {
                    self.write(puts);
                    return stage.written(Ok(())).unwrap();
                },
            }
        }
    }
}

#[test]
fn genesis_without_updates_stores_the_empty_tree() {
    let mut tables = Tables::default();
    assert_eq!(tables.commit(0, None, &[]), empty_position_root());
    assert_eq!(tables.nodes.len(), 1);
    assert_eq!(tables.nodes[&(0, vec![])], Node::Null);
    assert!(tables.stale.is_empty() && tables.cross_epoch.is_empty());
    assert_eq!(tables.commit(1, None, &[]), empty_position_root());
    assert_eq!(tables.stale, BTreeSet::from([(1, (0, vec![]))]));
}

#[test]
fn first_version_reads_no_root() {
    let committer = PositionMerkleCommitter::new(());
    assert_eq!(committer.apply_batch_request(0), None);
    assert_eq!(committer.apply_batch_request(1), Some(key(0, vec![])));
    assert_eq!(committer.apply_batch_request(u64::MAX), Some(key(u64::MAX - 1, vec![])));
}

#[test]
fn carry_forward_copies_the_root_and_marks_the_old_one() {
    let root = internal(&[(3, child(9, 2))]);
    let prior = HashedNode { node: copy(&root), hash: hash(7) };
    let (stage, puts) = carry_forward(8, None, Some(prior));
    assert_eq!(puts, vec![
        SchemaPut::Node(key(8, vec![]), root),
        SchemaPut::Stale(stale(8, 7, vec![])),
    ]);
    assert_eq!(stage.written(Ok(())), Ok(hash(7)));
}

#[test]
fn carry_forward_respects_the_epoch_boundary() {
    let rows = |epoch_end| {
        let prior = HashedNode { node: Node::<Key>::Null, hash: hash(7) };
        carry_forward(8, epoch_end, Some(prior)).1.pop().unwrap()
    };
    assert_eq!(rows(Some(6)), SchemaPut::Stale(stale(8, 7, vec![])));
    assert_eq!(rows(Some(7)), SchemaPut::StaleCrossEpoch(stale(8, 7, vec![])));
    assert_eq!(rows(Some(8)), SchemaPut::StaleCrossEpoch(stale(8, 7, vec![])));
    assert_eq!(rows(None), SchemaPut::Stale(stale(8, 7, vec![])));
}

#[test]
fn tree_batch_stores_nodes_then_splits_stale_marks() {
    let batch = TreeUpdateBatch::<Key> {
        node_batch: vec![
            vec![(key(5, vec![1]), Node::Null)],
            vec![],
            vec![(key(5, vec![2]), Node::Null), (key(5, vec![]), internal(&[]))],
        ],
        stale_node_index_batch: vec![
            vec![stale(5, 2, vec![1]), stale(5, 3, vec![2])],
            vec![stale(5, 4, vec![])],
        ],
    };
    assert_eq!(commit_tree_batch(batch, Some(3)), vec![
        SchemaPut::Node(key(5, vec![1]), Node::Null),
        SchemaPut::Node(key(5, vec![2]), Node::Null),
        SchemaPut::Node(key(5, vec![]), internal(&[])),
        SchemaPut::StaleCrossEpoch(stale(5, 2, vec![1])),
        SchemaPut::StaleCrossEpoch(stale(5, 3, vec![2])),
        SchemaPut::Stale(stale(5, 4, vec![])),
    ]);
}

#[test]
fn without_an_epoch_end_no_mark_crosses_epochs() {
    let batch = TreeUpdateBatch::<Key> {
        node_batch: vec![],
        stale_node_index_batch: vec![vec![stale(5, 0, vec![1])]],
    };
    assert_eq!(commit_tree_batch(batch, None), vec![SchemaPut::Stale(stale(5, 0, vec![1]))]);
}

#[test]
fn batches_combine_in_order() {
    let mut batch = TreeUpdateBatch::<Key>::new();
    for path in 0..3u8 {
        batch.combine(TreeUpdateBatch {
            node_batch: vec![vec![(key(1, vec![path]), Node::Null)]],
            stale_node_index_batch: vec![vec![stale(1, 0, vec![path])]],
        });
    }
    assert_eq!(commit_tree_batch(batch, None), vec![
        SchemaPut::Node(key(1, vec![0]), Node::Null),
        SchemaPut::Node(key(1, vec![1]), Node::Null),
        SchemaPut::Node(key(1, vec![2]), Node::Null),
        SchemaPut::Stale(stale(1, 0, vec![0])),
        SchemaPut::Stale(stale(1, 0, vec![1])),
        SchemaPut::Stale(stale(1, 0, vec![2])),
    ]);
}

#[test]
fn updates_go_to_their_shards_in_order() {
    let mut tables = Tables::default();
    let updates = [
        update(0xf1, "a", Some(1)),
        update(0x20, "b", Some(2)),
        update(0xf2, "c", Some(3)),
        update(0x2f, "d", None),
    ];
    tables.commit(0, None, &updates);
    let asked: Vec<u8> = tables.requests.iter().map(|r| r.0).collect();
    assert_eq!(asked, (0..16).collect::<Vec<u8>>());
    assert_eq!(tables.requests[2], (2, vec!["b"], None));
    assert_eq!(tables.requests[15], (15, vec!["a", "c"], None));
    assert!(tables.requests.iter().all(|r| r.0 == 2 || r.0 == 15 || r.1.is_empty()));
}

#[test]
fn rows_follow_the_shards_then_the_top() {
    let committer = PositionMerkleCommitter::new(());
    let updates = [update(0x10, "a", Some(1))];
    let prior = HashedNode { node: internal(&[]), hash: hash(7) };
    let mut step = committer.apply_batch(9, Some(4), &updates, Some(prior));
    let change = |path: Vec<u8>, old: u64| TreeUpdateBatch::<Key> {
        node_batch: vec![vec![(key(9, path.clone()), Node::Null)]],
        stale_node_index_batch: vec![vec![stale(9, old, path)]],
    };
    let puts = loop {
        step = match step {
            Step::PutShard(stage, put) => {
                let batch = change(vec![put.shard_id], put.shard_id as u64 % 8);
                stage.shard_done(Ok((Node::Null, batch))).ok().unwrap()
            },
            Step::PutTopLevels(stage, put) => {
                assert_eq!(put.persisted_version, Some(8));
                stage.top_levels_done(Ok((hash(3), 1, change(vec![], 8)))).ok().unwrap()
            },
            Step::Write(stage, puts) => {
                assert_eq!(stage.written(Ok(())), Ok(hash(3)));
                break puts;
            },
        }
    };
    let mut expected = vec![];
    for shard in 0..16u8 {
        expected.push(SchemaPut::Node(key(9, vec![shard]), Node::Null));
    }
    expected.push(SchemaPut::Node(key(9, vec![]), Node::Null));
    for shard in 0..16u8 {
        let mark = stale(9, shard as u64 % 8, vec![shard]);
        expected.push(if shard % 8 <= 4 {
            SchemaPut::StaleCrossEpoch(mark)
        } else {
            SchemaPut::Stale(mark)
        });
    }
    expected.push(SchemaPut::Stale(stale(9, 8, vec![])));
    assert_eq!(puts, expected);
}

#[test]
fn value_sets_hold_tombstones() {
    let committer = PositionMerkleCommitter::new(());
    let updates = [update(0x05, "gone", None), update(0x06, "there", Some(8))];
    match committer.apply_batch(3, None, &updates, None) {
        Step::PutShard(_, put) => {
            assert_eq!(put.shard_id, 0);
            assert_eq!(put.persisted_version, None);
            assert_eq!(put.version, 3);
            assert_eq!(put.value_set, vec![
                (hash(0x05), None),
                (hash(0x06), Some((hash(8), &"there"))),
            ]);
        },
        _ => panic!("expected the update of a shard"),
    }
}

#[test]
fn empty_commits_keep_root_and_shard_versions() {
    let mut tables = Tables::default();
    let first = [update(0x10, "a", Some(1)), update(0xc0, "b", Some(2))];
    let root = tables.commit(0, None, &first);
    for version in 1..6 {
        assert_eq!(tables.commit(version, None, &[]), root);
        assert_eq!(tables.root(version).unwrap().hash, root);
    }
    tables.requests.clear();
    let next = tables.commit(6, None, &[update(0x11, "c", Some(3))]);
    assert_ne!(next, root);
    assert_eq!(tables.requests[1], (1, vec!["c"], Some(0)));
    assert_eq!(tables.requests[12], (12, vec![], Some(0)));
    assert_eq!(tables.requests[0], (0, vec![], None));
    // Each root went stale when the next version took its place.
    for version in 0..6 {
        assert!(tables.stale.contains(&(version + 1, (version, vec![]))));
    }
    assert!(tables.stale.contains(&(6, (0, vec![1]))));
    assert!(!tables.stale.contains(&(6, (0, vec![12]))));
}

#[test]
fn shard_that_was_never_written_has_no_version() {
    let committer = PositionMerkleCommitter::new(());
    let prior = HashedNode { node: internal(&[(0, child(1, 4)), (1, child(1, 2))]), hash: hash(1) };
    let updates = [update(0x00, "a", Some(1))];
    let mut step = committer.apply_batch(9, None, &updates, Some(prior));
    let mut versions = vec![];
    while let Step::PutShard(stage, put) = step {
        versions.push(put.persisted_version);
        step = stage.shard_done(Ok((Node::Null, TreeUpdateBatch::new()))).ok().unwrap();
    }
    let mut expected = vec![None; 16];
    expected[0] = Some(4);
    expected[1] = Some(2);
    assert_eq!(versions, expected);
    match step {
        Step::PutTopLevels(_, put) => {
            assert_eq!(put.persisted_version, Some(8));
            assert_eq!(put.version, 9);
        },
        _ => panic!("expected the join of the shards"),
    }
}

#[test]
fn missing_prior_root_is_not_replaced() {
    let committer = PositionMerkleCommitter::new(());
    let updates = [update(0x00, "a", Some(1))];
    let mut step = committer.apply_batch(9, None, &updates, None);
    while let Step::PutShard(stage, _) = step {
        step = stage.shard_done(Ok((Node::Null, TreeUpdateBatch::new()))).ok().unwrap();
    }
    match step {
        Step::PutTopLevels(_, put) => assert_eq!(put.persisted_version, None),
        _ => panic!("expected the join of the shards"),
    }
}

fn fail_at_shard(shard: usize) -> String {
    let committer = PositionMerkleCommitter::new(());
    let updates = [update(0x00, "a", Some(1))];
    let mut step = committer.apply_batch(1, None, &updates, None);
    let mut done = 0;
    loop {
        match step {
            Step::PutShard(stage, _) => {
                if done == shard {
                    return stage.shard_done(Err(String::from("bad"))).err().unwrap().text;
                }
                step = stage.shard_done(Ok((Node::Null, TreeUpdateBatch::new()))).ok().unwrap();
                done += 1;
            },
            _ => panic!("expected the update of a shard"),
        }
    }
}

#[test]
fn failed_shard_is_named() {
    assert_eq!(fail_at_shard(0), "position JMT batch_put_value_set_for_shard(0) failed: bad");
    assert_eq!(fail_at_shard(9), "position JMT batch_put_value_set_for_shard(9) failed: bad");
    assert_eq!(fail_at_shard(15), "position JMT batch_put_value_set_for_shard(15) failed: bad");
}

#[test]
fn failed_join_of_the_shards() {
    let committer = PositionMerkleCommitter::new(());
    let updates = [update(0x00, "a", Some(1))];
    let mut step = committer.apply_batch(1, None, &updates, None);
    while let Step::PutShard(stage, _) = step {
        step = stage.shard_done(Ok((Node::Null, TreeUpdateBatch::new()))).ok().unwrap();
    }
    match step {
        Step::PutTopLevels(stage, _) => {
            let failure = stage.top_levels_done(Err(String::from("bad"))).err().unwrap();
            assert_eq!(failure.text, "position JMT put_top_levels_nodes failed: bad");
        },
        _ => panic!("expected the join of the shards"),
    }
}

fn written_after(updates: &[MerkleLeafUpdate<Key>], failure: WriteFailure) -> String {
    let committer = PositionMerkleCommitter::new(());
    let mut step = committer.apply_batch(0, None, updates, None);
    loop {
        step = match step {
            Step::PutShard(stage, _) => {
                stage.shard_done(Ok((Node::Null, TreeUpdateBatch::new()))).ok().unwrap()
            },
            Step::PutTopLevels(stage, _) => stage
                .top_levels_done(Ok((hash(1), 0, TreeUpdateBatch::new())))
                .ok()
                .unwrap(),
            Step::Write(stage, _) => return stage.written(Err(failure)).err().unwrap().text,
        }
    }
}

#[test]
fn failed_writes_without_updates() {
    let e = || String::from("e");
    assert_eq!(
        written_after(&[], WriteFailure::NodePut(e())),
        "position carry-forward node put failed: e"
    );
    assert_eq!(
        written_after(&[], WriteFailure::StalePut(e())),
        "carry-forward stale put failed: e"
    );
    assert_eq!(
        written_after(&[], WriteFailure::CrossEpochPut(e())),
        "carry-forward cross-epoch stale put failed: e"
    );
    assert_eq!(
        written_after(&[], WriteFailure::Commit(e())),
        "position_merkle_db carry-forward commit failed: e"
    );
}

#[test]
fn failed_writes_with_updates() {
    let e = || String::from("e");
    let updates = [update(0x00, "a", Some(1))];
    assert_eq!(written_after(&updates, WriteFailure::NodePut(e())), "JMT node put failed: e");
    assert_eq!(
        written_after(&updates, WriteFailure::StalePut(e())),
        "JMT stale index put failed: e"
    );
    assert_eq!(
        written_after(&updates, WriteFailure::CrossEpochPut(e())),
        "JMT cross-epoch stale index put failed: e"
    );
    assert_eq!(
        written_after(&updates, WriteFailure::Commit(e())),
        "position_merkle_db commit failed: e"
    );
}

#[test]
fn stale_marks_of_an_earlier_epoch_are_kept_apart() {
    let mut tables = Tables::default();
    tables.commit(0, None, &[update(0x10, "a", Some(1))]);
    tables.commit(1, Some(0), &[update(0x11, "b", Some(2))]);
    // The root and the shard of version 0 belong to the epoch that ended there.
    assert_eq!(tables.cross_epoch, BTreeSet::from([(1, (0, vec![])), (1, (0, vec![1]))]));
    assert!(tables.stale.is_empty());
    tables.commit(2, Some(0), &[update(0x12, "c", Some(3))]);
    assert_eq!(tables.stale, BTreeSet::from([(2, (1, vec![])), (2, (1, vec![1]))]));
}

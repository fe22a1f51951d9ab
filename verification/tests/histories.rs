use position_db::hash_value::HashValue;
use position_db::merkle_node::{
    Child, HashedNode, InternalNode, LeafNode, Node, NodeKey, NodeType, StaleNodeIndex,
    TreeUpdateBatch,
};
use position_db::position_merkle_committer::{
    MerkleLeafUpdate, PositionMerkleCommitter, SchemaPut, ShardPut, Step, TopLevelsPut,
};
use position_db::position_merkle_db::PositionMerkleDb;
use position_db::state_root::empty_position_root;
use std::collections::BTreeMap;

type Key = u8;
type Place = (u64, Vec<u8>);

/// The hash of a key, which a single byte tells apart from all others.
fn hash_of_key(key: Key) -> HashValue {
    let mut bytes = [7; 32];
    bytes[0] = key;
    HashValue { bytes }
}

fn value(byte: u8) -> HashValue {
    HashValue { bytes: [byte; 32] }
}

fn key(version: u64, path: Vec<u8>) -> NodeKey {
    NodeKey { version, nibble_path: path }
}

fn copy(node: &Node<Key>) -> Node<Key> {
    match node {
        Node::Null => Node::Null,
        Node::Internal(n) => {
            Node::Internal(InternalNode { children: n.children, leaf_count: n.leaf_count })
        },
        Node::Leaf(l) => Node::Leaf(LeafNode {
            account_key: l.account_key,
            value_hash: l.value_hash,
            value_index: l.value_index,
        }),
    }
}

fn mix(mut state: u64, bytes: &[u8]) -> u64 {
    for b in bytes {
        state = (state ^ *b as u64).wrapping_mul(0x100000001b3).rotate_left(17);
    }
    state
}

/// A stand-in for the hash of a node: that of the leaves below it, and of a single leaf
/// its own.
fn hash_of(node: &Node<Key>) -> HashValue {
    let state = match node {
        Node::Null => return empty_position_root(),
        Node::Leaf(leaf) => mix(mix(1, &leaf.account_key.bytes), &leaf.value_hash.bytes),
        Node::Internal(n) if n.leaf_count == 1 => {
            return n.children.iter().flatten().next().unwrap().hash;
        },
        Node::Internal(n) => n.children.iter().enumerate().fold(2, |state, (i, child)| {
            child.iter().fold(state, |state, c| mix(mix(state, &[i as u8]), &c.hash.bytes))
        }),
    };
    let mut bytes = [0; 32];
    bytes[..8].copy_from_slice(&state.to_be_bytes());
    HashValue { bytes }
}

fn parent(children: [Option<Child>; 16]) -> Node<Key> {
    match children.iter().flatten().count() {
        0 => Node::Null,
        leaf_count => Node::Internal(InternalNode { children, leaf_count }),
    }
}

fn child_of(node: &Node<Key>, version: u64) -> Child {
    Child { hash: hash_of(node), version, node_type: NodeType::Leaf }
}

/// A stand-in for the tree and its database: a shard keeps its leaves by the second
/// nibble of their hashes.
#[derive(Default)]
struct Db {
    nodes: BTreeMap<Place, Node<Key>>,
    stale: usize,
}

impl Db {
    fn children(&self, version: u64, path: Vec<u8>) -> [Option<Child>; 16] {
        match self.nodes.get(&(version, path)) {
            Some(Node::Internal(n)) => n.children,
            _ => [None; 16],
        }
    }

    fn put_shard(&self, put: ShardPut<Key>) -> (Node<Key>, TreeUpdateBatch<Key>) {
        let path = vec![put.shard_id];
        let mut batch = TreeUpdateBatch::new();
        let mut stale = vec![];
        let mut children = match put.persisted_version {
            Some(version) => {
                stale.push(StaleNodeIndex {
                    stale_since_version: put.version,
                    node_key: key(version, path.clone()),
                });
                self.children(version, path.clone())
            },
            None => [None; 16],
        };
        let mut written = vec![];
        for (account_key, change) in put.value_set {
            assert_eq!(account_key.get_leading_nibble(), put.shard_id);
            let nibble = account_key.bytes[0] % 16;
            children[nibble as usize] = change.map(|(value_hash, k)| {
                let leaf =
                    Node::Leaf(LeafNode { account_key, value_hash, value_index: (*k, put.version) });
                let child = child_of(&leaf, put.version);
                written.push((key(put.version, vec![put.shard_id, nibble]), leaf));
                child
            });
        }
        let root = parent(children);
        if root != Node::Null {
            written.push((key(put.version, path), copy(&root)));
        }
        batch.node_batch.push(written);
        batch.stale_node_index_batch.push(stale);
        (root, batch)
    }

    fn join(&self, put: TopLevelsPut<Key>) -> (HashValue, usize, TreeUpdateBatch<Key>) {
        let mut children = [None; 16];
        for (i, root) in put.shard_root_nodes.iter().enumerate() {
            if *root != Node::Null {
                children[i] = Some(child_of(root, put.version));
            }
        }
        let root = parent(children);
        let root_hash = hash_of(&root);
        let batch = TreeUpdateBatch {
            node_batch: vec![vec![(key(put.version, vec![]), root)]],
            stale_node_index_batch: vec![],
        };
        (root_hash, 0, batch)
    }

    fn commit(
        &mut self,
        version: u64,
        epoch_end: Option<u64>,
        updates: &[MerkleLeafUpdate<Key>],
    ) -> HashValue {
        let committer = PositionMerkleCommitter::new(());
        let prior = committer.apply_batch_request(version).and_then(|k| {
            self.nodes
                .get(&(k.version, k.nibble_path))
                .map(|node| HashedNode { node: copy(node), hash: hash_of(node) })
        });
        let mut step = committer.apply_batch(version, epoch_end, updates, prior);
        loop {
            step = match step {
                Step::PutShard(stage, put) => {
                    stage.shard_done(Ok(self.put_shard(put))).ok().unwrap()
                },
                Step::PutTopLevels(stage, put) => {
                    stage.top_levels_done(Ok(self.join(put))).ok().unwrap()
                },
                Step::Write(stage, puts) => {
                    for put in puts {
                        match put {
                            SchemaPut::Node(k, node) => {
                                self.nodes.insert((k.version, k.nibble_path), node);
                            },
                            _ => self.stale += 1,
                        }
                    }
                    return stage.written(Ok(())).unwrap();
                },
            }
        }
    }

    fn root_hash(&self, version: u64) -> HashValue {
        let db = PositionMerkleDb::new(());
        let version = db.get_root_hash_request(version);
        db.get_root_hash(Ok(self.nodes.get(&(version, vec![])).map(hash_of))).unwrap()
    }

    fn walk(&self, version: u64) -> Vec<(Key, HashValue)> {
        let walk = PositionMerkleDb::new(()).iter_active_leaves(version);
        let mut items = vec![];
        for (s, shard) in self.children(walk.version, vec![]).iter().enumerate() {
            let Some(shard) = shard else { continue };
            for (i, leaf) in self.children(shard.version, vec![s as u8]).iter().enumerate() {
                let Some(leaf) = leaf else { continue };
                match copy(&self.nodes[&(leaf.version, vec![s as u8, i as u8])]) {
                    Node::Leaf(leaf) => items.push(walk.item::<Key, String>(Ok(leaf)).unwrap()),
                    _ => panic!("expected a leaf"),
                }
            }
        }
        items
    }
}

fn update(key: Key, to: Option<u8>) -> MerkleLeafUpdate<Key> {
    MerkleLeafUpdate {
        state_key_hash: hash_of_key(key),
        state_key: key,
        value_hash: to.map(value),
    }
}

fn batch(updates: &[(Key, Option<u8>)]) -> Vec<MerkleLeafUpdate<Key>> {
    updates.iter().map(|(k, to)| update(*k, *to)).collect()
}

/// Commits the batches from version 0 on, and gives the last root hash.
fn root_after(epoch_end: Option<u64>, batches: &[&[(Key, Option<u8>)]]) -> HashValue {
    let mut db = Db::default();
    let mut root = empty_position_root();
    for (version, updates) in batches.iter().enumerate() {
        root = db.commit(version as u64, epoch_end, &batch(updates));
    }
    root
}

#[test]
fn root_hash_depends_on_the_leaves_that_are_left() {
    let root = root_after(None, &[&[(0x12, Some(1)), (0x15, Some(2)), (0xa0, Some(3))]]);
    assert_eq!(root, root_after(None, &[&[(0xa0, Some(3)), (0x15, Some(2)), (0x12, Some(1))]]));
    assert_eq!(
        root,
        root_after(Some(1), &[
            &[(0x12, Some(9)), (0x77, Some(4))],
            &[],
            &[(0x15, Some(2)), (0x77, None)],
            &[(0x12, Some(1))],
            &[(0xa0, Some(3))],
            &[],
        ])
    );
    assert_ne!(root, root_after(None, &[&[(0x12, Some(1)), (0x15, Some(2))]]));
    assert_ne!(root, root_after(None, &[&[(0x12, Some(2)), (0x15, Some(1)), (0xa0, Some(3))]]));
    assert_eq!(
        root_after(None, &[&[(0x12, Some(1))], &[(0x12, None)]]),
        empty_position_root()
    );
}

#[test]
fn single_leaf_gives_the_root_hash() {
    let leaf = Node::Leaf(LeafNode {
        account_key: hash_of_key(0x5c),
        value_hash: value(8),
        value_index: (0x5c, 0),
    });
    assert_eq!(root_after(None, &[&[(0x5c, Some(8))]]), hash_of(&leaf));
    assert_eq!(
        root_after(None, &[&[(0x5c, Some(1)), (0x50, Some(2))], &[(0x50, None), (0x5c, Some(8))]]),
        hash_of(&leaf)
    );
}

#[test]
fn empty_commits_keep_the_next_root_hash() {
    let first = batch(&[(0x12, Some(1)), (0xf3, Some(2))]);
    let next = batch(&[(0x14, Some(5)), (0xf3, None)]);
    let mut at_once = Db::default();
    at_once.commit(0, None, &first);
    let expected = at_once.commit(1, None, &next);
    for empty in 0..5 {
        let mut db = Db::default();
        db.commit(0, None, &first);
        for version in 1..=empty {
            db.commit(version, Some(version / 2), &[]);
        }
        assert_eq!(db.commit(empty + 1, None, &next), expected);
    }
}

#[test]
fn every_version_keeps_its_root_and_its_leaves() {
    let batches: Vec<Vec<(Key, Option<u8>)>> = vec![
        vec![],
        vec![(0x12, Some(1)), (0x15, Some(2)), (0xa0, Some(3))],
        vec![],
        vec![(0x12, None), (0xa0, Some(4)), (0xb1, None)],
        vec![(0x15, None), (0x12, Some(6))],
        vec![],
        vec![(0x12, None), (0xa0, None)],
    ];
    let mut db = Db::default();
    let mut live: BTreeMap<Key, u8> = BTreeMap::new();
    let mut expected = vec![];
    for (version, updates) in batches.iter().enumerate() {
        let before: Vec<Place> = db.nodes.keys().cloned().collect();
        let root = db.commit(version as u64, Some(3), &batch(updates));
        assert!(before.iter().all(|place| db.nodes.contains_key(place)));
        for (k, to) in updates {
            match to {
                Some(to) => live.insert(*k, *to),
                None => live.remove(k),
            };
        }
        let leaves: Vec<(Key, HashValue)> = live.iter().map(|(k, v)| (*k, value(*v))).collect();
        expected.push((root, leaves));
        for (earlier, (root, leaves)) in expected.iter().enumerate() {
            assert_eq!(db.root_hash(earlier as u64), *root);
            let walked = db.walk(earlier as u64);
            assert_eq!(walked, *leaves);
            assert!(walked
                .windows(2)
                .all(|pair| hash_of_key(pair[1].0).is_after(&hash_of_key(pair[0].0))));
        }
    }
    assert_eq!(expected.last().unwrap().0, empty_position_root());
    assert_eq!(db.root_hash(99), empty_position_root());
    assert!(db.stale > 0);
}

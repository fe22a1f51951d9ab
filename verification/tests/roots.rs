use position_db::error::{append_decimal, DbError};
use position_db::hash_value::HashValue;
use position_db::merkle_node::{LeafNode, Node, NodeKey};
use position_db::position_merkle_db::{
    PositionMerkleDb, RightmostScan, ScanStep, SeekFailure, POSITION_MERKLE_DB_COLUMN_FAMILIES,
};
use position_db::state_root::{
    compose_state_root, empty_position_root, state_root_hash_at_version,
    verify_composite_state_root, HasherRun, StateRoot, COMPOSITE_STATE_ROOT_DOMAIN,
};

fn hash(byte: u8) -> HashValue {
    HashValue { bytes: [byte; 32] }
}

fn text(result: Result<impl Sized, DbError>) -> String {
    match result {
        Ok(_) => panic!("expected a failure"),
        Err(e) => e.text,
    }
}

fn leaf(byte: u8) -> LeafNode<u8> {
    LeafNode { account_key: hash(byte), value_hash: hash(byte ^ 0xff), value_index: (byte, 1) }
}

fn key(version: u64, path: Vec<u8>) -> NodeKey {
    NodeKey { version, nibble_path: path }
}

/// A stand-in for the hasher.
fn digest(run: &HasherRun) -> HashValue {
    let mut state: u64 = 0xcbf29ce484222325;
    let mut bytes = [0u8; 32];
    let fed = run.domain.iter().chain(run.updates.iter().flat_map(|h| h.bytes.iter()));
    for (i, b) in fed.enumerate() {
        state = (state ^ *b as u64).wrapping_mul(0x100000001b3);
        bytes[i % 32] ^= (state >> 32) as u8;
    }
    HashValue { bytes }
}

#[test]
fn empty_root_is_the_placeholder() {
    assert_eq!(&empty_position_root().bytes[..30], b"SPARSE_MERKLE_PLACEHOLDER_HASH");
    assert_eq!(&empty_position_root().bytes[30..], &[0u8, 0]);
}

#[test]
fn composition_feeds_domain_then_main_then_position() {
    assert_eq!(&COMPOSITE_STATE_ROOT_DOMAIN, b"APTOS::StateRoot");
    let run = compose_state_root(hash(1), hash(2));
    assert_eq!(&run.domain, b"APTOS::StateRoot");
    assert_eq!(run.updates, [hash(1), hash(2)]);
    assert_ne!(run, compose_state_root(hash(2), hash(1)));
}

#[test]
fn legacy_root_before_activation_composite_from_it_on() {
    let (main, position) = (hash(1), hash(2));
    let composite = StateRoot::Digest(compose_state_root(main, position));
    assert_eq!(state_root_hash_at_version(9, Some(10), main, position), StateRoot::Known(main));
    assert_eq!(state_root_hash_at_version(10, Some(10), main, position), composite);
    assert_eq!(state_root_hash_at_version(11, Some(10), main, position), composite);
    assert_eq!(state_root_hash_at_version(0, Some(0), main, position), composite);
    assert_eq!(state_root_hash_at_version(u64::MAX, None, main, position), StateRoot::Known(main));
}

#[test]
fn composite_root_verifies_only_with_its_own_components() {
    let root = digest(&compose_state_root(hash(1), hash(2)));
    assert!(verify_composite_state_root(root, digest(&compose_state_root(hash(1), hash(2)))));
    assert!(!verify_composite_state_root(root, digest(&compose_state_root(hash(2), hash(1)))));
    assert!(!verify_composite_state_root(root, digest(&compose_state_root(hash(1), hash(3)))));
}

#[test]
fn active_state_root_verifies() {
    let (main, position) = (hash(5), hash(6));
    let composed = digest(&compose_state_root(main, position));
    match state_root_hash_at_version(10, Some(10), main, position) {
        StateRoot::Digest(run) => assert!(verify_composite_state_root(digest(&run), composed)),
        StateRoot::Known(_) => panic!("expected a composite root"),
    }
    match state_root_hash_at_version(9, Some(10), main, position) {
        StateRoot::Known(root) => assert!(!verify_composite_state_root(root, composed)),
        StateRoot::Digest(_) => panic!("expected the root of the main tree"),
    }
}

#[test]
fn missing_tree_and_empty_tree_have_one_root() {
    let db = PositionMerkleDb::new(());
    let root = db.get_root_hash(Ok(None)).unwrap();
    assert_eq!(root, empty_position_root());
    assert_eq!(
        compose_state_root(hash(7), root),
        compose_state_root(hash(7), empty_position_root())
    );
}

#[test]
fn root_hash_of_a_stored_root() {
    let db = PositionMerkleDb::new("db");
    assert_eq!(*db.inner(), "db");
    assert_eq!(db.get_root_hash_request(0), 0);
    assert_eq!(db.get_root_hash_request(u64::MAX), u64::MAX);
    assert_eq!(db.get_root_hash(Ok(Some(hash(9)))), Ok(hash(9)));
    assert_eq!(
        text(db.get_root_hash(Err(String::from("gone")))),
        "position_merkle_db get_root_hash: gone"
    );
}

#[test]
fn tree_database_name_and_column_families() {
    assert_eq!(PositionMerkleDb::<()>::name(), "position_merkle_db");
    assert_eq!(
        PositionMerkleDb::<()>::column_families(),
        [
            "default",
            "db_metadata",
            "jellyfish_merkle_node",
            "stale_node_index",
            "stale_node_index_cross_epoch",
        ]
    );
    assert_eq!(PositionMerkleDb::<()>::column_families(), POSITION_MERKLE_DB_COLUMN_FAMILIES);
}

#[test]
fn root_node_stands_at_the_empty_path() {
    let db = PositionMerkleDb::new(());
    assert_eq!(db.get_root_node_option_request(12), key(12, vec![]));
    assert_eq!(db.get_root_node_option(Ok(Some(Node::<u8>::Null))), Ok(Some(Node::Null)));
    assert_eq!(db.get_root_node_option::<u8>(Ok(None)), Ok(None));
    assert_eq!(
        text(db.get_root_node_option::<u8>(Err(String::from("x")))),
        "position_merkle_db get_node_option: x"
    );
    assert_eq!(
        text(db.get_node_option::<u8>(Err(String::from("y")))),
        "position_merkle_db get_node_option: y"
    );
}

#[test]
fn active_leaves_yield_key_and_value_hash() {
    let db = PositionMerkleDb::new(());
    let walk = db.iter_active_leaves(6);
    assert_eq!(walk.version, 6);
    assert_eq!(walk.start, HashValue::zero());
    let stored = LeafNode { account_key: hash(1), value_hash: hash(2), value_index: ("key", 3) };
    assert_eq!(walk.item::<_, String>(Ok(stored)), Ok(("key", hash(2))));
    assert_eq!(walk.item::<&str, _>(Err("broken")), Err("broken"));
}

fn scan(version: u64, rows: Vec<(NodeKey, Node<u8>)>) -> Option<(NodeKey, LeafNode<u8>)> {
    let db = PositionMerkleDb::new(());
    assert_eq!(db.get_rightmost_leaf_request(version), (version, 1));
    let mut state: RightmostScan<u8> = db.get_rightmost_leaf(version, Ok(())).ok().unwrap();
    for row in rows {
        match state.row(Ok(row)).ok().unwrap() {
            ScanStep::Continue(next) => state = next,
            ScanStep::Done(found) => return found,
        }
    }
    state.finish()
}

#[test]
fn rightmost_leaf_is_the_one_with_the_last_hash() {
    let rows = vec![
        (key(4, vec![1]), Node::Leaf(leaf(0x10))),
        (key(4, vec![2]), Node::Null),
        (key(4, vec![9]), Node::Leaf(leaf(0x90))),
        (key(4, vec![5]), Node::Leaf(leaf(0x50))),
    ];
    assert_eq!(scan(4, rows), Some((key(4, vec![9]), leaf(0x90))));
}

#[test]
fn rightmost_leaf_stops_at_another_version() {
    let rows = vec![
        (key(4, vec![1]), Node::Leaf(leaf(0x10))),
        (key(5, vec![9]), Node::Leaf(leaf(0x90))),
        (key(4, vec![8]), Node::Leaf(leaf(0x80))),
    ];
    assert_eq!(scan(4, rows), Some((key(4, vec![1]), leaf(0x10))));
}

#[test]
fn rightmost_leaf_keeps_the_first_of_equal_hashes() {
    let rows = vec![
        (key(4, vec![1]), Node::Leaf(leaf(0x10))),
        (key(4, vec![1, 0]), Node::Leaf(leaf(0x10))),
    ];
    assert_eq!(scan(4, rows), Some((key(4, vec![1]), leaf(0x10))));
}

#[test]
fn no_leaf_no_rightmost_leaf() {
    assert_eq!(scan(4, vec![]), None);
    assert_eq!(scan(4, vec![(key(4, vec![1]), Node::Null)]), None);
    assert_eq!(scan(4, vec![(key(3, vec![1]), Node::Leaf(leaf(1)))]), None);
}

#[test]
fn rightmost_leaf_failures() {
    let db = PositionMerkleDb::new(());
    assert_eq!(
        text(db.get_rightmost_leaf::<u8>(1, Err(SeekFailure::Iter(String::from("a"))))),
        "rightmost_leaf iter: a"
    );
    assert_eq!(
        text(db.get_rightmost_leaf::<u8>(1, Err(SeekFailure::Seek(String::from("b"))))),
        "rightmost_leaf seek: b"
    );
    let state: RightmostScan<u8> = db.get_rightmost_leaf(1, Ok(())).ok().unwrap();
    assert_eq!(text(state.row(Err(String::from("c")))), "rightmost_leaf row: c");
}

#[test]
fn decimal_numbers() {
    let mut s = String::from("n=");
    append_decimal(&mut s, 0);
    append_decimal(&mut s, 1050);
    assert_eq!(s, "n=01050");
    assert_eq!(DbError::other("a: ", "b").text, "a: b");
}

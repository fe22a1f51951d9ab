//! The position tree: its root, its leaves, and its nodes as the database keeps them.
//!
//! The database and the tree above it read. What to ask of them, and what their
//! replies mean, is decided here.

use crate::error::DbError;
use crate::hash_value;
use crate::hash_value::HashValue;
use crate::merkle_node::{LeafNode, Node, NodeKey, NodeKeyView, Version};
use crate::state_root;
use vstd::prelude::*;

verus! {

/// The column families of the tree's database.
pub const POSITION_MERKLE_DB_COLUMN_FAMILIES: [&'static str; 5] = [
    "default",
    "db_metadata",
    "jellyfish_merkle_node",
    "stale_node_index",
    "stale_node_index_cross_epoch",
];

/// The root hash, from the hash of the root node where there is one.
pub open spec fn root_hash_of(stored: Option<HashValue>) -> HashValue {
    match stored {
        Some(hash) => hash,
        None => HashValue::empty_tree(),
    }
}

/// A walk over the leaves of the tree at a version, in the order of the hashes of
/// their keys.
#[derive(Debug, PartialEq, Eq)]
pub struct LeafWalk {
    pub version: Version,
    /// The hash that the walk starts from.
    pub start: HashValue,
}

/// How a database failed to stand at a place: at making its iterator, or at the
/// iterator's seek.
#[derive(Debug, PartialEq, Eq)]
pub enum SeekFailure {
    Iter(String),
    Seek(String),
}

/// Handle to the database of the position tree.
#[derive(Debug)]
pub struct PositionMerkleDb<D> {
    db: D,
}

impl<D> PositionMerkleDb<D> {
    /// The handle.
    pub closed spec fn handle(self) -> D {
        self.db
    }

    pub fn new(db: D) -> (r: Self)
        ensures
            r.handle() == db,
    {
        PositionMerkleDb { db }
    }

    /// The name of the database.
    pub fn name() -> (r: &'static str)
        ensures
            r@ == "position_merkle_db"@,
    {
        "position_merkle_db"
    }

    /// The column families of the database.
    pub fn column_families() -> (r: [&'static str; 5])
        ensures
            r == POSITION_MERKLE_DB_COLUMN_FAMILIES,
            r[0]@ == "default"@,
            r[1]@ == "db_metadata"@,
            r[2]@ == "jellyfish_merkle_node"@,
            r[3]@ == "stale_node_index"@,
            r[4]@ == "stale_node_index_cross_epoch"@,
    {
        POSITION_MERKLE_DB_COLUMN_FAMILIES
    }

    /// The handle.
    pub fn inner(&self) -> (r: &D)
        ensures
            *r == self.handle(),
    {
        &self.db
    }

    /// The version that the tree is to be asked for the hash of its root node.
    pub fn get_root_hash_request(&self, version: Version) -> (r: Version)
        ensures
            r == version,
    {
        version
    }

    /// The root hash at a version, given what the tree found there: the hash of the
    /// root node, or that of the empty tree where no root is stored.
    pub fn get_root_hash(&self, reply: Result<Option<HashValue>, String>) -> (r: Result<
        HashValue,
        DbError,
    >)
        ensures
            match reply {
                Ok(stored) => r == Ok::<HashValue, DbError>(root_hash_of(stored)),
                Err(detail) => {
                    &&& r matches Err(failure)
                    &&& failure.text@ == "position_merkle_db get_root_hash: "@ + detail@
                },
            },
            reply matches Ok(Some(hash)) ==> r == Ok::<HashValue, DbError>(hash),
            reply matches Ok(None) ==> r == Ok::<HashValue, DbError>(HashValue::empty_tree()),
    {
        match reply {
            Ok(Some(hash)) => Ok(hash),
            Ok(None) => Ok(state_root::empty_position_root()),
            Err(detail) => Err(
                DbError::other("position_merkle_db get_root_hash: ", detail.as_str()),
            ),
        }
    }

    /// The key that the root node at `version` is stored under.
    pub fn get_root_node_option_request(&self, version: Version) -> (r: NodeKey)
        ensures
            r@ == NodeKeyView::root(version),
            r.version == version,
            r.nibble_path@.len() == 0,
    {
        NodeKey::new_empty_path(version)
    }

    /// The node under a key, where there is one, given what the database found.
    pub fn get_node_option<K>(&self, reply: Result<Option<Node<K>>, String>) -> (r: Result<
        Option<Node<K>>,
        DbError,
    >)
        ensures
            match reply {
                Ok(stored) => r == Ok::<Option<Node<K>>, DbError>(stored),
                Err(detail) => {
                    &&& r matches Err(failure)
                    &&& failure.text@ == "position_merkle_db get_node_option: "@ + detail@
                },
            },
    {
        match reply {
            Ok(stored) => Ok(stored),
            Err(detail) => Err(
                DbError::other("position_merkle_db get_node_option: ", detail.as_str()),
            ),
        }
    }

    /// The root node at a version, where there is one, given what the database found
    /// under the root's key.
    pub fn get_root_node_option<K>(&self, reply: Result<Option<Node<K>>, String>) -> (r: Result<
        Option<Node<K>>,
        DbError,
    >)
        ensures
            match reply {
                Ok(stored) => r == Ok::<Option<Node<K>>, DbError>(stored),
                Err(detail) => {
                    &&& r matches Err(failure)
                    &&& failure.text@ == "position_merkle_db get_node_option: "@ + detail@
                },
            },
    {
        self.get_node_option(reply)
    }

    /// The place from which the rows are to be read that a search for the rightmost
    /// leaf of `version` goes through: the first node of the version whose path has
    /// at least one nibble.
    pub fn get_rightmost_leaf_request(&self, version: Version) -> (r: (Version, u8))
        ensures
            r == (version, 1u8),
    {
        (version, 1)
    }

    /// Starts the search for the rightmost leaf of `version`, once the database
    /// stands at the place to read from, or failed to.
    pub fn get_rightmost_leaf<K>(&self, version: Version, reply: Result<(), SeekFailure>) -> (r:
        Result<RightmostScan<K>, DbError>)
        ensures
            match reply {
                Ok(_) => {
                    &&& r matches Ok(scan)
                    &&& scan.version() == version
                    &&& scan.seen() == Seq::<(NodeKey, Node<K>)>::empty()
                },
                Err(SeekFailure::Iter(detail)) => {
                    &&& r matches Err(failure)
                    &&& failure.text@ == "rightmost_leaf iter: "@ + detail@
                },
                Err(SeekFailure::Seek(detail)) => {
                    &&& r matches Err(failure)
                    &&& failure.text@ == "rightmost_leaf seek: "@ + detail@
                },
            },
    {
        match reply {
            Ok(_) => Ok(RightmostScan { version, rightmost: None, seen: Ghost(Seq::empty()) }),
            Err(SeekFailure::Iter(detail)) => Err(
                DbError::other("rightmost_leaf iter: ", detail.as_str()),
            ),
            Err(SeekFailure::Seek(detail)) => Err(
                DbError::other("rightmost_leaf seek: ", detail.as_str()),
            ),
        }
    }

    /// The walk over all leaves at `version`: it starts from the first of all hashes.
    pub fn iter_active_leaves(&self, version: Version) -> (r: LeafWalk)
        ensures
            r.version == version,
            r.starts_first(),
            forall|i: int| 0 <= i < 32 ==> r.start.bytes[i] == 0,
    {
        LeafWalk { version, start: HashValue::zero() }
    }
}

/// What a walk yields for a leaf: its key, and the hash of its value.
pub open spec fn item_of<K>(leaf: LeafNode<K>) -> (K, HashValue) {
    (leaf.value_index.0, leaf.value_hash)
}

impl LeafWalk {
    /// The walk starts from the first of all hashes.
    pub open spec fn starts_first(self) -> bool {
        forall|hash: HashValue| hash != self.start ==> #[trigger] self.start.before(hash)
    }

    /// What the walk yields for a leaf: its key, and the hash of its value.
    pub fn item<K, E>(&self, reply: Result<LeafNode<K>, E>) -> (r: Result<(K, HashValue), E>)
        ensures
            match reply {
                Ok(leaf) => r == Ok::<(K, HashValue), E>(item_of(leaf)),
                Err(e) => r == Err::<(K, HashValue), E>(e),
            },
            reply matches Ok(leaf) ==> r == Ok::<(K, HashValue), E>(
                (leaf.value_index.0, leaf.value_hash),
            ),
    {
        match reply {
            Ok(leaf) => Ok((leaf.value_index.0, leaf.value_hash)),
            Err(e) => Err(e),
        }
    }
}

/// A database without the tree's nodes and no database at all have the same root.
pub proof fn law_missing_tree_is_empty_tree(main_state_root: HashValue)
    ensures
        root_hash_of(None) == HashValue::empty_tree(),
        state_root::composition(main_state_root, root_hash_of(None)) == state_root::composition(
            main_state_root,
            HashValue::empty_tree(),
        ),
{
}

/// `best` is the leaf among the rows whose key hash comes last; of several with one
/// hash, the first.
pub open spec fn is_rightmost<K>(
    rows: Seq<(NodeKey, Node<K>)>,
    best: Option<(NodeKey, LeafNode<K>)>,
) -> bool {
    match best {
        None => forall|j: int| 0 <= j < rows.len() ==> !((#[trigger] rows[j]).1 is Leaf),
        Some(found) => exists|i: int| #[trigger] is_rightmost_at(rows, i, found),
    }
}

/// Row `i` holds the leaf whose key hash comes last; of several with one hash, the
/// first.
pub open spec fn is_rightmost_at<K>(
    rows: Seq<(NodeKey, Node<K>)>,
    i: int,
    found: (NodeKey, LeafNode<K>),
) -> bool {
    let (key, leaf) = found;
    &&& 0 <= i < rows.len()
    &&& rows[i] == (key, Node::Leaf(leaf))
    &&& forall|j: int|
        0 <= j < rows.len() && (#[trigger] rows[j]).1 is Leaf ==> !leaf.account_key.before(
            rows[j].1->Leaf_0.account_key,
        ) && (j < i ==> rows[j].1->Leaf_0.account_key.before(leaf.account_key))
}

/// The rightmost leaf is the one whose key hash is the largest number, and of several
/// with that hash the first.
pub proof fn law_rightmost_is_largest_number<K>(
    rows: Seq<(NodeKey, Node<K>)>,
    best: Option<(NodeKey, LeafNode<K>)>,
)
    requires
        is_rightmost(rows, best),
    ensures
        match best {
            None => forall|j: int|
                0 <= j < rows.len() ==> !((#[trigger] rows[j]).1 is Leaf),
            Some(found) => exists|i: int|
                0 <= i < rows.len() && #[trigger] rows[i] == (found.0, Node::Leaf(
                    found.1,
                )) && forall|j: int|
                    0 <= j < rows.len() && (#[trigger] rows[j]).1 is Leaf ==> {
                        let other = rows[j].1->Leaf_0.account_key.number();
                        &&& other <= found.1.account_key.number()
                        &&& j < i ==> other < found.1.account_key.number()
                    },
        },
{
    if let Some(found) = best {
        let i = choose|i: int| #[trigger] is_rightmost_at(rows, i, found);
        assert(rows[i] == (found.0, Node::Leaf(found.1)));
        assert forall|j: int| 0 <= j < rows.len() && (#[trigger] rows[j]).1 is Leaf implies {
            let other = rows[j].1->Leaf_0.account_key.number();
            &&& other <= found.1.account_key.number()
            &&& j < i ==> other < found.1.account_key.number()
        } by {
            let other = rows[j].1->Leaf_0.account_key;
            hash_value::law_order_is_that_of_numbers(found.1.account_key, other);
            hash_value::law_order_is_that_of_numbers(other, found.1.account_key);
        }
    }
}

/// The rows are those of all nodes that the version wrote below the root.
pub open spec fn are_rows_of_version<K>(
    nodes: Map<NodeKeyView, Node<K>>,
    version: Version,
    rows: Seq<(NodeKey, Node<K>)>,
) -> bool {
    &&& forall|i: int|
        0 <= i < rows.len() ==> {
            &&& nodes.contains_key((#[trigger] rows[i]).0@)
            &&& nodes[rows[i].0@] == rows[i].1
            &&& rows[i].0@.version == version
            &&& rows[i].0@.nibble_path.len() > 0
        }
    &&& forall|key: NodeKeyView| #[trigger]
        nodes.contains_key(key) && key.version == version && key.nibble_path.len() > 0
            ==> exists|i: int| 0 <= i < rows.len() && (#[trigger] rows[i]).0@ == key
}

/// A search that has gone through all nodes of a version below the root gives the
/// leaf that the version wrote whose key hash comes last, and none where the version
/// wrote no leaf.
pub proof fn law_rightmost_leaf_of_version<K>(
    nodes: Map<NodeKeyView, Node<K>>,
    version: Version,
    rows: Seq<(NodeKey, Node<K>)>,
    found: Option<(NodeKey, LeafNode<K>)>,
)
    requires
        are_rows_of_version(nodes, version, rows),
        is_rightmost(rows, found),
    ensures
        found matches Some((key, leaf)) ==> {
            &&& key.version == version
            &&& nodes.contains_key(key@)
            &&& nodes[key@] == Node::Leaf(leaf)
        },
        forall|key: NodeKeyView| #[trigger]
            nodes.contains_key(key) && key.version == version && key.nibble_path.len() > 0
                && nodes[key] is Leaf ==> {
                &&& found is Some
                &&& !found.unwrap().1.account_key.before(nodes[key]->Leaf_0.account_key)
                &&& nodes[key]->Leaf_0.account_key.number() <= found.unwrap().1.account_key.number()
            },
{
    if let Some(pair) = found {
        let i = choose|i: int| #[trigger] is_rightmost_at(rows, i, pair);
        assert(nodes.contains_key(rows[i].0@));
    }
    assert forall|key: NodeKeyView| #[trigger]
        nodes.contains_key(key) && key.version == version && key.nibble_path.len() > 0
            && nodes[key] is Leaf implies {
        &&& found is Some
        &&& !found.unwrap().1.account_key.before(nodes[key]->Leaf_0.account_key)
        &&& nodes[key]->Leaf_0.account_key.number() <= found.unwrap().1.account_key.number()
    } by {
        let j = choose|j: int| 0 <= j < rows.len() && (#[trigger] rows[j]).0@ == key;
        assert(rows[j].1 is Leaf);
        hash_value::law_order_is_that_of_numbers(
            found.unwrap().1.account_key,
            nodes[key]->Leaf_0.account_key,
        );
    }
}

/// Search for the rightmost leaf among the nodes that a version wrote.
pub struct RightmostScan<K> {
    version: Version,
    rightmost: Option<(NodeKey, LeafNode<K>)>,
    seen: Ghost<Seq<(NodeKey, Node<K>)>>,
}

/// What the search does after a row.
pub enum ScanStep<K> {
    /// Read the next row.
    Continue(RightmostScan<K>),
    /// Read no more: the rightmost leaf, where there is one.
    Done(Option<(NodeKey, LeafNode<K>)>),
}

impl<K> RightmostScan<K> {
    /// The rightmost leaf is that of the rows seen.
    #[verifier::type_invariant]
    spec fn inv(self) -> bool {
        is_rightmost(self.seen@, self.rightmost)
    }

    /// The version whose nodes are searched.
    pub closed spec fn version(self) -> Version {
        self.version
    }

    /// The rows seen so far.
    pub closed spec fn seen(self) -> Seq<(NodeKey, Node<K>)> {
        self.seen@
    }

    /// Goes on with the next row, or with the failure to read it. The rows of another
    /// version end the search.
    pub fn row(self, reply: Result<(NodeKey, Node<K>), String>) -> (r: Result<
        ScanStep<K>,
        DbError,
    >)
        ensures
            match reply {
                Err(detail) => {
                    &&& r matches Err(failure)
                    &&& failure.text@ == "rightmost_leaf row: "@ + detail@
                },
                Ok(row) => if row.0.version == self.version() {
                    &&& r matches Ok(ScanStep::Continue(next))
                    &&& next.version() == self.version()
                    &&& next.seen() == self.seen().push(row)
                } else {
                    &&& r matches Ok(ScanStep::Done(rightmost))
                    &&& is_rightmost(self.seen(), rightmost)
                },
            },
            r matches Ok(ScanStep::Done(rightmost)) ==> match rightmost {
                None => forall|j: int|
                    0 <= j < self.seen().len() ==> !((#[trigger] self.seen()[j]).1 is Leaf),
                Some(found) => exists|i: int|
                    0 <= i < self.seen().len() && #[trigger] self.seen()[i] == (found.0, Node::Leaf(
                        found.1,
                    )) && forall|j: int|
                        0 <= j < self.seen().len() && (#[trigger] self.seen()[j]).1 is Leaf ==> {
                            let other = self.seen()[j].1->Leaf_0.account_key.number();
                            &&& other <= found.1.account_key.number()
                            &&& j < i ==> other < found.1.account_key.number()
                        },
            },
    {
        proof {
            use_type_invariant(&self);
            law_rightmost_is_largest_number(self.seen@, self.rightmost);
        }
        let (node_key, node) = match reply {
            Ok(row) => row,
            Err(detail) => {
                return Err(DbError::other("rightmost_leaf row: ", detail.as_str()));
            },
        };
        let RightmostScan { version, rightmost, seen } = self;
        if node_key.version != version {
            return Ok(ScanStep::Done(rightmost));
        }
        let ghost rows = seen@.push((node_key, node));
        let rightmost = match node {
            Node::Leaf(leaf) => {
                let better = match &rightmost {
                    None => true,
                    Some(other) => leaf.account_key.is_after(&other.1.account_key),
                };
                proof {
                    lemma_rightmost_push(seen@, rightmost, node_key, leaf);
                }
                if better {
                    Some((node_key, leaf))
                } else {
                    rightmost
                }
            },
            _ => {
                proof {
                    lemma_rightmost_push_inner(seen@, rightmost, (node_key, node));
                }
                rightmost
            },
        };
        Ok(ScanStep::Continue(RightmostScan { version, rightmost, seen: Ghost(rows) }))
    }

    /// Ends the search after the last row.
    pub fn finish(self) -> (r: Option<(NodeKey, LeafNode<K>)>)
        ensures
            is_rightmost(self.seen(), r),
            match r {
                None => forall|j: int|
                    0 <= j < self.seen().len() ==> !((#[trigger] self.seen()[j]).1 is Leaf),
                Some(found) => exists|i: int|
                    0 <= i < self.seen().len() && #[trigger] self.seen()[i] == (found.0, Node::Leaf(
                        found.1,
                    )) && forall|j: int|
                        0 <= j < self.seen().len() && (#[trigger] self.seen()[j]).1 is Leaf ==> {
                            let other = self.seen()[j].1->Leaf_0.account_key.number();
                            &&& other <= found.1.account_key.number()
                            &&& j < i ==> other < found.1.account_key.number()
                        },
            },
    {
        proof {
            use_type_invariant(&self);
            law_rightmost_is_largest_number(self.seen@, self.rightmost);
        }
        self.rightmost
    }
}

/// The rightmost leaf after one more leaf.
proof fn lemma_rightmost_push<K>(
    rows: Seq<(NodeKey, Node<K>)>,
    best: Option<(NodeKey, LeafNode<K>)>,
    key: NodeKey,
    leaf: LeafNode<K>,
)
    requires
        is_rightmost(rows, best),
    ensures
        is_rightmost(
            rows.push((key, Node::Leaf(leaf))),
            if best is None || (best->0).1.account_key.before(leaf.account_key) {
                Some((key, leaf))
            } else {
                best
            },
        ),
{
    let more = rows.push((key, Node::Leaf(leaf)));
    let newest = Some((key, leaf));
    if leaf.account_key.before(leaf.account_key) {
        hash_value::lemma_asymmetric(leaf.account_key, leaf.account_key);
    }
    match best {
        None => {
            assert forall|j: int| 0 <= j < rows.len() implies !((#[trigger] more[j]).1 is Leaf) by {
                assert(more[j] == rows[j]);
            }
            assert(is_rightmost_at(more, rows.len() as int, newest->0));
            assert(is_rightmost(more, newest));
        },
        Some(found) => {
            let best_leaf = found.1;
            let i = choose|i: int| #[trigger] is_rightmost_at(rows, i, found);
            if best_leaf.account_key.before(leaf.account_key) {
                assert forall|j: int| 0 <= j < rows.len() && (#[trigger] more[j]).1 is Leaf implies
                    !leaf.account_key.before(more[j].1->Leaf_0.account_key)
                    && more[j].1->Leaf_0.account_key.before(leaf.account_key) by {
                    assert(more[j] == rows[j]);
                    let other = rows[j].1->Leaf_0.account_key;
                    if other != best_leaf.account_key {
                        hash_value::lemma_total(other, best_leaf.account_key);
                        hash_value::lemma_transitive(
                            other,
                            best_leaf.account_key,
                            leaf.account_key,
                        );
                    }
                    hash_value::lemma_asymmetric(other, leaf.account_key);
                }
                assert(is_rightmost_at(more, rows.len() as int, newest->0));
                assert(is_rightmost(more, newest));
            } else {
                assert forall|j: int| 0 <= j < more.len() && (#[trigger] more[j]).1 is Leaf implies
                    !best_leaf.account_key.before(more[j].1->Leaf_0.account_key) && (j < i
                    ==> more[j].1->Leaf_0.account_key.before(best_leaf.account_key)) by {
                    if j < rows.len() {
                        assert(more[j] == rows[j]);
                    }
                }
                assert(more[i] == rows[i]);
                assert(is_rightmost_at(more, i, found));
                assert(is_rightmost(more, best));
            }
        },
    }
}

/// The rightmost leaf after one more row that is no leaf.
proof fn lemma_rightmost_push_inner<K>(
    rows: Seq<(NodeKey, Node<K>)>,
    best: Option<(NodeKey, LeafNode<K>)>,
    row: (NodeKey, Node<K>),
)
    requires
        is_rightmost(rows, best),
        !(row.1 is Leaf),
    ensures
        is_rightmost(rows.push(row), best),
{
    let more = rows.push(row);
    match best {
        None => {
            assert forall|j: int| 0 <= j < more.len() implies !((#[trigger] more[j]).1 is Leaf) by {
                if j < rows.len() {
                    assert(more[j] == rows[j]);
                }
            }
        },
        Some(found) => {
            let leaf = found.1;
            let i = choose|i: int| #[trigger] is_rightmost_at(rows, i, found);
            assert forall|j: int| 0 <= j < more.len() && (#[trigger] more[j]).1 is Leaf implies
                !leaf.account_key.before(more[j].1->Leaf_0.account_key) && (j < i
                ==> more[j].1->Leaf_0.account_key.before(leaf.account_key)) by {
                assert(more[j] == rows[j]);
            }
            assert(more[i] == rows[i]);
            assert(is_rightmost_at(more, i, found));
        },
    }
}

} // verus!

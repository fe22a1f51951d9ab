# position_db

Storage of native positions: a store of position values over 16 shards, and the
commits of the Merkle tree over the positions.

The library decides; databases, the tree and the hasher do the work. For an
operation that reads, a `..._request` function says what to read, and the function of
the operation's name says what the reply means. Two reads differ: the node that
`get_node_option` reads is named by its caller, and `iter_active_leaves` says what to
walk, with `LeafWalk::item` for each leaf. A batch of writes is a list of actions, to
be taken in order up to the first that fails. A commit to the tree is a chain of
`Step`s, each of which names the work to do and takes its result; the opening of the
shards is a chain of `OpenStep`s.

- `hash_value`: hashes, their order and their leading nibble
- `error`: the error and the texts of its messages
- `position_db`: shards and their opening, reads and batches of writes
- `position_rows`: what reads and writes mean for the rows of the shards
- `merkle_node`: nodes, their keys, stale marks and batches of changes
- `position_merkle_committer`: commits, with and without updates
- `merkle_tables`: what commits do to the tables of the tree's database
- `commit_history`: what histories of commits leave behind, with a tree that answers
  as it should
- `position_merkle_db`: root hash, leaves and the search for the rightmost leaf
- `state_root`: composite state roots

`app/` carries the decisions out on RocksDB, with the tree and the hasher of Aptos.

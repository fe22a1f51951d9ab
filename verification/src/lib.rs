//! Sharded storage of native positions, with the bookkeeping of its Merkle tree.

pub mod commit_history;
pub mod error;
pub mod hash_value;
pub mod merkle_node;
pub mod merkle_tables;
pub mod position_db;
pub mod position_merkle_committer;
pub mod position_merkle_db;
pub mod position_rows;
pub mod state_root;

//! An in-memory ordered key-value map backed by a B+ tree.
//!
//! Keys are `i64`; values are generic. All values live in leaf nodes;
//! interior (branch) nodes hold only routing keys. The structural
//! maintenance engine — splitting on overflow, merging and redistribution
//! on underflow — is verified: every public operation carries a contract
//! relating the tree to its abstract `Map<i64, V>` view, and the
//! structural invariant is proved to hold again after every completed
//! operation, so no internal contradiction can surface at run time.

pub mod bplus_tree_map;
pub mod node_balancer;
pub mod node_operations;

pub use bplus_tree_map::BPlusTreeMap;

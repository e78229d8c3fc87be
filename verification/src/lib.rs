//! An authenticated key/value store: a height-balanced binary search tree whose
//! nodes carry digests, kept sparsely in memory over a key-indexed byte store.
//!
//! The digest of the root commits to all pairs of the store. A handle
//! ([`Merk`]) applies batches of puts and deletes, commits them to its store
//! ([`Database`]), and makes range proofs that a holder of the root digest
//! can check ([`proofs::verify`]).
//!
//! The modules, from the leaves up:
//!
//! - [`error`]: the failures;
//! - [`bytes`]: byte strings as keys and their order;
//! - [`hash`]: the digest of a pair and of a node;
//! - [`node`], [`kv`]: the stored form of a node and its byte layout;
//! - [`store`]: the store that the tree is kept in, and one in memory;
//! - [`shape`], [`batch`], [`model`]: the tree and its batches as
//!   mathematical values, with the laws that hold of them;
//! - [`sparse_tree`]: the tree in memory, which follows the model;
//! - [`sort`]: bringing a batch into the order of its keys;
//! - [`merk`]: the handle;
//! - [`proofs`]: making and checking range proofs.

pub mod batch;
pub mod bytes;
pub mod error;
pub mod hash;
pub mod kv;
pub mod merk;
pub mod model;
pub mod node;
pub mod proofs;
pub mod shape;
pub mod sort;
pub mod sparse_tree;
pub mod store;

pub use crate::batch::{TreeBatchEntry, TreeOp};
pub use crate::error::Error;
pub use crate::hash::{hash, kv_hash, HASH_LENGTH, NULL_HASH};
pub use crate::kv::KV;
pub use crate::merk::Merk;
pub use crate::node::{Link, Node};
pub use crate::sparse_tree::SparseTree;
pub use crate::store::memorydb::MemoryDb;
pub use crate::store::{Database, DbBatch};

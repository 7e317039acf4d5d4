//! Logarithmic multi-tier hash tree: an append-only list of values on a
//! storage, with a hash tree over it that stores the whole history of the
//! list.
//!
//! Values are appended one after the other and are numbered from 1. Each
//! append writes one entry behind the last one: the new value as a leaf, and
//! the internal nodes that come into being with it. Bytes once written are
//! never changed, so a storage cut behind any entry is the list as it was
//! then. The root hash commits to all the values; a value, or all the values
//! below one node, is handed out with the hash values of the branches that
//! lead to the root, from which the root hash can be computed again.
//!
//! - [`model`] is the shape of the tree: which nodes a generation has and how
//!   they are connected.
//! - [`entry`] is the layout of an entry in bytes, [`storage`] the storage
//!   that holds the entries.
//! - [`tree`] opens a tree and appends to it, [`query`] asks it.
//! - [`history`] states what a storage holds after a sequence of appends, and
//!   [`theorems`] what follows for every such storage.

pub mod checksum;
pub mod entry;
pub mod error;
pub mod hash;
pub mod history;
pub mod model;
pub mod node;
pub mod proto;
pub mod query;
pub mod storage;
pub mod theorems;
pub mod tree;
pub mod wire;

pub use crate::entry::{MAX_PAYLOAD_SIZE, STORAGE_IDENTIFIER, STORAGE_VERSION};
pub use crate::error::Result;
pub use crate::hash::HASH_SIZE;
pub use crate::model::{Index, INDEX_SIZE};
pub use crate::node::{Node, Value, ValuesWithBranches};
pub use crate::query::Query;
pub use crate::storage::{MemStorage, Storage};
pub use crate::tree::LMTHT;

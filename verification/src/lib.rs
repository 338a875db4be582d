//! An immutable, persistent radix tree (prefix trie with path compression).
//!
//! Keys are byte strings; values are an arbitrary type `V`. A [`tree::Tree`]
//! is an immutable snapshot. All mutation goes through a
//! [`transaction::Txn`]: a copy-on-write staging context that clones only
//! the nodes on its write path and publishes a new, independent snapshot on
//! commit, leaving every previously published tree untouched.

pub mod laws;
pub mod model;
pub mod node;
pub mod order;
pub mod transaction;
pub mod tree;
pub mod utils;

//! A persistent, single-writer B+tree key-value index.
//!
//! The tree maps `u128` keys to `u128` values.  All user data lives in the
//! leaves; internal nodes hold routing keys only.  Every node occupies one
//! fixed-size page of the backing file, and the whole tree state can be
//! flattened to (and rebuilt from) a metadata image plus a paged data image.

pub mod btree;
pub mod codec;
pub mod error;
pub mod lemmas;
pub mod model;
pub mod node;
pub mod pager;
pub mod remove_op;
pub mod set_op;

pub use btree::BTree;
pub use error::{Error, TreeResult};
pub use node::{BTNode, Internal, Leaf, PagePtr};

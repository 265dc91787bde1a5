//! An incremental append-only Merkle tree that keeps a compact root
//! commitment over a growing sequence of leaves.
//!
//! Unlike a classical sparse Merkle tree, incomplete subtrees are not padded
//! with zero leaves: a lone node is promoted unchanged to the next level.
//! The tree supports single and batched insertion, authenticated update and
//! removal gated by caller-supplied Merkle sibling paths, and membership
//! queries.  Combination of two child nodes is delegated to a hash function
//! injected at construction time.

pub mod laws;
pub mod model;
pub mod tree;

pub use model::LeanIMTError;
pub use tree::IMTHashFunction;
pub use tree::IMTNode;
pub use tree::LeanIMT;

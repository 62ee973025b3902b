//! Ordered-index core of an in-memory key/value store: a B+-tree-style node
//! structure with fixed-capacity sorted leaves, recursive search and insert,
//! a staged split protocol, and a three-way retry/full/duplicate signal.
//!
//! Every node owns its children outright, so dropping a structure reclaims
//! each leaf, tail, and staged half recursively.

pub mod leaf;
pub mod node;

pub use leaf::ARRAY_SIZE;
pub use leaf::Leaf;
pub use node::Error;
pub use node::LeafNodeScanner;
pub use node::Node;

//! An adaptive radix tree: an in-memory index from byte-string keys to values.
//!
//! Each inner node is one of four layouts that hold up to 4, 16, 48 or 256
//! children; a node grows to the next layout when a child must be added to a
//! full one. Shared key bytes are kept once, as a compressed prefix per node,
//! and a prefix is split when a new key leaves it partway through.

pub mod art;
pub mod bytes;
pub mod laws;
pub mod node;

pub use art::Art;
pub use bytes::common_prefix_len;
pub use node::Node;

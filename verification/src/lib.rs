//! A consistent-hashing ring: a keyed lookup structure that maps request keys
//! to one of a dynamic set of named nodes, so that adding or removing a node
//! remaps only a small fraction of keys.
//!
//! Each node is expanded into a number of virtual nodes (replicas); every
//! replica owns one position on the ring, determined by hashing
//! `"{name}:{replica}"`. A key resolves to the node owning the first ring
//! position at or after the key's own hashed position, wrapping past the
//! greatest position back to the smallest.

pub mod conhash;
pub mod hash;
pub mod ident;
pub mod node;
pub mod order;

pub use conhash::ConsistentHash;
pub use hash::Hasher;
pub use hash::Md5Hasher;
pub use node::Node;

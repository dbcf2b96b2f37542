//! A consistent-hashing ring.
//!
//! Keys are assigned to nodes by placing a number of virtual positions per
//! node on a circular keyspace and routing each key to the first position at
//! or clockwise after the key's own position. Adding or removing a node moves
//! only the keys that were assigned to that node.

pub mod bytes;
pub mod digest;
pub mod hashing;
pub mod laws;
pub mod ring;

pub use hashing::StableHash;
pub use ring::ConsistentHash;

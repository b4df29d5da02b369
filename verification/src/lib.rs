//! Consistent hashing with virtual nodes.
//!
//! A [`StaticHashRing`] is built once from a set of weighted real nodes: each
//! node claims `quantity` positions (virtual nodes) on a ring ordered by a
//! 64-bit hash. A key is resolved to a priority-ordered sequence of distinct
//! real nodes by walking the ring from the key's successor position, and a
//! single virtual node can be removed again with [`StaticHashRing::take`].

mod hashing;
mod node;
mod order;
mod ring;
mod seen;

pub use hashing::DefaultHash;
pub use hashing::RingHash;
pub use node::Node;
pub use ring::StaticHashRing;
pub use ring::VirtualNode;

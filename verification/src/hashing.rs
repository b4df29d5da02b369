use vstd::prelude::*;

verus! {

/// The SipHash-1-3 code (zero key) of a string item's hash stream.
pub uninterp spec fn sip13_of_item(item: Seq<char>) -> u64;

/// The SipHash-1-3 code (zero key) of a virtual node's hash stream, derived
/// from the owning node's key and the virtual node's sequence number.
pub uninterp spec fn sip13_of_vnode(key: Seq<char>, vnode_seq: int) -> u64;

/// Relies on `siphasher::sip::SipHasher13` (made by `new`, so with a fixed
/// zero key) together with std's `Hash` for `str`: the finished code is a pure
/// function of the item's characters.
#[verifier::external_body]
pub(crate) fn sip13_hash_item(item: &str) -> (r: u64)
    ensures
        r == sip13_of_item(item@),
{
    let mut hasher = siphasher::sip::SipHasher13::new();
    std::hash::Hash::hash(item, &mut hasher);
    std::hash::Hasher::finish(&hasher)
}

/// Relies on `siphasher::sip::SipHasher13` (made by `new`, so with a fixed
/// zero key) together with std's `Hash` for `(&str, usize)`: the finished code
/// is a pure function of the key's characters and the sequence number.
#[verifier::external_body]
pub(crate) fn sip13_hash_vnode(key: &str, vnode_seq: usize) -> (r: u64)
    ensures
        r == sip13_of_vnode(key@, vnode_seq as int),
{
    let mut hasher = siphasher::sip::SipHasher13::new();
    std::hash::Hash::hash(&(key, vnode_seq), &mut hasher);
    std::hash::Hasher::finish(&hasher)
}

/// A hash strategy for a ring: it maps string items and virtual nodes to
/// 64-bit codes.
///
/// Both codes are pinned to the strategy's own spec functions, so for one
/// strategy value repeated hashing of the same input gives the same code, and
/// every ring operation on the same state is repeatable.
pub trait RingHash: Sized {
    /// The code that `hash_item` returns for an item with these characters.
    spec fn hash_item_spec(&self, item: Seq<char>) -> u64;

    /// The code that `hash_vnode` returns for this key and sequence number.
    spec fn hash_vnode_spec(&self, key: Seq<char>, vnode_seq: int) -> u64;

    /// Calculates the hash code of the item.
    fn hash_item(&self, item: &str) -> (r: u64)
        ensures
            r == self.hash_item_spec(item@),
    ;

    /// Calculates the hash code of the virtual node with the given owner key
    /// and sequence number.
    fn hash_vnode(&self, node_key: &str, vnode_seq: usize) -> (r: u64)
        ensures
            r == self.hash_vnode_spec(node_key@, vnode_seq as int),
    ;
}

/// The default `RingHash` implementation.
///
/// The hashing function used by this implementation is SipHash-1-3 with a
/// fixed zero key, so codes are identical across runs and processes.
#[derive(Debug, Clone, Copy, PartialEq, Eq, PartialOrd, Ord, Hash)]
pub struct DefaultHash;

impl RingHash for DefaultHash {
    open spec fn hash_item_spec(&self, item: Seq<char>) -> u64 {
        sip13_of_item(item)
    }

    open spec fn hash_vnode_spec(&self, key: Seq<char>, vnode_seq: int) -> u64 {
        sip13_of_vnode(key, vnode_seq)
    }

    fn hash_item(&self, item: &str) -> (r: u64) {
        sip13_hash_item(item)
    }

    fn hash_vnode(&self, node_key: &str, vnode_seq: usize) -> (r: u64) {
        sip13_hash_vnode(node_key, vnode_seq)
    }
}

} // verus!

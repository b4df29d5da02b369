use vstd::prelude::*;

verus! {

/// A real node in a hash ring.
///
/// A node is identified by its `key`; the `value` is an opaque payload for the
/// caller, and `quantity` is the number of virtual nodes (ring positions)
/// granted to this node.
#[derive(Debug, Clone, PartialEq, Eq, PartialOrd, Ord, Hash)]
pub struct Node<V> {
    /// The key of this node.
    pub key: String,
    /// The value of this node.
    pub value: V,
    /// The quantity of virtual nodes assigned for this node.
    pub quantity: usize,
}

impl Node<()> {
    /// Makes a new `Node` instance.
    ///
    /// The value of it is `()` and the quantity is set to `1`.
    pub fn new(key: String) -> (r: Node<()>)
        ensures
            r.key == key,
            r.quantity == 1,
    {
        Node { key, value: (), quantity: 1 }
    }
}

impl<V> Node<V> {
    /// Makes a new `Node` instance which has the value `value`.
    ///
    /// Other fields of the returned node are the same as `self`.
    pub fn value<U>(self, value: U) -> (r: Node<U>)
        ensures
            r.key == self.key,
            r.value == value,
            r.quantity == self.quantity,
    {
        Node { key: self.key, value, quantity: self.quantity }
    }

    /// Sets the quantity of this node to `quantity`.
    pub fn quantity(self, quantity: usize) -> (r: Node<V>)
        ensures
            r.key == self.key,
            r.value == self.value,
            r.quantity == quantity,
    {
        Node { key: self.key, value: self.value, quantity }
    }
}

} // verus!

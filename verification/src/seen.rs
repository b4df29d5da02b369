//! The set of already-visited node indices used while walking the ring.
//!
//! The walk deduplicates real nodes with a splay-tree set from the
//! `splay_tree` crate; its contents are modeled as a `Set<usize>`.

use vstd::prelude::*;

verus! {

#[verifier::external_type_specification]
#[verifier::external_body]
#[verifier::reject_recursive_types(T)]
pub struct ExSplaySet<T>(splay_tree::SplaySet<T>);

/// The set of indices that a walk's seen-set holds.
pub uninterp spec fn seen_set_view(s: splay_tree::SplaySet<usize>) -> Set<usize>;

/// Relies on `splay_tree::SplaySet::new`: the new set is empty.
#[verifier::external_body]
pub(crate) fn seen_new() -> (r: splay_tree::SplaySet<usize>)
    ensures
        seen_set_view(r) == Set::<usize>::empty(),
{
    splay_tree::SplaySet::new()
}

/// Relies on `splay_tree::SplaySet::contains`: it reports membership, and the
/// splaying it performs reorganizes the tree without changing its contents.
#[verifier::external_body]
pub(crate) fn seen_contains(s: &mut splay_tree::SplaySet<usize>, index: usize) -> (r: bool)
    ensures
        seen_set_view(*final(s)) == seen_set_view(*old(s)),
        r == seen_set_view(*old(s)).contains(index),
{
    s.contains(&index)
}

/// Relies on `splay_tree::SplaySet::insert`: it adds the value to the set and
/// reports whether the value was new.
#[verifier::external_body]
pub(crate) fn seen_insert(s: &mut splay_tree::SplaySet<usize>, index: usize) -> (r: bool)
    ensures
        seen_set_view(*final(s)) == seen_set_view(*old(s)).insert(index),
        r == !seen_set_view(*old(s)).contains(index),
{
    s.insert(index)
}

} // verus!

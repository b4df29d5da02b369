//! The statically built hash ring and its operations.

use crate::hashing::RingHash;
use crate::node::Node;
use crate::order::lemma_lex_lt_connected;
use crate::order::lemma_lex_lt_trans;
use crate::order::lex_le;
use crate::order::lex_lt;
use crate::order::str_lt;
use crate::seen::seen_contains;
use crate::seen::seen_insert;
use crate::seen::seen_new;
use crate::seen::seen_set_view;
use vstd::prelude::*;

verus! {

/// One position on the ring: a hash code and the index of the owning real
/// node in the ring's node list.
#[derive(Debug, Clone, Copy)]
pub struct VirtualNode {
    /// The hash code of this virtual node.
    pub hash: u64,
    /// The index of the owning real node.
    pub node_index: usize,
}

/// A hash ring which is built statically.
///
/// Once a ring instance is created, real nodes can no longer be added; the
/// only change a ring admits is the removal of single virtual nodes through
/// [`StaticHashRing::take`] and [`StaticHashRing::take_if`].
#[derive(Debug)]
pub struct StaticHashRing<V, H> {
    hash: H,
    nodes: Vec<Node<V>>,
    ring: Vec<VirtualNode>,
}

/// `key` is the key of some node of `nodes`.
pub open spec fn has_key<V>(nodes: Seq<Node<V>>, key: Seq<char>) -> bool {
    exists|i: int| 0 <= i < nodes.len() && nodes[i].key@ == key
}

/// No two nodes of `nodes` share a key.
pub open spec fn unique_keys<V>(nodes: Seq<Node<V>>) -> bool {
    forall|i: int, j: int|
        0 <= i < j < nodes.len() ==> nodes[i].key@ != nodes[j].key@
}

/// The input node list with every node dropped whose key already occurred
/// earlier in the list: of several nodes with one key, the first survives.
pub open spec fn dedup_keys<V>(nodes: Seq<Node<V>>) -> Seq<Node<V>>
    decreases nodes.len(),
{
    if nodes.len() == 0 {
        Seq::empty()
    } else if has_key(nodes.drop_last(), nodes.last().key@) {
        dedup_keys(nodes.drop_last())
    } else {
        dedup_keys(nodes.drop_last()).push(nodes.last())
    }
}

/// The sum of the quantities of `nodes`.
pub open spec fn quantity_sum<V>(nodes: Seq<Node<V>>) -> int
    decreases nodes.len(),
{
    if nodes.len() == 0 {
        0
    } else {
        quantity_sum(nodes.drop_last()) + nodes.last().quantity
    }
}

/// `a` sorts before `b` (strictly) by `(hash, owner key)`.
pub open spec fn vnode_lt<V>(nodes: Seq<Node<V>>, a: VirtualNode, b: VirtualNode) -> bool {
    a.hash < b.hash || (a.hash == b.hash && lex_lt(
        nodes[a.node_index as int].key@,
        nodes[b.node_index as int].key@,
    ))
}

/// `a` sorts no later than `b` by `(hash, owner key)`.
pub open spec fn vnode_le<V>(nodes: Seq<Node<V>>, a: VirtualNode, b: VirtualNode) -> bool {
    a.hash < b.hash || (a.hash == b.hash && lex_le(
        nodes[a.node_index as int].key@,
        nodes[b.node_index as int].key@,
    ))
}

/// Every virtual node of `ring` points into `nodes`.
pub open spec fn ring_indices_ok<V>(ring: Seq<VirtualNode>, nodes: Seq<Node<V>>) -> bool {
    forall|k: int| 0 <= k < ring.len() ==> (#[trigger] ring[k]).node_index < nodes.len()
}

/// `ring` is sorted ascending by `(hash, owner key)`.
pub open spec fn ring_sorted<V>(ring: Seq<VirtualNode>, nodes: Seq<Node<V>>) -> bool {
    forall|k1: int, k2: int|
        0 <= k1 < k2 < ring.len() ==> vnode_le(nodes, #[trigger] ring[k1], #[trigger] ring[k2])
}

/// The virtual nodes of one real node: one entry for each sequence number
/// below `q`, hashed from the node's key and the sequence number.
pub open spec fn vnodes_for_node<H: RingHash>(
    h: H,
    key: Seq<char>,
    index: usize,
    q: int,
) -> Seq<VirtualNode>
    decreases q,
{
    if q <= 0 {
        Seq::empty()
    } else {
        vnodes_for_node(h, key, index, q - 1).push(
            VirtualNode { hash: h.hash_vnode_spec(key, q - 1), node_index: index },
        )
    }
}

/// The concatenation of the virtual nodes of the first `n` nodes of `nodes`,
/// in build order.
pub open spec fn all_vnodes_upto<V, H: RingHash>(
    h: H,
    nodes: Seq<Node<V>>,
    n: int,
) -> Seq<VirtualNode>
    decreases n,
{
    if n <= 0 {
        Seq::empty()
    } else {
        all_vnodes_upto(h, nodes, n - 1) + vnodes_for_node(
            h,
            nodes[n - 1].key@,
            (n - 1) as usize,
            nodes[n - 1].quantity as int,
        )
    }
}

/// The concatenation of all virtual nodes of `nodes`, in build order.
pub open spec fn all_vnodes<V, H: RingHash>(h: H, nodes: Seq<Node<V>>) -> Seq<VirtualNode> {
    all_vnodes_upto(h, nodes, nodes.len() as int)
}

/// Deduplication keeps exactly the input's keys, each once, and every
/// surviving node is one of the input's nodes.
pub proof fn lemma_dedup_keys_props<V>(nodes: Seq<Node<V>>)
    ensures
        unique_keys(dedup_keys(nodes)),
        forall|key: Seq<char>| has_key(dedup_keys(nodes), key) <==> has_key(nodes, key),
        forall|i: int|
            0 <= i < dedup_keys(nodes).len() ==> exists|j: int|
                0 <= j < nodes.len() && #[trigger] dedup_keys(nodes)[i] == nodes[j],
    decreases nodes.len(),
{
    if nodes.len() > 0 {
        let prefix = nodes.drop_last();
        let last = nodes.last();
        let d1 = dedup_keys(prefix);
        let d = dedup_keys(nodes);
        lemma_dedup_keys_props(prefix);
        assert forall|key: Seq<char>| has_key(d, key) implies has_key(nodes, key) by {
            if has_key(d1, key) {
                assert(has_key(prefix, key));
                let i = choose|i: int| 0 <= i < prefix.len() && prefix[i].key@ == key;
                assert(nodes[i] == prefix[i]);
                assert(has_key(nodes, key));
            } else {
                let i = choose|i: int| 0 <= i < d.len() && d[i].key@ == key;
                if i < d1.len() {
                    assert(d[i] == d1[i]);
                    assert(has_key(d1, key));
                } else {
                    assert(d[i] == last);
                    assert(nodes[nodes.len() - 1].key@ == key);
                }
                assert(has_key(nodes, key));
            }
        }
        assert forall|key: Seq<char>| has_key(nodes, key) implies has_key(d, key) by {
            let i = choose|i: int| 0 <= i < nodes.len() && nodes[i].key@ == key;
            if i < nodes.len() - 1 {
                assert(prefix[i] == nodes[i]);
                assert(has_key(prefix, key));
                assert(has_key(d1, key));
                let j = choose|j: int| 0 <= j < d1.len() && d1[j].key@ == key;
                if has_key(prefix, last.key@) {
                    assert(has_key(d, key));
                } else {
                    assert(d[j] == d1[j]);
                    assert(has_key(d, key));
                }
            } else {
                if has_key(prefix, last.key@) {
                    assert(has_key(d1, key));
                    assert(has_key(d, key));
                } else {
                    assert(d[d.len() - 1] == last);
                    assert(has_key(d, key));
                }
            }
        }
        if !has_key(prefix, last.key@) {
            assert forall|i: int, j: int| 0 <= i < j < d.len() implies d[i].key@ != d[j].key@ by {
                if j < d1.len() {
                    assert(d[i] == d1[i] && d[j] == d1[j]);
                } else {
                    assert(d[j] == last);
                    assert(d[i] == d1[i]);
                    assert(has_key(d1, d1[i].key@));
                }
            }
        }
    }
}

/// One node's virtual node sequence has length `q`, and every entry carries
/// the node's index.
proof fn lemma_vnodes_for_node_props<H: RingHash>(h: H, key: Seq<char>, index: usize, q: int)
    requires
        q >= 0,
    ensures
        vnodes_for_node(h, key, index, q).len() == q,
        forall|m: int|
            0 <= m < q ==> (#[trigger] vnodes_for_node(h, key, index, q)[m]).node_index == index,
    decreases q,
{
    if q > 0 {
        lemma_vnodes_for_node_props(h, key, index, q - 1);
    }
}

/// The built sequence of the first `n` nodes has as many entries as those
/// nodes have quantity in total, and each entry points at one of them.
proof fn lemma_all_vnodes_upto_props<V, H: RingHash>(h: H, nodes: Seq<Node<V>>, n: int)
    requires
        0 <= n <= nodes.len(),
    ensures
        all_vnodes_upto(h, nodes, n).len() == quantity_sum(nodes.take(n)),
        forall|m: int|
            0 <= m < all_vnodes_upto(h, nodes, n).len() ==> (#[trigger] all_vnodes_upto(
                h,
                nodes,
                n,
            )[m]).node_index < n,
    decreases n,
{
    if n > 0 {
        lemma_all_vnodes_upto_props(h, nodes, n - 1);
        lemma_vnodes_for_node_props(h, nodes[n - 1].key@, (n - 1) as usize, nodes[n - 1].quantity as int);
        assert(nodes.take(n).drop_last() =~= nodes.take(n - 1));
        assert(nodes.take(n).last() == nodes[n - 1]);
    } else {
        assert(nodes.take(0) =~= Seq::<Node<V>>::empty());
    }
}

/// The `(hash, key)` order is transitive.
proof fn lemma_vnode_le_trans<V>(
    nodes: Seq<Node<V>>,
    a: VirtualNode,
    b: VirtualNode,
    c: VirtualNode,
)
    requires
        vnode_le(nodes, a, b),
        vnode_le(nodes, b, c),
    ensures
        vnode_le(nodes, a, c),
{
    let ka = nodes[a.node_index as int].key@;
    let kb = nodes[b.node_index as int].key@;
    let kc = nodes[c.node_index as int].key@;
    if a.hash == b.hash && b.hash == c.hash && lex_lt(ka, kb) && lex_lt(kb, kc) {
        lemma_lex_lt_trans(ka, kb, kc);
    }
}

/// What does not sort strictly after `b` sorts no later than it.
proof fn lemma_vnode_connected<V>(nodes: Seq<Node<V>>, a: VirtualNode, b: VirtualNode)
    ensures
        !vnode_lt(nodes, a, b) ==> vnode_le(nodes, b, a),
{
    lemma_lex_lt_connected(
        nodes[a.node_index as int].key@,
        nodes[b.node_index as int].key@,
    );
}

/// Reports whether some node of `nodes` has the key `key`.
fn contains_key<V>(nodes: &Vec<Node<V>>, key: &String) -> (r: bool)
    ensures
        r == has_key(nodes@, key@),
{
    let n = nodes.len();
    let mut j: usize = 0;
    while j < n
        invariant
            n == nodes@.len(),
            j <= n,
            forall|i: int| 0 <= i < j ==> (#[trigger] nodes@[i]).key@ != key@,
        decreases n - j,
    {
        if nodes[j].key == *key {
            proof {
                assert(nodes@[j as int].key@ == key@);
            }
            return true;
        }
        j = j + 1;
    }
    false
}

/// Compares two virtual nodes in the ring order `(hash, owner key)`.
fn vnode_before<V>(nodes: &Vec<Node<V>>, a: &VirtualNode, b: &VirtualNode) -> (r: bool)
    requires
        a.node_index < nodes@.len(),
        b.node_index < nodes@.len(),
    ensures
        r == vnode_lt(nodes@, *a, *b),
{
    if a.hash < b.hash {
        true
    } else if a.hash == b.hash {
        str_lt(nodes[a.node_index].key.as_str(), nodes[b.node_index].key.as_str())
    } else {
        false
    }
}

/// Finds the position in the sorted prefix `ring[..i]` where `x` belongs.
fn find_insert_pos<V>(
    nodes: &Vec<Node<V>>,
    ring: &Vec<VirtualNode>,
    i: usize,
    x: VirtualNode,
) -> (p: usize)
    requires
        i <= ring@.len(),
        ring_indices_ok(ring@, nodes@),
        x.node_index < nodes@.len(),
    ensures
        p <= i,
        forall|m: int| 0 <= m < p ==> !vnode_lt(nodes@, x, #[trigger] ring@[m]),
        p < i ==> vnode_lt(nodes@, x, ring@[p as int]),
{
    let mut p: usize = 0;
    while p < i
        invariant
            p <= i,
            i <= ring@.len(),
            ring_indices_ok(ring@, nodes@),
            x.node_index < nodes@.len(),
            forall|m: int| 0 <= m < p ==> !vnode_lt(nodes@, x, #[trigger] ring@[m]),
        decreases i - p,
    {
        let y = ring[p];
        if vnode_before(nodes, &x, &y) {
            return p;
        }
        p = p + 1;
    }
    p
}

/// Sorts the ring ascending by `(hash, owner key)` with an insertion sort.
fn sort_ring<V>(nodes: &Vec<Node<V>>, ring: &mut Vec<VirtualNode>)
    requires
        ring_indices_ok(old(ring)@, nodes@),
    ensures
        final(ring)@.len() == old(ring)@.len(),
        final(ring)@.to_multiset() == old(ring)@.to_multiset(),
        ring_indices_ok(final(ring)@, nodes@),
        ring_sorted(final(ring)@, nodes@),
{
    let ghost orig = ring@;
    let n = ring.len();
    if n <= 1 {
        return;
    }
    let mut i: usize = 1;
    while i < n
        invariant
            1 <= i <= n,
            n == ring@.len(),
            ring@.to_multiset() == orig.to_multiset(),
            ring_indices_ok(ring@, nodes@),
            ring_sorted(ring@.take(i as int), nodes@),
        decreases n - i,
    {
        let x = ring[i];
        let p = find_insert_pos(nodes, ring, i, x);
        let ghost before = ring@;
        let x2 = ring.remove(i);
        let ghost removed = ring@;
        ring.insert(p, x2);
        proof {
            broadcast use vstd::seq_lib::to_multiset_insert;
            broadcast use vstd::seq_lib::to_multiset_remove;
            broadcast use vstd::seq_lib::to_multiset_contains;

            assert(x2 == x);
            before.remove_ensures(i as int);
            removed.insert_ensures(p as int, x);
            assert(before.contains(x)) by {
                assert(before[i as int] == x);
            }
            assert(ring@.to_multiset() =~= before.to_multiset()) by {
                assert(removed.to_multiset() == before.to_multiset().remove(x));
                assert(ring@.to_multiset() == removed.to_multiset().insert(x));
                assert(before.to_multiset().count(x) > 0);
            }
            assert forall|m: int| 0 <= m < ring@.len() implies (#[trigger] ring@[m]).node_index
                < nodes@.len() by {
                if m < p {
                    assert(ring@[m] == removed[m]);
                } else if m == p {
                    assert(ring@[m] == x);
                } else {
                    assert(ring@[m] == removed[m - 1]);
                }
            }
            assert forall|u: int, v: int| 0 <= u < v < i + 1 implies vnode_le(
                nodes@,
                #[trigger] ring@[u],
                #[trigger] ring@[v],
            ) by {
                assert(forall|m: int| 0 <= m < i ==> removed[m] == before[m]);
                assert(forall|m: int| 0 <= m < p ==> ring@[m] == before[m]);
                assert(ring@[p as int] == x);
                assert(forall|m: int| p < m < i + 1 ==> ring@[m] == before[m - 1]);
                if v < p {
                    assert(vnode_le(nodes@, before[u], before[v]));
                } else if v == p {
                    lemma_vnode_connected(nodes@, x, before[u]);
                } else if u < p {
                    if u == v - 1 {
                        assert(false);
                    }
                    assert(vnode_le(nodes@, before[u], before[v - 1]));
                } else if u == p {
                    assert(p < i);
                    assert(vnode_lt(nodes@, x, before[p as int]));
                    if v - 1 > p {
                        lemma_vnode_le_trans(nodes@, x, before[p as int], before[v - 1]);
                    }
                } else {
                    assert(vnode_le(nodes@, before[u - 1], before[v - 1]));
                }
            }
            assert(ring_sorted(ring@.take(i + 1), nodes@)) by {
                assert(forall|m: int| 0 <= m < i + 1 ==> ring@.take(i + 1)[m] == ring@[m]);
            }
        }
        i = i + 1;
    }
    proof {
        assert(ring@.take(n as int) =~= ring@);
    }
}

/// The index of the first ring entry whose hash is at least `h`; the ring's
/// length when every entry hashes below `h`.
///
/// An item with hash `h` is treated as sorting before every virtual node of
/// equal hash, so the walk for it begins at this index.
pub open spec fn successor_start(ring: Seq<VirtualNode>, h: u64) -> int
    decreases ring.len(),
{
    if ring.len() == 0 {
        0
    } else if ring[0].hash >= h {
        0
    } else {
        1 + successor_start(ring.drop_first(), h)
    }
}

proof fn lemma_successor_start_props(ring: Seq<VirtualNode>, h: u64)
    ensures
        0 <= successor_start(ring, h) <= ring.len(),
        forall|m: int| 0 <= m < successor_start(ring, h) ==> (#[trigger] ring[m]).hash < h,
        successor_start(ring, h) < ring.len() ==> ring[successor_start(ring, h)].hash >= h,
    decreases ring.len(),
{
    if ring.len() > 0 && ring[0].hash < h {
        lemma_successor_start_props(ring.drop_first(), h);
        let s = successor_start(ring, h);
        assert forall|m: int| 0 <= m < s implies (#[trigger] ring[m]).hash < h by {
            if m > 0 {
                assert(ring[m] == ring.drop_first()[m - 1]);
            }
        }
        if s < ring.len() {
            assert(ring[s] == ring.drop_first()[s - 1]);
        }
    }
}

/// Binary search for the start of a walk: the first entry with hash at least
/// `h`.
fn find_start(ring: &Vec<VirtualNode>, h: u64) -> (r: usize)
    requires
        forall|k1: int, k2: int|
            0 <= k1 < k2 < ring@.len() ==> (#[trigger] ring@[k1]).hash <= (
            #[trigger] ring@[k2]).hash,
    ensures
        r == successor_start(ring@, h),
{
    let mut lo: usize = 0;
    let mut hi: usize = ring.len();
    while lo < hi
        invariant
            lo <= hi <= ring@.len(),
            forall|k1: int, k2: int|
                0 <= k1 < k2 < ring@.len() ==> (#[trigger] ring@[k1]).hash <= (
                #[trigger] ring@[k2]).hash,
            forall|m: int| 0 <= m < lo ==> (#[trigger] ring@[m]).hash < h,
            forall|m: int| hi <= m < ring@.len() ==> (#[trigger] ring@[m]).hash >= h,
        decreases hi - lo,
    {
        let mid = lo + (hi - lo) / 2;
        if ring[mid].hash < h {
            proof {
                assert forall|m: int| 0 <= m < mid + 1 implies (#[trigger] ring@[m]).hash < h by {
                    if m < mid {
                        assert(ring@[m].hash <= ring@[mid as int].hash);
                    }
                }
            }
            lo = mid + 1;
        } else {
            proof {
                assert forall|m: int| mid <= m < ring@.len() implies (#[trigger] ring@[m]).hash
                    >= h by {
                    if m > mid {
                        assert(ring@[mid as int].hash <= ring@[m].hash);
                    }
                }
            }
            hi = mid;
        }
    }
    proof {
        lemma_successor_start_props(ring@, h);
        let s = successor_start(ring@, h);
        if (lo as int) < s {
            assert(ring@[lo as int].hash < h);
        }
        if s < lo as int {
            assert(ring@[s].hash < h);
        }
    }
    lo
}

/// The owners of the ring's entries, rotated to begin at `start`.
pub open spec fn rotated_owners(ring: Seq<VirtualNode>, start: int) -> Seq<usize> {
    (ring.subrange(start, ring.len() as int) + ring.subrange(0, start)).map_values(
        |vn: VirtualNode| vn.node_index,
    )
}

/// The walk position of step `k`: `start + k`, wrapped at the ring's end.
pub open spec fn walk_pos(len: int, start: int, k: int) -> int {
    if start + k < len {
        start + k
    } else {
        start + k - len
    }
}

proof fn lemma_rotated_owners_index(ring: Seq<VirtualNode>, start: int, k: int)
    requires
        0 <= start <= ring.len(),
        0 <= k < ring.len(),
    ensures
        rotated_owners(ring, start).len() == ring.len(),
        rotated_owners(ring, start)[k] == ring[walk_pos(ring.len() as int, start, k)].node_index,
{
}

/// The sequence with every element dropped that is in `seen` or occurred
/// earlier: the first occurrences, in order.
pub open spec fn dedup_seen(s: Seq<usize>, seen: Set<usize>) -> Seq<usize>
    decreases s.len(),
{
    if s.len() == 0 {
        Seq::empty()
    } else if seen.contains(s[0]) {
        dedup_seen(s.drop_first(), seen)
    } else {
        seq![s[0]] + dedup_seen(s.drop_first(), seen.insert(s[0]))
    }
}

/// The node indices that a candidate walk for item hash `h` yields, in order:
/// each ring entry's owner from the successor of `h` on, wrapping around,
/// with every owner kept at its first occurrence only.
pub open spec fn candidate_indices(ring: Seq<VirtualNode>, h: u64) -> Seq<usize> {
    dedup_seen(rotated_owners(ring, successor_start(ring, h)), Set::empty())
}

/// The ring position that a removal walk for item hash `h` removes when it
/// stops on the owner `owner`: the position of that owner's first virtual
/// node from the walk's start.
pub open spec fn removal_pos(ring: Seq<VirtualNode>, h: u64, owner: usize) -> int {
    walk_pos(
        ring.len() as int,
        successor_start(ring, h),
        first_at(rotated_owners(ring, successor_start(ring, h)), owner),
    )
}

/// The index of the first occurrence of `x` in `s`.
pub open spec fn first_at(s: Seq<usize>, x: usize) -> int
    decreases s.len(),
{
    if s.len() == 0 {
        0
    } else if s[0] == x {
        0
    } else {
        1 + first_at(s.drop_first(), x)
    }
}

proof fn lemma_take_push_contains(s: Seq<usize>, k: int, x: usize)
    requires
        0 <= k < s.len(),
    ensures
        s.take(k + 1).contains(x) <==> (s.take(k).contains(x) || s[k] == x),
{
    if s.take(k + 1).contains(x) {
        let i = choose|i: int| 0 <= i < s.take(k + 1).len() && #[trigger] s.take(k + 1)[i] == x;
        if i < k {
            assert(s.take(k)[i] == x);
        }
    }
    if s.take(k).contains(x) {
        let i = choose|i: int| 0 <= i < s.take(k).len() && #[trigger] s.take(k)[i] == x;
        assert(s.take(k + 1)[i] == x);
    }
    if s[k] == x {
        assert(s.take(k + 1)[k] == x);
    }
}

proof fn lemma_first_at(s: Seq<usize>, x: usize, k: int)
    requires
        0 <= k < s.len(),
        s[k] == x,
        !s.take(k).contains(x),
    ensures
        first_at(s, x) == k,
    decreases k,
{
    if k == 0 {
    } else {
        assert(s[0] != x) by {
            if s[0] == x {
                assert(s.take(k)[0] == x);
            }
        }
        assert(s.drop_first()[k - 1] == s[k]);
        assert(!s.drop_first().take(k - 1).contains(x)) by {
            if s.drop_first().take(k - 1).contains(x) {
                let i = choose|i: int|
                    0 <= i < s.drop_first().take(k - 1).len() && #[trigger] s.drop_first().take(
                        k - 1,
                    )[i] == x;
                assert(s.take(k)[i + 1] == x);
            }
        }
        lemma_first_at(s.drop_first(), x, k - 1);
    }
}

proof fn lemma_cands_first(rot: Seq<usize>)
    requires
        rot.len() > 0,
    ensures
        dedup_seen(rot, Set::empty()).len() > 0,
        dedup_seen(rot, Set::empty())[0] == rot[0],
        first_at(rot, rot[0]) == 0,
{
    assert(dedup_seen(rot, Set::empty()) == seq![rot[0]] + dedup_seen(
        rot.drop_first(),
        Set::empty().insert(rot[0]),
    ));
}

/// The owners of the ring's remaining virtual nodes: exactly the real nodes
/// that are still live.
pub open spec fn live_owners(ring: Seq<VirtualNode>) -> Set<usize> {
    ring.map_values(|vn: VirtualNode| vn.node_index).to_set()
}

proof fn lemma_dedup_seen_props(s: Seq<usize>, seen: Set<usize>)
    ensures
        dedup_seen(s, seen).no_duplicates(),
        forall|x: usize|
            dedup_seen(s, seen).contains(x) <==> (s.contains(x) && !seen.contains(x)),
    decreases s.len(),
{
    if s.len() > 0 {
        let d = dedup_seen(s, seen);
        if seen.contains(s[0]) {
            lemma_dedup_seen_props(s.drop_first(), seen);
            assert forall|x: usize| d.contains(x) implies (s.contains(x) && !seen.contains(
                x,
            )) by {
                assert(s.drop_first().contains(x));
                let i = choose|i: int|
                    0 <= i < s.drop_first().len() && #[trigger] s.drop_first()[i] == x;
                assert(s[i + 1] == x);
            }
            assert forall|x: usize| (s.contains(x) && !seen.contains(x)) implies d.contains(
                x,
            ) by {
                let i = choose|i: int| 0 <= i < s.len() && #[trigger] s[i] == x;
                assert(i > 0);
                assert(s.drop_first()[i - 1] == x);
            }
        } else {
            let rest = dedup_seen(s.drop_first(), seen.insert(s[0]));
            lemma_dedup_seen_props(s.drop_first(), seen.insert(s[0]));
            assert(d == seq![s[0]] + rest);
            assert forall|x: usize| d.contains(x) implies (s.contains(x) && !seen.contains(
                x,
            )) by {
                let i = choose|i: int| 0 <= i < d.len() && #[trigger] d[i] == x;
                if i == 0 {
                    assert(s[0] == x);
                } else {
                    assert(rest[i - 1] == x);
                    assert(rest.contains(x));
                    assert(s.drop_first().contains(x));
                    let m = choose|m: int|
                        0 <= m < s.drop_first().len() && #[trigger] s.drop_first()[m] == x;
                    assert(s[m + 1] == x);
                }
            }
            assert forall|x: usize| (s.contains(x) && !seen.contains(x)) implies d.contains(
                x,
            ) by {
                if x == s[0] {
                    assert(d[0] == x);
                } else {
                    let i = choose|i: int| 0 <= i < s.len() && #[trigger] s[i] == x;
                    assert(i > 0);
                    assert(s.drop_first()[i - 1] == x);
                    assert(s.drop_first().contains(x));
                    assert(rest.contains(x));
                    let m = choose|m: int| 0 <= m < rest.len() && #[trigger] rest[m] == x;
                    assert(d[m + 1] == x);
                }
            }
            assert forall|i: int, j: int| 0 <= i < j < d.len() implies d[i] != d[j] by {
                if i == 0 {
                    assert(d[j] == rest[j - 1]);
                    assert(rest.contains(rest[j - 1]));
                    assert(!seen.insert(s[0]).contains(rest[j - 1]));
                } else {
                    assert(d[i] == rest[i - 1]);
                    assert(d[j] == rest[j - 1]);
                }
            }
        }
    }
}

/// For any key, candidate resolution yields each live real node exactly
/// once: the candidate list has no duplicates, it holds exactly the owners
/// of the ring's remaining virtual nodes, and its length is the number of
/// real nodes that still own at least one virtual node.
pub proof fn lemma_candidates_each_live_node_once(ring: Seq<VirtualNode>, h: u64)
    ensures
        candidate_indices(ring, h).no_duplicates(),
        forall|x: usize| candidate_indices(ring, h).contains(x) <==> live_owners(ring).contains(x),
        candidate_indices(ring, h).len() == live_owners(ring).len(),
{
    let start = successor_start(ring, h);
    lemma_successor_start_props(ring, h);
    let rot = rotated_owners(ring, start);
    let owners = ring.map_values(|vn: VirtualNode| vn.node_index);
    let cands = candidate_indices(ring, h);
    lemma_dedup_seen_props(rot, Set::empty());
    let len = ring.len() as int;
    assert forall|x: usize| rot.contains(x) implies owners.contains(x) by {
        let i = choose|i: int| 0 <= i < rot.len() && #[trigger] rot[i] == x;
        lemma_rotated_owners_index(ring, start, i);
        assert(owners[walk_pos(len, start, i)] == x);
    }
    assert forall|x: usize| owners.contains(x) implies rot.contains(x) by {
        let k = choose|k: int| 0 <= k < owners.len() && #[trigger] owners[k] == x;
        let i = if k >= start {
            k - start
        } else {
            k + len - start
        };
        lemma_rotated_owners_index(ring, start, i);
        assert(walk_pos(len, start, i) == k);
        assert(rot[i] == x);
    }
    assert forall|x: usize| cands.contains(x) <==> live_owners(ring).contains(x) by {
        assert(cands.contains(x) <==> (rot.contains(x) && !Set::<usize>::empty().contains(x)));
        assert(owners.to_set().contains(x) <==> owners.contains(x));
    }
    cands.unique_seq_to_set();
    assert(cands.to_set() =~= live_owners(ring));
}

/// A real node that no longer owns any virtual node never appears among the
/// candidates, though it stays registered in the ring's node list.
pub proof fn lemma_exhausted_node_not_candidate(ring: Seq<VirtualNode>, h: u64, x: usize)
    requires
        forall|k: int| 0 <= k < ring.len() ==> (#[trigger] ring[k]).node_index != x,
    ensures
        !candidate_indices(ring, h).contains(x),
{
    let start = successor_start(ring, h);
    lemma_successor_start_props(ring, h);
    let rot = rotated_owners(ring, start);
    lemma_dedup_seen_props(rot, Set::empty());
    if candidate_indices(ring, h).contains(x) {
        assert(rot.contains(x));
        let i = choose|i: int| 0 <= i < rot.len() && #[trigger] rot[i] == x;
        lemma_rotated_owners_index(ring, start, i);
        assert(ring[walk_pos(ring.len() as int, start, i)].node_index == x);
        assert(false);
    }
}

/// The set of distinct keys of `nodes`.
pub open spec fn key_set<V>(nodes: Seq<Node<V>>) -> Set<Seq<char>> {
    nodes.map_values(|n: Node<V>| n.key@).to_set()
}

/// A construction from `nodes` keeps one real node for each distinct input
/// key: the deduplicated node list is as long as the input's key set.
pub proof fn lemma_real_node_count<V>(nodes: Seq<Node<V>>)
    ensures
        dedup_keys(nodes).len() == key_set(nodes).len(),
{
    lemma_dedup_keys_props(nodes);
    let d = dedup_keys(nodes);
    let dk = d.map_values(|n: Node<V>| n.key@);
    let nk = nodes.map_values(|n: Node<V>| n.key@);
    assert forall|i: int, j: int| 0 <= i < j < dk.len() implies dk[i] != dk[j] by {
        assert(d[i].key@ != d[j].key@);
    }
    assert(dk.no_duplicates());
    dk.unique_seq_to_set();
    assert forall|key: Seq<char>| dk.contains(key) implies nk.contains(key) by {
        let i = choose|i: int| 0 <= i < dk.len() && #[trigger] dk[i] == key;
        assert(d[i].key@ == key);
        assert(has_key(d, key));
        assert(has_key(nodes, key));
        let j = choose|j: int| 0 <= j < nodes.len() && #[trigger] nodes[j].key@ == key;
        assert(nk[j] == key);
    }
    assert forall|key: Seq<char>| nk.contains(key) implies dk.contains(key) by {
        let i = choose|i: int| 0 <= i < nk.len() && #[trigger] nk[i] == key;
        assert(nodes[i].key@ == key);
        assert(has_key(nodes, key));
        assert(has_key(d, key));
        let j = choose|j: int| 0 <= j < d.len() && #[trigger] d[j].key@ == key;
        assert(dk[j] == key);
    }
    assert(dk.to_set() =~= nk.to_set());
}

/// Candidate resolution is a pure function of the ring state and the item's
/// hash: two walks over one ring state with one key yield the same sequence.
pub proof fn lemma_candidates_deterministic(
    ring1: Seq<VirtualNode>,
    ring2: Seq<VirtualNode>,
    h1: u64,
    h2: u64,
)
    requires
        ring1 == ring2,
        h1 == h2,
    ensures
        candidate_indices(ring1, h1) == candidate_indices(ring2, h2),
{
}

/// Removing one entry keeps the ring well formed.
proof fn lemma_ring_remove_keeps_wf<V>(ring: Seq<VirtualNode>, nodes: Seq<Node<V>>, p: int)
    requires
        ring_indices_ok(ring, nodes),
        ring_sorted(ring, nodes),
        0 <= p < ring.len(),
    ensures
        ring_indices_ok(ring.remove(p), nodes),
        ring_sorted(ring.remove(p), nodes),
{
    ring.remove_ensures(p);
    let r = ring.remove(p);
    assert forall|m: int| 0 <= m < r.len() implies (#[trigger] r[m]).node_index < nodes.len() by {
        if m < p {
            assert(r[m] == ring[m]);
        } else {
            assert(r[m] == ring[m + 1]);
        }
    }
    assert forall|u: int, v: int| 0 <= u < v < r.len() implies vnode_le(
        nodes,
        #[trigger] r[u],
        #[trigger] r[v],
    ) by {
        let u0 = if u < p {
            u
        } else {
            u + 1
        };
        let v0 = if v < p {
            v
        } else {
            v + 1
        };
        assert(r[u] == ring[u0]);
        assert(r[v] == ring[v0]);
        assert(vnode_le(nodes, ring[u0], ring[v0]));
    }
}

impl<V, H: RingHash> StaticHashRing<V, H> {
    /// The hash strategy of this ring.
    pub closed spec fn spec_hash(self) -> H {
        self.hash
    }

    /// The real nodes of this ring.
    pub closed spec fn spec_nodes(self) -> Seq<Node<V>> {
        self.nodes@
    }

    /// The ring of virtual nodes, sorted by `(hash, owner key)`.
    pub closed spec fn spec_ring(self) -> Seq<VirtualNode> {
        self.ring@
    }

    /// The node indices that a candidate walk for `item` yields, in order.
    pub open spec fn spec_candidates(self, item: Seq<char>) -> Seq<usize> {
        candidate_indices(self.spec_ring(), self.spec_hash().hash_item_spec(item))
    }

    /// The ring's invariant: keys are unique, and the ring is a sorted
    /// sequence of positions owned by registered nodes.
    pub open spec fn wf(self) -> bool {
        &&& unique_keys(self.spec_nodes())
        &&& ring_indices_ok(self.spec_ring(), self.spec_nodes())
        &&& ring_sorted(self.spec_ring(), self.spec_nodes())
    }

    /// Makes a new `StaticHashRing` instance.
    ///
    /// If multiple nodes with the same key are contained in `nodes`, all of
    /// those nodes but the first one are ignored. Which duplicate survives is
    /// implementation-defined; callers should not rely on it.
    pub fn new(hash: H, nodes: Vec<Node<V>>) -> (r: StaticHashRing<V, H>)
        ensures
            r.wf(),
            r.spec_hash() == hash,
            r.spec_nodes() == dedup_keys(nodes@),
            r.spec_ring().to_multiset() == all_vnodes(hash, dedup_keys(nodes@)).to_multiset(),
            r.spec_ring().len() == quantity_sum(dedup_keys(nodes@)),
    {
        let ghost orig = nodes@;
        let mut input = nodes;
        let mut kept: Vec<Node<V>> = Vec::new();
        let ghost mut k: int = 0;
        proof {
            assert(orig.take(0) =~= Seq::<Node<V>>::empty());
            assert(orig.skip(0) =~= orig);
        }
        while input.len() > 0
            invariant
                0 <= k <= orig.len(),
                input@ == orig.skip(k),
                kept@ == dedup_keys(orig.take(k)),
            decreases input@.len(),
        {
            proof {
                assert(orig.skip(k)[0] == orig[k]);
            }
            let nd = input.remove(0);
            proof {
                assert(input@ =~= orig.skip(k + 1));
                lemma_dedup_keys_props(orig.take(k));
                assert(orig.take(k + 1).drop_last() =~= orig.take(k));
                assert(orig.take(k + 1).last() == orig[k]);
            }
            let dup = contains_key(&kept, &nd.key);
            if !dup {
                kept.push(nd);
            }
            proof {
                k = k + 1;
                assert(kept@ == dedup_keys(orig.take(k)));
            }
        }
        proof {
            assert(orig.skip(k).len() == 0);
            assert(orig.take(k) =~= orig);
            lemma_dedup_keys_props(orig);
        }
        let mut ring: Vec<VirtualNode> = Vec::new();
        let n_nodes = kept.len();
        let mut i: usize = 0;
        proof {
            assert(ring@ =~= all_vnodes_upto(hash, kept@, 0));
        }
        while i < n_nodes
            invariant
                i <= n_nodes,
                n_nodes == kept@.len(),
                ring@ == all_vnodes_upto(hash, kept@, i as int),
            decreases n_nodes - i,
        {
            let q = kept[i].quantity;
            let mut j: usize = 0;
            proof {
                assert(vnodes_for_node(hash, kept@[i as int].key@, i, 0) =~= Seq::<
                    VirtualNode,
                >::empty());
                assert(ring@ =~= ring@ + vnodes_for_node(hash, kept@[i as int].key@, i, 0));
            }
            while j < q
                invariant
                    j <= q,
                    i < n_nodes,
                    n_nodes == kept@.len(),
                    q == kept@[i as int].quantity,
                    ring@ == all_vnodes_upto(hash, kept@, i as int) + vnodes_for_node(
                        hash,
                        kept@[i as int].key@,
                        i,
                        j as int,
                    ),
                decreases q - j,
            {
                let h = hash.hash_vnode(kept[i].key.as_str(), j);
                ring.push(VirtualNode { hash: h, node_index: i });
                proof {
                    assert(vnodes_for_node(hash, kept@[i as int].key@, i, j + 1)
                        == vnodes_for_node(hash, kept@[i as int].key@, i, j as int).push(
                        VirtualNode { hash: h, node_index: i },
                    ));
                    assert(ring@ =~= all_vnodes_upto(hash, kept@, i as int) + vnodes_for_node(
                        hash,
                        kept@[i as int].key@,
                        i,
                        j + 1,
                    ));
                }
                j = j + 1;
            }
            proof {
                assert(all_vnodes_upto(hash, kept@, i + 1) == all_vnodes_upto(
                    hash,
                    kept@,
                    i as int,
                ) + vnodes_for_node(
                    hash,
                    kept@[i as int].key@,
                    i,
                    kept@[i as int].quantity as int,
                ));
            }
            i = i + 1;
        }
        proof {
            lemma_all_vnodes_upto_props(hash, kept@, kept@.len() as int);
            assert(kept@.take(kept@.len() as int) =~= kept@);
        }
        sort_ring(&kept, &mut ring);
        let r = StaticHashRing { hash, nodes: kept, ring };
        proof {
            broadcast use vstd::seq_lib::to_multiset_len;

        }
        r
    }

    /// Returns the candidate nodes for `item`.
    ///
    /// The higher priority node is located in front of the returned sequence.
    /// Each real node that still owns at least one virtual node occurs
    /// exactly once; a walk over the whole ring state is read-only, so two
    /// calls on one state return the same sequence.
    pub fn calc_candidates<'a>(&'a self, item: &str) -> (r: Vec<&'a Node<V>>)
        requires
            self.wf(),
        ensures
            r@.len() == self.spec_candidates(item@).len(),
            forall|t: int|
                0 <= t < self.spec_candidates(item@).len() ==> self.spec_candidates(item@)[t]
                    < self.spec_nodes().len() && *(#[trigger] r@[t]) == self.spec_nodes()[self.spec_candidates(
                    item@,
                )[t] as int],
    {
        let item_hash = self.hash.hash_item(item);
        proof {
            assert forall|k1: int, k2: int| 0 <= k1 < k2 < self.spec_ring().len() implies (
            #[trigger] self.spec_ring()[k1]).hash <= (#[trigger] self.spec_ring()[k2]).hash by {
                assert(vnode_le(self.spec_nodes(), self.spec_ring()[k1], self.spec_ring()[k2]));
            }
        }
        let start = find_start(&self.ring, item_hash);
        let len = self.ring.len();
        let ghost rot = rotated_owners(self.spec_ring(), start as int);
        let mut seen = seen_new();
        let mut result: Vec<&Node<V>> = Vec::new();
        let ghost mut picked: Seq<usize> = Seq::empty();
        let mut k: usize = 0;
        proof {
            lemma_successor_start_props(self.spec_ring(), item_hash);
            assert(rot.skip(0) =~= rot);
            assert(picked + dedup_seen(rot, Set::empty()) =~= dedup_seen(rot, Set::empty()));
        }
        while k < len
            invariant
                self.wf(),
                k <= len,
                len == self.spec_ring().len(),
                0 <= start <= len,
                rot == rotated_owners(self.spec_ring(), start as int),
                rot.len() == len,
                dedup_seen(rot, Set::empty()) == picked + dedup_seen(
                    rot.skip(k as int),
                    seen_set_view(seen),
                ),
                result@.len() == picked.len(),
                forall|t: int| 0 <= t < picked.len() ==> (#[trigger] picked[t]) < self.spec_nodes().len(),
                forall|t: int|
                    0 <= t < picked.len() ==> *(#[trigger] result@[t]) == self.spec_nodes()[picked[t] as int],
            decreases len - k,
        {
            let pos = if k < len - start {
                start + k
            } else {
                k - (len - start)
            };
            proof {
                lemma_rotated_owners_index(self.spec_ring(), start as int, k as int);
                assert(pos as int == walk_pos(len as int, start as int, k as int));
                assert(rot.skip(k as int)[0] == rot[k as int]);
                assert(rot.skip(k as int).drop_first() =~= rot.skip(k + 1));
            }
            let owner = self.ring[pos].node_index;
            let ghost seen_before = seen_set_view(seen);
            let is_seen = seen_contains(&mut seen, owner);
            if !is_seen {
                seen_insert(&mut seen, owner);
                proof {
                    assert(self.spec_ring()[pos as int].node_index < self.spec_nodes().len());
                }
                let nref = &self.nodes[owner];
                proof {
                    assert(owner < self.spec_nodes().len());
                    assert(*nref == self.spec_nodes()[owner as int]);
                }
                let ghost result_old = result@;
                result.push(nref);
                proof {
                    assert(dedup_seen(rot.skip(k as int), seen_before) == seq![owner]
                        + dedup_seen(rot.skip(k + 1), seen_before.insert(owner)));
                    let picked_old = picked;
                    assert(picked_old + (seq![owner] + dedup_seen(
                        rot.skip(k + 1),
                        seen_before.insert(owner),
                    )) =~= picked_old.push(owner) + dedup_seen(
                        rot.skip(k + 1),
                        seen_before.insert(owner),
                    ));
                    picked = picked_old.push(owner);
                    assert forall|t: int| 0 <= t < picked.len() implies (#[trigger] picked[t])
                        < self.spec_nodes().len() && result@[t]
                        == self.spec_nodes()[picked[t] as int] by {
                        if t < picked_old.len() {
                            assert(picked[t] == picked_old[t]);
                            assert(result@[t] == result_old[t]);
                        } else {
                            assert(picked[t] == owner);
                            assert(result@[t] == nref);
                        }
                    }
                }
            } else {
                proof {
                    assert(dedup_seen(rot.skip(k as int), seen_before) == dedup_seen(
                        rot.skip(k + 1),
                        seen_before,
                    ));
                }
            }
            k = k + 1;
        }
        proof {
            assert(rot.skip(len as int).len() == 0);
            assert(dedup_seen(rot, Set::empty()) =~= picked);
        }
        result
    }

    /// Removes the virtual node which is associated to `item` and returns the
    /// reference to its node.
    ///
    /// On a non-empty ring this removes exactly the entry at the successor
    /// position of the item's hash and returns its owner; on an empty ring it
    /// returns nothing. Real nodes are never removed.
    pub fn take<'a>(&'a mut self, item: &str) -> (r: Option<&'a Node<V>>)
        requires
            old(self).wf(),
        ensures
            final(self).wf(),
            final(self).spec_nodes() == old(self).spec_nodes(),
            final(self).spec_hash() == old(self).spec_hash(),
            old(self).spec_ring().len() == 0 ==> r is None && final(self).spec_ring() == old(
                self,
            ).spec_ring(),
            old(self).spec_ring().len() > 0 ==> ({
                let ring0 = old(self).spec_ring();
                let start = successor_start(
                    ring0,
                    old(self).spec_hash().hash_item_spec(item@),
                );
                let p = if start < ring0.len() {
                    start
                } else {
                    0
                };
                &&& (r matches Some(n) && *n == old(self).spec_nodes()[ring0[p].node_index as int])
                &&& final(self).spec_ring() == ring0.remove(p)
                &&& final(self).spec_ring().len() == ring0.len() - 1
            }),
    {
        let len = self.ring.len();
        if len == 0 {
            return None;
        }
        let item_hash = self.hash.hash_item(item);
        proof {
            assert forall|k1: int, k2: int| 0 <= k1 < k2 < self.spec_ring().len() implies (
            #[trigger] self.spec_ring()[k1]).hash <= (#[trigger] self.spec_ring()[k2]).hash by {
                assert(vnode_le(self.spec_nodes(), self.spec_ring()[k1], self.spec_ring()[k2]));
            }
        }
        let start = find_start(&self.ring, item_hash);
        let p = if start < len {
            start
        } else {
            0
        };
        proof {
            lemma_successor_start_props(self.spec_ring(), item_hash);
            lemma_ring_remove_keeps_wf(self.spec_ring(), self.spec_nodes(), p as int);
            assert(self.spec_ring()[p as int].node_index < self.spec_nodes().len());
        }
        let vn = self.ring.remove(p);
        Some(&self.nodes[vn.node_index])
    }

    /// Removes the virtual node which has the highest priority for `item`
    /// among those satisfying the predicate `f`, and returns the reference to
    /// its node.
    ///
    /// The walk visits the first virtual node of each distinct real node in
    /// candidate order; the first visited node on which `f` returns true has
    /// that virtual node removed. When `f` rejects every candidate, the ring
    /// is left unchanged and nothing is returned.
    pub fn take_if<'a, F: Fn(&Node<V>) -> bool>(&'a mut self, item: &str, f: F) -> (r: Option<
        &'a Node<V>,
    >)
        requires
            old(self).wf(),
            forall|n: &Node<V>| #[trigger] f.requires((n,)),
        ensures
            final(self).wf(),
            final(self).spec_nodes() == old(self).spec_nodes(),
            final(self).spec_hash() == old(self).spec_hash(),
            r is None ==> final(self).spec_ring() == old(self).spec_ring() && (forall|m: int|
                0 <= m < old(self).spec_candidates(item@).len() ==> f.ensures(
                    (&old(self).spec_nodes()[#[trigger] old(self).spec_candidates(item@)[m] as int],),
                    false,
                )),
            r matches Some(n) ==> (exists|j: int|
                {
                    &&& 0 <= j < old(self).spec_candidates(item@).len()
                    &&& forall|m: int|
                        0 <= m < j ==> f.ensures(
                            (&old(self).spec_nodes()[old(self).spec_candidates(item@)[m] as int],),
                            false,
                        )
                    &&& f.ensures(
                        (
                            &old(self).spec_nodes()[#[trigger] old(self).spec_candidates(
                                item@,
                            )[j] as int],
                        ),
                        true,
                    )
                    &&& *n == old(self).spec_nodes()[old(self).spec_candidates(item@)[j] as int]
                    &&& final(self).spec_ring().len() == old(self).spec_ring().len() - 1
                    &&& final(self).spec_ring() == old(self).spec_ring().remove(
                        removal_pos(
                            old(self).spec_ring(),
                            old(self).spec_hash().hash_item_spec(item@),
                            old(self).spec_candidates(item@)[j],
                        ),
                    )
                }),
    {
        let item_hash = self.hash.hash_item(item);
        proof {
            assert forall|k1: int, k2: int| 0 <= k1 < k2 < self.spec_ring().len() implies (
            #[trigger] self.spec_ring()[k1]).hash <= (#[trigger] self.spec_ring()[k2]).hash by {
                assert(vnode_le(self.spec_nodes(), self.spec_ring()[k1], self.spec_ring()[k2]));
            }
        }
        let start = find_start(&self.ring, item_hash);
        let len = self.ring.len();
        let ghost ring0 = self.spec_ring();
        let ghost rot = rotated_owners(ring0, start as int);
        let ghost cands = dedup_seen(rot, Set::empty());
        let mut seen = seen_new();
        let ghost mut tested: Seq<usize> = Seq::empty();
        let mut k: usize = 0;
        proof {
            lemma_successor_start_props(ring0, item_hash);
            assert(rot.skip(0) =~= rot);
            assert(rot.take(0) =~= Seq::<usize>::empty());
            assert(tested + dedup_seen(rot, Set::empty()) =~= cands);
        }
        while k < len
            invariant
                self.wf(),
                *self == *old(self),
                forall|n: &Node<V>| #[trigger] f.requires((n,)),
                k <= len,
                len == ring0.len(),
                ring0 == self.spec_ring(),
                0 <= start <= len,
                start == successor_start(ring0, item_hash),
                item_hash == self.spec_hash().hash_item_spec(item@),
                rot == rotated_owners(ring0, start as int),
                rot.len() == len,
                cands == dedup_seen(rot, Set::empty()),
                cands == tested + dedup_seen(rot.skip(k as int), seen_set_view(seen)),
                forall|x: usize|
                    seen_set_view(seen).contains(x) <==> rot.take(k as int).contains(
                        x,
                    ),
                forall|m: int|
                    0 <= m < tested.len() ==> f.ensures(
                        (&old(self).spec_nodes()[#[trigger] tested[m] as int],),
                        false,
                    ),
            decreases len - k,
        {
            let pos = if k < len - start {
                start + k
            } else {
                k - (len - start)
            };
            proof {
                lemma_rotated_owners_index(ring0, start as int, k as int);
                assert(pos as int == walk_pos(len as int, start as int, k as int));
                assert(rot.skip(k as int)[0] == rot[k as int]);
                assert(rot.skip(k as int).drop_first() =~= rot.skip(k + 1));
                lemma_take_push_contains(rot, k as int, rot[k as int]);
            }
            let owner = self.ring[pos].node_index;
            let ghost seen_before = seen_set_view(seen);
            let is_seen = seen_contains(&mut seen, owner);
            if !is_seen {
                proof {
                    assert(owner < self.spec_nodes().len());
                    assert(dedup_seen(rot.skip(k as int), seen_before) == seq![owner]
                        + dedup_seen(rot.skip(k + 1), seen_before.insert(owner)));
                    assert(cands[tested.len() as int] == owner);
                }
                let hit = f(&self.nodes[owner]);
                if hit {
                    proof {
                        assert(f.ensures((&old(self).spec_nodes()[owner as int],), true));
                        assert(!rot.take(k as int).contains(owner));
                        lemma_first_at(rot, owner, k as int);
                        lemma_ring_remove_keeps_wf(ring0, self.spec_nodes(), pos as int);
                    }
                    let vn = self.ring.remove(pos);
                    let nref = &self.nodes[vn.node_index];
                    proof {
                        let cs = old(self).spec_candidates(item@);
                        assert(cs == cands);
                        let j = tested.len() as int;
                        assert(0 <= j < cs.len());
                        assert(cs[j] == owner);
                        assert(vn == ring0[pos as int]);
                        assert(vn.node_index == owner);
                        assert(*nref == old(self).spec_nodes()[cs[j] as int]);
                        assert(f.ensures((&old(self).spec_nodes()[cs[j] as int],), true));
                        assert forall|m: int| 0 <= m < j implies f.ensures(
                            (&old(self).spec_nodes()[cs[m] as int],),
                            false,
                        ) by {
                            assert(cs[m] == tested[m]);
                        }
                        assert(first_at(rot, owner) == k as int);
                        assert(removal_pos(ring0, item_hash, cs[j]) == pos as int);
                        assert(self.spec_ring() == ring0.remove(
                            removal_pos(ring0, item_hash, cs[j]),
                        ));
                    }
                    return Some(nref);
                }
                seen_insert(&mut seen, owner);
                proof {
                    assert(f.ensures((&old(self).spec_nodes()[owner as int],), false));
                    let tested_old = tested;
                    assert(tested_old + (seq![owner] + dedup_seen(
                        rot.skip(k + 1),
                        seen_before.insert(owner),
                    )) =~= tested_old.push(owner) + dedup_seen(
                        rot.skip(k + 1),
                        seen_before.insert(owner),
                    ));
                    tested = tested_old.push(owner);
                    assert forall|m: int| 0 <= m < tested.len() implies f.ensures(
                        (&old(self).spec_nodes()[#[trigger] tested[m] as int],),
                        false,
                    ) by {
                        if m < tested_old.len() {
                            assert(tested[m] == tested_old[m]);
                        } else {
                            assert(tested[m] == owner);
                        }
                    }
                }
            } else {
                proof {
                    assert(dedup_seen(rot.skip(k as int), seen_before) == dedup_seen(
                        rot.skip(k + 1),
                        seen_before,
                    ));
                    assert(rot.take(k as int).contains(owner));
                }
            }
            k = k + 1;
        }
        proof {
            assert(rot.skip(len as int).len() == 0);
            assert(cands =~= tested);
        }
        None
    }

    /// Returns the count of the virtual nodes in this ring.
    pub fn len(&self) -> (r: usize)
        ensures
            r == self.spec_ring().len(),
    {
        self.ring.len()
    }

    /// Returns the count of the virtual nodes in this ring.
    ///
    /// This is the same count as [`StaticHashRing::len`], under the name that
    /// keeps it apart from the real node count.
    pub fn virtual_node_count(&self) -> (r: usize)
        ensures
            r == self.spec_ring().len(),
    {
        self.ring.len()
    }

    /// Returns the count of the real nodes in this ring.
    ///
    /// Real nodes are fixed at construction: removals only ever shrink the
    /// virtual node count.
    pub fn real_node_count(&self) -> (r: usize)
        ensures
            r == self.spec_nodes().len(),
    {
        self.nodes.len()
    }

    /// Returns the real nodes contained in this ring.
    ///
    /// Note that the order of the returned nodes is unspecified.
    pub fn nodes(&self) -> (r: &[Node<V>])
        ensures
            r@ == self.spec_nodes(),
    {
        self.nodes.as_slice()
    }
}

} // verus!

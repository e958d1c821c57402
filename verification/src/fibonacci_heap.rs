//! Fibonacci heap: a forest of heap-ordered multi-way trees whose roots are
//! linked into a circular ring, with per-node child rings, mark bits and the
//! cut / cascading-cut and consolidation engines.  Nodes live in an
//! index-addressed arena; `left`/`right`/`parent`/`child` are slot indices,
//! never owning pointers.
//!
//! The physical rings are shadowed by ghost state: `ring` lists the root
//! ring in cyclic order starting at the minimum, `childs` lists each live
//! node's child ring starting at its designated child, and `anc` holds each
//! live node's chain of ancestors up to its tree root.  Well-formedness ties
//! the ghost state to the link fields, and the heap-order invariant along
//! `anc` chains is what makes the minimum pointer trustworthy.

use vstd::prelude::*;

use crate::HeapError;
use crate::NOT_IN_HEAP;

verus! {

/// An arena node.  `entry` is the `(id, key)` item; `degree` counts direct
/// children; `mark` records whether this node lost a child since it last
/// became a child itself; `left`/`right` are the sibling links of whichever
/// ring currently holds the node (a detached node links to itself).
pub struct Node {
    pub entry: (usize, i64),
    pub degree: usize,
    pub mark: bool,
    pub parent: Option<usize>,
    pub child: Option<usize>,
    pub left: usize,
    pub right: usize,
}

/// `r` lists a circular ring of slots of `ns` in cyclic order: each member's
/// `right` is the next member (wrapping around) and `left` the previous one.
pub open spec fn ring_linked(ns: Seq<Node>, r: Seq<usize>) -> bool {
    &&& forall|k: int| 0 <= k < r.len() ==> (#[trigger] r[k]) < ns.len()
    &&& forall|k: int| 0 <= k < r.len() - 1
        ==> ns[(#[trigger] r[k]) as int].right == r[k + 1]
    &&& r.len() > 0 ==> ns[r[r.len() - 1] as int].right == r[0]
    &&& forall|k: int| 1 <= k < r.len()
        ==> ns[(#[trigger] r[k]) as int].left == r[k - 1]
    &&& r.len() > 0 ==> ns[r[0] as int].left == r[r.len() - 1]
}

/// `nd` with its sibling links replaced.
pub open spec fn with_links(nd: Node, l: usize, r: usize) -> Node {
    Node { left: l, right: r, ..nd }
}

/// The arena after unlinking slot `i` from its ring: `i`'s neighbors are
/// stitched together and `i` links to itself, exactly as `detach` writes.
#[verifier::opaque]
pub open spec fn detach_result(ns: Seq<Node>, i: int) -> Seq<Node> {
    let l = ns[i].left as int;
    let r = ns[i].right as int;
    let n1 = ns.update(l, with_links(ns[l], ns[l].left, ns[i].right));
    let n2 = n1.update(r, with_links(n1[r], ns[i].left, n1[r].right));
    n2.update(i, with_links(n2[i], i as usize, i as usize))
}

/// What `detach_result` does to each slot, stated without unfolding it.
pub proof fn lemma_detach_pointwise(ns: Seq<Node>, i: int)
    requires
        0 <= i < ns.len(),
        (ns[i].left as int) < ns.len(),
        (ns[i].right as int) < ns.len(),
    ensures
        detach_result(ns, i).len() == ns.len(),
        forall|s: int| 0 <= s < ns.len()
            ==> ((#[trigger] detach_result(ns, i)[s]).entry == ns[s].entry
                && detach_result(ns, i)[s].degree == ns[s].degree
                && detach_result(ns, i)[s].mark == ns[s].mark
                && detach_result(ns, i)[s].parent == ns[s].parent
                && detach_result(ns, i)[s].child == ns[s].child),
        forall|s: int| 0 <= s < ns.len() && s != i
            && s != ns[i].left as int && s != ns[i].right as int
            ==> #[trigger] detach_result(ns, i)[s] == ns[s],
        detach_result(ns, i)[i].left == i as usize,
        detach_result(ns, i)[i].right == i as usize,
        ns[i].left as int != i && ns[i].right as int != i
            ==> detach_result(ns, i)[ns[i].left as int].right == ns[i].right
                && detach_result(ns, i)[ns[i].right as int].left == ns[i].left,
        ns[i].left as int != i && ns[i].right as int != i
            && ns[i].left != ns[i].right
            ==> detach_result(ns, i)[ns[i].left as int].left
                    == ns[ns[i].left as int].left
                && detach_result(ns, i)[ns[i].right as int].right
                    == ns[ns[i].right as int].right,
{
    reveal(detach_result);
}

/// Unlinking a ring member keeps the rest of the ring linked.
#[verifier::rlimit(50)]
pub proof fn lemma_detach_ring(ns: Seq<Node>, r: Seq<usize>, j: int)
    requires
        ring_linked(ns, r),
        r.no_duplicates(),
        0 <= j < r.len(),
    ensures
        ring_linked(detach_result(ns, r[j] as int), r.remove(j)),
        r.remove(j).no_duplicates(),
{
    reveal(detach_result);
    let i = r[j] as int;
    let ns2 = detach_result(ns, i);
    let r2 = r.remove(j);
    let len = r.len() as int;
    let prev: usize = if j == 0 { r[len - 1] } else { r[j - 1] };
    let nxt: usize = if j == len - 1 { r[0] } else { r[j + 1] };
    assert(ns[i].left == prev);
    assert(ns[i].right == nxt);
    assert(r2.no_duplicates()) by {
        assert forall|a: int, b: int| 0 <= a < b < r2.len()
            implies r2[a] != r2[b] by {
            let a0 = if a < j { a } else { a + 1 };
            let b0 = if b < j { b } else { b + 1 };
            assert(r2[a] == r[a0] && r2[b] == r[b0]);
        }
    }
    if len == 1 {
        assert(r2.len() == 0);
    } else {
        assert(prev != r[j] && nxt != r[j]);
        assert(ns2.len() == ns.len());
        assert(ns2[prev as int].right == nxt);
        assert(ns2[nxt as int].left == prev);
        assert forall|s: int| 0 <= s < ns.len() && s != i
            && s != prev as int && s != nxt as int
            implies ns2[s] == ns[s] by {}
        assert forall|s: int| 0 <= s < ns.len() && s != i && s != nxt as int
            implies ns2[s].left == ns[s].left by {}
        assert forall|s: int| 0 <= s < ns.len() && s != i && s != prev as int
            implies ns2[s].right == ns[s].right by {}
        assert forall|k: int| 0 <= k < r2.len()
            implies (#[trigger] r2[k]) < ns2.len() by {
            let k0 = if k < j { k } else { k + 1 };
            assert(r2[k] == r[k0]);
        }
        assert forall|k: int| 0 <= k < r2.len() - 1
            implies ns2[(#[trigger] r2[k]) as int].right == r2[k + 1] by {
            let k0 = if k < j { k } else { k + 1 };
            let k1 = if k + 1 < j { k + 1 } else { k + 2 };
            assert(r2[k] == r[k0] && r2[k + 1] == r[k1]);
            if k1 == k0 + 1 {
                if r[k0] != prev {
                    assert(ns2[r[k0] as int].right == ns[r[k0] as int].right);
                } else {
                    assert(k0 == j - 1 && k1 == j + 1);
                }
            } else {
                assert(k0 == j - 1 && k1 == j + 1);
                assert(r[k0] == prev && r[k1] == nxt);
            }
        }
        assert(ns2[r2[r2.len() - 1] as int].right == r2[0]) by {
            if j == 0 {
                assert(r2[r2.len() - 1] == r[len - 1] && r2[0] == r[1]);
                assert(r[len - 1] == prev && r[1] == nxt);
            } else if j == len - 1 {
                assert(r2[r2.len() - 1] == r[len - 2] && r2[0] == r[0]);
                assert(r[len - 2] == prev && r[0] == nxt);
            } else {
                assert(r2[r2.len() - 1] == r[len - 1] && r2[0] == r[0]);
                assert(r[len - 1] != r[j] && r[len - 1] != prev);
            }
        }
        assert forall|k: int| 1 <= k < r2.len()
            implies ns2[(#[trigger] r2[k]) as int].left == r2[k - 1] by {
            let k0 = if k < j { k } else { k + 1 };
            let km = if k - 1 < j { k - 1 } else { k };
            assert(r2[k] == r[k0] && r2[k - 1] == r[km]);
            if km == k0 - 1 {
                if r[k0] != nxt {
                    assert(ns2[r[k0] as int].left == ns[r[k0] as int].left);
                } else {
                    assert(k0 == j + 1 && km == j - 1);
                }
            } else {
                assert(k0 == j + 1 && km == j - 1);
                assert(r[k0] == nxt && r[km] == prev);
            }
        }
        assert(ns2[r2[0] as int].left == r2[r2.len() - 1]) by {
            if j == 0 {
                assert(r2[0] == r[1] && r2[r2.len() - 1] == r[len - 1]);
                assert(r[1] == nxt && r[len - 1] == prev);
            } else if j == len - 1 {
                assert(r2[0] == r[0] && r2[r2.len() - 1] == r[len - 2]);
                assert(r[0] == nxt && r[len - 2] == prev);
            } else {
                assert(r2[0] == r[0] && r2[r2.len() - 1] == r[len - 1]);
                assert(r[0] != r[j] && r[0] != nxt);
            }
        }
    }
}

/// A ring stays linked in a new arena whose members keep their links.
pub proof fn lemma_ring_frame(ns1: Seq<Node>, ns2: Seq<Node>, r: Seq<usize>)
    requires
        ring_linked(ns1, r),
        ns2.len() >= ns1.len(),
        forall|k: int| 0 <= k < r.len()
            ==> ns2[(#[trigger] r[k]) as int].left == ns1[r[k] as int].left
                && ns2[r[k] as int].right == ns1[r[k] as int].right,
    ensures
        ring_linked(ns2, r),
{
}

/// Splicing `y` between the last member and the head of a nonempty linked
/// ring extends the ring by one.
pub proof fn lemma_ring_insert(ns2: Seq<Node>, cs: Seq<usize>, y: usize)
    requires
        cs.len() > 0,
        (y as int) < ns2.len(),
        forall|k: int| 0 <= k < cs.len() ==> (#[trigger] cs[k]) < ns2.len(),
        ns2[y as int].right == cs[0],
        ns2[y as int].left == cs[cs.len() - 1],
        ns2[cs[0] as int].left == y,
        ns2[cs[cs.len() - 1] as int].right == y,
        forall|k: int| 0 <= k < cs.len() - 1
            ==> ns2[(#[trigger] cs[k]) as int].right == cs[k + 1],
        forall|k: int| 1 <= k < cs.len()
            ==> ns2[(#[trigger] cs[k]) as int].left == cs[k - 1],
    ensures
        ring_linked(ns2, cs.push(y)),
{
    let r2 = cs.push(y);
    assert forall|k: int| 0 <= k < r2.len() - 1
        implies ns2[(#[trigger] r2[k]) as int].right == r2[k + 1] by {
        if k < cs.len() - 1 {
            assert(r2[k] == cs[k] && r2[k + 1] == cs[k + 1]);
        } else {
            assert(r2[k] == cs[cs.len() - 1] && r2[k + 1] == y);
        }
    }
    assert(r2[r2.len() - 1] == y && r2[0] == cs[0]);
    assert forall|k: int| 1 <= k < r2.len()
        implies ns2[(#[trigger] r2[k]) as int].left == r2[k - 1] by {
        if k < cs.len() {
            assert(r2[k] == cs[k] && r2[k - 1] == cs[k - 1]);
        } else {
            assert(r2[k] == y && r2[k - 1] == cs[cs.len() - 1]);
        }
    }
}

/// Rotating a linked ring keeps it linked, with the same members.
pub proof fn lemma_ring_rotate(ns: Seq<Node>, r: Seq<usize>, j: int)
    requires
        ring_linked(ns, r),
        r.no_duplicates(),
        0 <= j < r.len(),
    ensures
        ring_linked(ns, r.subrange(j, r.len() as int) + r.subrange(0, j)),
        (r.subrange(j, r.len() as int) + r.subrange(0, j)).no_duplicates(),
        forall|s: usize| (r.subrange(j, r.len() as int) + r.subrange(0, j)).contains(s)
            <==> r.contains(s),
        (r.subrange(j, r.len() as int) + r.subrange(0, j)).len() == r.len(),
        (r.subrange(j, r.len() as int) + r.subrange(0, j))[0] == r[j],
{
    let len = r.len() as int;
    let r2 = r.subrange(j, len) + r.subrange(0, j);
    assert forall|k: int| 0 <= k < r2.len() implies #[trigger] r2[k] == r[rot_src(k, j, len)] by {}
    assert(r2.no_duplicates()) by {
        assert forall|a: int, b: int| 0 <= a < b < r2.len()
            implies r2[a] != r2[b] by {
            assert(r2[a] == r[rot_src(a, j, len)] && r2[b] == r[rot_src(b, j, len)]);
            assert(rot_src(a, j, len) != rot_src(b, j, len));
        }
    }
    assert forall|k: int| 0 <= k < r2.len() - 1
        implies ns[(#[trigger] r2[k]) as int].right == r2[k + 1] by {
        let a = rot_src(k, j, len);
        let b = rot_src(k + 1, j, len);
        if a == len - 1 {
            assert(b == 0);
        } else {
            assert(b == a + 1);
        }
    }
    if r2.len() > 0 {
        assert(r2[r2.len() - 1] == r[rot_src(len - 1, j, len)]);
        let a = rot_src(len - 1, j, len);
        if a == len - 1 {
            assert(j == 0);
        } else {
            assert(a == j - 1);
        }
    }
    assert forall|k: int| 1 <= k < r2.len()
        implies ns[(#[trigger] r2[k]) as int].left == r2[k - 1] by {
        let a = rot_src(k, j, len);
        let b = rot_src(k - 1, j, len);
        if a == 0 {
            assert(b == len - 1);
        } else {
            assert(b == a - 1);
        }
    }
    assert forall|s: usize| r2.contains(s) <==> r.contains(s) by {
        if r2.contains(s) {
            let k = choose|k: int| 0 <= k < r2.len() && r2[k] == s;
            assert(r[rot_src(k, j, len)] == s);
        }
        if r.contains(s) {
            let k = choose|k: int| 0 <= k < r.len() && r[k] == s;
            let k2 = if k >= j { k - j } else { k + len - j };
            assert(rot_src(k2, j, len) == k);
            assert(r2[k2] == s);
        }
    }
}

/// Index into the original ring that position `k` of the rotation reads.
pub open spec fn rot_src(k: int, j: int, len: int) -> int {
    if k < len - j { k + j } else { k - (len - j) }
}

/// A duplicate-free sequence of slot indices below `b` has at most `b`
/// members.
pub proof fn lemma_nodup_len_bound(s: Seq<usize>, b: nat)
    requires
        s.no_duplicates(),
        forall|k: int| 0 <= k < s.len() ==> (#[trigger] s[k]) < b,
    ensures
        s.len() <= b,
{
    let t = s.map_values(|u: usize| u as int);
    assert(t.no_duplicates()) by {
        assert forall|a1: int, b1: int| 0 <= a1 < b1 < t.len()
            implies t[a1] != t[b1] by {
            assert(s[a1] != s[b1]);
        }
    }
    t.unique_seq_to_set();
    assert(t.to_set().subset_of(vstd::set_lib::set_int_range(0, b as int))) by {
        assert forall|e: int| t.to_set().contains(e)
            implies vstd::set_lib::set_int_range(0, b as int).contains(e) by {
            let k = choose|k: int| 0 <= k < t.len() && t[k] == e;
            assert(s[k] < b);
        }
    }
    vstd::set_lib::lemma_int_range(0, b as int);
    vstd::set_lib::lemma_len_subset(
        t.to_set(), vstd::set_lib::set_int_range(0, b as int));
}

/// Every recorded ancestor chain after a root `y` became a child of the
/// root `x`: chains that ended at `y` continue to `x`; others are unchanged.
pub open spec fn anc_link(anc: Map<int, Seq<usize>>, y: usize, x: usize) -> Map<int, Seq<usize>> {
    Map::new(
        |i: int| anc.dom().contains(i),
        |i: int| ({
            let h = anc[i];
            if h.len() > 0 && h[h.len() - 1] == y {
                h.push(x)
            } else {
                h
            }
        }),
    )
}


/// Number of occupied slots in a degree table.
pub open spec fn count_some(s: Seq<Option<usize>>) -> nat
    decreases s.len(),
{
    if s.len() == 0 {
        0
    } else {
        count_some(s.drop_last()) + (if s.last() is Some {
            1nat
        } else {
            0nat
        })
    }
}

/// Appending an empty slot does not change the occupancy count.
pub proof fn lemma_count_some_push_none(s: Seq<Option<usize>>)
    ensures
        count_some(s.push(None)) == count_some(s),
{
    assert(s.push(None).drop_last() =~= s);
}

/// Clearing an occupied slot lowers the occupancy count by one.
pub proof fn lemma_count_some_clear(s: Seq<Option<usize>>, j: int)
    requires
        0 <= j < s.len(),
        s[j] is Some,
    ensures
        count_some(s.update(j, None)) + 1 == count_some(s),
    decreases s.len(),
{
    if j == s.len() - 1 {
        assert(s.update(j, None).drop_last() =~= s.drop_last());
    } else {
        assert(s.update(j, None).drop_last() =~= s.drop_last().update(j, None));
        lemma_count_some_clear(s.drop_last(), j);
    }
}

/// An ancestor chain after the node `c` on it is cut loose from its parent:
/// everything above `c` is dropped.  Chains not passing through `c` are
/// unaffected.
pub open spec fn chain_cut(h: Seq<usize>, c: usize) -> Seq<usize> {
    if h.contains(c) {
        h.take(h.index_of(c) + 1)
    } else {
        h
    }
}

/// Fibonacci heap over `(id, key)` entries, addressed externally by id.
pub struct FibHeap {
    pub nodes: Vec<Node>,
    pub positions: Vec<usize>,
    pub min_root: Option<usize>,
    pub n: usize,
    pub ring: Ghost<Seq<usize>>,
    pub childs: Ghost<Map<int, Seq<usize>>>,
    pub anc: Ghost<Map<int, Seq<usize>>>,
}

impl FibHeap {
    /// Slot `s` holds a live node: its id's position entry points back at `s`.
    pub open spec fn live(self, s: int) -> bool {
        &&& 0 <= s < self.nodes@.len()
        &&& (self.nodes@[s].entry.0 as int) < self.positions@.len()
        &&& self.positions@[self.nodes@[s].entry.0 as int] as int == s
    }

    /// Id `id` is currently in the heap.
    pub open spec fn live_id(self, id: int) -> bool {
        0 <= id < self.positions@.len() && self.positions@[id] != NOT_IN_HEAP
    }

    pub open spec fn slot_of(self, id: int) -> int {
        self.positions@[id] as int
    }

    pub open spec fn key_of(self, s: int) -> i64 {
        self.nodes@[s].entry.1
    }

    pub open spec fn id_of(self, s: int) -> int {
        self.nodes@[s].entry.0 as int
    }

    /// The abstract contents: a finite map from live id to its key.
    pub open spec fn view(self) -> Map<int, i64> {
        Map::new(
            |id: int| self.live_id(id),
            |id: int| self.key_of(self.slot_of(id)),
        )
    }

    /// The set of live ids.
    pub open spec fn live_ids(self) -> Set<int> {
        Set::new(|id: int| self.live_id(id))
    }

    /// Every node's id indexes into `positions`, and the arena is small
    /// enough that a slot index can never collide with the sentinel.
    pub open spec fn ids_ok(self) -> bool {
        &&& self.nodes@.len() <= NOT_IN_HEAP as int
        &&& forall|s: int| 0 <= s < self.nodes@.len()
            ==> ((#[trigger] self.nodes@[s]).entry.0 as int) < self.positions@.len()
    }

    /// Every live id's position entry points at a slot holding that id.
    pub open spec fn pos_ok(self) -> bool {
        forall|id: int| #[trigger] self.live_id(id)
            ==> 0 <= self.slot_of(id) < self.nodes@.len()
                && self.id_of(self.slot_of(id)) == id
    }

    /// The live counter matches the number of live ids, which never exceeds
    /// the number of arena slots.
    pub open spec fn count_ok(self) -> bool {
        &&& self.live_ids().finite()
        &&& self.n as int == self.live_ids().len()
        &&& self.n as int <= self.nodes@.len()
    }

    /// Heap order along every parent edge, and parents of live nodes are
    /// live themselves.
    pub open spec fn edges_ok_except(self, ex: int) -> bool {
        forall|c: int| #[trigger] self.live(c) && self.nodes@[c].parent is Some
            ==> self.live(self.nodes@[c].parent->0 as int)
                && (c != ex ==> self.key_of(self.nodes@[c].parent->0 as int)
                    <= self.key_of(c))
    }

    pub open spec fn edges_ok(self) -> bool {
        self.edges_ok_except(-1)
    }

    /// The child ring recorded for live slot `p` matches the arena: right
    /// length, designated child first, properly linked, no duplicates, and
    /// all members are live children of `p`.
    pub open spec fn childs_entry_ok(self, p: int) -> bool {
        let cs = self.childs@[p];
        &&& self.childs@.dom().contains(p)
        &&& self.nodes@[p].degree as int == cs.len()
        &&& match self.nodes@[p].child {
            None => cs.len() == 0,
            Some(c) => cs.len() > 0 && cs[0] == c,
        }
        &&& ring_linked(self.nodes@, cs)
        &&& cs.no_duplicates()
        &&& forall|k: int| 0 <= k < cs.len()
            ==> self.live((#[trigger] cs[k]) as int)
                && self.nodes@[cs[k] as int].parent == Some(p as usize)
    }

    /// All child rings are accurate, and every live child is listed in its
    /// parent's child ring.
    pub open spec fn childs_ok(self) -> bool {
        &&& forall|p: int| self.live(p) ==> #[trigger] self.childs_entry_ok(p)
        &&& forall|c: int| #[trigger] self.live(c) && self.nodes@[c].parent is Some
            ==> self.childs@[self.nodes@[c].parent->0 as int].contains(c as usize)
    }

    /// The ancestor chain recorded for live slot `i` starts at `i`, follows
    /// parent links upward, and ends at a root.
    pub open spec fn anc_entry_ok(self, i: int) -> bool {
        let h = self.anc@[i];
        &&& self.anc@.dom().contains(i)
        &&& h.len() > 0
        &&& h[0] as int == i
        &&& h.no_duplicates()
        &&& forall|k: int| 0 <= k < h.len() ==> self.live((#[trigger] h[k]) as int)
        &&& forall|k: int| 0 <= k < h.len() - 1
            ==> self.nodes@[(#[trigger] h[k]) as int].parent == Some(h[k + 1])
        &&& self.nodes@[h[h.len() - 1] as int].parent is None
    }

    pub open spec fn anc_ok(self) -> bool {
        forall|i: int| self.live(i) ==> #[trigger] self.anc_entry_ok(i)
    }

    /// The root ring lists exactly the live parentless slots, properly
    /// linked and without duplicates.
    pub open spec fn ring_ok(self) -> bool {
        let r = self.ring@;
        &&& ring_linked(self.nodes@, r)
        &&& r.no_duplicates()
        &&& forall|k: int| 0 <= k < r.len()
            ==> self.live((#[trigger] r[k]) as int)
                && self.nodes@[r[k] as int].parent is None
        &&& forall|s: int| #[trigger] self.live(s) && self.nodes@[s].parent is None
            ==> r.contains(s as usize)
    }

    /// Everything except the minimum-pointer facts; this part survives the
    /// intermediate states of consolidation.
    pub open spec fn core_ok(self) -> bool {
        &&& self.ids_ok()
        &&& self.pos_ok()
        &&& self.count_ok()
        &&& self.edges_ok()
        &&& self.childs_ok()
        &&& self.anc_ok()
        &&& self.ring_ok()
    }

    /// The minimum pointer designates the head of the root ring, which
    /// holds the smallest key in the ring, except possibly at slot `ex`.
    pub open spec fn min_ok_except(self, ex: int) -> bool {
        &&& match self.min_root {
            None => self.ring@.len() == 0,
            Some(m) => self.ring@.len() > 0 && self.ring@[0] == m,
        }
        &&& (self.n == 0 <==> self.min_root is None)
        &&& forall|k: int| 0 <= k < self.ring@.len() && self.ring@[k] as int != ex
            ==> self.key_of(self.ring@[0] as int)
                <= self.key_of((#[trigger] self.ring@[k]) as int)
    }

    /// Well-formed heap.
    pub open spec fn wf(self) -> bool {
        &&& self.core_ok()
        &&& self.min_ok_except(-1)
    }

    /// Heap order along a valid ancestor chain: the root's key bounds the
    /// key of every chain member.
    proof fn lemma_chain_le(self, h: Seq<usize>, j: int)
        requires
            self.edges_ok(),
            h.len() > 0,
            0 <= j < h.len(),
            forall|k: int| 0 <= k < h.len() ==> self.live((#[trigger] h[k]) as int),
            forall|k: int| 0 <= k < h.len() - 1
                ==> self.nodes@[(#[trigger] h[k]) as int].parent == Some(h[k + 1]),
        ensures
            self.key_of(h[h.len() - 1] as int) <= self.key_of(h[j] as int),
        decreases h.len() - j,
    {
        if j < h.len() - 1 {
            assert(self.live(h[j] as int));
            assert(self.key_of(h[j + 1] as int) <= self.key_of(h[j] as int));
            self.lemma_chain_le(h, j + 1);
        }
    }

    /// In a well-formed heap the minimum pointer's key bounds every live key.
    proof fn lemma_min_le_all(self, i: int)
        requires
            self.wf(),
            self.min_root is Some,
            self.live(i),
        ensures
            self.key_of(self.min_root->0 as int) <= self.key_of(i),
    {
        assert(self.anc_entry_ok(i));
        let h = self.anc@[i];
        let root = h[h.len() - 1] as int;
        self.lemma_chain_le(h, 0);
        assert(self.live(root) && self.nodes@[root].parent is None);
        assert(self.ring@.contains(root as usize));
        let k = choose|k: int| 0 <= k < self.ring@.len()
            && self.ring@[k] == root as usize;
        assert(self.key_of(self.ring@[0] as int) <= self.key_of(self.ring@[k] as int));
    }

    /// A live slot makes its id live, and conversely.
    proof fn lemma_live_slot_id(self, s: int)
        requires
            self.ids_ok(),
            self.live(s),
        ensures
            self.live_id(self.id_of(s)),
            self.slot_of(self.id_of(s)) == s,
    {
        assert(self.positions@[self.id_of(s)] as int == s);
        assert(s < self.nodes@.len() <= NOT_IN_HEAP as int);
    }

    /// Transfer the arena-level predicates between two heaps that differ
    /// only in minimum pointer and root-ring bookkeeping.
    proof fn lemma_same_core(a: FibHeap, b: FibHeap)
        requires
            a.ids_ok(),
            a.pos_ok(),
            a.edges_ok(),
            a.childs_ok(),
            a.anc_ok(),
            b.nodes@ == a.nodes@,
            b.positions@ == a.positions@,
            b.childs@ == a.childs@,
            b.anc@ == a.anc@,
        ensures
            b.ids_ok(),
            b.pos_ok(),
            b.edges_ok(),
            b.childs_ok(),
            b.anc_ok(),
            b.live_ids() == a.live_ids(),
            b@ == a@,
            forall|s: int| #[trigger] b.live(s) <==> a.live(s),
            a.ring_ok() && b.ring@ == a.ring@ ==> b.ring_ok(),
    {
        assert forall|s: int| #[trigger] b.live(s) <==> a.live(s) by {}
        assert(b.live_ids() =~= a.live_ids());
        assert(b@ =~= a@);
        assert forall|id: int| #[trigger] b.live_id(id)
            implies 0 <= b.slot_of(id) < b.nodes@.len()
                && b.id_of(b.slot_of(id)) == id by {
            assert(a.live_id(id));
        }
        assert forall|c: int| #[trigger] b.live(c) && b.nodes@[c].parent is Some
            implies b.live(b.nodes@[c].parent->0 as int)
                && b.key_of(b.nodes@[c].parent->0 as int) <= b.key_of(c) by {
            assert(a.live(c));
            assert(a.live(a.nodes@[c].parent->0 as int));
        }
        assert forall|p: int| b.live(p) implies #[trigger] b.childs_entry_ok(p) by {
            assert(a.live(p));
            assert(a.childs_entry_ok(p));
            let cs = b.childs@[p];
            assert forall|k: int| 0 <= k < cs.len()
                implies b.live((#[trigger] cs[k]) as int)
                    && b.nodes@[cs[k] as int].parent == Some(p as usize) by {
                assert(a.live(cs[k] as int));
            }
        }
        assert forall|c: int| #[trigger] b.live(c) && b.nodes@[c].parent is Some
            implies b.childs@[b.nodes@[c].parent->0 as int].contains(c as usize) by {
            assert(a.live(c));
        }
        assert forall|i: int| b.live(i) implies #[trigger] b.anc_entry_ok(i) by {
            assert(a.live(i));
            assert(a.anc_entry_ok(i));
            let h = b.anc@[i];
            assert forall|k: int| 0 <= k < h.len()
                implies b.live((#[trigger] h[k]) as int) by {
                assert(a.live(h[k] as int));
            }
        }
        if a.ring_ok() && b.ring@ == a.ring@ {
            let r = b.ring@;
            assert forall|k: int| 0 <= k < r.len()
                implies b.live((#[trigger] r[k]) as int)
                    && b.nodes@[r[k] as int].parent is None by {
                assert(a.live(r[k] as int));
            }
            assert forall|s: int| #[trigger] b.live(s) && b.nodes@[s].parent is None
                implies r.contains(s as usize) by {
                assert(a.live(s));
            }
        }
    }

    /// Re-establish the arena-level predicates after `add_to_root` spliced
    /// the parentless live singleton `idx` into the root ring: only link
    /// fields of `idx` and of old ring members changed, so everything that
    /// ignores links transfers, and child rings are untouched because their
    /// members all have parents.
    proof fn lemma_add_root_restores(a: FibHeap, b: FibHeap, idx: usize)
        requires
            a.ids_ok(),
            a.pos_ok(),
            a.edges_ok(),
            a.anc_ok(),
            a.live(idx as int),
            a.nodes@[idx as int].parent is None,
            forall|k: int| 0 <= k < a.ring@.len()
                ==> a.live((#[trigger] a.ring@[k]) as int)
                    && a.nodes@[a.ring@[k] as int].parent is None,
            b.nodes@.len() == a.nodes@.len(),
            forall|s: int| 0 <= s < a.nodes@.len()
                ==> ((#[trigger] b.nodes@[s]).entry == a.nodes@[s].entry
                    && b.nodes@[s].degree == a.nodes@[s].degree
                    && b.nodes@[s].mark == a.nodes@[s].mark
                    && b.nodes@[s].parent == a.nodes@[s].parent
                    && b.nodes@[s].child == a.nodes@[s].child),
            forall|s: int| 0 <= s < a.nodes@.len() && s != idx as int
                && !a.ring@.contains(s as usize)
                ==> #[trigger] b.nodes@[s] == a.nodes@[s],
            b.positions == a.positions,
            b.anc == a.anc,
            ring_linked(b.nodes@, b.ring@),
            b.ring@.no_duplicates(),
            forall|s: usize| b.ring@.contains(s)
                <==> a.ring@.contains(s) || s == idx,
        ensures
            b.ids_ok(),
            b.pos_ok(),
            b.edges_ok(),
            b.anc_ok(),
            forall|s: int| 0 <= s < a.nodes@.len()
                && a.nodes@[s].parent is Some
                ==> (#[trigger] b.nodes@[s]).left == a.nodes@[s].left
                    && b.nodes@[s].right == a.nodes@[s].right,
            forall|s: int| #[trigger] b.live(s) <==> a.live(s),
            b.live_ids() == a.live_ids(),
            b@ == a@,
            forall|k: int| 0 <= k < b.ring@.len()
                ==> b.live((#[trigger] b.ring@[k]) as int)
                    && b.nodes@[b.ring@[k] as int].parent is None,
            (forall|s: int| a.live(s) && a.nodes@[s].parent is None
                    ==> s == idx as int || a.ring@.contains(s as usize))
                ==> (forall|s: int| #[trigger] b.live(s)
                    && b.nodes@[s].parent is None
                    ==> b.ring@.contains(s as usize)),
    {
        assert forall|s: int| #[trigger] b.live(s) <==> a.live(s) by {}
        assert(b.live_ids() =~= a.live_ids());
        assert(b@ =~= a@);
        assert forall|id: int| #[trigger] b.live_id(id)
            implies 0 <= b.slot_of(id) < b.nodes@.len()
                && b.id_of(b.slot_of(id)) == id by {
            assert(a.live_id(id));
        }
        assert forall|c: int| #[trigger] b.live(c) && b.nodes@[c].parent is Some
            implies b.live(b.nodes@[c].parent->0 as int)
                && b.key_of(b.nodes@[c].parent->0 as int) <= b.key_of(c) by {
            assert(a.live(c));
            assert(a.live(a.nodes@[c].parent->0 as int));
        }
        assert forall|i: int| b.live(i) implies #[trigger] b.anc_entry_ok(i) by {
            assert(a.live(i));
            assert(a.anc_entry_ok(i));
            let h = b.anc@[i];
            assert forall|k: int| 0 <= k < h.len()
                implies b.live((#[trigger] h[k]) as int) by {
                assert(a.live(h[k] as int));
            }
        }
        assert forall|k: int| 0 <= k < b.ring@.len()
            implies b.live((#[trigger] b.ring@[k]) as int)
                && b.nodes@[b.ring@[k] as int].parent is None by {
            assert(b.ring@.contains(b.ring@[k]));
            if a.ring@.contains(b.ring@[k]) {
                let k2 = choose|k2: int| 0 <= k2 < a.ring@.len()
                    && a.ring@[k2] == b.ring@[k];
                assert(a.live(a.ring@[k2] as int));
            } else {
                assert(b.ring@[k] == idx);
            }
        }
        if forall|s: int| a.live(s) && a.nodes@[s].parent is None
            ==> s == idx as int || a.ring@.contains(s as usize) {
            assert forall|s: int| #[trigger] b.live(s)
                && b.nodes@[s].parent is None
                implies b.ring@.contains(s as usize) by {
                assert(a.live(s));
            }
        }
        assert forall|s: int| 0 <= s < a.nodes@.len()
            && a.nodes@[s].parent is Some
            implies (#[trigger] b.nodes@[s]).left == a.nodes@[s].left
                && b.nodes@[s].right == a.nodes@[s].right by {
            assert(!a.ring@.contains(s as usize)) by {
                if a.ring@.contains(s as usize) {
                    let k2 = choose|k2: int| 0 <= k2 < a.ring@.len()
                        && a.ring@[k2] == s as usize;
                    assert(a.nodes@[a.ring@[k2] as int].parent is None);
                }
            }
            assert(s != idx as int);
        }
    }

    /// Transfer the child-ring facts between two heaps whose arenas agree on
    /// everything a child ring depends on, except possibly around the one
    /// parent slot `ex` (whose own entry the caller re-proves).  Parents may
    /// only be cleared, never newly assigned.
    proof fn lemma_childs_transfer(a: FibHeap, b: FibHeap, ex: int)
        requires
            b.nodes@.len() == a.nodes@.len(),
            forall|s: int| #[trigger] b.live(s) <==> a.live(s),
            forall|s: int| 0 <= s < a.nodes@.len() && s != ex
                ==> (#[trigger] b.nodes@[s]).degree == a.nodes@[s].degree
                    && b.nodes@[s].child == a.nodes@[s].child,
            forall|s: int| 0 <= s < a.nodes@.len()
                && (#[trigger] a.nodes@[s].parent) is Some
                && a.nodes@[s].parent->0 as int != ex
                ==> b.nodes@[s].parent == a.nodes@[s].parent
                    && b.nodes@[s].left == a.nodes@[s].left
                    && b.nodes@[s].right == a.nodes@[s].right,
            forall|s: int| 0 <= s < a.nodes@.len()
                && (#[trigger] b.nodes@[s].parent) is Some
                && b.nodes@[s].parent->0 as int != ex
                ==> b.nodes@[s].parent == a.nodes@[s].parent,
            forall|p: int| #[trigger] a.childs@.dom().contains(p) <==>
                b.childs@.dom().contains(p),
            forall|p: int| p != ex && a.childs@.dom().contains(p)
                ==> #[trigger] b.childs@[p] == a.childs@[p],
            forall|p: int| a.live(p) && p != ex ==> #[trigger] a.childs_entry_ok(p),
            forall|c: int| #[trigger] a.live(c) && a.nodes@[c].parent is Some
                ==> a.live(a.nodes@[c].parent->0 as int)
                    && a.childs@[a.nodes@[c].parent->0 as int].contains(c as usize),
        ensures
            forall|p: int| b.live(p) && p != ex ==> #[trigger] b.childs_entry_ok(p),
            forall|c: int| #[trigger] b.live(c) && b.nodes@[c].parent is Some
                && b.nodes@[c].parent->0 as int != ex
                ==> b.childs@[b.nodes@[c].parent->0 as int].contains(c as usize),
    {
        assert forall|p: int| b.live(p) && p != ex
            implies #[trigger] b.childs_entry_ok(p) by {
            assert(a.live(p));
            assert(a.childs_entry_ok(p));
            let cs = b.childs@[p];
            assert(cs == a.childs@[p]);
            assert forall|k: int| 0 <= k < cs.len()
                implies b.live((#[trigger] cs[k]) as int)
                    && b.nodes@[cs[k] as int].parent == Some(p as usize) by {
                assert(a.live(cs[k] as int));
                assert(a.nodes@[cs[k] as int].parent == Some(p as usize));
            }
            assert(ring_linked(b.nodes@, cs)) by {
                assert forall|k: int| 0 <= k < cs.len()
                    implies (#[trigger] b.nodes@[cs[k] as int]).left
                            == a.nodes@[cs[k] as int].left
                        && b.nodes@[cs[k] as int].right
                            == a.nodes@[cs[k] as int].right by {
                    assert(a.nodes@[cs[k] as int].parent == Some(p as usize));
                }
                lemma_ring_frame(a.nodes@, b.nodes@, cs);
            }
        }
        assert forall|c: int| #[trigger] b.live(c) && b.nodes@[c].parent is Some
            && b.nodes@[c].parent->0 as int != ex
            implies b.childs@[b.nodes@[c].parent->0 as int].contains(c as usize) by {
            assert(a.live(c));
            assert(a.nodes@[c].parent == b.nodes@[c].parent);
            let p = a.nodes@[c].parent->0 as int;
            assert(a.live(p));
            assert(a.childs_entry_ok(p));
            assert(a.childs@.dom().contains(p));
            assert(b.childs@[p] == a.childs@[p]);
        }
    }

    /* ---------- pointer surgery ------------------------------------------ */

    /// Unlink slot `i` from whatever ring currently holds it: stitch its
    /// neighbors together and reset `i` to a self-linked singleton.  Pure
    /// link surgery; `parent`/`child` relations and all ghost state are left
    /// to the caller.
    fn detach(&mut self, i: usize)
        requires
            (i as int) < old(self).nodes@.len(),
            (old(self).nodes@[i as int].left as int) < old(self).nodes@.len(),
            (old(self).nodes@[i as int].right as int) < old(self).nodes@.len(),
        ensures
            final(self).nodes@ == detach_result(old(self).nodes@, i as int),
            final(self).nodes@.len() == old(self).nodes@.len(),
            forall|s: int| 0 <= s < old(self).nodes@.len()
                ==> ((#[trigger] final(self).nodes@[s]).entry
                        == old(self).nodes@[s].entry
                    && final(self).nodes@[s].degree == old(self).nodes@[s].degree
                    && final(self).nodes@[s].mark == old(self).nodes@[s].mark
                    && final(self).nodes@[s].parent == old(self).nodes@[s].parent
                    && final(self).nodes@[s].child == old(self).nodes@[s].child),
            forall|s: int| 0 <= s < old(self).nodes@.len()
                && s != i as int
                && s != old(self).nodes@[i as int].left as int
                && s != old(self).nodes@[i as int].right as int
                ==> #[trigger] final(self).nodes@[s] == old(self).nodes@[s],
            final(self).nodes@[i as int].left == i,
            final(self).nodes@[i as int].right == i,
            final(self).positions == old(self).positions,
            final(self).min_root == old(self).min_root,
            final(self).n == old(self).n,
            final(self).ring == old(self).ring,
            final(self).childs == old(self).childs,
            final(self).anc == old(self).anc,
    {
        let l = self.nodes[i].left;
        let r = self.nodes[i].right;
        self.nodes[l].right = r;
        self.nodes[r].left = l;
        self.nodes[i].left = i;
        self.nodes[i].right = i;
        proof {
            reveal(detach_result);
        }
    }

    /// Splice the detached singleton `idx` into the root ring immediately
    /// before the current minimum and let the minimum pointer track the
    /// smaller key.  Only link fields of `idx` and its new neighbors change;
    /// the caller re-establishes the global predicates from the frame
    /// clauses.
    fn add_to_root(&mut self, idx: usize)
        requires
            (idx as int) < old(self).nodes@.len(),
            old(self).nodes@[idx as int].left == idx,
            old(self).nodes@[idx as int].right == idx,
            ring_linked(old(self).nodes@, old(self).ring@),
            old(self).ring@.no_duplicates(),
            !old(self).ring@.contains(idx),
            match old(self).min_root {
                None => old(self).ring@.len() == 0,
                Some(m) => old(self).ring@.len() > 0 && old(self).ring@[0] == m,
            },
            forall|k: int| 0 <= k < old(self).ring@.len()
                ==> old(self).key_of(old(self).ring@[0] as int)
                    <= old(self).key_of((#[trigger] old(self).ring@[k]) as int),
        ensures
            ring_linked(final(self).nodes@, final(self).ring@),
            final(self).ring@.no_duplicates(),
            final(self).ring@.len() == old(self).ring@.len() + 1,
            forall|s: usize| final(self).ring@.contains(s)
                <==> old(self).ring@.contains(s) || s == idx,
            match final(self).min_root {
                None => false,
                Some(m) => final(self).ring@[0] == m,
            },
            forall|k: int| 0 <= k < final(self).ring@.len()
                ==> final(self).key_of(final(self).ring@[0] as int)
                    <= final(self).key_of((#[trigger] final(self).ring@[k]) as int),
            final(self).ring@ == Seq::empty().push(idx) + old(self).ring@
                || final(self).ring@ == old(self).ring@.push(idx),
            final(self).ring@[0] == idx
                || (old(self).ring@.len() > 0 && final(self).ring@[0] == old(self).ring@[0]),
            old(self).ring@.len() > 0 && final(self).ring@[0] == idx
                && !old(self).ring@.contains(idx)
                ==> old(self).key_of(idx as int)
                    < old(self).key_of(old(self).ring@[0] as int),
            final(self).key_of(final(self).ring@[0] as int)
                <= old(self).key_of(idx as int),
            old(self).ring@.len() > 0
                ==> final(self).key_of(final(self).ring@[0] as int)
                    <= old(self).key_of(old(self).ring@[0] as int),
            final(self).nodes@.len() == old(self).nodes@.len(),
            forall|s: int| 0 <= s < old(self).nodes@.len()
                ==> ((#[trigger] final(self).nodes@[s]).entry
                        == old(self).nodes@[s].entry
                    && final(self).nodes@[s].degree == old(self).nodes@[s].degree
                    && final(self).nodes@[s].mark == old(self).nodes@[s].mark
                    && final(self).nodes@[s].parent == old(self).nodes@[s].parent
                    && final(self).nodes@[s].child == old(self).nodes@[s].child),
            forall|s: int| 0 <= s < old(self).nodes@.len()
                && s != idx as int
                && !old(self).ring@.contains(s as usize)
                ==> #[trigger] final(self).nodes@[s] == old(self).nodes@[s],
            final(self).positions == old(self).positions,
            final(self).n == old(self).n,
            final(self).childs == old(self).childs,
            final(self).anc == old(self).anc,
    {
        let ghost r0 = self.ring@;
        match self.min_root {
            Some(min_idx) => {
                let ghost pre = self.nodes@;
                let left = self.nodes[min_idx].left;
                proof {
                    assert(left == r0[r0.len() - 1]);
                    assert((left as int) < pre.len());
                }
                self.nodes[idx].left = left;
                self.nodes[idx].right = min_idx;
                self.nodes[left].right = idx;
                self.nodes[min_idx].left = idx;
                proof {
                    let ns2 = self.nodes@;
                    assert forall|s: int| 0 <= s < pre.len() && s != idx as int
                        && s != left as int && s != min_idx as int
                        implies ns2[s] == pre[s] by {}
                    assert forall|k: int| 0 <= k < r0.len() - 1
                        implies ns2[(#[trigger] r0[k]) as int].right == r0[k + 1] by {
                        assert(r0[k] != idx);
                        if r0[k] != left {
                            assert(ns2[r0[k] as int].right == pre[r0[k] as int].right);
                        } else {
                            assert(k == r0.len() - 1);
                        }
                    }
                    assert forall|k: int| 1 <= k < r0.len()
                        implies ns2[(#[trigger] r0[k]) as int].left == r0[k - 1] by {
                        assert(r0[k] != idx);
                        if r0[k] != min_idx {
                            assert(ns2[r0[k] as int].left == pre[r0[k] as int].left);
                        } else {
                            assert(k == 0);
                        }
                    }
                    lemma_ring_insert(ns2, r0, idx);
                }
                if self.nodes[idx].entry.1 < self.nodes[min_idx].entry.1 {
                    self.min_root = Some(idx);
                    proof {
                        lemma_ring_rotate(self.nodes@, r0.push(idx), r0.len() as int);
                        assert(r0.push(idx).subrange(r0.len() as int, r0.len() as int + 1)
                            + r0.push(idx).subrange(0, r0.len() as int)
                            =~= seq![idx] + r0);
                    }
                    self.ring = Ghost(Seq::empty().push(idx) + r0);
                    proof {
                        let r2 = self.ring@;
                        assert(r2[0] == idx);
                        assert forall|k: int| 0 <= k < r2.len()
                            implies self.key_of(r2[0] as int)
                                <= self.key_of((#[trigger] r2[k]) as int) by {
                            if k > 0 {
                                assert(r2[k] == r0[k - 1]);
                                assert(self.key_of(r0[0] as int)
                                    <= self.key_of(r0[k - 1] as int));
                            }
                        }
                        assert forall|s: usize| r2.contains(s)
                            implies r0.contains(s) || s == idx by {
                            let k = choose|k: int| 0 <= k < r2.len() && r2[k] == s;
                            if k > 0 {
                                assert(r0[k - 1] == s);
                            }
                        }
                        assert forall|s: usize| r0.contains(s) || s == idx
                            implies r2.contains(s) by {
                            if r0.contains(s) {
                                let k = choose|k: int| 0 <= k < r0.len() && r0[k] == s;
                                assert(r2[k + 1] == s);
                            } else {
                                assert(r2[0] == s);
                            }
                        }
                        assert(r2.no_duplicates()) by {
                            assert forall|a: int, b: int| 0 <= a < b < r2.len()
                                implies r2[a] != r2[b] by {
                                if a == 0 {
                                    assert(r2[b] == r0[b - 1]);
                                    assert(r0.contains(r0[b - 1]));
                                } else {
                                    assert(r2[a] == r0[a - 1] && r2[b] == r0[b - 1]);
                                }
                            }
                        }
                    }
                } else {
                    self.ring = Ghost(r0.push(idx));
                    proof {
                        let r2 = self.ring@;
                        assert(r2[0] == r0[0]);
                        assert forall|k: int| 0 <= k < r2.len()
                            implies self.key_of(r2[0] as int)
                                <= self.key_of((#[trigger] r2[k]) as int) by {
                            if k < r0.len() {
                                assert(r2[k] == r0[k]);
                            } else {
                                assert(r2[k] == idx);
                            }
                        }
                        assert(r2.no_duplicates()) by {
                            assert forall|a: int, b: int| 0 <= a < b < r2.len()
                                implies r2[a] != r2[b] by {
                                if b == r2.len() - 1 {
                                    assert(r0.contains(r0[a]));
                                }
                            }
                        }
                        assert forall|s: usize| r2.contains(s)
                            implies r0.contains(s) || s == idx by {
                            let k = choose|k: int| 0 <= k < r2.len() && r2[k] == s;
                            if k < r0.len() {
                                assert(r0[k] == s);
                            }
                        }
                        assert forall|s: usize| r0.contains(s) || s == idx
                            implies r2.contains(s) by {
                            if r0.contains(s) {
                                let k = choose|k: int| 0 <= k < r0.len() && r0[k] == s;
                                assert(r2[k] == s);
                            } else {
                                assert(r2[r2.len() - 1] == s);
                            }
                        }
                    }
                }
            }
            None => {
                self.min_root = Some(idx);
                self.ring = Ghost(Seq::empty().push(idx));
                proof {
                    assert(self.ring@[0] == idx);
                }
            }
        }
    }

    /// Point the minimum pointer at `idx` if its key undercuts the current
    /// minimum.  The ring itself is untouched; only the designated head may
    /// move.  Accepts a heap whose minimum invariant may be broken at `idx`
    /// alone, and restores it fully.
    #[verifier::rlimit(100)]
    fn update_min(&mut self, idx: usize)
        requires
            old(self).core_ok(),
            old(self).min_ok_except(idx as int),
            old(self).live(idx as int),
        ensures
            final(self).wf(),
            final(self).nodes == old(self).nodes,
            final(self).positions == old(self).positions,
            final(self).n == old(self).n,
            final(self).childs == old(self).childs,
            final(self).anc == old(self).anc,
            forall|s: usize| final(self).ring@.contains(s)
                <==> old(self).ring@.contains(s),
            final(self)@ == old(self)@,
    {
        let ghost pre = *self;
        match self.min_root {
            None => {
                proof {
                    broadcast use vstd::set::group_set_axioms;
                    self.lemma_live_slot_id(idx as int);
                    assert(self.live_ids().contains(self.id_of(idx as int)));
                    assert(self.n != 0);
                    assert(false);
                }
                self.min_root = Some(idx);
            }
            Some(m) => {
                if self.nodes[idx].entry.1 < self.nodes[m].entry.1 {
                    proof {
                        let r = self.ring@;
                        if self.nodes@[idx as int].parent is Some {
                            assert(self.anc_entry_ok(idx as int));
                            let h = self.anc@[idx as int];
                            self.lemma_chain_le(h, 0);
                            let root = h[h.len() - 1] as int;
                            assert(h.len() > 1) by {
                                assert(self.nodes@[h[h.len() - 1] as int].parent is None);
                            }
                            assert(self.live(root)
                                && self.nodes@[root].parent is None);
                            assert(r.contains(root as usize));
                            let k = choose|k: int| 0 <= k < r.len()
                                && r[k] == root as usize;
                            assert(root != idx as int);
                            assert(self.key_of(r[0] as int) <= self.key_of(root));
                            assert(false);
                        }
                        assert(r.contains(idx));
                    }
                    let ghost r = self.ring@;
                    let ghost j = choose|j: int| 0 <= j < r.len() && r[j] == idx;
                    proof {
                        lemma_ring_rotate(self.nodes@, r, j);
                    }
                    self.min_root = Some(idx);
                    self.ring = Ghost(r.subrange(j, r.len() as int) + r.subrange(0, j));
                    proof {
                        Self::lemma_same_core(pre, *self);
                        let r2 = self.ring@;
                        assert(r2[0] == idx);
                        assert forall|k: int| 0 <= k < r2.len()
                            implies self.live((#[trigger] r2[k]) as int)
                                && self.nodes@[r2[k] as int].parent is None by {
                            assert(r2.contains(r2[k]));
                            assert(r.contains(r2[k]));
                            let k0 = choose|k0: int| 0 <= k0 < r.len() && r[k0] == r2[k];
                            assert(pre.live(r[k0] as int)
                                && pre.nodes@[r[k0] as int].parent is None);
                        }
                        assert forall|k: int| 0 <= k < r2.len()
                            implies self.key_of(r2[0] as int)
                                <= self.key_of((#[trigger] r2[k]) as int) by {
                            if r2[k] != idx {
                                assert(r.contains(r2[k]));
                                let k0 = choose|k0: int| 0 <= k0 < r.len()
                                    && r[k0] == r2[k];
                                assert(pre.key_of(r[0] as int)
                                    <= pre.key_of(r[k0] as int));
                            }
                        }
                        assert forall|s: int| #[trigger] self.live(s)
                            && self.nodes@[s].parent is None
                            implies r2.contains(s as usize) by {
                            assert(pre.live(s));
                            assert(r.contains(s as usize));
                        }
                        assert(self@ =~= pre@);
                    }
                } else {
                    proof {
                        Self::lemma_same_core(pre, *self);
                        assert forall|k: int| 0 <= k < self.ring@.len()
                            implies self.key_of(self.ring@[0] as int)
                                <= self.key_of((#[trigger] self.ring@[k]) as int) by {
                            if self.ring@[k] == idx {
                                assert(!(self.key_of(idx as int)
                                    < self.key_of(m as int)));
                            }
                        }
                    }
                }
            }
        }
    }

    /// All child-ring facts except possibly the entry for parent slot `ex`;
    /// the membership listing itself stays complete.
    pub open spec fn childs_ok_except(self, ex: int) -> bool {
        &&& forall|p: int| self.live(p) && p != ex ==> #[trigger] self.childs_entry_ok(p)
        &&& forall|c: int| #[trigger] self.live(c) && self.nodes@[c].parent is Some
            ==> self.childs@[self.nodes@[c].parent->0 as int].contains(c as usize)
    }

    /// Move the live node `idx` (the member at position `j` of `parent`'s
    /// child ring) out of that ring and splice it into the root ring,
    /// clearing its parent link and its mark.  `parent`'s `degree` and
    /// `child` fields are left to the caller, so on return the child-ring
    /// facts still except `parent`, whose remaining ring is reported
    /// explicitly.
    #[verifier::rlimit(100)]
    #[verifier::spinoff_prover]
    fn promote(&mut self, idx: usize, parent: usize, Ghost(j): Ghost<int>)
        requires
            old(self).ids_ok(),
            old(self).pos_ok(),
            old(self).count_ok(),
            old(self).edges_ok_except(idx as int),
            old(self).anc_ok(),
            old(self).ring_ok(),
            old(self).min_ok_except(-1),
            old(self).childs_ok_except(parent as int),
            old(self).childs@.dom().contains(parent as int),
            ring_linked(old(self).nodes@, old(self).childs@[parent as int]),
            old(self).childs@[parent as int].no_duplicates(),
            forall|k: int| 0 <= k < old(self).childs@[parent as int].len()
                ==> old(self).live(
                        (#[trigger] old(self).childs@[parent as int][k]) as int)
                    && old(self).nodes@[old(self).childs@[parent as int][k] as int]
                        .parent == Some(parent),
            old(self).live(idx as int),
            old(self).live(parent as int),
            old(self).nodes@[idx as int].parent == Some(parent),
            0 <= j < old(self).childs@[parent as int].len(),
            old(self).childs@[parent as int][j] == idx,
        ensures
            final(self).ids_ok(),
            final(self).pos_ok(),
            final(self).count_ok(),
            final(self).edges_ok(),
            final(self).anc_ok(),
            final(self).ring_ok(),
            final(self).min_ok_except(-1),
            final(self).childs_ok_except(parent as int),
            final(self).childs@ == old(self).childs@.insert(
                parent as int, old(self).childs@[parent as int].remove(j)),
            ring_linked(final(self).nodes@, final(self).childs@[parent as int]),
            final(self).childs@[parent as int].no_duplicates(),
            forall|k: int| 0 <= k < final(self).childs@[parent as int].len()
                ==> final(self).live(
                        (#[trigger] final(self).childs@[parent as int][k]) as int)
                    && final(self).nodes@[
                        final(self).childs@[parent as int][k] as int].parent
                        == Some(parent),
            final(self).nodes@.len() == old(self).nodes@.len(),
            forall|s: int| 0 <= s < old(self).nodes@.len()
                ==> ((#[trigger] final(self).nodes@[s]).entry
                        == old(self).nodes@[s].entry
                    && final(self).nodes@[s].degree == old(self).nodes@[s].degree
                    && final(self).nodes@[s].child == old(self).nodes@[s].child),
            forall|s: int| 0 <= s < old(self).nodes@.len() && s != idx as int
                ==> (#[trigger] final(self).nodes@[s]).parent
                        == old(self).nodes@[s].parent
                    && final(self).nodes@[s].mark == old(self).nodes@[s].mark,
            final(self).nodes@[idx as int].parent is None,
            final(self).nodes@[idx as int].mark == false,
            forall|s: usize| final(self).ring@.contains(s)
                <==> old(self).ring@.contains(s) || s == idx,
            final(self).ring@.len() == old(self).ring@.len() + 1,
            final(self).ring@[0] == idx
                || (old(self).ring@.len() > 0
                    && final(self).ring@[0] == old(self).ring@[0]),
            old(self).ring@.len() > 0 && final(self).ring@[0] == idx
                ==> old(self).key_of(idx as int)
                    < old(self).key_of(old(self).ring@[0] as int),
            final(self)@ == old(self)@,
            final(self).n == old(self).n,
            final(self).positions == old(self).positions,
            forall|s: int| #[trigger] final(self).live(s) <==> old(self).live(s),
    {
        let ghost pre = *self;
        let ghost cs = pre.childs@[parent as int];
        proof {
            assert(pre.nodes@[idx as int].left
                == if j == 0 { cs[cs.len() - 1] } else { cs[j - 1] });
            assert(pre.nodes@[idx as int].right
                == if j == cs.len() - 1 { cs[0] } else { cs[j + 1] });
        }
        self.detach(idx);
        self.nodes[idx].parent = None;
        self.nodes[idx].mark = false;
        self.childs = Ghost(pre.childs@.insert(parent as int, cs.remove(j)));
        self.anc = Ghost(Map::new(
            |i: int| pre.anc@.dom().contains(i),
            |i: int| chain_cut(pre.anc@[i], idx),
        ));
        let ghost mid = *self;
        proof {
            let prevn: usize = if j == 0 { cs[cs.len() - 1] } else { cs[j - 1] };
            let nxtn: usize = if j == cs.len() - 1 { cs[0] } else { cs[j + 1] };
            assert(cs.contains(prevn) && cs.contains(nxtn));
            lemma_detach_pointwise(pre.nodes@, idx as int);
            assert(pre.nodes@[prevn as int].parent == Some(parent));
            assert(pre.nodes@[nxtn as int].parent == Some(parent));
            assert(mid.nodes@.len() == pre.nodes@.len());
            assert forall|s: int| 0 <= s < pre.nodes@.len()
                implies ((#[trigger] mid.nodes@[s]).entry == pre.nodes@[s].entry
                    && mid.nodes@[s].degree == pre.nodes@[s].degree
                    && mid.nodes@[s].child == pre.nodes@[s].child) by {}
            assert forall|s: int| 0 <= s < pre.nodes@.len() && s != idx as int
                implies ((#[trigger] mid.nodes@[s]).parent == pre.nodes@[s].parent
                    && mid.nodes@[s].mark == pre.nodes@[s].mark) by {}
            assert forall|s: int| 0 <= s < pre.nodes@.len() && s != idx as int
                && s != prevn as int && s != nxtn as int
                implies (#[trigger] mid.nodes@[s]).left == pre.nodes@[s].left
                    && mid.nodes@[s].right == pre.nodes@[s].right by {}
            assert forall|s: int| #[trigger] mid.live(s) <==> pre.live(s) by {}
            assert(mid.live_ids() =~= pre.live_ids());
            assert(mid@ =~= pre@);
            assert(mid.ids_ok());
            assert(mid.pos_ok()) by {
                assert forall|id: int| #[trigger] mid.live_id(id)
                    implies 0 <= mid.slot_of(id) < mid.nodes@.len()
                        && mid.id_of(mid.slot_of(id)) == id by {
                    assert(pre.live_id(id));
                }
            }
            assert(mid.count_ok());
            assert(mid.edges_ok()) by {
                assert forall|c: int| #[trigger] mid.live(c)
                    && mid.nodes@[c].parent is Some
                    implies mid.live(mid.nodes@[c].parent->0 as int)
                        && mid.key_of(mid.nodes@[c].parent->0 as int)
                            <= mid.key_of(c) by {
                    assert(c != idx as int);
                    assert(pre.live(c));
                    assert(pre.live(pre.nodes@[c].parent->0 as int));
                }
            }
            Self::lemma_anc_after_cut(pre, mid, idx);
            Self::lemma_childs_transfer(pre, mid, parent as int);
            assert(cs.remove(j).no_duplicates()) by {
                lemma_detach_ring(pre.nodes@, cs, j);
            }
            assert(ring_linked(mid.nodes@, cs.remove(j))) by {
                lemma_detach_ring(pre.nodes@, cs, j);
                assert forall|k: int| 0 <= k < cs.remove(j).len()
                    implies (#[trigger] cs.remove(j)[k]) < mid.nodes@.len()
                        && mid.nodes@[cs.remove(j)[k] as int].left
                            == detach_result(pre.nodes@, idx as int)[
                                cs.remove(j)[k] as int].left
                        && mid.nodes@[cs.remove(j)[k] as int].right
                            == detach_result(pre.nodes@, idx as int)[
                                cs.remove(j)[k] as int].right by {
                    let k0 = if k < j { k } else { k + 1 };
                    assert(cs.remove(j)[k] == cs[k0]);
                    assert(cs[k0] != idx);
                }
                lemma_ring_frame(
                    detach_result(pre.nodes@, idx as int), mid.nodes@, cs.remove(j));
            }
            assert forall|k: int| 0 <= k < cs.remove(j).len()
                implies mid.live((#[trigger] cs.remove(j)[k]) as int)
                    && mid.nodes@[cs.remove(j)[k] as int].parent
                        == Some(parent) by {
                let k0 = if k < j { k } else { k + 1 };
                assert(cs.remove(j)[k] == cs[k0]);
                assert(pre.live(cs[k0] as int));
                assert(cs[k0] != idx);
            }
            assert forall|c: int| #[trigger] mid.live(c)
                && mid.nodes@[c].parent is Some
                implies mid.childs@[mid.nodes@[c].parent->0 as int]
                    .contains(c as usize) by {
                assert(pre.live(c));
                assert(c != idx as int);
                let p = pre.nodes@[c].parent->0 as int;
                assert(pre.childs@[p].contains(c as usize));
                if p == parent as int {
                    let k0 = choose|k0: int| 0 <= k0 < cs.len()
                        && cs[k0] == c as usize;
                    assert(k0 != j);
                    let k1 = if k0 < j { k0 } else { k0 - 1 };
                    assert(cs.remove(j)[k1] == cs[k0]);
                    assert(cs.remove(j).contains(c as usize));
                }
            }
            assert(ring_linked(mid.nodes@, mid.ring@)) by {
                assert forall|k: int| 0 <= k < mid.ring@.len()
                    implies (#[trigger] mid.ring@[k]) < mid.nodes@.len()
                        && mid.nodes@[mid.ring@[k] as int].left
                            == pre.nodes@[mid.ring@[k] as int].left
                        && mid.nodes@[mid.ring@[k] as int].right
                            == pre.nodes@[mid.ring@[k] as int].right by {
                    assert(pre.live(pre.ring@[k] as int)
                        && pre.nodes@[pre.ring@[k] as int].parent is None);
                    assert(mid.ring@[k] != idx && mid.ring@[k] != prevn
                        && mid.ring@[k] != nxtn);
                }
                lemma_ring_frame(pre.nodes@, mid.nodes@, mid.ring@);
            }
            assert forall|k: int| 0 <= k < mid.ring@.len()
                implies mid.live((#[trigger] mid.ring@[k]) as int)
                    && mid.nodes@[mid.ring@[k] as int].parent is None by {
                assert(pre.live(pre.ring@[k] as int));
                assert(mid.ring@[k] != idx);
            }
            assert(!mid.ring@.contains(idx)) by {
                if mid.ring@.contains(idx) {
                    let k = choose|k: int| 0 <= k < mid.ring@.len()
                        && mid.ring@[k] == idx;
                    assert(pre.nodes@[pre.ring@[k] as int].parent is None);
                }
            }
            assert forall|k: int| 0 <= k < mid.ring@.len()
                implies mid.key_of(mid.ring@[0] as int)
                    <= mid.key_of((#[trigger] mid.ring@[k]) as int) by {
                assert(pre.key_of(pre.ring@[0] as int)
                    <= pre.key_of(pre.ring@[k] as int));
            }
            assert(mid.nodes@[idx as int].left == idx
                && mid.nodes@[idx as int].right == idx);
        }
        self.add_to_root(idx);
        proof {
            let post = *self;
            Self::lemma_add_root_restores(mid, post, idx);
            Self::lemma_childs_transfer(mid, post, parent as int);
            assert(forall|s: int| mid.live(s) && mid.nodes@[s].parent is None
                ==> s == idx as int || mid.ring@.contains(s as usize)) by {
                assert forall|s: int| mid.live(s) && mid.nodes@[s].parent is None
                    && s != idx as int
                    implies mid.ring@.contains(s as usize) by {
                    assert(pre.live(s));
                    assert(pre.nodes@[s].parent is None);
                }
            }
            assert(post.ring_ok());
            assert(post.count_ok()) by {
                assert(post.live_ids() == mid.live_ids());
            }
            assert(post.min_ok_except(-1)) by {
                assert(post.n != 0) by {
                    broadcast use vstd::set::group_set_axioms;
                    assert(mid.live(idx as int));
                    assert(mid.live_id(mid.id_of(idx as int))) by {
                        Self::lemma_same_live_id(mid, idx as int);
                    }
                    assert(mid.live_ids().contains(mid.id_of(idx as int)));
                }
            }
            assert(post.childs_ok_except(parent as int)) by {
                assert forall|c: int| #[trigger] post.live(c)
                    && post.nodes@[c].parent is Some
                    implies post.childs@[post.nodes@[c].parent->0 as int]
                        .contains(c as usize) by {
                    assert(mid.live(c));
                    assert(mid.nodes@[c].parent == post.nodes@[c].parent);
                    assert(mid.childs@[mid.nodes@[c].parent->0 as int]
                        .contains(c as usize));
                }
            }
            assert(ring_linked(post.nodes@, post.childs@[parent as int])) by {
                assert forall|k: int| 0 <= k < cs.remove(j).len()
                    implies (#[trigger] post.nodes@[cs.remove(j)[k] as int]).left
                            == mid.nodes@[cs.remove(j)[k] as int].left
                        && post.nodes@[cs.remove(j)[k] as int].right
                            == mid.nodes@[cs.remove(j)[k] as int].right by {
                    assert(mid.nodes@[cs.remove(j)[k] as int].parent
                        == Some(parent));
                }
                lemma_ring_frame(mid.nodes@, post.nodes@, cs.remove(j));
            }
            assert forall|k: int| 0 <= k < post.childs@[parent as int].len()
                implies post.live(
                        (#[trigger] post.childs@[parent as int][k]) as int)
                    && post.nodes@[post.childs@[parent as int][k] as int].parent
                        == Some(parent) by {
                assert(mid.live(cs.remove(j)[k] as int));
            }
            assert(post@ == pre@) by {
                assert(post@ == mid@);
            }
        }
    }

    /// Transfer every structural predicate across a write that touches only
    /// keys and marks: links, parents, children, degrees, ids and all ghost
    /// state agree.  Heap order and minimality are about keys, so they stay
    /// with the caller.
    proof fn lemma_benign_write(a: FibHeap, b: FibHeap)
        requires
            a.ids_ok(),
            a.pos_ok(),
            a.count_ok(),
            a.childs_ok(),
            a.anc_ok(),
            a.ring_ok(),
            b.nodes@.len() == a.nodes@.len(),
            forall|s: int| 0 <= s < a.nodes@.len()
                ==> ((#[trigger] b.nodes@[s]).entry.0 == a.nodes@[s].entry.0
                    && b.nodes@[s].degree == a.nodes@[s].degree
                    && b.nodes@[s].parent == a.nodes@[s].parent
                    && b.nodes@[s].child == a.nodes@[s].child
                    && b.nodes@[s].left == a.nodes@[s].left
                    && b.nodes@[s].right == a.nodes@[s].right),
            b.positions == a.positions,
            b.childs == a.childs,
            b.anc == a.anc,
            b.ring == a.ring,
            b.n == a.n,
        ensures
            b.ids_ok(),
            b.pos_ok(),
            b.count_ok(),
            b.childs_ok(),
            b.anc_ok(),
            b.ring_ok(),
            b.live_ids() == a.live_ids(),
            forall|s: int| #[trigger] b.live(s) <==> a.live(s),
    {
        assert forall|s: int| #[trigger] b.live(s) <==> a.live(s) by {}
        assert(b.live_ids() =~= a.live_ids());
        assert forall|id: int| #[trigger] b.live_id(id)
            implies 0 <= b.slot_of(id) < b.nodes@.len()
                && b.id_of(b.slot_of(id)) == id by {
            assert(a.live_id(id));
        }
        assert forall|p: int| b.live(p) implies #[trigger] b.childs_entry_ok(p) by {
            assert(a.live(p));
            assert(a.childs_entry_ok(p));
            let cs = b.childs@[p];
            assert forall|k: int| 0 <= k < cs.len()
                implies b.live((#[trigger] cs[k]) as int)
                    && b.nodes@[cs[k] as int].parent == Some(p as usize) by {
                assert(a.live(cs[k] as int));
            }
            lemma_ring_frame(a.nodes@, b.nodes@, cs);
        }
        assert forall|c: int| #[trigger] b.live(c) && b.nodes@[c].parent is Some
            implies b.childs@[b.nodes@[c].parent->0 as int].contains(c as usize) by {
            assert(a.live(c));
        }
        assert forall|i: int| b.live(i) implies #[trigger] b.anc_entry_ok(i) by {
            assert(a.live(i));
            assert(a.anc_entry_ok(i));
            let h = b.anc@[i];
            assert forall|k: int| 0 <= k < h.len()
                implies b.live((#[trigger] h[k]) as int) by {
                assert(a.live(h[k] as int));
            }
        }
        lemma_ring_frame(a.nodes@, b.nodes@, b.ring@);
        assert forall|k: int| 0 <= k < b.ring@.len()
            implies b.live((#[trigger] b.ring@[k]) as int)
                && b.nodes@[b.ring@[k] as int].parent is None by {
            assert(a.live(a.ring@[k] as int));
        }
        assert forall|s: int| #[trigger] b.live(s) && b.nodes@[s].parent is None
            implies b.ring@.contains(s as usize) by {
            assert(a.live(s));
        }
    }

    /// Transfer every predicate except the child-ring entry of slot `ex`
    /// across a write that only changes `ex`'s `child` and `degree` fields.
    #[verifier::rlimit(50)]
    proof fn lemma_patch_child_degree(a: FibHeap, b: FibHeap, ex: int)
        requires
            a.ids_ok(),
            a.pos_ok(),
            a.count_ok(),
            a.edges_ok(),
            a.anc_ok(),
            a.ring_ok(),
            a.min_ok_except(-1),
            forall|p: int| a.live(p) && p != ex ==> #[trigger] a.childs_entry_ok(p),
            forall|c: int| #[trigger] a.live(c) && a.nodes@[c].parent is Some
                ==> a.childs@[a.nodes@[c].parent->0 as int].contains(c as usize),
            b.nodes@.len() == a.nodes@.len(),
            forall|s: int| 0 <= s < a.nodes@.len()
                ==> ((#[trigger] b.nodes@[s]).entry == a.nodes@[s].entry
                    && b.nodes@[s].parent == a.nodes@[s].parent
                    && b.nodes@[s].mark == a.nodes@[s].mark
                    && b.nodes@[s].left == a.nodes@[s].left
                    && b.nodes@[s].right == a.nodes@[s].right),
            forall|s: int| 0 <= s < a.nodes@.len() && s != ex
                ==> ((#[trigger] b.nodes@[s]).degree == a.nodes@[s].degree
                    && b.nodes@[s].child == a.nodes@[s].child),
            b.positions == a.positions,
            b.childs == a.childs,
            b.anc == a.anc,
            b.ring == a.ring,
            b.min_root == a.min_root,
            b.n == a.n,
        ensures
            b.ids_ok(),
            b.pos_ok(),
            b.count_ok(),
            b.edges_ok(),
            b.anc_ok(),
            b.ring_ok(),
            b.min_ok_except(-1),
            forall|p: int| b.live(p) && p != ex ==> #[trigger] b.childs_entry_ok(p),
            forall|c: int| #[trigger] b.live(c) && b.nodes@[c].parent is Some
                ==> b.childs@[b.nodes@[c].parent->0 as int].contains(c as usize),
            forall|s: int| #[trigger] b.live(s) <==> a.live(s),
            b@ == a@,
    {
        assert forall|s: int| #[trigger] b.live(s) <==> a.live(s) by {}
        assert(b.live_ids() =~= a.live_ids());
        assert(b@ =~= a@);
        assert forall|id: int| #[trigger] b.live_id(id)
            implies 0 <= b.slot_of(id) < b.nodes@.len()
                && b.id_of(b.slot_of(id)) == id by {
            assert(a.live_id(id));
        }
        assert forall|c: int| #[trigger] b.live(c) && b.nodes@[c].parent is Some
            implies b.live(b.nodes@[c].parent->0 as int)
                && b.key_of(b.nodes@[c].parent->0 as int) <= b.key_of(c)
                && b.childs@[b.nodes@[c].parent->0 as int].contains(c as usize) by {
            assert(a.live(c));
            assert(a.live(a.nodes@[c].parent->0 as int));
        }
        assert forall|p: int| b.live(p) && p != ex
            implies #[trigger] b.childs_entry_ok(p) by {
            assert(a.live(p));
            assert(a.childs_entry_ok(p));
            let cs = b.childs@[p];
            assert forall|k: int| 0 <= k < cs.len()
                implies b.live((#[trigger] cs[k]) as int)
                    && b.nodes@[cs[k] as int].parent == Some(p as usize) by {
                assert(a.live(cs[k] as int));
            }
            lemma_ring_frame(a.nodes@, b.nodes@, cs);
        }
        assert forall|i: int| b.live(i) implies #[trigger] b.anc_entry_ok(i) by {
            assert(a.live(i));
            assert(a.anc_entry_ok(i));
            let h = b.anc@[i];
            assert forall|k: int| 0 <= k < h.len()
                implies b.live((#[trigger] h[k]) as int) by {
                assert(a.live(h[k] as int));
            }
        }
        lemma_ring_frame(a.nodes@, b.nodes@, b.ring@);
        assert forall|k: int| 0 <= k < b.ring@.len()
            implies b.live((#[trigger] b.ring@[k]) as int)
                && b.nodes@[b.ring@[k] as int].parent is None by {
            assert(a.live(a.ring@[k] as int));
        }
        assert forall|s: int| #[trigger] b.live(s) && b.nodes@[s].parent is None
            implies b.ring@.contains(s as usize) by {
            assert(a.live(s));
        }
        assert forall|k: int| 0 <= k < b.ring@.len()
            implies b.key_of(b.ring@[0] as int)
                <= b.key_of((#[trigger] b.ring@[k]) as int) by {
            assert(a.key_of(a.ring@[0] as int) <= a.key_of(a.ring@[k] as int));
        }
    }

    /// Re-establish the structural predicates after `link` made root `y` a
    /// child of root `x`: `mid` is the state right after `y` was unlinked
    /// from the root ring, `b` the state after the child-ring splice and the
    /// field updates.
    #[verifier::rlimit(100)]
    proof fn lemma_link_restores(a: FibHeap, mid: FibHeap, b: FibHeap, y: usize, x: usize, jy: int)
        requires
            a.core_ok(),
            a.live(y as int),
            a.live(x as int),
            x != y,
            a.nodes@[y as int].parent is None,
            a.nodes@[x as int].parent is None,
            a.key_of(x as int) <= a.key_of(y as int),
            0 <= jy < a.ring@.len(),
            a.ring@[jy] == y,
            mid.nodes@ == detach_result(a.nodes@, y as int),
            b.nodes@.len() == a.nodes@.len(),
            forall|s: int| 0 <= s < a.nodes@.len()
                ==> (#[trigger] b.nodes@[s]).entry == a.nodes@[s].entry,
            forall|s: int| 0 <= s < a.nodes@.len() && s != y as int
                ==> (#[trigger] b.nodes@[s]).parent == a.nodes@[s].parent
                    && b.nodes@[s].mark == a.nodes@[s].mark,
            b.nodes@[y as int].parent == Some(x),
            forall|s: int| 0 <= s < a.nodes@.len() && s != x as int
                ==> (#[trigger] b.nodes@[s]).degree == a.nodes@[s].degree
                    && b.nodes@[s].child == a.nodes@[s].child,
            b.nodes@[x as int].degree == a.nodes@[x as int].degree + 1,
            a.childs@[x as int].len() > 0
                ==> b.nodes@[x as int].child == a.nodes@[x as int].child
                    && ({
                        let cs = a.childs@[x as int];
                        &&& b.nodes@[y as int].left == cs[cs.len() - 1]
                        &&& b.nodes@[y as int].right == cs[0]
                        &&& b.nodes@[cs[0] as int].left == y
                        &&& b.nodes@[cs[cs.len() - 1] as int].right == y
                        &&& (forall|s: int| 0 <= s < a.nodes@.len() && s != y as int
                            && s != cs[0] as int && s != cs[cs.len() - 1] as int
                            ==> (#[trigger] b.nodes@[s]).left == mid.nodes@[s].left
                                && b.nodes@[s].right == mid.nodes@[s].right)
                        &&& (cs[0] != cs[cs.len() - 1]
                            ==> b.nodes@[cs[0] as int].right
                                    == mid.nodes@[cs[0] as int].right
                                && b.nodes@[cs[cs.len() - 1] as int].left
                                    == mid.nodes@[cs[cs.len() - 1] as int].left)
                    }),
            a.childs@[x as int].len() == 0
                ==> b.nodes@[x as int].child == Some(y)
                    && (forall|s: int| 0 <= s < a.nodes@.len()
                        ==> (#[trigger] b.nodes@[s]).left == mid.nodes@[s].left
                            && b.nodes@[s].right == mid.nodes@[s].right),
            b.positions == a.positions,
            b.n == a.n,
            b.ring@ == a.ring@.remove(jy),
            b.childs@ == a.childs@.insert(
                x as int, a.childs@[x as int].push(y)),
            b.anc@ == anc_link(a.anc@, y, x),
        ensures
            b.core_ok(),
            forall|s: usize| b.ring@.contains(s)
                <==> a.ring@.contains(s) && s != y,
            b@ == a@,
            forall|s: int| #[trigger] b.live(s) <==> a.live(s),
    {
        let cs = a.childs@[x as int];
        let r0 = a.ring@;
        let prevy: usize = if jy == 0 { r0[r0.len() - 1] } else { r0[jy - 1] };
        let nxty: usize = if jy == r0.len() - 1 { r0[0] } else { r0[jy + 1] };
        assert(a.nodes@[y as int].left == prevy && a.nodes@[y as int].right == nxty);
        lemma_detach_pointwise(a.nodes@, y as int);
        assert(a.childs_entry_ok(x as int));
        assert(!cs.contains(y)) by {
            if cs.contains(y) {
                let k = choose|k: int| 0 <= k < cs.len() && cs[k] == y;
                assert(a.nodes@[cs[k] as int].parent == Some(x));
            }
        }
        assert forall|s: int| #[trigger] b.live(s) <==> a.live(s) by {}
        assert(b.live_ids() =~= a.live_ids());
        assert(b@ =~= a@);
        assert(b.ids_ok());
        assert(b.pos_ok()) by {
            assert forall|id: int| #[trigger] b.live_id(id)
                implies 0 <= b.slot_of(id) < b.nodes@.len()
                    && b.id_of(b.slot_of(id)) == id by {
                assert(a.live_id(id));
            }
        }
        assert(b.count_ok());
        assert(b.edges_ok()) by {
            assert forall|c: int| #[trigger] b.live(c)
                && b.nodes@[c].parent is Some
                implies b.live(b.nodes@[c].parent->0 as int)
                    && b.key_of(b.nodes@[c].parent->0 as int)
                        <= b.key_of(c) by {
                if c == y as int {
                    assert(a.live(x as int));
                } else {
                    assert(a.live(c));
                    assert(a.live(a.nodes@[c].parent->0 as int));
                }
            }
        }
        // links of slots parented in `a` to someone other than x are untouched
        assert forall|s: int| 0 <= s < a.nodes@.len()
            && (#[trigger] a.nodes@[s].parent) is Some
            && a.nodes@[s].parent->0 as int != x as int
            implies b.nodes@[s].left == a.nodes@[s].left
                && b.nodes@[s].right == a.nodes@[s].right by {
            assert(s != y as int && s != prevy as int && s != nxty as int) by {
                assert(r0.contains(prevy) && r0.contains(nxty));
                if s == prevy as int {
                    let k2 = choose|k2: int| 0 <= k2 < r0.len() && r0[k2] == prevy;
                    assert(a.nodes@[r0[k2] as int].parent is None);
                }
                if s == nxty as int {
                    let k2 = choose|k2: int| 0 <= k2 < r0.len() && r0[k2] == nxty;
                    assert(a.nodes@[r0[k2] as int].parent is None);
                }
            }
            assert(mid.nodes@[s].left == a.nodes@[s].left
                && mid.nodes@[s].right == a.nodes@[s].right);
            if cs.len() > 0 {
                assert(s != cs[0] as int && s != cs[cs.len() - 1] as int) by {
                    assert(a.nodes@[cs[0] as int].parent == Some(x));
                    assert(a.nodes@[cs[cs.len() - 1] as int].parent == Some(x));
                }
            }
        }
        Self::lemma_childs_transfer(a, b, x as int);
        assert(b.childs_entry_ok(x as int)) by {
            let cs2 = b.childs@[x as int];
            assert(cs2 == cs.push(y));
            assert(cs2.no_duplicates()) by {
                assert forall|a1: int, b1: int| 0 <= a1 < b1 < cs2.len()
                    implies cs2[a1] != cs2[b1] by {
                    if b1 == cs.len() {
                        assert(cs.contains(cs[a1]));
                    }
                }
            }
            assert forall|k: int| 0 <= k < cs2.len()
                implies b.live((#[trigger] cs2[k]) as int)
                    && b.nodes@[cs2[k] as int].parent == Some(x) by {
                if k < cs.len() {
                    assert(a.live(cs[k] as int));
                    assert(a.nodes@[cs[k] as int].parent == Some(x));
                    assert(cs[k] != y);
                } else {
                    assert(cs2[k] == y);
                    assert(a.live(y as int));
                }
            }
            if cs.len() == 0 {
                assert(mid.nodes@[y as int].left == y
                    && mid.nodes@[y as int].right == y);
                assert(b.nodes@[y as int].left == y
                    && b.nodes@[y as int].right == y);
                assert(cs2 =~= Seq::<usize>::empty().push(y));
                assert(ring_linked(b.nodes@, cs2));
            } else {
                assert(ring_linked(b.nodes@, cs2)) by {
                    assert forall|k: int| 0 <= k < cs.len() - 1
                        implies b.nodes@[(#[trigger] cs[k]) as int].right
                            == cs[k + 1] by {
                        assert(a.nodes@[cs[k] as int].right == cs[k + 1]);
                        assert(cs[k] != y && cs[k] != prevy && cs[k] != nxty) by {
                            assert(a.nodes@[cs[k] as int].parent == Some(x));
                            assert(r0.contains(prevy) && r0.contains(nxty));
                            if cs[k] == prevy {
                                let k2 = choose|k2: int| 0 <= k2 < r0.len()
                                    && r0[k2] == prevy;
                                assert(a.nodes@[r0[k2] as int].parent is None);
                            }
                            if cs[k] == nxty {
                                let k2 = choose|k2: int| 0 <= k2 < r0.len()
                                    && r0[k2] == nxty;
                                assert(a.nodes@[r0[k2] as int].parent is None);
                            }
                        }
                        assert(mid.nodes@[cs[k] as int].right
                            == a.nodes@[cs[k] as int].right);
                        if k != 0 && cs[k] != cs[cs.len() - 1] {
                            assert(b.nodes@[cs[k] as int].right
                                == mid.nodes@[cs[k] as int].right);
                        } else if k == 0 && cs[0] != cs[cs.len() - 1] {
                            assert(b.nodes@[cs[0] as int].right
                                == mid.nodes@[cs[0] as int].right);
                        } else {
                            assert(cs[k] == cs[cs.len() - 1]);
                            assert(k == cs.len() - 1);
                        }
                    }
                    assert forall|k: int| 1 <= k < cs.len()
                        implies b.nodes@[(#[trigger] cs[k]) as int].left
                            == cs[k - 1] by {
                        assert(a.nodes@[cs[k] as int].left == cs[k - 1]);
                        assert(cs[k] != y && cs[k] != prevy && cs[k] != nxty) by {
                            assert(a.nodes@[cs[k] as int].parent == Some(x));
                            assert(r0.contains(prevy) && r0.contains(nxty));
                            if cs[k] == prevy {
                                let k2 = choose|k2: int| 0 <= k2 < r0.len()
                                    && r0[k2] == prevy;
                                assert(a.nodes@[r0[k2] as int].parent is None);
                            }
                            if cs[k] == nxty {
                                let k2 = choose|k2: int| 0 <= k2 < r0.len()
                                    && r0[k2] == nxty;
                                assert(a.nodes@[r0[k2] as int].parent is None);
                            }
                        }
                        assert(mid.nodes@[cs[k] as int].left
                            == a.nodes@[cs[k] as int].left);
                        if cs[k] != cs[0] {
                            assert(b.nodes@[cs[k] as int].left
                                == mid.nodes@[cs[k] as int].left);
                        } else {
                            assert(k == 0);
                        }
                    }
                    lemma_ring_insert(b.nodes@, cs, y);
                }
            }
        }
        assert forall|p: int| b.live(p) implies #[trigger] b.childs_entry_ok(p) by {}
        assert forall|c: int| #[trigger] b.live(c) && b.nodes@[c].parent is Some
            implies b.childs@[b.nodes@[c].parent->0 as int]
                .contains(c as usize) by {
            if c == y as int {
                assert(b.childs@[x as int][cs.len() as int] == y);
            } else if b.nodes@[c].parent->0 == x {
                assert(a.live(c));
                assert(a.childs@[x as int].contains(c as usize));
                let k = choose|k: int| 0 <= k < cs.len() && cs[k] == c as usize;
                assert(b.childs@[x as int][k] == c as usize);
            }
        }
        assert(b.anc_ok()) by {
            assert forall|i: int| b.live(i) implies #[trigger] b.anc_entry_ok(i) by {
                assert(a.live(i));
                assert(a.anc_entry_ok(i));
                let h0 = a.anc@[i];
                let h = b.anc@[i];
                assert(!cs.contains(y));
                if h0.len() > 0 && h0[h0.len() - 1] == y {
                    assert(h == h0.push(x));
                    assert(h[0] == h0[0]);
                    assert(!h0.contains(x)) by {
                        if h0.contains(x) {
                            let k = choose|k: int| 0 <= k < h0.len()
                                && h0[k] == x;
                            if k < h0.len() - 1 {
                                assert(a.nodes@[h0[k] as int].parent is Some);
                            } else {
                                assert(h0[k] == y);
                            }
                        }
                    }
                    assert(h.no_duplicates()) by {
                        assert forall|a1: int, b1: int| 0 <= a1 < b1 < h.len()
                            implies h[a1] != h[b1] by {
                            if b1 == h0.len() {
                                assert(h0.contains(h0[a1]));
                            }
                        }
                    }
                    assert forall|k: int| 0 <= k < h.len()
                        implies b.live((#[trigger] h[k]) as int) by {
                        if k < h0.len() {
                            assert(a.live(h0[k] as int));
                        } else {
                            assert(h[k] == x);
                        }
                    }
                    assert forall|k: int| 0 <= k < h.len() - 1
                        implies b.nodes@[(#[trigger] h[k]) as int].parent
                            == Some(h[k + 1]) by {
                        if k < h0.len() - 1 {
                            assert(h[k] == h0[k] && h[k + 1] == h0[k + 1]);
                            assert(h0[k] != y) by {
                                assert(h0[h0.len() - 1] == y);
                            }
                        } else {
                            assert(h[k] == y && h[k + 1] == x);
                        }
                    }
                    assert(b.nodes@[h[h.len() - 1] as int].parent is None);
                } else {
                    assert(h == h0);
                    assert(!h0.contains(y)) by {
                        if h0.contains(y) {
                            let k = choose|k: int| 0 <= k < h0.len()
                                && h0[k] == y;
                            if k < h0.len() - 1 {
                                assert(a.nodes@[h0[k] as int].parent is Some);
                            }
                        }
                    }
                    assert forall|k: int| 0 <= k < h.len()
                        implies b.live((#[trigger] h[k]) as int) by {
                        assert(a.live(h0[k] as int));
                    }
                    assert forall|k: int| 0 <= k < h.len() - 1
                        implies b.nodes@[(#[trigger] h[k]) as int].parent
                            == Some(h[k + 1]) by {
                        assert(h0[k] != y);
                    }
                    assert(h0[h0.len() - 1] != y);
                }
            }
        }
        assert(b.ring_ok()) by {
            let r2 = b.ring@;
            lemma_detach_ring(a.nodes@, r0, jy);
            assert(ring_linked(b.nodes@, r2)) by {
                assert forall|k: int| 0 <= k < r2.len()
                    implies (#[trigger] r2[k]) < b.nodes@.len()
                        && b.nodes@[r2[k] as int].left == mid.nodes@[r2[k] as int].left
                        && b.nodes@[r2[k] as int].right
                            == mid.nodes@[r2[k] as int].right by {
                    let k0 = if k < jy { k } else { k + 1 };
                    assert(r2[k] == r0[k0]);
                    assert(a.live(r0[k0] as int)
                        && a.nodes@[r0[k0] as int].parent is None);
                    assert(r2[k] != y);
                    if cs.len() > 0 {
                        assert(r2[k] != cs[0] && r2[k] != cs[cs.len() - 1]) by {
                            assert(a.nodes@[cs[0] as int].parent == Some(x));
                            assert(a.nodes@[cs[cs.len() - 1] as int].parent
                                == Some(x));
                        }
                    }
                }
                lemma_ring_frame(mid.nodes@, b.nodes@, r2);
            }
            assert forall|k: int| 0 <= k < r2.len()
                implies b.live((#[trigger] r2[k]) as int)
                    && b.nodes@[r2[k] as int].parent is None by {
                let k0 = if k < jy { k } else { k + 1 };
                assert(r2[k] == r0[k0]);
                assert(a.live(r0[k0] as int)
                    && a.nodes@[r0[k0] as int].parent is None);
                assert(r2[k] != y);
            }
            assert forall|s: int| #[trigger] b.live(s)
                && b.nodes@[s].parent is None
                implies r2.contains(s as usize) by {
                assert(s != y as int);
                assert(a.live(s) && a.nodes@[s].parent is None);
                assert(r0.contains(s as usize));
                let k0 = choose|k0: int| 0 <= k0 < r0.len()
                    && r0[k0] == s as usize;
                assert(k0 != jy);
                let k1 = if k0 < jy { k0 } else { k0 - 1 };
                assert(r2[k1] == r0[k0]);
            }
        }
        assert forall|s: usize| b.ring@.contains(s)
            implies a.ring@.contains(s) && s != y by {
            let k = choose|k: int| 0 <= k < b.ring@.len() && b.ring@[k] == s;
            let k0 = if k < jy { k } else { k + 1 };
            assert(b.ring@[k] == r0[k0]);
        }
        assert forall|s: usize| a.ring@.contains(s) && s != y
            implies b.ring@.contains(s) by {
            let k0 = choose|k0: int| 0 <= k0 < r0.len() && r0[k0] == s;
            assert(k0 != jy);
            let k1 = if k0 < jy { k0 } else { k0 - 1 };
            assert(b.ring@[k1] == r0[k0]);
        }
    }

    /// After node `idx` is cut loose from its parent, every recorded
    /// ancestor chain truncated at `idx` is again a valid chain.
    proof fn lemma_anc_after_cut(a: FibHeap, b: FibHeap, idx: usize)
        requires
            a.anc_ok(),
            b.nodes@.len() == a.nodes@.len(),
            forall|s: int| #[trigger] b.live(s) <==> a.live(s),
            forall|s: int| 0 <= s < a.nodes@.len() && s != idx as int
                ==> (#[trigger] b.nodes@[s]).parent == a.nodes@[s].parent,
            b.nodes@[idx as int].parent is None,
            b.anc@ == Map::<int, Seq<usize>>::new(
                |i: int| a.anc@.dom().contains(i),
                |i: int| chain_cut(a.anc@[i], idx),
            ),
        ensures
            b.anc_ok(),
    {
        assert forall|i: int| b.live(i) implies #[trigger] b.anc_entry_ok(i) by {
            assert(a.live(i));
            assert(a.anc_entry_ok(i));
            let h0 = a.anc@[i];
            let h = b.anc@[i];
            assert(h == chain_cut(h0, idx));
            if h0.contains(idx) {
                let j0 = h0.index_of(idx);
                assert(0 <= j0 < h0.len() && h0[j0] == idx);
                assert(h == h0.take(j0 + 1));
                assert(h.len() == j0 + 1 && h[0] == h0[0]);
                assert(h.no_duplicates()) by {
                    assert forall|a1: int, b1: int| 0 <= a1 < b1 < h.len()
                        implies h[a1] != h[b1] by {
                        assert(h[a1] == h0[a1] && h[b1] == h0[b1]);
                    }
                }
                assert forall|k: int| 0 <= k < h.len()
                    implies b.live((#[trigger] h[k]) as int) by {
                    assert(h[k] == h0[k]);
                    assert(a.live(h0[k] as int));
                }
                assert forall|k: int| 0 <= k < h.len() - 1
                    implies b.nodes@[(#[trigger] h[k]) as int].parent
                        == Some(h[k + 1]) by {
                    assert(h[k] == h0[k] && h[k + 1] == h0[k + 1]);
                    assert(h0[k] != idx);
                }
                assert(b.nodes@[h[h.len() - 1] as int].parent is None);
            } else {
                assert(h == h0);
                assert forall|k: int| 0 <= k < h.len()
                    implies b.live((#[trigger] h[k]) as int) by {
                    assert(a.live(h0[k] as int));
                }
                assert forall|k: int| 0 <= k < h.len() - 1
                    implies b.nodes@[(#[trigger] h[k]) as int].parent
                        == Some(h[k + 1]) by {
                    assert(h0[k] != idx);
                }
                assert(h0[h0.len() - 1] != idx);
            }
        }
    }

    /// Facts needed before `link` starts surgery: `y` is not already a
    /// child of `x`, the grown child ring stays duplicate-free, the degree
    /// bump cannot overflow, and `y`'s ring neighbors are valid slots.
    proof fn lemma_link_setup(a: FibHeap, y: usize, x: usize, jy: int)
        requires
            a.core_ok(),
            a.live(y as int),
            a.live(x as int),
            x != y,
            a.nodes@[y as int].parent is None,
            a.nodes@[x as int].parent is None,
            0 <= jy < a.ring@.len(),
            a.ring@[jy] == y,
        ensures
            !a.childs@[x as int].contains(y),
            a.childs@[x as int].push(y).no_duplicates(),
            a.nodes@[x as int].degree as int + 1 <= a.nodes@.len(),
            a.nodes@.len() <= NOT_IN_HEAP as int,
            (a.nodes@[y as int].left as int) < a.nodes@.len(),
            (a.nodes@[y as int].right as int) < a.nodes@.len(),
    {
        let cs = a.childs@[x as int];
        let r0 = a.ring@;
        assert(a.childs_entry_ok(x as int));
        assert(!cs.contains(y)) by {
            if cs.contains(y) {
                let k = choose|k: int| 0 <= k < cs.len() && cs[k] == y;
                assert(a.nodes@[cs[k] as int].parent == Some(x));
            }
        }
        assert(cs.push(y).no_duplicates()) by {
            assert forall|a1: int, b1: int| 0 <= a1 < b1 < cs.push(y).len()
                implies cs.push(y)[a1] != cs.push(y)[b1] by {
                if b1 == cs.len() {
                    assert(cs.contains(cs[a1]));
                }
            }
        }
        assert forall|k: int| 0 <= k < cs.push(y).len()
            implies (#[trigger] cs.push(y)[k]) < a.nodes@.len() as nat by {
            if k < cs.len() {
                assert(a.live(cs[k] as int));
            }
        }
        lemma_nodup_len_bound(cs.push(y), a.nodes@.len() as nat);
        assert(a.nodes@[y as int].left == (if jy == 0 {
            r0[r0.len() - 1]
        } else {
            r0[jy - 1]
        }));
        assert(a.nodes@[y as int].right == (if jy == r0.len() - 1 {
            r0[0]
        } else {
            r0[jy + 1]
        }));
    }

    /// After a root `y` is unlinked from the root ring, the designated
    /// child of another root `x` still heads `x`'s child ring with its left
    /// link pointing at the ring's last member.
    proof fn lemma_child_head_left(a: FibHeap, y: usize, x: usize, jy: int)
        requires
            a.core_ok(),
            a.live(y as int),
            a.live(x as int),
            x != y,
            a.nodes@[y as int].parent is None,
            a.nodes@[x as int].parent is None,
            a.nodes@[x as int].child is Some,
            0 <= jy < a.ring@.len(),
            a.ring@[jy] == y,
        ensures
            ({
                let cs = a.childs@[x as int];
                let c = a.nodes@[x as int].child->0;
                &&& cs.len() > 0
                &&& cs[0] == c
                &&& (c as int) < a.nodes@.len()
                &&& c != y
                &&& (cs[cs.len() - 1] as int) < a.nodes@.len()
                &&& detach_result(a.nodes@, y as int)[c as int].left
                    == cs[cs.len() - 1]
                &&& detach_result(a.nodes@, y as int)[c as int].left
                    == a.nodes@[c as int].left
            }),
    {
        let cs = a.childs@[x as int];
        let c = a.nodes@[x as int].child->0;
        let r0 = a.ring@;
        assert((a.nodes@[y as int].left as int) < a.nodes@.len()
            && (a.nodes@[y as int].right as int) < a.nodes@.len()) by {
            if jy == 0 {
                assert(a.ring@[a.ring@.len() - 1] < a.nodes@.len());
            }
        }
        lemma_detach_pointwise(a.nodes@, y as int);
        assert(a.childs_entry_ok(x as int));
        assert(cs.len() > 0 && cs[0] == c);
        assert(a.nodes@[c as int].parent == Some(x));
        assert(a.nodes@[c as int].left == cs[cs.len() - 1]);
        let prevy: usize = if jy == 0 { r0[r0.len() - 1] } else { r0[jy - 1] };
        let nxty: usize = if jy == r0.len() - 1 { r0[0] } else { r0[jy + 1] };
        assert(a.nodes@[y as int].left == prevy
            && a.nodes@[y as int].right == nxty);
        assert(c != y && c != prevy && c != nxty) by {
            assert(r0.contains(prevy) && r0.contains(nxty));
            if c == prevy {
                let k2 = choose|k2: int| 0 <= k2 < r0.len() && r0[k2] == prevy;
                assert(a.nodes@[r0[k2] as int].parent is None);
            }
            if c == nxty {
                let k2 = choose|k2: int| 0 <= k2 < r0.len() && r0[k2] == nxty;
                assert(a.nodes@[r0[k2] as int].parent is None);
            }
        }
    }

    /// Finish the proof of `link` when `x` already had a designated child
    /// `c`: `mid` is the state after `y` left the root ring, `sp` the state
    /// after `y` was spliced before `c`, and `b` the final state.
    #[verifier::rlimit(100)]
    proof fn lemma_link_finish_some(a: FibHeap, mid: FibHeap, sp: FibHeap, b: FibHeap, y: usize, x: usize, jy: int, c: usize)
        requires
            a.core_ok(),
            a.live(y as int),
            a.live(x as int),
            x != y,
            a.nodes@[y as int].parent is None,
            a.nodes@[x as int].parent is None,
            a.key_of(x as int) <= a.key_of(y as int),
            0 <= jy < a.ring@.len(),
            a.ring@[jy] == y,
            a.nodes@[x as int].child == Some(c),
            mid.nodes@ == detach_result(a.nodes@, y as int),
            sp.nodes@.len() == mid.nodes@.len(),
            forall|s: int| 0 <= s < mid.nodes@.len()
                ==> ((#[trigger] sp.nodes@[s]).entry == mid.nodes@[s].entry
                    && sp.nodes@[s].degree == mid.nodes@[s].degree
                    && sp.nodes@[s].mark == mid.nodes@[s].mark
                    && sp.nodes@[s].parent == mid.nodes@[s].parent
                    && sp.nodes@[s].child == mid.nodes@[s].child),
            forall|s: int| 0 <= s < mid.nodes@.len()
                && s != y as int && s != c as int
                && s != mid.nodes@[c as int].left as int
                ==> #[trigger] sp.nodes@[s] == mid.nodes@[s],
            sp.nodes@[y as int].left == mid.nodes@[c as int].left,
            sp.nodes@[y as int].right == c,
            sp.nodes@[c as int].left == y,
            sp.nodes@[mid.nodes@[c as int].left as int].right == y,
            mid.nodes@[c as int].left != c
                ==> sp.nodes@[c as int].right == mid.nodes@[c as int].right
                    && sp.nodes@[mid.nodes@[c as int].left as int].left
                        == mid.nodes@[mid.nodes@[c as int].left as int].left,
            b.nodes@.len() == sp.nodes@.len(),
            forall|s: int| 0 <= s < sp.nodes@.len()
                ==> ((#[trigger] b.nodes@[s]).entry == sp.nodes@[s].entry
                    && b.nodes@[s].left == sp.nodes@[s].left
                    && b.nodes@[s].right == sp.nodes@[s].right),
            forall|s: int| 0 <= s < sp.nodes@.len() && s != y as int
                ==> (#[trigger] b.nodes@[s]).parent == sp.nodes@[s].parent
                    && b.nodes@[s].mark == sp.nodes@[s].mark,
            b.nodes@[y as int].parent == Some(x),
            forall|s: int| 0 <= s < sp.nodes@.len() && s != x as int
                ==> (#[trigger] b.nodes@[s]).degree == sp.nodes@[s].degree
                    && b.nodes@[s].child == sp.nodes@[s].child,
            b.nodes@[x as int].degree == sp.nodes@[x as int].degree + 1,
            b.nodes@[x as int].child == sp.nodes@[x as int].child,
            b.positions == a.positions,
            b.n == a.n,
            b.ring@ == a.ring@.remove(jy),
            b.childs@ == a.childs@.insert(
                x as int, a.childs@[x as int].push(y)),
            b.anc@ == anc_link(a.anc@, y, x),
        ensures
            b.core_ok(),
            forall|s: usize| b.ring@.contains(s)
                <==> a.ring@.contains(s) && s != y,
            b@ == a@,
            forall|s: int| #[trigger] b.live(s) <==> a.live(s),
    {
        let cs = a.childs@[x as int];
        Self::lemma_child_head_left(a, y, x, jy);
        assert((a.nodes@[y as int].left as int) < a.nodes@.len()
            && (a.nodes@[y as int].right as int) < a.nodes@.len()) by {
            if jy == 0 {
                assert(a.ring@[a.ring@.len() - 1] < a.nodes@.len());
            }
        }
        lemma_detach_pointwise(a.nodes@, y as int);
        assert(cs.len() > 0 && cs[0] == c);
        assert(mid.nodes@[c as int].left == cs[cs.len() - 1]);
        assert(b.nodes@[y as int].left == cs[cs.len() - 1]);
        assert(b.nodes@[y as int].right == cs[0]);
        assert(b.nodes@[cs[0] as int].left == y);
        assert(b.nodes@[cs[cs.len() - 1] as int].right == y);
        assert forall|s: int| 0 <= s < a.nodes@.len() && s != y as int
            && s != cs[0] as int && s != cs[cs.len() - 1] as int
            implies (#[trigger] b.nodes@[s]).left == mid.nodes@[s].left
                && b.nodes@[s].right == mid.nodes@[s].right by {}
        assert(cs[0] != cs[cs.len() - 1]
            ==> b.nodes@[cs[0] as int].right == mid.nodes@[cs[0] as int].right
                && b.nodes@[cs[cs.len() - 1] as int].left
                    == mid.nodes@[cs[cs.len() - 1] as int].left);
        Self::lemma_link_restores(a, mid, b, y, x, jy);
    }

    /// Finish the proof of `link` when `x` had no children: `mid` is the
    /// state after `y` left the root ring and `b` the final state.
    #[verifier::rlimit(100)]
    proof fn lemma_link_finish_none(a: FibHeap, mid: FibHeap, b: FibHeap, y: usize, x: usize, jy: int)
        requires
            a.core_ok(),
            a.live(y as int),
            a.live(x as int),
            x != y,
            a.nodes@[y as int].parent is None,
            a.nodes@[x as int].parent is None,
            a.key_of(x as int) <= a.key_of(y as int),
            0 <= jy < a.ring@.len(),
            a.ring@[jy] == y,
            a.nodes@[x as int].child is None,
            mid.nodes@ == detach_result(a.nodes@, y as int),
            b.nodes@.len() == mid.nodes@.len(),
            forall|s: int| 0 <= s < mid.nodes@.len()
                ==> ((#[trigger] b.nodes@[s]).entry == mid.nodes@[s].entry
                    && b.nodes@[s].left == mid.nodes@[s].left
                    && b.nodes@[s].right == mid.nodes@[s].right),
            forall|s: int| 0 <= s < mid.nodes@.len() && s != y as int
                ==> (#[trigger] b.nodes@[s]).parent == mid.nodes@[s].parent
                    && b.nodes@[s].mark == mid.nodes@[s].mark,
            b.nodes@[y as int].parent == Some(x),
            forall|s: int| 0 <= s < mid.nodes@.len() && s != x as int
                ==> (#[trigger] b.nodes@[s]).degree == mid.nodes@[s].degree
                    && b.nodes@[s].child == mid.nodes@[s].child,
            b.nodes@[x as int].degree == mid.nodes@[x as int].degree + 1,
            b.nodes@[x as int].child == Some(y),
            b.positions == a.positions,
            b.n == a.n,
            b.ring@ == a.ring@.remove(jy),
            b.childs@ == a.childs@.insert(
                x as int, a.childs@[x as int].push(y)),
            b.anc@ == anc_link(a.anc@, y, x),
        ensures
            b.core_ok(),
            forall|s: usize| b.ring@.contains(s)
                <==> a.ring@.contains(s) && s != y,
            b@ == a@,
            forall|s: int| #[trigger] b.live(s) <==> a.live(s),
    {
        assert((a.nodes@[y as int].left as int) < a.nodes@.len()
            && (a.nodes@[y as int].right as int) < a.nodes@.len()) by {
            if jy == 0 {
                assert(a.ring@[a.ring@.len() - 1] < a.nodes@.len());
            }
        }
        lemma_detach_pointwise(a.nodes@, y as int);
        assert(a.childs_entry_ok(x as int));
        assert(a.childs@[x as int].len() == 0);
        Self::lemma_link_restores(a, mid, b, y, x, jy);
    }

    /// A live slot's id is live.
    proof fn lemma_same_live_id(a: FibHeap, s: int)
        requires
            a.ids_ok(),
            a.live(s),
        ensures
            a.live_id(a.id_of(s)),
    {
        assert(s < a.nodes@.len() <= NOT_IN_HEAP as int);
    }

    /// Cut the live node `idx` out of its parent's child ring (repairing the
    /// parent's designated-child pointer and degree) and promote it to the
    /// root ring with a cleared mark.  Restores full well-formedness even if
    /// heap order was broken along the edge into `idx`.
    #[verifier::rlimit(100)]
    #[verifier::spinoff_prover]
    fn cut(&mut self, idx: usize, parent: usize)
        requires
            old(self).ids_ok(),
            old(self).pos_ok(),
            old(self).count_ok(),
            old(self).edges_ok_except(idx as int),
            old(self).childs_ok(),
            old(self).anc_ok(),
            old(self).ring_ok(),
            old(self).min_ok_except(-1),
            old(self).live(idx as int),
            old(self).live(parent as int),
            old(self).nodes@[idx as int].parent == Some(parent),
        ensures
            final(self).wf(),
            final(self)@ == old(self)@,
            final(self).n == old(self).n,
            final(self).positions == old(self).positions,
            final(self).nodes@.len() == old(self).nodes@.len(),
            forall|s: int| 0 <= s < old(self).nodes@.len()
                ==> (#[trigger] final(self).nodes@[s]).entry
                    == old(self).nodes@[s].entry,
            forall|s: int| 0 <= s < old(self).nodes@.len() && s != idx as int
                ==> (#[trigger] final(self).nodes@[s]).parent
                        == old(self).nodes@[s].parent
                    && final(self).nodes@[s].mark == old(self).nodes@[s].mark,
            final(self).nodes@[idx as int].parent is None,
            final(self).nodes@[idx as int].mark == false,
            forall|s: int| #[trigger] final(self).live(s) <==> old(self).live(s),
    {
        let ghost pre = *self;
        let ghost cs = pre.childs@[parent as int];
        let ghost j = cs.index_of(idx);
        proof {
            assert(pre.childs_entry_ok(parent as int));
            assert(cs.contains(idx));
            assert(0 <= j < cs.len() && cs[j] == idx);
        }
        let is_designated = match self.nodes[parent].child {
            Some(c) => c == idx,
            None => false,
        };
        let mut next_child: Option<usize> = None;
        if is_designated {
            if self.nodes[idx].right == idx {
                proof {
                    if cs.len() >= 2 {
                        assert(pre.nodes@[cs[0] as int].right == cs[1]);
                        assert(cs[0] != cs[1]);
                    }
                    assert(cs.len() == 1);
                }
                next_child = None;
            } else {
                proof {
                    assert(j == 0);
                    if cs.len() == 1 {
                        assert(pre.nodes@[idx as int].right == idx);
                    }
                    assert(cs.len() >= 2);
                }
                next_child = Some(self.nodes[idx].right);
                proof {
                    assert(next_child == Some(cs[1]));
                }
            }
        } else {
            proof {
                assert(cs[0] != idx);
                assert(j != 0);
            }
        }
        self.promote(idx, parent, Ghost(j));
        let ghost mid = *self;
        if is_designated {
            self.nodes[parent].child = next_child;
        }
        self.nodes[parent].degree = self.nodes[parent].degree - 1;
        proof {
            let post = *self;
            Self::lemma_patch_child_degree(mid, post, parent as int);
            assert(post.childs_entry_ok(parent as int)) by {
                let cs2 = post.childs@[parent as int];
                assert(cs2 == cs.remove(j));
                assert(post.nodes@[parent as int].degree as int == cs2.len()) by {
                    assert(pre.nodes@[parent as int].degree as int == cs.len());
                    assert(mid.nodes@[parent as int].degree
                        == pre.nodes@[parent as int].degree);
                }
                assert(match post.nodes@[parent as int].child {
                    None => cs2.len() == 0,
                    Some(c) => cs2.len() > 0 && cs2[0] == c,
                }) by {
                    if is_designated {
                        if cs.len() == 1 {
                            assert(cs2.len() == 0);
                        } else {
                            assert(j == 0);
                            assert(cs2[0] == cs[1]);
                        }
                    } else {
                        assert(j != 0);
                        assert(cs2[0] == cs[0]);
                        assert(post.nodes@[parent as int].child
                            == pre.nodes@[parent as int].child);
                        assert(pre.nodes@[parent as int].child is Some ==>
                            pre.nodes@[parent as int].child->0 == cs[0]);
                        assert(pre.nodes@[parent as int].child is Some) by {
                            assert(cs.len() > 0);
                        }
                    }
                }
                assert(ring_linked(post.nodes@, cs2)) by {
                    lemma_ring_frame(mid.nodes@, post.nodes@, cs2);
                }
                assert forall|k: int| 0 <= k < cs2.len()
                    implies post.live((#[trigger] cs2[k]) as int)
                        && post.nodes@[cs2[k] as int].parent == Some(parent) by {
                    assert(mid.live(cs2[k] as int));
                }
            }
            assert(post.childs_ok()) by {
                assert forall|p: int| post.live(p)
                    implies #[trigger] post.childs_entry_ok(p) by {}
            }
            assert(post@ == pre@) by {
                assert(mid@ == pre@);
            }
        }
    }

    /// Walk upward from `y`: an unmarked ancestor is marked and the walk
    /// stops; a marked ancestor has lost a second child, so it is cut to the
    /// root ring and the walk continues from its former parent.
    /// What the cascading walk from `h[0]` did, stopping at chain index
    /// `t`: every ancestor strictly below `t` was marked and is now a
    /// parentless root with its mark cleared; if `h[t]` is not the chain's
    /// root it was unmarked and is now marked (its parent untouched); if it
    /// is the root it is left as it was; and no other node's parent or mark
    /// changed.
    pub open spec fn cascade_walk_post(a: FibHeap, b: FibHeap, h: Seq<usize>, t: int) -> bool {
        &&& 0 <= t < h.len()
        &&& forall|k: int| 0 <= k < t
            ==> (a.nodes@[(#[trigger] h[k]) as int].mark == true
                && b.nodes@[h[k] as int].parent is None
                && b.nodes@[h[k] as int].mark == false)
        &&& (t < h.len() - 1 ==> a.nodes@[h[t] as int].mark == false
            && b.nodes@[h[t] as int].mark == true
            && b.nodes@[h[t] as int].parent == a.nodes@[h[t] as int].parent)
        &&& (t == h.len() - 1 ==> b.nodes@[h[t] as int].parent is None
            && b.nodes@[h[t] as int].mark == a.nodes@[h[t] as int].mark)
        &&& forall|s: int| 0 <= s < a.nodes@.len()
            && !h.take(t + 1).contains(s as usize)
            ==> ((#[trigger] b.nodes@[s]).parent == a.nodes@[s].parent
                && b.nodes@[s].mark == a.nodes@[s].mark)
    }

    #[verifier::rlimit(100)]
    #[verifier::spinoff_prover]
    fn cascading_cut(&mut self, y: usize)
        requires
            old(self).wf(),
            old(self).live(y as int),
        ensures
            final(self).wf(),
            final(self)@ == old(self)@,
            final(self).n == old(self).n,
            final(self).positions == old(self).positions,
            forall|s: int| #[trigger] final(self).live(s) <==> old(self).live(s),
            exists|t: int| Self::cascade_walk_post(
                *old(self), *final(self), old(self).anc@[y as int], t),
    {
        let ghost orig = *old(self);
        let ghost m0 = old(self)@;
        let ghost n0 = old(self).n;
        let ghost h = old(self).anc@[y as int];
        let ghost j: int = 0;
        proof {
            assert(old(self).anc_entry_ok(y as int));
        }
        proof {
            assert forall|k: int| 0 <= k < h.len()
                implies ((#[trigger] h[k]) as int) < orig.nodes@.len() by {
                assert(orig.live(h[k] as int));
            }
        }
        let mut y = y;
        let ghost mut j = j;
        loop
            invariant_except_break
                forall|s: int| 0 <= s < orig.nodes@.len()
                    && !h.take(j).contains(s as usize)
                    ==> ((#[trigger] self.nodes@[s]).parent == orig.nodes@[s].parent
                        && self.nodes@[s].mark == orig.nodes@[s].mark),
            invariant
                self.wf(),
                self@ == m0,
                self.n == n0,
                h.no_duplicates(),
                0 <= j < h.len(),
                h[j] == y,
                forall|k: int| j <= k < h.len()
                    ==> self.live((#[trigger] h[k]) as int),
                forall|k: int| j <= k < h.len() - 1
                    ==> self.nodes@[(#[trigger] h[k]) as int].parent
                        == Some(h[k + 1]),
                self.nodes@[h[h.len() - 1] as int].parent is None,
                self.positions == orig.positions,
                forall|s: int| #[trigger] self.live(s) <==> orig.live(s),
                self.nodes@.len() == orig.nodes@.len(),
                forall|k: int| 0 <= k < h.len()
                    ==> ((#[trigger] h[k]) as int) < orig.nodes@.len(),
                forall|k: int| 0 <= k < j
                    ==> (orig.nodes@[(#[trigger] h[k]) as int].mark == true
                        && self.nodes@[h[k] as int].parent is None
                        && self.nodes@[h[k] as int].mark == false),
            ensures
                self.wf(),
                self@ == m0,
                self.n == n0,
                self.positions == orig.positions,
                forall|s: int| #[trigger] self.live(s) <==> orig.live(s),
                exists|t: int| Self::cascade_walk_post(orig, *self, h, t),
            decreases h.len() - j,
        {
            let ghost pre = *self;
            match self.nodes[y].parent {
                None => {
                    proof {
                        assert(j == h.len() - 1) by {
                            if j < h.len() - 1 {
                                assert(self.nodes@[h[j] as int].parent
                                    == Some(h[j + 1]));
                            }
                        }
                        assert(!h.take(j).contains(h[j])) by {
                            if h.take(j).contains(h[j]) {
                                let k = choose|k: int| 0 <= k < j
                                    && h.take(j)[k] == h[j];
                                assert(h[k] == h[j]);
                            }
                        }
                        assert(Self::cascade_walk_post(orig, *self, h, j)) by {
                            assert forall|s: int| 0 <= s < orig.nodes@.len()
                                && !h.take(j + 1).contains(s as usize)
                                implies ((#[trigger] self.nodes@[s]).parent
                                        == orig.nodes@[s].parent
                                    && self.nodes@[s].mark
                                        == orig.nodes@[s].mark) by {
                                assert(!h.take(j).contains(s as usize)) by {
                                    if h.take(j).contains(s as usize) {
                                        let k = choose|k: int| 0 <= k < j
                                            && h.take(j)[k] == s as usize;
                                        assert(h.take(j + 1)[k] == s as usize);
                                    }
                                }
                            }
                        }
                    }
                    break;
                }
                Some(p) => {
                    proof {
                        assert(j < h.len() - 1) by {
                            if j == h.len() - 1 {
                                assert(self.nodes@[h[j] as int].parent is None);
                            }
                        }
                        assert(p == h[j + 1]);
                    }
                    if !self.nodes[y].mark {
                        self.nodes[y].mark = true;
                        proof {
                            Self::lemma_benign_write(pre, *self);
                            assert(self.min_ok_except(-1)) by {
                                assert forall|k: int| 0 <= k < self.ring@.len()
                                    implies self.key_of(self.ring@[0] as int)
                                        <= self.key_of(
                                            (#[trigger] self.ring@[k]) as int) by {
                                    assert(pre.key_of(pre.ring@[0] as int)
                                        <= pre.key_of(pre.ring@[k] as int));
                                }
                            }
                            assert(self.edges_ok()) by {
                                assert forall|c: int| #[trigger] self.live(c)
                                    && self.nodes@[c].parent is Some
                                    implies self.live(self.nodes@[c].parent->0 as int)
                                        && self.key_of(self.nodes@[c].parent->0 as int)
                                            <= self.key_of(c) by {
                                    assert(pre.live(c));
                                    assert(pre.live(pre.nodes@[c].parent->0 as int));
                                }
                            }
                            assert(self@ =~= pre@);
                            assert(!h.take(j).contains(h[j])) by {
                                if h.take(j).contains(h[j]) {
                                    let k = choose|k: int| 0 <= k < j
                                        && h.take(j)[k] == h[j];
                                    assert(h[k] == h[j]);
                                }
                            }
                            assert(self.nodes@.len() == pre.nodes@.len());
                            assert forall|s2: int| 0 <= s2 < pre.nodes@.len()
                                && s2 != y as int
                                implies #[trigger] self.nodes@[s2]
                                    == pre.nodes@[s2] by {}
                            assert(Self::cascade_walk_post(orig, *self, h, j)) by {
                                assert(orig.nodes@[h[j] as int].mark == false);
                                assert(self.nodes@[h[j] as int].mark == true);
                                assert(self.nodes@[h[j] as int].parent
                                    == orig.nodes@[h[j] as int].parent);
                                assert forall|k: int| 0 <= k < j
                                    implies (orig.nodes@[(#[trigger] h[k]) as int]
                                            .mark == true
                                        && self.nodes@[h[k] as int].parent is None
                                        && self.nodes@[h[k] as int].mark
                                            == false) by {
                                    assert(h[k] != h[j]);
                                    assert(pre.nodes@[h[k] as int].parent is None
                                        && pre.nodes@[h[k] as int].mark == false);
                                }
                                assert forall|s: int| 0 <= s < orig.nodes@.len()
                                    && !h.take(j + 1).contains(s as usize)
                                    implies ((#[trigger] self.nodes@[s]).parent
                                            == orig.nodes@[s].parent
                                        && self.nodes@[s].mark
                                            == orig.nodes@[s].mark) by {
                                    assert(s != h[j] as int) by {
                                        assert(h.take(j + 1)[j] == h[j]);
                                    }
                                    assert(!h.take(j).contains(s as usize)) by {
                                        if h.take(j).contains(s as usize) {
                                            let k = choose|k: int| 0 <= k < j
                                                && h.take(j)[k] == s as usize;
                                            assert(h.take(j + 1)[k] == s as usize);
                                        }
                                    }
                                }
                            }
                        }
                        break;
                    }
                    proof {
                        assert(!h.take(j).contains(h[j])) by {
                            if h.take(j).contains(h[j]) {
                                let k = choose|k: int| 0 <= k < j
                                    && h.take(j)[k] == h[j];
                                assert(h[k] == h[j]);
                            }
                        }
                        assert(orig.nodes@[h[j] as int].mark == true);
                    }
                    self.cut(y, p);
                    proof {
                        assert forall|k: int| j + 1 <= k < h.len()
                            implies self.live((#[trigger] h[k]) as int) by {
                            assert(pre.live(h[k] as int));
                        }
                        assert forall|k: int| j + 1 <= k < h.len() - 1
                            implies self.nodes@[(#[trigger] h[k]) as int].parent
                                == Some(h[k + 1]) by {
                            assert(h[k] != h[j]);
                        }
                        assert(h[h.len() - 1] != h[j]);
                        assert forall|k: int| 0 <= k < j + 1
                            implies (orig.nodes@[(#[trigger] h[k]) as int].mark
                                    == true
                                && self.nodes@[h[k] as int].parent is None
                                && self.nodes@[h[k] as int].mark == false) by {
                            if k < j {
                                assert(h[k] != h[j]);
                                assert(pre.nodes@[h[k] as int].parent is None
                                    && pre.nodes@[h[k] as int].mark == false);
                                assert(self.nodes@[h[k] as int].parent
                                        == pre.nodes@[h[k] as int].parent
                                    && self.nodes@[h[k] as int].mark
                                        == pre.nodes@[h[k] as int].mark);
                            } else {
                                assert(self.nodes@[h[j] as int].parent is None
                                    && self.nodes@[h[j] as int].mark == false);
                            }
                        }
                        assert forall|s: int| 0 <= s < orig.nodes@.len()
                            && !h.take(j + 1).contains(s as usize)
                            implies ((#[trigger] self.nodes@[s]).parent
                                    == orig.nodes@[s].parent
                                && self.nodes@[s].mark == orig.nodes@[s].mark) by {
                            assert(s != h[j] as int) by {
                                assert(h.take(j + 1)[j] == h[j]);
                            }
                            assert(!h.take(j).contains(s as usize)) by {
                                if h.take(j).contains(s as usize) {
                                    let k = choose|k: int| 0 <= k < j
                                        && h.take(j)[k] == s as usize;
                                    assert(h.take(j + 1)[k] == s as usize);
                                }
                            }
                        }
                    }
                    y = p;
                    proof {
                        j = j + 1;
                    }
                }
            }
        }
    }

    /// Splice the detached singleton `y` immediately before slot `c` in
    /// `c`'s ring (between `c`'s left neighbor and `c`).  Pure link surgery.
    fn splice_before(&mut self, y: usize, c: usize)
        requires
            (y as int) < old(self).nodes@.len(),
            (c as int) < old(self).nodes@.len(),
            (old(self).nodes@[c as int].left as int) < old(self).nodes@.len(),
            y != c,
            y != old(self).nodes@[c as int].left,
        ensures
            final(self).nodes@.len() == old(self).nodes@.len(),
            forall|s: int| 0 <= s < old(self).nodes@.len()
                ==> ((#[trigger] final(self).nodes@[s]).entry
                        == old(self).nodes@[s].entry
                    && final(self).nodes@[s].degree == old(self).nodes@[s].degree
                    && final(self).nodes@[s].mark == old(self).nodes@[s].mark
                    && final(self).nodes@[s].parent == old(self).nodes@[s].parent
                    && final(self).nodes@[s].child == old(self).nodes@[s].child),
            forall|s: int| 0 <= s < old(self).nodes@.len()
                && s != y as int && s != c as int
                && s != old(self).nodes@[c as int].left as int
                ==> #[trigger] final(self).nodes@[s] == old(self).nodes@[s],
            final(self).nodes@[y as int].left == old(self).nodes@[c as int].left,
            final(self).nodes@[y as int].right == c,
            final(self).nodes@[c as int].left == y,
            final(self).nodes@[old(self).nodes@[c as int].left as int].right == y,
            old(self).nodes@[c as int].left != c
                ==> final(self).nodes@[c as int].right
                        == old(self).nodes@[c as int].right
                    && final(self).nodes@[old(self).nodes@[c as int].left as int]
                        .left
                        == old(self).nodes@[old(self).nodes@[c as int].left as int]
                            .left,
            final(self).positions == old(self).positions,
            final(self).min_root == old(self).min_root,
            final(self).n == old(self).n,
            final(self).ring == old(self).ring,
            final(self).childs == old(self).childs,
            final(self).anc == old(self).anc,
    {
        let l = self.nodes[c].left;
        self.nodes[y].left = l;
        self.nodes[y].right = c;
        self.nodes[l].right = y;
        self.nodes[c].left = y;
    }

    /// The branch of `link` where `x` already has a designated child.
    #[verifier::rlimit(100)]
    #[verifier::spinoff_prover]
    fn link_into_child(&mut self, y: usize, x: usize, c: usize)

        requires
            old(self).nodes@[x as int].child == Some(c),
            old(self).core_ok(),
            old(self).live(y as int),
            old(self).live(x as int),
            x != y,
            old(self).nodes@[y as int].parent is None,
            old(self).nodes@[x as int].parent is None,
            old(self).key_of(x as int) <= old(self).key_of(y as int),
        ensures
            final(self).core_ok(),
            forall|s: usize| final(self).ring@.contains(s)
                <==> old(self).ring@.contains(s) && s != y,
            final(self).childs@ == old(self).childs@.insert(
                x as int, old(self).childs@[x as int].push(y)),
            final(self).nodes@.len() == old(self).nodes@.len(),
            forall|s: int| 0 <= s < old(self).nodes@.len()
                ==> (#[trigger] final(self).nodes@[s]).entry
                    == old(self).nodes@[s].entry,
            forall|s: int| 0 <= s < old(self).nodes@.len() && s != y as int
                ==> (#[trigger] final(self).nodes@[s]).parent
                        == old(self).nodes@[s].parent
                    && final(self).nodes@[s].mark == old(self).nodes@[s].mark,
            final(self).nodes@[y as int].parent == Some(x),
            final(self).nodes@[y as int].mark == false,
            forall|s: int| 0 <= s < old(self).nodes@.len() && s != x as int
                ==> (#[trigger] final(self).nodes@[s]).degree
                        == old(self).nodes@[s].degree
                    && final(self).nodes@[s].child == old(self).nodes@[s].child,
            final(self).nodes@[x as int].degree
                == old(self).nodes@[x as int].degree + 1,
            final(self).positions == old(self).positions,
            final(self).n == old(self).n,
            final(self).min_root == old(self).min_root,
            final(self)@ == old(self)@,
            forall|s: int| #[trigger] final(self).live(s) <==> old(self).live(s),
    {
        let ghost pre = *self;
        let ghost r0 = pre.ring@;
        let ghost jy = r0.index_of(y);
        let ghost cs = pre.childs@[x as int];
        proof {
            assert(r0.contains(y));
            assert(0 <= jy < r0.len() && r0[jy] == y);
            Self::lemma_link_setup(pre, y, x, jy);
        }
        self.detach(y);
        self.ring = Ghost(r0.remove(jy));
        let ghost mid1 = *self;
        proof {
            Self::lemma_child_head_left(pre, y, x, jy);
            lemma_detach_pointwise(pre.nodes@, y as int);
            assert(pre.childs_entry_ok(x as int));
            assert(y != mid1.nodes@[c as int].left) by {
                assert(pre.nodes@[cs[cs.len() - 1] as int].parent == Some(x));
            }
        }
        self.splice_before(y, c);
        let ghost sp = *self;
        self.nodes[y].parent = Some(x);
        self.nodes[y].mark = false;
        let deg = self.nodes[x].degree;
        self.nodes[x].degree = deg + 1;
        self.childs = Ghost(pre.childs@.insert(x as int, cs.push(y)));
        self.anc = Ghost(anc_link(pre.anc@, y, x));
        proof {
            Self::lemma_link_finish_some(pre, mid1, sp, *self, y, x, jy, c);
        }
    }

    /// The branch of `link` where `x` has no children yet.
    #[verifier::rlimit(100)]
    #[verifier::spinoff_prover]
    fn link_first_child(&mut self, y: usize, x: usize)

        requires
            old(self).nodes@[x as int].child is None,
            old(self).core_ok(),
            old(self).live(y as int),
            old(self).live(x as int),
            x != y,
            old(self).nodes@[y as int].parent is None,
            old(self).nodes@[x as int].parent is None,
            old(self).key_of(x as int) <= old(self).key_of(y as int),
        ensures
            final(self).core_ok(),
            forall|s: usize| final(self).ring@.contains(s)
                <==> old(self).ring@.contains(s) && s != y,
            final(self).childs@ == old(self).childs@.insert(
                x as int, old(self).childs@[x as int].push(y)),
            final(self).nodes@.len() == old(self).nodes@.len(),
            forall|s: int| 0 <= s < old(self).nodes@.len()
                ==> (#[trigger] final(self).nodes@[s]).entry
                    == old(self).nodes@[s].entry,
            forall|s: int| 0 <= s < old(self).nodes@.len() && s != y as int
                ==> (#[trigger] final(self).nodes@[s]).parent
                        == old(self).nodes@[s].parent
                    && final(self).nodes@[s].mark == old(self).nodes@[s].mark,
            final(self).nodes@[y as int].parent == Some(x),
            final(self).nodes@[y as int].mark == false,
            forall|s: int| 0 <= s < old(self).nodes@.len() && s != x as int
                ==> (#[trigger] final(self).nodes@[s]).degree
                        == old(self).nodes@[s].degree
                    && final(self).nodes@[s].child == old(self).nodes@[s].child,
            final(self).nodes@[x as int].degree
                == old(self).nodes@[x as int].degree + 1,
            final(self).positions == old(self).positions,
            final(self).n == old(self).n,
            final(self).min_root == old(self).min_root,
            final(self)@ == old(self)@,
            forall|s: int| #[trigger] final(self).live(s) <==> old(self).live(s),
    {
        let ghost pre = *self;
        let ghost r0 = pre.ring@;
        let ghost jy = r0.index_of(y);
        let ghost cs = pre.childs@[x as int];
        proof {
            assert(r0.contains(y));
            assert(0 <= jy < r0.len() && r0[jy] == y);
            Self::lemma_link_setup(pre, y, x, jy);
        }
        self.detach(y);
        self.ring = Ghost(r0.remove(jy));
        let ghost mid1 = *self;
        self.nodes[x].child = Some(y);
        self.nodes[y].parent = Some(x);
        self.nodes[y].mark = false;
        let deg = self.nodes[x].degree;
        self.nodes[x].degree = deg + 1;
        self.childs = Ghost(pre.childs@.insert(x as int, cs.push(y)));
        self.anc = Ghost(anc_link(pre.anc@, y, x));
        proof {
            Self::lemma_link_finish_none(pre, mid1, *self, y, x, jy);
        }
    }

    /// Make the root `y` a child of the root `x` (whose key is no larger):
    /// remove `y` from the root ring, splice it into `x`'s child ring, set
    /// its parent, clear its mark and bump `x`'s degree.  The minimum
    /// pointer is not consulted, so this works in the middle of
    /// consolidation.
    fn link(&mut self, y: usize, x: usize)

        requires
            old(self).core_ok(),
            old(self).live(y as int),
            old(self).live(x as int),
            x != y,
            old(self).nodes@[y as int].parent is None,
            old(self).nodes@[x as int].parent is None,
            old(self).key_of(x as int) <= old(self).key_of(y as int),
        ensures
            final(self).core_ok(),
            forall|s: usize| final(self).ring@.contains(s)
                <==> old(self).ring@.contains(s) && s != y,
            final(self).childs@ == old(self).childs@.insert(
                x as int, old(self).childs@[x as int].push(y)),
            final(self).nodes@.len() == old(self).nodes@.len(),
            forall|s: int| 0 <= s < old(self).nodes@.len()
                ==> (#[trigger] final(self).nodes@[s]).entry
                    == old(self).nodes@[s].entry,
            forall|s: int| 0 <= s < old(self).nodes@.len() && s != y as int
                ==> (#[trigger] final(self).nodes@[s]).parent
                        == old(self).nodes@[s].parent
                    && final(self).nodes@[s].mark == old(self).nodes@[s].mark,
            final(self).nodes@[y as int].parent == Some(x),
            final(self).nodes@[y as int].mark == false,
            forall|s: int| 0 <= s < old(self).nodes@.len() && s != x as int
                ==> (#[trigger] final(self).nodes@[s]).degree
                        == old(self).nodes@[s].degree
                    && final(self).nodes@[s].child == old(self).nodes@[s].child,
            final(self).nodes@[x as int].degree
                == old(self).nodes@[x as int].degree + 1,
            final(self).positions == old(self).positions,
            final(self).n == old(self).n,
            final(self).min_root == old(self).min_root,
            final(self)@ == old(self)@,
            forall|s: int| #[trigger] final(self).live(s) <==> old(self).live(s),
    {
        match self.nodes[x].child {
            Some(c) => {
                self.link_into_child(y, x, c);
            }
            None => {
                self.link_first_child(y, x);
            }
        }
    }


    /// Slot `s` is recorded somewhere in the degree table.
    pub open spec fn in_aux(aux: Seq<Option<usize>>, s: usize) -> bool {
        exists|d: int| 0 <= d < aux.len() && aux[d] == Some(s)
    }

    /// Every occupied degree-table slot holds a live parentless root whose
    /// degree equals its table index.
    pub open spec fn aux_ok(self, aux: Seq<Option<usize>>) -> bool {
        forall|d: int| 0 <= d < aux.len() && (#[trigger] aux[d]) is Some
            ==> self.live(aux[d]->0 as int)
                && self.nodes@[aux[d]->0 as int].parent is None
                && self.nodes@[aux[d]->0 as int].degree as int == d
    }

    /// A live parentless node has fewer children than there are arena slots.
    proof fn lemma_degree_bound(a: FibHeap, x: int)
        requires
            a.childs_ok(),
            a.live(x),
            a.nodes@[x].parent is None,
        ensures
            (a.nodes@[x].degree as int) < a.nodes@.len(),
    {
        assert(a.childs_entry_ok(x));
        let cs = a.childs@[x];
        assert(!cs.contains(x as usize)) by {
            if cs.contains(x as usize) {
                let k = choose|k: int| 0 <= k < cs.len() && cs[k] == x as usize;
                assert(a.nodes@[cs[k] as int].parent == Some(x as usize));
            }
        }
        let cx = cs.push(x as usize);
        assert(cx.no_duplicates()) by {
            assert forall|a1: int, b1: int| 0 <= a1 < b1 < cx.len()
                implies #[trigger] cx[a1] != #[trigger] cx[b1] by {
                if b1 == cs.len() {
                    assert(cs.contains(cs[a1]));
                }
            }
        }
        assert forall|k: int| 0 <= k < cx.len()
            implies (#[trigger] cx[k]) < a.nodes@.len() as nat by {
            if k < cs.len() {
                assert(a.live(cs[k] as int));
            }
        }
        lemma_nodup_len_bound(cx, a.nodes@.len() as nat);
    }

    /// Re-establish the consolidation loop facts after one `link` of equal
    /// degree roots: `sb` is the state before the link (`x` the survivor,
    /// `y` the absorbed root, both of degree `d`, with the degree table
    /// `auxn` holding neither), `sa` the state after.
    #[verifier::rlimit(100)]
    #[verifier::spinoff_prover]
    proof fn lemma_consolidate_relink(sb: FibHeap, sa: FibHeap, auxn: Seq<Option<usize>>, x: usize, y: usize, d: usize, r0: Seq<usize>, ri: int)
        requires
            sb.aux_ok(auxn),
            0 <= (d as int) < auxn.len(),
            auxn[d as int] is None,
            sb.live(x as int),
            sb.live(y as int),
            x != y,
            sb.nodes@[x as int].parent is None,
            sb.nodes@[y as int].parent is None,
            sb.nodes@[x as int].degree == d,
            sb.nodes@[y as int].degree == d,
            forall|s: int| #[trigger] sb.live(s) && sb.nodes@[s].parent is None
                ==> Self::in_aux(auxn, s as usize)
                    || (exists|jj: int| ri + 1 <= jj < r0.len()
                        && (#[trigger] r0[jj]) as int == s)
                    || s == x as int || s == y as int,
            // what link ensured
            sa.nodes@.len() == sb.nodes@.len(),
            forall|s: int| #[trigger] sa.live(s) <==> sb.live(s),
            forall|s: int| 0 <= s < sb.nodes@.len() && s != y as int
                ==> (#[trigger] sa.nodes@[s]).parent == sb.nodes@[s].parent,
            sa.nodes@[y as int].parent == Some(x),
            forall|s: int| 0 <= s < sb.nodes@.len() && s != x as int
                ==> (#[trigger] sa.nodes@[s]).degree == sb.nodes@[s].degree,
            sa.nodes@[x as int].degree == sb.nodes@[x as int].degree + 1,
        ensures
            sa.aux_ok(auxn),
            forall|d2: int| 0 <= d2 < auxn.len()
                ==> (#[trigger] auxn[d2]) != Some(x),
            forall|s: int| #[trigger] sa.live(s) && sa.nodes@[s].parent is None
                ==> Self::in_aux(auxn, s as usize)
                    || (exists|jj: int| ri + 1 <= jj < r0.len()
                        && (#[trigger] r0[jj]) as int == s)
                    || s == x as int,
    {
        assert forall|d2: int| 0 <= d2 < auxn.len()
            implies (#[trigger] auxn[d2]) != Some(x) && auxn[d2] != Some(y) by {
            if auxn[d2] == Some(x) || auxn[d2] == Some(y) {
                assert(sb.nodes@[auxn[d2]->0 as int].degree as int == d2);
                assert(d2 != d as int);
            }
        }
        assert forall|d2: int| 0 <= d2 < auxn.len() && (#[trigger] auxn[d2]) is Some
            implies sa.live(auxn[d2]->0 as int)
                && sa.nodes@[auxn[d2]->0 as int].parent is None
                && sa.nodes@[auxn[d2]->0 as int].degree as int == d2 by {
            assert(sb.live(auxn[d2]->0 as int));
            assert(auxn[d2]->0 != y && auxn[d2]->0 != x);
        }
        assert forall|s: int| #[trigger] sa.live(s) && sa.nodes@[s].parent is None
            implies Self::in_aux(auxn, s as usize)
                || (exists|jj: int| ri + 1 <= jj < r0.len()
                    && (#[trigger] r0[jj]) as int == s)
                || s == x as int by {
            assert(sb.live(s));
            assert(s != y as int);
            assert(sb.nodes@[s].parent is None);
        }
    }



    /// Facts preserved when the degree table is padded with empty slots.
    #[verifier::spinoff_prover]
    proof fn lemma_aux_grow(sf: FibHeap, aux0: Seq<Option<usize>>, aux1: Seq<Option<usize>>, x: usize, r0: Seq<usize>, ri: int)
        requires
            aux0.len() <= aux1.len(),
            aux1.take(aux0.len() as int) == aux0,
            forall|d2: int| aux0.len() <= d2 < aux1.len()
                ==> (#[trigger] aux1[d2]) is None,
            sf.aux_ok(aux0),
            forall|d2: int| 0 <= d2 < aux0.len()
                ==> (#[trigger] aux0[d2]) != Some(x),
            forall|d2: int| 0 <= d2 < aux0.len() && (#[trigger] aux0[d2]) is Some
                ==> r0.take(ri + 1).contains(aux0[d2]->0),
            forall|s: int| #[trigger] sf.live(s) && sf.nodes@[s].parent is None
                ==> Self::in_aux(aux0, s as usize)
                    || (exists|jj: int| ri + 1 <= jj < r0.len()
                        && (#[trigger] r0[jj]) as int == s)
                    || s == x as int,
        ensures
            sf.aux_ok(aux1),
            forall|d2: int| 0 <= d2 < aux1.len()
                ==> (#[trigger] aux1[d2]) != Some(x),
            forall|d2: int| 0 <= d2 < aux1.len() && (#[trigger] aux1[d2]) is Some
                ==> r0.take(ri + 1).contains(aux1[d2]->0),
            forall|s: int| #[trigger] sf.live(s) && sf.nodes@[s].parent is None
                ==> Self::in_aux(aux1, s as usize)
                    || (exists|jj: int| ri + 1 <= jj < r0.len()
                        && (#[trigger] r0[jj]) as int == s)
                    || s == x as int,
    {
        assert forall|d2: int| 0 <= d2 < aux1.len() && (#[trigger] aux1[d2]) is Some
            implies aux1[d2] == aux0[d2] && 0 <= d2 < aux0.len() by {
            if d2 >= aux0.len() {
                assert(aux1[d2] is None);
            } else {
                assert(aux1.take(aux0.len() as int)[d2] == aux1[d2]);
            }
        }
        assert forall|s: int| #[trigger] sf.live(s) && sf.nodes@[s].parent is None
            && Self::in_aux(aux0, s as usize)
            implies Self::in_aux(aux1, s as usize) by {
            let d2 = choose|d2: int| 0 <= d2 < aux0.len()
                && aux0[d2] == Some(s as usize);
            assert(aux1.take(aux0.len() as int)[d2] == aux0[d2]);
            assert(aux1[d2] == Some(s as usize));
        }
    }

    /// Facts after the surviving root `x` is stored at its degree's slot.
    #[verifier::spinoff_prover]
    proof fn lemma_aux_place(sf: FibHeap, aux0: Seq<Option<usize>>, x: usize, d: usize, r0: Seq<usize>, ri: int)
        requires
            0 <= (d as int) < aux0.len(),
            aux0[d as int] is None,
            sf.aux_ok(aux0),
            sf.live(x as int),
            sf.nodes@[x as int].parent is None,
            sf.nodes@[x as int].degree == d,
            r0.take(ri + 1).contains(x),
            forall|d2: int| 0 <= d2 < aux0.len() && (#[trigger] aux0[d2]) is Some
                ==> r0.take(ri + 1).contains(aux0[d2]->0),
            forall|s: int| #[trigger] sf.live(s) && sf.nodes@[s].parent is None
                ==> Self::in_aux(aux0, s as usize)
                    || (exists|jj: int| ri + 1 <= jj < r0.len()
                        && (#[trigger] r0[jj]) as int == s)
                    || s == x as int,
        ensures
            sf.aux_ok(aux0.update(d as int, Some(x))),
            forall|d2: int| 0 <= d2 < aux0.len()
                && (#[trigger] aux0.update(d as int, Some(x))[d2]) is Some
                ==> r0.take(ri + 1).contains(aux0.update(d as int, Some(x))[d2]->0),
            forall|s: int| #[trigger] sf.live(s) && sf.nodes@[s].parent is None
                ==> Self::in_aux(aux0.update(d as int, Some(x)), s as usize)
                    || exists|jj: int| ri + 1 <= jj < r0.len()
                        && (#[trigger] r0[jj]) as int == s,
    {
        let aux1 = aux0.update(d as int, Some(x));
        assert forall|s: int| #[trigger] sf.live(s) && sf.nodes@[s].parent is None
            implies Self::in_aux(aux1, s as usize)
                || exists|jj: int| ri + 1 <= jj < r0.len()
                    && (#[trigger] r0[jj]) as int == s by {
            if s == x as int {
                assert(aux1[d as int] == Some(x));
            } else if Self::in_aux(aux0, s as usize) {
                let d2 = choose|d2: int| 0 <= d2 < aux0.len()
                    && aux0[d2] == Some(s as usize);
                assert(d2 != d as int);
                assert(aux1[d2] == Some(s as usize));
            }
        }
    }

    /// Facts after the occupied slot `d` is emptied, yielding its root `y0`
    /// for linking with the current survivor `x` of the same degree.
    #[verifier::spinoff_prover]
    proof fn lemma_aux_take(sf: FibHeap, aux0: Seq<Option<usize>>, y0: usize, x: usize, d: usize, r0: Seq<usize>, ri: int)
        requires
            0 <= (d as int) < aux0.len(),
            aux0[d as int] == Some(y0),
            sf.aux_ok(aux0),
            sf.live(x as int),
            sf.nodes@[x as int].parent is None,
            sf.nodes@[x as int].degree == d,
            forall|d2: int| 0 <= d2 < aux0.len()
                ==> (#[trigger] aux0[d2]) != Some(x),
            forall|d2: int| 0 <= d2 < aux0.len() && (#[trigger] aux0[d2]) is Some
                ==> r0.take(ri + 1).contains(aux0[d2]->0),
            forall|s: int| #[trigger] sf.live(s) && sf.nodes@[s].parent is None
                ==> Self::in_aux(aux0, s as usize)
                    || (exists|jj: int| ri + 1 <= jj < r0.len()
                        && (#[trigger] r0[jj]) as int == s)
                    || s == x as int,
        ensures
            count_some(aux0.update(d as int, None)) + 1 == count_some(aux0),
            sf.live(y0 as int),
            sf.nodes@[y0 as int].parent is None,
            sf.nodes@[y0 as int].degree == d,
            y0 != x,
            r0.take(ri + 1).contains(y0),
            sf.aux_ok(aux0.update(d as int, None)),
            aux0.update(d as int, None)[d as int] is None,
            forall|d2: int| 0 <= d2 < aux0.len()
                && (#[trigger] aux0.update(d as int, None)[d2]) is Some
                ==> r0.take(ri + 1).contains(aux0.update(d as int, None)[d2]->0),
            forall|s: int| #[trigger] sf.live(s) && sf.nodes@[s].parent is None
                ==> Self::in_aux(aux0.update(d as int, None), s as usize)
                    || (exists|jj: int| ri + 1 <= jj < r0.len()
                        && (#[trigger] r0[jj]) as int == s)
                    || s == x as int || s == y0 as int,
    {
        lemma_count_some_clear(aux0, d as int);
        let aux1 = aux0.update(d as int, None);
        assert forall|s: int| #[trigger] sf.live(s) && sf.nodes@[s].parent is None
            implies Self::in_aux(aux1, s as usize)
                || (exists|jj: int| ri + 1 <= jj < r0.len()
                    && (#[trigger] r0[jj]) as int == s)
                || s == x as int || s == y0 as int by {
            if Self::in_aux(aux0, s as usize) {
                let d2 = choose|d2: int| 0 <= d2 < aux0.len()
                    && aux0[d2] == Some(s as usize);
                if d2 == d as int {
                    assert(s == y0 as int);
                } else {
                    assert(aux1[d2] == Some(s as usize));
                }
            }
        }
    }

    /// Merge root trees of equal degree until at most one root of each
    /// degree remains, rebuild the root ring from the survivors and let the
    /// splicing establish the true minimum.
    #[verifier::rlimit(100)]
    #[verifier::spinoff_prover]
    fn consolidate(&mut self)
        requires
            old(self).core_ok(),
            old(self).ring@.len() > 0,
            match old(self).min_root {
                None => false,
                Some(m) => old(self).ring@[0] == m,
            },
        ensures
            final(self).wf(),
            final(self)@ == old(self)@,
            final(self).n == old(self).n,
            final(self).positions == old(self).positions,
            forall|j: int, k: int| 0 <= j < k < final(self).ring@.len()
                ==> final(self).nodes@[final(self).ring@[j] as int].degree
                    != final(self).nodes@[final(self).ring@[k] as int].degree,
    {
        let ghost pre = *self;
        let ghost r0 = pre.ring@;
        let ghost m0 = pre@;
        let ghost n0 = pre.n;
        let start = match self.min_root {
            Some(i) => i,
            None => {
                return;
            }
        };
        let mut roots: Vec<usize> = Vec::new();
        roots.push(start);
        let mut w = self.nodes[start].right;
        proof {
            assert(r0[0] == start);
            if r0.len() == 1 {
                assert(w == r0[0]);
            } else {
                assert(w == r0[1]);
            }
        }
        while w != start
            invariant
                *self == pre,
                pre.core_ok(),
                r0 == pre.ring@,
                r0.len() > 0,
                r0[0] == start,
                1 <= roots@.len() <= r0.len(),
                roots@ == r0.take(roots@.len() as int),
                w == (if (roots@.len() as int) < r0.len() {
                    r0[roots@.len() as int]
                } else {
                    r0[0]
                }),
            decreases r0.len() - roots@.len(),
        {
            proof {
                assert((roots@.len() as int) < r0.len()) by {
                    if roots@.len() == r0.len() {
                        assert(w == r0[0]);
                    }
                }
                assert(r0.contains(w)) by {
                    assert(r0[roots@.len() as int] == w);
                }
                assert((w as int) < self.nodes@.len());
            }
            let ghost oldlen = roots@.len() as int;
            roots.push(w);
            w = self.nodes[w].right;
            proof {
                assert(roots@ =~= r0.take(oldlen + 1));
                if oldlen + 1 < r0.len() {
                    assert(pre.nodes@[r0[oldlen] as int].right == r0[oldlen + 1]);
                } else {
                    assert(pre.nodes@[r0[r0.len() - 1] as int].right == r0[0]);
                }
            }
        }
        proof {
            assert(roots@.len() == r0.len()) by {
                if (roots@.len() as int) < r0.len() {
                    assert(w == r0[roots@.len() as int]);
                    assert(r0[roots@.len() as int] != r0[0]);
                }
            }
            assert(roots@ =~= r0);
        }

        let mut aux: Vec<Option<usize>> = Vec::new();
        let mut ri: usize = 0;
        while ri < roots.len()
            invariant
                pre.core_ok(),
                r0 == pre.ring@,
                self.core_ok(),
                self@ == m0,
                self.n == n0,
                self.positions == pre.positions,
                roots@ == r0,
                ri <= r0.len(),
                self.nodes@.len() == pre.nodes@.len(),
                forall|s: int| 0 <= s < pre.nodes@.len()
                    ==> (#[trigger] self.nodes@[s]).entry == pre.nodes@[s].entry,
                self.aux_ok(aux@),
                forall|d2: int| 0 <= d2 < aux@.len() && (#[trigger] aux@[d2]) is Some
                    ==> r0.take(ri as int).contains(aux@[d2]->0),
                forall|s: int| #[trigger] self.live(s)
                    && self.nodes@[s].parent is None
                    ==> Self::in_aux(aux@, s as usize)
                        || exists|jj: int| ri <= jj < r0.len()
                            && (#[trigger] r0[jj]) as int == s,
            decreases r0.len() - ri,
        {
            let root_idx = roots[ri];
            proof {
                assert(pre.live(pre.ring@[ri as int] as int));
                assert(self.live(root_idx as int));
            }
            if self.nodes[root_idx].parent.is_none() {
                let mut x = root_idx;
                let mut d = self.nodes[x].degree;
                proof {
                    assert forall|d2: int| 0 <= d2 < aux@.len()
                        implies (#[trigger] aux@[d2]) != Some(x) by {
                        if aux@[d2] == Some(x) {
                            assert(r0.take(ri as int).contains(x));
                            let k = choose|k: int| 0 <= k < ri
                                && r0.take(ri as int)[k] == x;
                            assert(r0[k] == r0[ri as int]);
                        }
                    }
                    assert(r0.take(ri as int + 1).contains(x)) by {
                        assert(r0.take(ri as int + 1)[ri as int] == x);
                    }
                    assert forall|s: int| #[trigger] self.live(s)
                        && self.nodes@[s].parent is None
                        implies Self::in_aux(aux@, s as usize)
                            || (exists|jj: int| ri as int + 1 <= jj < r0.len()
                                && (#[trigger] r0[jj]) as int == s)
                            || s == x as int by {
                        if !Self::in_aux(aux@, s as usize) {
                            let jj = choose|jj: int| ri <= jj < r0.len()
                                && (#[trigger] r0[jj]) as int == s;
                            if jj == ri as int {
                                assert(s == x as int);
                            }
                        }
                    }
                }
                loop
                    invariant_except_break
                        forall|d2: int| 0 <= d2 < aux@.len()
                            ==> (#[trigger] aux@[d2]) != Some(x),
                        self.live(x as int),
                        self.nodes@[x as int].parent is None,
                        self.nodes@[x as int].degree == d,
                        r0.take(ri as int + 1).contains(x),
                        forall|s: int| #[trigger] self.live(s)
                            && self.nodes@[s].parent is None
                            ==> Self::in_aux(aux@, s as usize)
                                || (exists|jj: int| ri as int + 1 <= jj < r0.len()
                                    && (#[trigger] r0[jj]) as int == s)
                                || s == x as int,
                    invariant
                        pre.core_ok(),
                        r0 == pre.ring@,
                        self.core_ok(),
                        self@ == m0,
                        self.n == n0,
                        self.positions == pre.positions,
                        roots@ == r0,
                        ri < r0.len(),
                        self.nodes@.len() == pre.nodes@.len(),
                        forall|s: int| 0 <= s < pre.nodes@.len()
                            ==> (#[trigger] self.nodes@[s]).entry
                                == pre.nodes@[s].entry,
                        self.aux_ok(aux@),
                        forall|d2: int| 0 <= d2 < aux@.len()
                            && (#[trigger] aux@[d2]) is Some
                            ==> r0.take(ri as int + 1).contains(aux@[d2]->0),
                    ensures
                        self.aux_ok(aux@),
                        forall|s: int| #[trigger] self.live(s)
                            && self.nodes@[s].parent is None
                            ==> Self::in_aux(aux@, s as usize)
                                || exists|jj: int| ri as int + 1 <= jj < r0.len()
                                    && (#[trigger] r0[jj]) as int == s,
                    decreases count_some(aux@),
                {
                    if d >= aux.len() {
                        let ghost auxg = aux@;
                        proof {
                            Self::lemma_degree_bound(*self, x as int);
                        }
                        while aux.len() < d + 1
                            invariant
                                auxg.len() <= aux@.len(),
                                aux@.take(auxg.len() as int) == auxg,
                                forall|d2: int| auxg.len() <= d2 < aux@.len()
                                    ==> (#[trigger] aux@[d2]) is None,
                                count_some(aux@) == count_some(auxg),
                                d < usize::MAX,
                            decreases d + 1 - aux@.len(),
                        {
                            proof {
                                lemma_count_some_push_none(aux@);
                            }
                            aux.push(None);
                            proof {
                                assert(aux@.take(auxg.len() as int) =~= auxg);
                            }
                        }
                        proof {
                            Self::lemma_aux_grow(*self, auxg, aux@, x, r0, ri as int);
                        }
                    }
                    proof {
                        assert((d as int) < aux@.len());
                    }
                    if aux[d].is_none() {
                        let ghost auxg2 = aux@;
                        proof {
                            Self::lemma_aux_place(*self, auxg2, x, d, r0, ri as int);
                        }
                        aux[d] = Some(x);
                        proof {
                            assert(aux@ == auxg2.update(d as int, Some(x)));
                        }
                        break;
                    }
                    let y0 = aux[d].unwrap();
                    let ghost auxg3 = aux@;
                    proof {
                        Self::lemma_aux_take(*self, auxg3, y0, x, d, r0, ri as int);
                    }
                    aux[d] = None;
                    proof {
                        assert(aux@ == auxg3.update(d as int, None));
                    }
                    let mut y = y0;
                    let mut xv = x;
                    if self.nodes[y].entry.1 < self.nodes[xv].entry.1 {
                        let t = xv;
                        xv = y;
                        y = t;
                    }
                    let ghost sbefore = *self;
                    proof {
                        Self::lemma_degree_bound(*self, xv as int);
                    }
                    self.link(y, xv);
                    proof {
                        Self::lemma_consolidate_relink(
                            sbefore, *self, aux@, xv, y, d, r0, ri as int);
                        assert(r0.take(ri as int + 1).contains(xv));
                    }
                    x = xv;
                    d = d + 1;
                }
            } else {
                proof {
                    assert forall|s: int| #[trigger] self.live(s)
                        && self.nodes@[s].parent is None
                        implies Self::in_aux(aux@, s as usize)
                            || exists|jj: int| ri as int + 1 <= jj < r0.len()
                                && (#[trigger] r0[jj]) as int == s by {
                        if !Self::in_aux(aux@, s as usize) {
                            let jj = choose|jj: int| ri <= jj < r0.len()
                                && (#[trigger] r0[jj]) as int == s;
                            assert(jj != ri as int) by {
                                if jj == ri as int {
                                    assert(self.nodes@[root_idx as int].parent
                                        is Some);
                                }
                            }
                        }
                    }
                }
            }
            proof {
                assert forall|d2: int| 0 <= d2 < aux@.len()
                    && (#[trigger] aux@[d2]) is Some
                    implies r0.take(ri as int + 1).contains(aux@[d2]->0) by {
                    if r0.take(ri as int).contains(aux@[d2]->0) {
                        let k = choose|k: int| 0 <= k < ri
                            && r0.take(ri as int)[k] == aux@[d2]->0;
                        assert(r0.take(ri as int + 1)[k] == aux@[d2]->0);
                    }
                }
            }
            ri = ri + 1;
        }

        let ghost after3 = *self;
        self.min_root = None;
        self.ring = Ghost(Seq::empty());
        proof {
            Self::lemma_same_core(after3, *self);
            assert(self.count_ok()) by {
                assert(self.live_ids() == after3.live_ids());
            }
            assert(self.aux_ok(aux@)) by {
                assert forall|dd: int| 0 <= dd < aux@.len()
                    && (#[trigger] aux@[dd]) is Some
                    implies self.live(aux@[dd]->0 as int)
                        && self.nodes@[aux@[dd]->0 as int].parent is None
                        && self.nodes@[aux@[dd]->0 as int].degree as int == dd by {
                    assert(after3.live(aux@[dd]->0 as int));
                }
            }
            assert forall|s: int| #[trigger] self.live(s)
                && self.nodes@[s].parent is None
                implies Self::in_aux(aux@, s as usize) by {
                assert(after3.live(s));
                assert(Self::in_aux(aux@, s as usize)
                    || exists|jj: int| r0.len() <= jj < r0.len()
                        && (#[trigger] r0[jj]) as int == s);
            }
        }
        let mut d2: usize = 0;
        while d2 < aux.len()
            invariant
                self.ids_ok(),
                self.pos_ok(),
                self.count_ok(),
                self.edges_ok(),
                self.childs_ok(),
                self.anc_ok(),
                self@ == m0,
                self.n == n0,
                self.positions == pre.positions,
                self.nodes@.len() == pre.nodes@.len(),
                d2 <= aux@.len(),
                self.aux_ok(aux@),
                ring_linked(self.nodes@, self.ring@),
                self.ring@.no_duplicates(),
                forall|k: int| 0 <= k < self.ring@.len()
                    ==> self.live((#[trigger] self.ring@[k]) as int)
                        && self.nodes@[self.ring@[k] as int].parent is None,
                forall|s: usize| #[trigger] self.ring@.contains(s)
                    <==> exists|dd: int| 0 <= dd < d2 && aux@[dd] == Some(s),
                match self.min_root {
                    None => self.ring@.len() == 0,
                    Some(m) => self.ring@.len() > 0 && self.ring@[0] == m,
                },
                forall|k: int| 0 <= k < self.ring@.len()
                    ==> self.key_of(self.ring@[0] as int)
                        <= self.key_of((#[trigger] self.ring@[k]) as int),
                forall|s: int| #[trigger] self.live(s)
                    && self.nodes@[s].parent is None
                    ==> Self::in_aux(aux@, s as usize),
            decreases aux@.len() - d2,
        {
            let slot = aux[d2];
            match slot {
                Some(idx) => {
                    let ghost mid0 = *self;
                    proof {
                        assert(self.live(idx as int)
                            && self.nodes@[idx as int].parent is None
                            && self.nodes@[idx as int].degree as int == d2 as int);
                        assert(!self.ring@.contains(idx)) by {
                            if self.ring@.contains(idx) {
                                let dd = choose|dd: int| 0 <= dd < d2
                                    && aux@[dd] == Some(idx);
                                assert(self.nodes@[idx as int].degree as int == dd);
                            }
                        }
                    }
                    self.nodes[idx].left = idx;
                    self.nodes[idx].right = idx;
                    self.nodes[idx].parent = None;
                    proof {
                        let mid1 = *self;
                        assert forall|s: int| #[trigger] mid1.live(s)
                            <==> mid0.live(s) by {}
                        assert(mid1.live_ids() =~= mid0.live_ids());
                        assert(mid1@ =~= mid0@);
                        assert(mid1.ids_ok());
                        assert(mid1.pos_ok()) by {
                            assert forall|id: int| #[trigger] mid1.live_id(id)
                                implies 0 <= mid1.slot_of(id) < mid1.nodes@.len()
                                    && mid1.id_of(mid1.slot_of(id)) == id by {
                                assert(mid0.live_id(id));
                            }
                        }
                        assert(mid1.edges_ok()) by {
                            assert forall|c: int| #[trigger] mid1.live(c)
                                && mid1.nodes@[c].parent is Some
                                implies mid1.live(mid1.nodes@[c].parent->0 as int)
                                    && mid1.key_of(mid1.nodes@[c].parent->0 as int)
                                        <= mid1.key_of(c) by {
                                assert(mid0.live(c));
                                assert(c != idx as int);
                                assert(mid0.live(mid0.nodes@[c].parent->0 as int));
                            }
                        }
                        Self::lemma_childs_transfer(mid0, mid1, -1);
                        assert(mid1.childs_ok()) by {
                            assert forall|p: int| mid1.live(p)
                                implies #[trigger] mid1.childs_entry_ok(p) by {
                                assert(p != -1);
                            }
                            assert forall|c: int| #[trigger] mid1.live(c)
                                && mid1.nodes@[c].parent is Some
                                implies mid1.childs@[mid1.nodes@[c].parent->0
                                    as int].contains(c as usize) by {
                                assert(mid1.nodes@[c].parent->0 as int != -1);
                            }
                        }
                        assert(mid1.anc_ok()) by {
                            assert forall|s: int| 0 <= s < mid0.nodes@.len()
                                implies (#[trigger] mid1.nodes@[s]).parent
                                    == mid0.nodes@[s].parent by {}
                            assert forall|i: int| mid1.live(i)
                                implies #[trigger] mid1.anc_entry_ok(i) by {
                                assert(mid0.live(i));
                                assert(mid0.anc_entry_ok(i));
                                let h = mid1.anc@[i];
                                assert forall|k: int| 0 <= k < h.len()
                                    implies mid1.live((#[trigger] h[k]) as int) by {
                                    assert(mid0.live(h[k] as int));
                                }
                            }
                        }
                        assert(ring_linked(mid1.nodes@, mid1.ring@)) by {
                            assert forall|k: int| 0 <= k < mid1.ring@.len()
                                implies (#[trigger] mid1.nodes@[
                                        mid1.ring@[k] as int]).left
                                        == mid0.nodes@[mid1.ring@[k] as int].left
                                    && mid1.nodes@[mid1.ring@[k] as int].right
                                        == mid0.nodes@[mid1.ring@[k] as int]
                                            .right by {
                                assert(mid1.ring@.contains(mid1.ring@[k]));
                                assert(mid1.ring@[k] != idx);
                            }
                            lemma_ring_frame(mid0.nodes@, mid1.nodes@, mid1.ring@);
                        }
                    }
                    let ghost mid2 = *self;
                    self.add_to_root(idx);
                    proof {
                        let post = *self;
                        Self::lemma_add_root_restores(mid2, post, idx);
                        Self::lemma_childs_transfer(mid2, post, -1);
                        assert(post.childs_ok()) by {
                            assert forall|p: int| post.live(p)
                                implies #[trigger] post.childs_entry_ok(p) by {
                                assert(p != -1);
                            }
                            assert forall|c: int| #[trigger] post.live(c)
                                && post.nodes@[c].parent is Some
                                implies post.childs@[post.nodes@[c].parent->0
                                    as int].contains(c as usize) by {
                                assert(post.nodes@[c].parent->0 as int != -1);
                            }
                        }
                        assert(post.count_ok()) by {
                            assert(post.live_ids() == mid2.live_ids());
                        }
                        assert(post.aux_ok(aux@)) by {
                            assert forall|dd: int| 0 <= dd < aux@.len()
                                && (#[trigger] aux@[dd]) is Some
                                implies post.live(aux@[dd]->0 as int)
                                    && post.nodes@[aux@[dd]->0 as int].parent
                                        is None
                                    && post.nodes@[aux@[dd]->0 as int].degree
                                        as int == dd by {
                                assert(mid2.live(aux@[dd]->0 as int));
                            }
                        }
                        assert forall|s: usize| #[trigger] post.ring@.contains(s)
                            implies exists|dd: int| 0 <= dd < d2 + 1
                                && aux@[dd] == Some(s) by {
                            if mid2.ring@.contains(s) {
                                let dd = choose|dd: int| 0 <= dd < d2
                                    && aux@[dd] == Some(s);
                                assert(aux@[dd] == Some(s));
                            } else {
                                assert(s == idx);
                                assert(aux@[d2 as int] == Some(idx));
                            }
                        }
                        assert forall|s: usize| (exists|dd: int| 0 <= dd < d2 + 1
                                && (#[trigger] aux@[dd]) == Some(s))
                            implies post.ring@.contains(s) by {
                            let dd = choose|dd: int| 0 <= dd < d2 + 1
                                && aux@[dd] == Some(s);
                            if dd < d2 {
                                assert(mid2.ring@.contains(s));
                            }
                        }
                        assert forall|s: int| #[trigger] post.live(s)
                            && post.nodes@[s].parent is None
                            implies Self::in_aux(aux@, s as usize) by {
                            assert(mid2.live(s));
                        }
                    }
                }
                None => {
                    proof {
                        assert forall|s: usize| #[trigger] self.ring@.contains(s)
                            implies exists|dd: int| 0 <= dd < d2 + 1
                                && aux@[dd] == Some(s) by {
                            let dd = choose|dd: int| 0 <= dd < d2
                                && aux@[dd] == Some(s);
                            assert(aux@[dd] == Some(s));
                        }
                    }
                }
            }
            d2 = d2 + 1;
        }
        proof {
            broadcast use vstd::set::group_set_axioms;
            assert forall|s: int| #[trigger] self.live(s)
                && self.nodes@[s].parent is None
                implies self.ring@.contains(s as usize) by {
                let dd = choose|dd: int| 0 <= dd < aux@.len()
                    && aux@[dd] == Some(s as usize);
                assert(self.ring@.contains(s as usize));
            }
            assert(self.n != 0) by {
                assert(pre.live(r0[0] as int));
                assert(pre.live_id(pre.id_of(r0[0] as int))) by {
                    Self::lemma_same_live_id(pre, r0[0] as int);
                }
                assert(pre.live_ids().contains(pre.id_of(r0[0] as int)));
            }
            assert(self.min_root is Some) by {
                if self.min_root is None {
                    let id = self.live_ids().choose();
                    assert(self.live_ids().contains(id));
                    assert(self.live_id(id));
                    let s = self.slot_of(id);
                    assert(self.live(s));
                    assert(self.anc_entry_ok(s));
                    let h = self.anc@[s];
                    let root = h[h.len() - 1] as int;
                    assert(self.live(root)
                        && self.nodes@[root].parent is None);
                    assert(self.ring@.contains(root as usize));
                }
            }
            assert forall|j: int, k: int| 0 <= j < k < self.ring@.len()
                implies self.nodes@[self.ring@[j] as int].degree
                    != self.nodes@[self.ring@[k] as int].degree by {
                assert(self.ring@.contains(self.ring@[j]));
                assert(self.ring@.contains(self.ring@[k]));
                let dj = choose|dd: int| 0 <= dd < aux@.len()
                    && aux@[dd] == Some(self.ring@[j]);
                let dk = choose|dd: int| 0 <= dd < aux@.len()
                    && aux@[dd] == Some(self.ring@[k]);
                assert(self.nodes@[self.ring@[j] as int].degree as int == dj);
                assert(self.nodes@[self.ring@[k] as int].degree as int == dk);
                if dj == dk {
                    assert(self.ring@[j] == self.ring@[k]);
                }
            }
        }
    }


    /// Remove and return the entry with the smallest key, or `None` when
    /// the heap is empty: promote the minimum root's children to the root
    /// ring, detach it, and consolidate the ring to find the new minimum.
    #[verifier::rlimit(100)]
    #[verifier::spinoff_prover]
    pub fn delete_min(&mut self) -> (r: Option<(usize, i64)>)
        requires
            old(self).wf(),
        ensures
            final(self).wf(),
            match r {
                Some(e) => crate::is_min_entry(old(self)@, e.0 as int, e.1)
                    && final(self)@ == old(self)@.remove(e.0 as int)
                    && final(self).n + 1 == old(self).n,
                None => old(self)@.dom() =~= Set::<int>::empty()
                    && *final(self) == *old(self),
            },
            // at most one root per degree immediately after the
            // consolidation that a successful extraction runs
            r is Some ==> forall|j: int, k: int|
                0 <= j < k < final(self).ring@.len()
                ==> final(self).nodes@[final(self).ring@[j] as int].degree
                    != final(self).nodes@[final(self).ring@[k] as int].degree,
    {
        let ghost pre = *self;
        let ghost m0 = pre@;
        let ghost n0 = pre.n;
        let z = match self.min_root {
            Some(z) => z,
            None => {
                proof {
                    assert forall|id: int| !self@.dom().contains(id) by {
                        if self.live_id(id) {
                            broadcast use vstd::set::group_set_axioms;
                            assert(self.live_ids().contains(id));
                        }
                    }
                    assert(self@.dom() =~= Set::<int>::empty());
                }
                return None;
            }
        };
        proof {
            assert(self.live(z as int));
            self.lemma_live_slot_id(z as int);
            assert forall|j: int| m0.dom().contains(j)
                implies self.key_of(z as int) <= m0[j] by {
                let s = self.slot_of(j);
                assert(self.live(s));
                self.lemma_min_le_all(s);
            }
        }
        let ghost cs0 = pre.childs@[z as int];
        let deg = self.nodes[z].degree;
        proof {
            assert(pre.childs_entry_ok(z as int));
            assert(cs0.len() == deg as int);
        }
        if deg > 0 {
            let mut c = match self.nodes[z].child {
                Some(c0) => c0,
                None => {
                    proof {
                        assert(false);
                    }
                    z
                }
            };
            let mut k: usize = 0;
            while k < deg
                invariant
                    pre.core_ok(),
                    cs0 == pre.childs@[z as int],
                    cs0.len() == deg as int,
                    deg > 0,
                    n0 == self.n,
                    n0 > 0,
                    self.ids_ok(),
                    self.pos_ok(),
                    self.count_ok(),
                    self.edges_ok(),
                    self.anc_ok(),
                    forall|p: int| self.live(p) && p != z as int
                        ==> #[trigger] self.childs_entry_ok(p),
                    forall|cc: int| #[trigger] self.live(cc)
                        && self.nodes@[cc].parent is Some
                        ==> self.childs@[self.nodes@[cc].parent->0 as int]
                            .contains(cc as usize),
                    self.childs@.dom().contains(z as int),
                    self.childs@[z as int] == cs0.skip(k as int),
                    ring_linked(self.nodes@, self.childs@[z as int]),
                    self.childs@[z as int].no_duplicates(),
                    forall|kk: int| 0 <= kk < self.childs@[z as int].len()
                        ==> self.live(
                                (#[trigger] self.childs@[z as int][kk]) as int)
                            && self.nodes@[self.childs@[z as int][kk] as int]
                                .parent == Some(z),
                    ring_linked(self.nodes@, self.ring@),
                    self.ring@.no_duplicates(),
                    forall|kk: int| 0 <= kk < self.ring@.len()
                        ==> self.live((#[trigger] self.ring@[kk]) as int)
                            && self.nodes@[self.ring@[kk] as int].parent is None,
                    forall|s: int| #[trigger] self.live(s)
                        && self.nodes@[s].parent is None
                        ==> self.ring@.contains(s as usize),
                    self.min_root == Some(z),
                    self.ring@.len() > 0,
                    self.ring@[0] == z,
                    forall|kk: int| 0 <= kk < self.ring@.len()
                        ==> self.key_of(self.ring@[0] as int)
                            <= self.key_of((#[trigger] self.ring@[kk]) as int),
                    self.live(z as int),
                    self.nodes@[z as int].parent is None,
                    self@ == m0,
                    self.positions == pre.positions,
                    self.nodes@.len() == pre.nodes@.len(),
                    forall|s: int| 0 <= s < pre.nodes@.len()
                        ==> (#[trigger] self.nodes@[s]).entry
                            == pre.nodes@[s].entry,
                    k <= deg,
                    k < deg ==> c == cs0[k as int],
                decreases deg - k,
            {
                let ghost rem = self.childs@[z as int];
                proof {
                    assert(rem[0] == cs0[k as int]);
                    assert(c == rem[0]);
                    assert(self.live(c as int));
                    assert(self.key_of(z as int) <= self.key_of(c as int));
                }
                let next = self.nodes[c].right;
                proof {
                    if rem.len() >= 2 {
                        assert(next == rem[1]);
                    } else {
                        assert(next == rem[0]);
                    }
                }
                self.promote(c, z, Ghost(0));
                proof {
                    assert(self.childs@[z as int] =~= cs0.skip(k as int + 1)) by {
                        assert(self.childs@[z as int] == rem.remove(0));
                        assert(rem.remove(0) =~= rem.skip(1));
                        assert(rem.skip(1) =~= cs0.skip(k as int + 1));
                    }
                    assert(self.ring@[0] == z) by {
                        if self.ring@[0] == c {
                            assert(false);
                        }
                    }
                    assert(self.min_root == Some(z));
                    if k + 1 < deg {
                        assert(rem.len() >= 2) by {
                            assert(cs0.skip(k as int).len() == deg - k);
                        }
                        assert(next == cs0[k as int + 1]) by {
                            assert(rem[1] == cs0[k as int + 1]);
                        }
                    }
                }
                c = next;
                k = k + 1;
            }
            let ghost bw = *self;
            self.nodes[z].child = None;
            proof {
                Self::lemma_patch_child_degree(bw, *self, z as int);
                assert(self.childs@[z as int] =~= Seq::<usize>::empty()) by {
                    assert(bw.childs@[z as int] == cs0.skip(deg as int));
                }
                assert(self.min_root == Some(z));
                assert(self.ring@[0] == z);
                assert(self.live(z as int)) by {
                    assert(bw.live(z as int));
                }
            }
        }
        let ghost mid = *self;
        proof {
            assert(mid.childs@[z as int] =~= Seq::<usize>::empty()) by {
                if deg == 0 {
                    assert(pre.childs_entry_ok(z as int));
                }
            }
            assert(mid.ring@[0] == z && mid.ring@.len() > 0);
            assert((z as int) < mid.nodes@.len());
            assert(mid.nodes@[z as int].left
                == (if mid.ring@.len() == 1 { z } else { mid.ring@[mid.ring@.len() - 1] }));
            assert(mid.nodes@[z as int].right
                == (if mid.ring@.len() == 1 { z } else { mid.ring@[1] }));
        }
        let successor = self.nodes[z].right;
        let ghost r1 = self.ring@;
        proof {
            assert((mid.nodes@[z as int].left as int) < mid.nodes@.len()
                && (mid.nodes@[z as int].right as int) < mid.nodes@.len()) by {
                if r1.len() >= 2 {
                    assert(r1[r1.len() - 1] < mid.nodes@.len());
                    assert(r1[1] < mid.nodes@.len());
                }
            }
        }
        self.detach(z);
        self.ring = Ghost(r1.remove(0));
        proof {
            Self::lemma_delete_detach_restores(mid, *self, z, r1);
        }
        let ghost dt = *self;
        proof {
            assert(n0 > 0) by {
                broadcast use vstd::set::group_set_axioms;
                Self::lemma_same_live_id(pre, z as int);
                assert(pre.live_ids().contains(pre.id_of(z as int)));
            }
        }
        self.n = self.n - 1;
        let e = self.nodes[z].entry;
        self.positions[e.0] = NOT_IN_HEAP;
        let ghost killed = *self;
        proof {
            assert forall|kk: int| 0 <= kk < dt.ring@.len()
                implies (#[trigger] dt.ring@[kk]) != z by {
                assert(dt.ring@[kk] == r1[kk + 1]);
                assert(r1[kk + 1] != r1[0]);
            }
            assert(dt.childs@[z as int] == Seq::<usize>::empty());
            assert(e.0 as int == dt.id_of(z as int));
            assert(killed.positions@ =~= dt.positions@.update(
                dt.id_of(z as int), NOT_IN_HEAP));
            Self::lemma_delete_kill_restores(dt, killed, z);
            assert(killed@ =~= m0.remove(e.0 as int)) by {
                assert(dt@ == mid@ && mid@ == m0);
            }
        }
        if self.n == 0 {
            self.min_root = None;
            self.ring = Ghost(Seq::empty());
            proof {
                broadcast use vstd::set::group_set_axioms;
                assert forall|s: int| !(#[trigger] self.live(s)) by {
                    if self.live(s) {
                        Self::lemma_same_live_id(killed, s);
                        assert(killed.live_ids().contains(killed.id_of(s)));
                    }
                }
                assert forall|id: int| !(#[trigger] self.live_id(id)) by {
                    if self.live_id(id) {
                        assert(killed.live_ids().contains(id));
                    }
                }
                assert(self.wf()) by {
                    assert(self.ids_ok());
                    assert(self.pos_ok()) by {
                        assert forall|id: int| #[trigger] self.live_id(id)
                            implies 0 <= self.slot_of(id) < self.nodes@.len()
                                && self.id_of(self.slot_of(id)) == id by {
                            assert(false);
                        }
                    }
                    assert(self.count_ok()) by {
                        assert(self.live_ids() =~= Set::<int>::empty());
                    }
                    assert(self.edges_ok()) by {
                        assert forall|cc: int| #[trigger] self.live(cc)
                            && self.nodes@[cc].parent is Some
                            implies self.live(self.nodes@[cc].parent->0 as int)
                                && self.key_of(self.nodes@[cc].parent->0 as int)
                                    <= self.key_of(cc) by {
                            assert(false);
                        }
                    }
                    assert forall|p: int| self.live(p)
                        implies #[trigger] self.childs_entry_ok(p) by {
                        assert(false);
                    }
                    assert forall|cc: int| #[trigger] self.live(cc)
                        && self.nodes@[cc].parent is Some
                        implies self.childs@[self.nodes@[cc].parent->0 as int]
                            .contains(cc as usize) by {
                        assert(false);
                    }
                    assert forall|i: int| self.live(i)
                        implies #[trigger] self.anc_entry_ok(i) by {
                        assert(false);
                    }
                    assert(self.ring_ok()) by {
                        assert(self.ring@.len() == 0);
                        assert(self.ring@.no_duplicates());
                        assert forall|s: int| #[trigger] self.live(s)
                            && self.nodes@[s].parent is None
                            implies self.ring@.contains(s as usize) by {
                            assert(false);
                        }
                    }
                    assert(self.min_ok_except(-1));
                }
                assert(self@ =~= m0.remove(e.0 as int));
            }
        } else {
            let is_z = match self.min_root {
                Some(m) => m == z,
                None => false,
            };
            if is_z {
                self.min_root = Some(successor);
            }
            proof {
                broadcast use vstd::set::group_set_axioms;
                let cur = *self;
                Self::lemma_same_core(killed, cur);
                assert(cur.count_ok()) by {
                    assert(cur.live_ids() == killed.live_ids());
                }
                assert(cur.ring@.len() > 0) by {
                    if cur.ring@.len() == 0 {
                        let id = cur.live_ids().choose();
                        assert(cur.live_ids().contains(id));
                        assert(cur.live_id(id));
                        let s = cur.slot_of(id);
                        assert(cur.live(s));
                        assert(cur.anc_entry_ok(s));
                        let h = cur.anc@[s];
                        let root = h[h.len() - 1] as int;
                        assert(cur.live(root)
                            && cur.nodes@[root].parent is None);
                        assert(cur.ring@.contains(root as usize));
                    }
                }
                assert(r1.len() >= 2) by {
                    assert(cur.ring@.len() == r1.len() - 1);
                }
                assert(cur.ring@[0] == successor) by {
                    assert(r1.remove(0)[0] == r1[1]);
                }
                assert(cur.min_root == Some(successor));
                assert(cur.core_ok());
            }
            self.consolidate();
            proof {
                assert(self@ =~= m0.remove(e.0 as int)) by {
                    assert(self@ == killed@);
                    assert(killed@ =~= m0.remove(e.0 as int));
                }
            }
        }
        proof {
            assert(e == pre.nodes@[z as int].entry);
            assert(crate::is_min_entry(m0, e.0 as int, e.1)) by {
                assert(m0.dom().contains(pre.id_of(z as int)));
                assert(m0[pre.id_of(z as int)] == pre.key_of(z as int));
            }
        }
        Some(e)
    }

    /// Transfer the predicates across unlinking the old minimum root `z`
    /// (still live, its child ring already empty) from the root ring.
    #[verifier::rlimit(100)]
    #[verifier::spinoff_prover]
    proof fn lemma_delete_detach_restores(a: FibHeap, b: FibHeap, z: usize, r1: Seq<usize>)
        requires
            a.ids_ok(),
            a.pos_ok(),
            a.count_ok(),
            a.edges_ok(),
            a.anc_ok(),
            forall|p: int| a.live(p) && p != z as int
                ==> #[trigger] a.childs_entry_ok(p),
            forall|cc: int| #[trigger] a.live(cc) && a.nodes@[cc].parent is Some
                ==> a.childs@[a.nodes@[cc].parent->0 as int].contains(cc as usize),
            r1 == a.ring@,
            ring_linked(a.nodes@, r1),
            r1.no_duplicates(),
            r1.len() > 0,
            r1[0] == z,
            forall|kk: int| 0 <= kk < r1.len()
                ==> a.live((#[trigger] r1[kk]) as int)
                    && a.nodes@[r1[kk] as int].parent is None,
            forall|s: int| #[trigger] a.live(s) && a.nodes@[s].parent is None
                ==> r1.contains(s as usize),
            a.live(z as int),
            b.nodes@ == detach_result(a.nodes@, z as int),
            b.positions == a.positions,
            b.n == a.n,
            b.childs == a.childs,
            b.anc == a.anc,
            b.ring@ == r1.remove(0),
        ensures
            b.ids_ok(),
            b.pos_ok(),
            b.count_ok(),
            b.edges_ok(),
            b.anc_ok(),
            forall|p: int| b.live(p) && p != z as int
                ==> #[trigger] b.childs_entry_ok(p),
            forall|cc: int| #[trigger] b.live(cc) && b.nodes@[cc].parent is Some
                ==> b.childs@[b.nodes@[cc].parent->0 as int].contains(cc as usize),
            ring_linked(b.nodes@, b.ring@),
            b.ring@.no_duplicates(),
            forall|kk: int| 0 <= kk < b.ring@.len()
                ==> b.live((#[trigger] b.ring@[kk]) as int)
                    && b.nodes@[b.ring@[kk] as int].parent is None,
            forall|s: int| #[trigger] b.live(s) && b.nodes@[s].parent is None
                && s != z as int
                ==> b.ring@.contains(s as usize),
            forall|s: int| #[trigger] b.live(s) <==> a.live(s),
            b@ == a@,
            b.live_ids() == a.live_ids(),
            forall|s: int| 0 <= s < a.nodes@.len()
                ==> (#[trigger] b.nodes@[s]).entry == a.nodes@[s].entry
                    && b.nodes@[s].parent == a.nodes@[s].parent
                    && b.nodes@[s].degree == a.nodes@[s].degree
                    && b.nodes@[s].child == a.nodes@[s].child,
            b.nodes@.len() == a.nodes@.len(),
    {
        assert((a.nodes@[z as int].left as int) < a.nodes@.len()
            && (a.nodes@[z as int].right as int) < a.nodes@.len()) by {
            if r1.len() == 1 {
                assert(a.nodes@[z as int].left == z);
            } else {
                assert(a.nodes@[z as int].left == r1[r1.len() - 1]);
                assert(a.nodes@[z as int].right == r1[1]);
            }
        }
        lemma_detach_pointwise(a.nodes@, z as int);
        lemma_detach_ring(a.nodes@, r1, 0);
        assert forall|s: int| #[trigger] b.live(s) <==> a.live(s) by {}
        assert(b.live_ids() =~= a.live_ids());
        assert(b@ =~= a@);
        assert forall|id: int| #[trigger] b.live_id(id)
            implies 0 <= b.slot_of(id) < b.nodes@.len()
                && b.id_of(b.slot_of(id)) == id by {
            assert(a.live_id(id));
        }
        assert forall|cc: int| #[trigger] b.live(cc) && b.nodes@[cc].parent is Some
            implies b.live(b.nodes@[cc].parent->0 as int)
                && b.key_of(b.nodes@[cc].parent->0 as int) <= b.key_of(cc)
                && b.childs@[b.nodes@[cc].parent->0 as int]
                    .contains(cc as usize) by {
            assert(a.live(cc));
            assert(a.live(a.nodes@[cc].parent->0 as int));
        }
        assert forall|p: int| b.live(p) && p != z as int
            implies #[trigger] b.childs_entry_ok(p) by {
            assert(a.live(p));
            assert(a.childs_entry_ok(p));
            let cs = b.childs@[p];
            assert forall|kk: int| 0 <= kk < cs.len()
                implies b.live((#[trigger] cs[kk]) as int)
                    && b.nodes@[cs[kk] as int].parent == Some(p as usize) by {
                assert(a.live(cs[kk] as int));
            }
            assert(ring_linked(b.nodes@, cs)) by {
                assert forall|kk: int| 0 <= kk < cs.len()
                    implies (#[trigger] b.nodes@[cs[kk] as int]).left
                            == a.nodes@[cs[kk] as int].left
                        && b.nodes@[cs[kk] as int].right
                            == a.nodes@[cs[kk] as int].right by {
                    assert(a.nodes@[cs[kk] as int].parent == Some(p as usize));
                    assert(cs[kk] != z) by {
                        assert(a.nodes@[z as int].parent is None);
                    }
                    assert(cs[kk] != a.nodes@[z as int].left
                        && cs[kk] != a.nodes@[z as int].right) by {
                        if r1.len() == 1 {
                            assert(a.nodes@[z as int].left == z);
                        } else {
                            assert(r1.contains(a.nodes@[z as int].left));
                            assert(r1.contains(a.nodes@[z as int].right));
                            if cs[kk] == a.nodes@[z as int].left {
                                let k2 = choose|k2: int| 0 <= k2 < r1.len()
                                    && r1[k2] == a.nodes@[z as int].left;
                                assert(a.nodes@[r1[k2] as int].parent is None);
                            }
                            if cs[kk] == a.nodes@[z as int].right {
                                let k2 = choose|k2: int| 0 <= k2 < r1.len()
                                    && r1[k2] == a.nodes@[z as int].right;
                                assert(a.nodes@[r1[k2] as int].parent is None);
                            }
                        }
                    }
                }
                lemma_ring_frame(a.nodes@, b.nodes@, cs);
            }
        }
        assert forall|i: int| b.live(i) implies #[trigger] b.anc_entry_ok(i) by {
            assert(a.live(i));
            assert(a.anc_entry_ok(i));
            let h = b.anc@[i];
            assert forall|kk: int| 0 <= kk < h.len()
                implies b.live((#[trigger] h[kk]) as int) by {
                assert(a.live(h[kk] as int));
            }
        }
        assert forall|kk: int| 0 <= kk < b.ring@.len()
            implies b.live((#[trigger] b.ring@[kk]) as int)
                && b.nodes@[b.ring@[kk] as int].parent is None by {
            assert(b.ring@[kk] == r1[kk + 1]);
            assert(a.live(r1[kk + 1] as int));
        }
        assert forall|s: int| #[trigger] b.live(s) && b.nodes@[s].parent is None
            && s != z as int
            implies b.ring@.contains(s as usize) by {
            assert(a.live(s));
            assert(r1.contains(s as usize));
            let k2 = choose|k2: int| 0 <= k2 < r1.len() && r1[k2] == s as usize;
            assert(k2 != 0);
            assert(b.ring@[k2 - 1] == r1[k2]);
        }
    }

    /// Transfer the predicates across killing the extracted root `z`: its
    /// position entry becomes the sentinel, so `z` is dead and every
    /// structural fact survives on the remaining live nodes.
    #[verifier::rlimit(100)]
    #[verifier::spinoff_prover]
    proof fn lemma_delete_kill_restores(a: FibHeap, b: FibHeap, z: usize)
        requires
            a.ids_ok(),
            a.pos_ok(),
            a.count_ok(),
            a.edges_ok(),
            a.anc_ok(),
            forall|p: int| a.live(p) && p != z as int
                ==> #[trigger] a.childs_entry_ok(p),
            forall|cc: int| #[trigger] a.live(cc) && a.nodes@[cc].parent is Some
                ==> a.childs@[a.nodes@[cc].parent->0 as int].contains(cc as usize),
            a.childs@[z as int] == Seq::<usize>::empty(),
            ring_linked(a.nodes@, a.ring@),
            a.ring@.no_duplicates(),
            forall|kk: int| 0 <= kk < a.ring@.len()
                ==> a.live((#[trigger] a.ring@[kk]) as int)
                    && a.nodes@[a.ring@[kk] as int].parent is None,
            forall|s: int| #[trigger] a.live(s) && a.nodes@[s].parent is None
                && s != z as int
                ==> a.ring@.contains(s as usize),
            forall|kk: int| 0 <= kk < a.ring@.len()
                ==> (#[trigger] a.ring@[kk]) != z,
            a.live(z as int),
            a.nodes@[z as int].parent is None,
            b.nodes == a.nodes,
            b.childs == a.childs,
            b.anc == a.anc,
            b.ring == a.ring,
            b.positions@ == a.positions@.update(a.id_of(z as int), NOT_IN_HEAP),
            b.n + 1 == a.n,
        ensures
            b.ids_ok(),
            b.pos_ok(),
            b.count_ok(),
            b.edges_ok(),
            b.anc_ok(),
            b.childs_ok(),
            ring_linked(b.nodes@, b.ring@),
            b.ring@.no_duplicates(),
            forall|kk: int| 0 <= kk < b.ring@.len()
                ==> b.live((#[trigger] b.ring@[kk]) as int)
                    && b.nodes@[b.ring@[kk] as int].parent is None,
            forall|s: int| #[trigger] b.live(s) && b.nodes@[s].parent is None
                ==> b.ring@.contains(s as usize),
            forall|s: int| s != z as int
                ==> (#[trigger] b.live(s) <==> a.live(s)),
            !b.live(z as int),
            b.live_ids() == a.live_ids().remove(a.id_of(z as int)),
            b@ == a@.remove(a.id_of(z as int)),
    {
        broadcast use vstd::set::group_set_axioms;
        let idz = a.id_of(z as int);
        Self::lemma_same_live_id(a, z as int);
        assert(!b.live(z as int)) by {
            assert((z as int) < a.nodes@.len() <= NOT_IN_HEAP as int);
            assert(b.positions@[idz] == NOT_IN_HEAP);
        }
        assert forall|s: int| s != z as int
            implies (#[trigger] b.live(s) <==> a.live(s)) by {
            if a.live(s) {
                assert(a.id_of(s) != idz) by {
                    if a.id_of(s) == idz {
                        assert(a.positions@[idz] as int == s);
                        assert(a.positions@[idz] as int == z as int);
                    }
                }
            }
            if b.live(s) {
                assert(b.id_of(s) != idz) by {
                    if b.id_of(s) == idz {
                        assert(b.positions@[idz] == NOT_IN_HEAP);
                        assert((s as int) < a.nodes@.len() <= NOT_IN_HEAP as int);
                    }
                }
            }
        }
        assert forall|id: int| id != idz
            implies (#[trigger] b.live_id(id) <==> a.live_id(id)) by {}
        assert(!b.live_id(idz));
        assert(b.live_ids() =~= a.live_ids().remove(idz));
        assert(b@ =~= a@.remove(idz)) by {
            assert forall|id: int| b@.dom().contains(id)
                implies b@[id] == a@[id] by {
                assert(a.live_id(id));
            }
        }
        assert(b.count_ok()) by {
            assert(a.live_ids().contains(idz));
        }
        assert(b.ids_ok());
        assert forall|id: int| #[trigger] b.live_id(id)
            implies 0 <= b.slot_of(id) < b.nodes@.len()
                && b.id_of(b.slot_of(id)) == id by {
            assert(a.live_id(id));
            assert(id != idz);
        }
        assert forall|cc: int| #[trigger] b.live(cc) && b.nodes@[cc].parent is Some
            implies b.live(b.nodes@[cc].parent->0 as int)
                && b.key_of(b.nodes@[cc].parent->0 as int) <= b.key_of(cc)
                && b.childs@[b.nodes@[cc].parent->0 as int]
                    .contains(cc as usize) by {
            assert(cc != z as int);
            assert(a.live(cc));
            let p = a.nodes@[cc].parent->0 as int;
            assert(a.live(p));
            assert(p != z as int) by {
                if p == z as int {
                    assert(a.childs@[z as int].contains(cc as usize));
                }
            }
        }
        assert forall|p: int| b.live(p) implies #[trigger] b.childs_entry_ok(p) by {
            assert(p != z as int);
            assert(a.live(p));
            assert(a.childs_entry_ok(p));
            let cs = b.childs@[p];
            assert forall|kk: int| 0 <= kk < cs.len()
                implies b.live((#[trigger] cs[kk]) as int)
                    && b.nodes@[cs[kk] as int].parent == Some(p as usize) by {
                assert(a.live(cs[kk] as int));
                assert(cs[kk] != z) by {
                    assert(a.nodes@[z as int].parent is None);
                }
            }
        }
        assert forall|i: int| b.live(i) implies #[trigger] b.anc_entry_ok(i) by {
            assert(i != z as int);
            assert(a.live(i));
            assert(a.anc_entry_ok(i));
            let h = b.anc@[i];
            assert forall|kk: int| 0 <= kk < h.len()
                implies b.live((#[trigger] h[kk]) as int) by {
                assert(a.live(h[kk] as int));
                assert(h[kk] != z) by {
                    if h[kk] == z {
                        assert(kk == h.len() - 1) by {
                            if kk < h.len() - 1 {
                                assert(a.nodes@[h[kk] as int].parent
                                    == Some(h[kk + 1]));
                            }
                        }
                        if h.len() >= 2 {
                            assert(a.nodes@[h[h.len() - 2] as int].parent
                                == Some(z));
                            assert(a.live(h[h.len() - 2] as int));
                            assert(a.childs@[z as int]
                                .contains(h[h.len() - 2]));
                        } else {
                            assert(h[0] as int == i);
                        }
                    }
                }
            }
        }
        assert forall|kk: int| 0 <= kk < b.ring@.len()
            implies b.live((#[trigger] b.ring@[kk]) as int)
                && b.nodes@[b.ring@[kk] as int].parent is None by {
            assert(a.live(a.ring@[kk] as int));
            assert(a.ring@[kk] != z);
        }
        assert forall|s: int| #[trigger] b.live(s) && b.nodes@[s].parent is None
            implies b.ring@.contains(s as usize) by {
            assert(s != z as int);
            assert(a.live(s));
        }
    }
    /* ---------- public API ------------------------------------------------ */

    pub fn new() -> (h: FibHeap)
        ensures
            h.wf(),
            h@ == Map::<int, i64>::empty(),
            h.n == 0,
    {
        let h = FibHeap {
            nodes: Vec::new(),
            positions: Vec::new(),
            min_root: None,
            n: 0,
            ring: Ghost(Seq::empty()),
            childs: Ghost(Map::empty()),
            anc: Ghost(Map::empty()),
        };
        proof {
            assert(h@ =~= Map::<int, i64>::empty());
            assert(h.live_ids() =~= Set::<int>::empty());
        }
        h
    }

    /// Add a new live item as a singleton root.  Rejected with
    /// `DuplicateId` when the id is already live; the heap is unchanged in
    /// that case.
    #[verifier::rlimit(100)]
    pub fn insert(&mut self, item: (usize, i64)) -> (r: Result<(), HeapError>)
        requires
            old(self).wf(),
            item.0 < usize::MAX,
        ensures
            final(self).wf(),
            match r {
                Ok(()) => !old(self)@.dom().contains(item.0 as int)
                    && final(self)@ == old(self)@.insert(item.0 as int, item.1)
                    && final(self)@.len() == old(self)@.len() + 1
                    && final(self).n == old(self).n + 1,
                Err(e) => e == HeapError::DuplicateId
                    && old(self)@.dom().contains(item.0 as int)
                    && *final(self) == *old(self),
            },
    {
        let (id, key) = item;
        if id < self.positions.len() && self.positions[id] != NOT_IN_HEAP {
            proof {
                assert(self@.dom().contains(id as int));
            }
            return Err(HeapError::DuplicateId);
        }
        let ghost pre = *self;
        let idx = self.nodes.len();
        self.nodes.push(Node {
            entry: item,
            degree: 0,
            mark: false,
            parent: None,
            child: None,
            left: idx,
            right: idx,
        });
        if id >= self.positions.len() {
            self.positions.resize(id + 1, NOT_IN_HEAP);
        }
        self.positions[id] = idx;
        self.childs = Ghost(self.childs@.insert(idx as int, Seq::empty()));
        self.anc = Ghost(self.anc@.insert(idx as int, Seq::empty().push(idx)));
        proof {
            assert(idx < NOT_IN_HEAP && self.nodes@.len() <= NOT_IN_HEAP as int) by {
                assert(self.nodes.len() == self.nodes@.len());
            }
            assert forall|j: int| pre.positions@.len() <= j < self.positions@.len()
                && j != id as int
                implies self.positions@[j] == NOT_IN_HEAP by {
                assert(vstd::pervasive::cloned::<usize>(NOT_IN_HEAP, self.positions@[j])
                    ==> self.positions@[j] == NOT_IN_HEAP);
            }
            assert forall|j: int| 0 <= j < pre.positions@.len() && j != id as int
                implies self.positions@[j] == pre.positions@[j] by {}
            assert(self.live(idx as int));
            assert forall|s: int| 0 <= s < pre.nodes@.len()
                implies (#[trigger] self.nodes@[s]) == pre.nodes@[s]
                    && (self.live(s) <==> pre.live(s)) by {
                if pre.live(s) {
                    assert(pre.nodes@[s].entry.0 as int != id as int);
                }
                if self.live(s) {
                    assert(self.nodes@[s].entry.0 as int != id as int) by {
                        if self.nodes@[s].entry.0 as int == id as int {
                            assert(self.positions@[id as int] as int == idx as int);
                        }
                    }
                }
            }
            assert forall|j: int| #[trigger] self.live_id(j) && j != id as int
                implies pre.live_id(j)
                    && self.slot_of(j) == pre.slot_of(j) by {}
            assert(self.ids_ok());
            assert(self.pos_ok()) by {
                assert forall|j: int| #[trigger] self.live_id(j)
                    implies 0 <= self.slot_of(j) < self.nodes@.len()
                        && self.id_of(self.slot_of(j)) == j by {
                    if j != id as int {
                        assert(pre.live_id(j));
                    }
                }
            }
            assert(self.live_ids() =~= pre.live_ids().insert(id as int));
            assert(self.edges_ok()) by {
                assert forall|c: int| #[trigger] self.live(c)
                    && self.nodes@[c].parent is Some
                    implies self.live(self.nodes@[c].parent->0 as int)
                        && self.key_of(self.nodes@[c].parent->0 as int)
                            <= self.key_of(c) by {
                    assert(c != idx as int);
                    assert(pre.live(c));
                    assert(pre.live(pre.nodes@[c].parent->0 as int));
                }
            }
            assert(self.childs_ok()) by {
                assert forall|p: int| self.live(p)
                    implies #[trigger] self.childs_entry_ok(p) by {
                    if p == idx as int {
                        assert(self.childs@[p] =~= Seq::<usize>::empty());
                    } else {
                        assert(pre.live(p));
                        assert(pre.childs_entry_ok(p));
                        let cs = self.childs@[p];
                        assert(cs == pre.childs@[p]);
                        assert forall|k: int| 0 <= k < cs.len()
                            implies self.live((#[trigger] cs[k]) as int)
                                && self.nodes@[cs[k] as int].parent
                                    == Some(p as usize) by {
                            assert(pre.live(cs[k] as int));
                        }
                    }
                }
                assert forall|c: int| #[trigger] self.live(c)
                    && self.nodes@[c].parent is Some
                    implies self.childs@[self.nodes@[c].parent->0 as int]
                        .contains(c as usize) by {
                    assert(c != idx as int);
                    assert(pre.live(c));
                    assert(pre.nodes@[c].parent->0 as int != idx as int) by {
                        assert(pre.live(pre.nodes@[c].parent->0 as int));
                    }
                }
            }
            assert(self.anc_ok()) by {
                assert forall|i: int| self.live(i)
                    implies #[trigger] self.anc_entry_ok(i) by {
                    if i == idx as int {
                        let h = self.anc@[i];
                        assert(h.len() == 1 && h[0] == idx);
                    } else {
                        assert(pre.live(i));
                        assert(pre.anc_entry_ok(i));
                        let h = self.anc@[i];
                        assert(h == pre.anc@[i]);
                        assert forall|k: int| 0 <= k < h.len()
                            implies self.live((#[trigger] h[k]) as int) by {
                            assert(pre.live(h[k] as int));
                        }
                    }
                }
            }
            assert(ring_linked(self.nodes@, self.ring@)) by {
                lemma_ring_frame(pre.nodes@, self.nodes@, self.ring@);
            }
            assert(!self.ring@.contains(idx)) by {
                if self.ring@.contains(idx) {
                    let k = choose|k: int| 0 <= k < self.ring@.len()
                        && self.ring@[k] == idx;
                    assert(pre.live(self.ring@[k] as int));
                }
            }
        }
        let ghost mid = *self;
        self.add_to_root(idx);
        let ghost mid2 = *self;
        proof {
            assert(forall|s: int| mid.live(s) && mid.nodes@[s].parent is None
                ==> s == idx as int || mid.ring@.contains(s as usize)) by {
                assert forall|s: int| mid.live(s) && mid.nodes@[s].parent is None
                    && s != idx as int
                    implies mid.ring@.contains(s as usize) by {
                    assert(pre.live(s));
                }
            }
            Self::lemma_add_root_restores(mid, mid2, idx);
            Self::lemma_childs_transfer(mid, mid2, -1);
            assert(mid2.childs_ok()) by {
                assert forall|p: int| mid2.live(p)
                    implies #[trigger] mid2.childs_entry_ok(p) by {
                    assert(p != -1);
                }
                assert forall|c: int| #[trigger] mid2.live(c)
                    && mid2.nodes@[c].parent is Some
                    implies mid2.childs@[mid2.nodes@[c].parent->0 as int]
                        .contains(c as usize) by {
                    assert(mid2.nodes@[c].parent->0 as int != -1);
                }
            }
            assert(mid2.ring_ok());
        }
        self.n = self.n + 1;
        proof {
            broadcast use vstd::set::group_set_axioms;
            Self::lemma_same_core(mid2, *self);
            assert(self.ring_ok());
            assert(!pre.live_ids().contains(id as int));
            assert(mid.live_ids() =~= pre.live_ids().insert(id as int));
            assert(self.live_ids() == mid.live_ids());
            assert(self.count_ok());
            assert(self.min_ok_except(idx as int)) by {
                assert(self.n != 0);
                assert forall|k: int| 0 <= k < self.ring@.len()
                    implies self.key_of(self.ring@[0] as int)
                        <= self.key_of((#[trigger] self.ring@[k]) as int) by {
                    assert(mid2.key_of(mid2.ring@[0] as int)
                        <= mid2.key_of(mid2.ring@[k] as int));
                }
            }
            assert(self.live(idx as int)) by {
                assert(mid.live(idx as int));
            }
        }
        let ghost mid3 = *self;
        self.update_min(idx);
        proof {
            assert(self@ =~= pre@.insert(id as int, key)) by {
                assert(self@ == mid3@);
                assert forall|j: int| mid3@.dom().contains(j) && j != id as int
                    implies mid3@[j] == pre@[j] by {
                    assert(mid3.live_id(j) && pre.live_id(j));
                    assert(mid3.slot_of(j) == pre.slot_of(j));
                }
                assert(mid3@.dom() =~= pre@.dom().insert(id as int));
                assert(mid3@[id as int] == key) by {
                    assert(mid3.slot_of(id as int) == idx as int);
                }
            }
            assert(!pre@.dom().contains(id as int));
            assert(self@.len() == pre@.len() + 1) by {
                broadcast use vstd::set::group_set_axioms;
                assert(self@.dom() =~= pre@.dom().insert(id as int));
                assert(pre@.dom() =~= pre.live_ids());
            }
        }
        Ok(())
    }

    /// Lower the key of the live item `id` to the strictly smaller
    /// `new_key`, cutting the node loose (with a cascading cut) if the new
    /// key undercuts its parent.  Rejected with `IdNotPresent` when `id` is
    /// not live and with `KeyNotDecreasing` when `new_key` is not strictly
    /// below the current key; the heap is unchanged in either case.
    #[verifier::rlimit(100)]
    pub fn decrease_key(&mut self, id: usize, new_key: i64) -> (r: Result<(), HeapError>)
        requires
            old(self).wf(),
        ensures
            final(self).wf(),
            match r {
                Ok(()) => old(self)@.dom().contains(id as int)
                    && new_key < old(self)@[id as int]
                    && final(self)@ == old(self)@.insert(id as int, new_key)
                    && final(self).n == old(self).n,
                Err(HeapError::IdNotPresent) => !old(self)@.dom().contains(id as int)
                    && *final(self) == *old(self),
                Err(HeapError::KeyNotDecreasing) => old(self)@.dom().contains(id as int)
                    && new_key >= old(self)@[id as int]
                    && *final(self) == *old(self),
                Err(HeapError::DuplicateId) => false,
            },
    {
        if id >= self.positions.len() || self.positions[id] == NOT_IN_HEAP {
            return Err(HeapError::IdNotPresent);
        }
        let idx = self.positions[id];
        proof {
            assert(self.live_id(id as int));
            assert(self.live(idx as int));
        }
        if new_key >= self.nodes[idx].entry.1 {
            proof {
                assert(self@[id as int] == self.key_of(idx as int));
            }
            return Err(HeapError::KeyNotDecreasing);
        }
        let ghost pre = *self;
        let e = self.nodes[idx].entry;
        self.nodes[idx].entry = (e.0, new_key);
        proof {
            let cur = *self;
            Self::lemma_benign_write(pre, cur);
            assert(cur.edges_ok_except(idx as int)) by {
                assert forall|c: int| #[trigger] cur.live(c)
                    && cur.nodes@[c].parent is Some
                    implies cur.live(cur.nodes@[c].parent->0 as int)
                        && (c != idx as int
                            ==> cur.key_of(cur.nodes@[c].parent->0 as int)
                                <= cur.key_of(c)) by {
                    assert(pre.live(c));
                    assert(pre.live(pre.nodes@[c].parent->0 as int));
                    if c != idx as int {
                        assert(cur.key_of(c) == pre.key_of(c));
                        assert(pre.key_of(pre.nodes@[c].parent->0 as int)
                            <= pre.key_of(c));
                    }
                }
            }
            assert(cur.min_ok_except(idx as int)) by {
                assert forall|k: int| 0 <= k < cur.ring@.len()
                    && cur.ring@[k] as int != idx as int
                    implies cur.key_of(cur.ring@[0] as int)
                        <= cur.key_of((#[trigger] cur.ring@[k]) as int) by {
                    assert(pre.key_of(pre.ring@[0] as int)
                        <= pre.key_of(pre.ring@[k] as int));
                    assert(cur.ring@[0] as int != idx as int ==>
                        cur.key_of(cur.ring@[0] as int)
                            == pre.key_of(pre.ring@[0] as int));
                    if cur.ring@[0] as int == idx as int {
                        assert(cur.key_of(cur.ring@[0] as int)
                            <= pre.key_of(pre.ring@[0] as int));
                    }
                }
            }
            assert(cur@ =~= pre@.insert(id as int, new_key)) by {
                assert forall|jd: int| cur@.dom().contains(jd) && jd != id as int
                    implies cur@[jd] == pre@[jd] by {
                    assert(pre.live_id(jd));
                    assert(pre.slot_of(jd) != idx as int) by {
                        assert(pre.id_of(pre.slot_of(jd)) == jd);
                    }
                }
                assert(cur@[id as int] == new_key);
                assert(cur@.dom() =~= pre@.dom());
            }
        }
        let ghost mid = *self;
        let par = self.nodes[idx].parent;
        match par {
            Some(p) => {
                proof {
                    assert(mid.live(p as int));
                }
                if self.nodes[idx].entry.1 < self.nodes[p].entry.1 {
                    proof {
                        assert(mid.min_ok_except(-1)) by {
                            assert(!mid.ring@.contains(idx)) by {
                                if mid.ring@.contains(idx) {
                                    let k = choose|k: int| 0 <= k < mid.ring@.len()
                                        && mid.ring@[k] == idx;
                                    assert(mid.nodes@[mid.ring@[k] as int].parent
                                        is None);
                                }
                            }
                            assert forall|k: int| 0 <= k < mid.ring@.len()
                                implies mid.key_of(mid.ring@[0] as int)
                                    <= mid.key_of(
                                        (#[trigger] mid.ring@[k]) as int) by {
                                assert(mid.ring@[k] != idx);
                            }
                        }
                    }
                    self.cut(idx, p);
                    self.cascading_cut(p);
                    proof {
                        assert(self@ == mid@);
                    }
                } else {
                    proof {
                        assert(mid.edges_ok()) by {
                            assert forall|c: int| #[trigger] mid.live(c)
                                && mid.nodes@[c].parent is Some
                                implies mid.live(mid.nodes@[c].parent->0 as int)
                                    && mid.key_of(mid.nodes@[c].parent->0 as int)
                                        <= mid.key_of(c) by {}
                        }
                    }
                }
            }
            None => {
                proof {
                    assert(mid.edges_ok()) by {
                        assert forall|c: int| #[trigger] mid.live(c)
                            && mid.nodes@[c].parent is Some
                            implies mid.live(mid.nodes@[c].parent->0 as int)
                                && mid.key_of(mid.nodes@[c].parent->0 as int)
                                    <= mid.key_of(c) by {}
                    }
                }
            }
        }
        proof {
            assert(self.live(idx as int)) by {
                assert(mid.live(idx as int));
            }
            assert(self.min_ok_except(idx as int)) by {
                if self.min_ok_except(-1) {
                    assert forall|k: int| 0 <= k < self.ring@.len()
                        && self.ring@[k] as int != idx as int
                        implies self.key_of(self.ring@[0] as int)
                            <= self.key_of((#[trigger] self.ring@[k]) as int) by {}
                }
            }
        }
        self.update_min(idx);
        proof {
            assert(self@ == pre@.insert(id as int, new_key));
        }
        Ok(())
    }

    /// Invalidate every live id and reset to the empty heap.
    pub fn clear(&mut self)
        requires
            old(self).wf(),
        ensures
            final(self).wf(),
            final(self)@ == Map::<int, i64>::empty(),
            final(self).n == 0,
    {
        let ghost pre = *self;
        proof {
            assert forall|id: int| 0 <= id < self.positions@.len()
                && (#[trigger] self.positions@[id]) != NOT_IN_HEAP
                implies 0 <= self.positions@[id] < self.nodes@.len()
                    && self.nodes@[self.positions@[id] as int].entry.0 as int
                        == id by {
                assert(pre.live_id(id));
            }
        }
        let mut i: usize = 0;
        while i < self.nodes.len()
            invariant
                self.nodes@ == pre.nodes@,
                self.positions@.len() == pre.positions@.len(),
                i <= self.nodes@.len(),
                self.nodes@.len() <= NOT_IN_HEAP as int,
                forall|s: int| 0 <= s < self.nodes@.len()
                    ==> ((#[trigger] self.nodes@[s]).entry.0 as int)
                        < self.positions@.len(),
                forall|id: int| 0 <= id < self.positions@.len()
                    && (#[trigger] self.positions@[id]) != NOT_IN_HEAP
                    ==> i <= self.positions@[id] < self.nodes@.len()
                        && self.nodes@[self.positions@[id] as int].entry.0 as int
                            == id,
            decreases self.nodes@.len() - i,
        {
            let ghost mid = *self;
            let id = self.nodes[i].entry.0;
            self.positions[id] = NOT_IN_HEAP;
            proof {
                assert forall|jd: int| 0 <= jd < self.positions@.len()
                    && (#[trigger] self.positions@[jd]) != NOT_IN_HEAP
                    implies i + 1 <= self.positions@[jd] < self.nodes@.len()
                        && self.nodes@[self.positions@[jd] as int].entry.0 as int
                            == jd by {
                    assert(jd != id as int);
                    assert(mid.positions@[jd] != NOT_IN_HEAP);
                    if self.positions@[jd] == i {
                        assert(self.nodes@[i as int].entry.0 as int == jd);
                    }
                }
            }
            i = i + 1;
        }
        self.nodes.clear();
        self.min_root = None;
        self.n = 0;
        self.ring = Ghost(Seq::empty());
        self.childs = Ghost(Map::empty());
        self.anc = Ghost(Map::empty());
        proof {
            assert forall|id: int| !(#[trigger] self.live_id(id)) by {
                if 0 <= id < self.positions@.len() {
                    assert(self.positions@[id] == NOT_IN_HEAP);
                }
            }
            assert(self.live_ids() =~= Set::<int>::empty());
            assert(self@ =~= Map::<int, i64>::empty());
        }
    }

    /// Build a heap from a list of `(id, key)` items with pairwise distinct
    /// ids, by inserting each in turn.
    pub fn build_heap(items: Vec<(usize, i64)>) -> (h: FibHeap)
        requires
            crate::distinct_ids(items@),
            forall|k: int| 0 <= k < items@.len()
                ==> (#[trigger] items@[k]).0 < usize::MAX,
        ensures
            h.wf(),
            h@ == crate::entries_map(items@),
    {
        let ghost items0 = items@;
        let mut h = FibHeap::new();
        let mut i: usize = 0;
        while i < items.len()
            invariant
                h.wf(),
                i <= items0.len(),
                items@ == items0,
                crate::distinct_ids(items0),
                forall|k: int| 0 <= k < items0.len()
                    ==> (#[trigger] items0[k]).0 < usize::MAX,
                h@ == crate::entries_map(items0.take(i as int)),
            decreases items0.len() - i,
        {
            let ghost hpre = h;
            proof {
                crate::lemma_entries_map(items0.take(i as int));
                assert(crate::distinct_ids(items0.take(i as int))) by {
                    assert forall|a1: int, b1: int|
                        0 <= a1 < b1 < items0.take(i as int).len()
                        implies (#[trigger] items0.take(i as int)[a1]).0
                            != (#[trigger] items0.take(i as int)[b1]).0 by {
                        assert(items0[a1].0 != items0[b1].0);
                    }
                }
                assert(!h@.dom().contains(items0[i as int].0 as int)) by {
                    if h@.dom().contains(items0[i as int].0 as int) {
                        let k = choose|k: int| 0 <= k < items0.take(i as int).len()
                            && (#[trigger] items0.take(i as int)[k]).0 as int
                                == items0[i as int].0 as int;
                        assert(items0[k].0 == items0[i as int].0);
                    }
                }
            }
            let r = h.insert(items[i]);
            proof {
                match r {
                    Ok(()) => {}
                    Err(_) => {
                        assert(false);
                    }
                }
                assert(h@ =~= crate::entries_map(items0.take(i as int + 1))) by {
                    assert(items0.take(i as int + 1).drop_last()
                        =~= items0.take(i as int));
                    assert(items0.take(i as int + 1).last() == items0[i as int]);
                }
            }
            i = i + 1;
        }
        proof {
            assert(items0.take(items0.len() as int) =~= items0);
        }
        h
    }

    /// Scan the whole arena, reporting whether every live key is at least
    /// `last_key`; heap order along parent edges holds of every well-formed
    /// heap and is restated here.
    pub fn assert_heap_ok(&self, last_key: i64) -> (ok: bool)
        requires
            self.wf(),
        ensures
            ok <==> (forall|j: int| self@.dom().contains(j)
                ==> last_key <= #[trigger] self@[j]),
            forall|c: int| #[trigger] self.live(c) && self.nodes@[c].parent is Some
                ==> self.key_of(self.nodes@[c].parent->0 as int) <= self.key_of(c),
    {
        let mut ok = true;
        let mut i: usize = 0;
        while i < self.nodes.len()
            invariant
                self.wf(),
                i <= self.nodes@.len(),
                ok <==> (forall|s: int| 0 <= s < i && #[trigger] self.live(s)
                    ==> last_key <= self.key_of(s)),
            decreases self.nodes@.len() - i,
        {
            let id = self.nodes[i].entry.0;
            proof {
                assert((id as int) < self.positions@.len());
            }
            if self.positions[id] == i {
                if self.nodes[i].entry.1 < last_key {
                    ok = false;
                    proof {
                        assert(self.live(i as int)
                            && !(last_key <= self.key_of(i as int)));
                    }
                } else {
                    proof {
                        assert(self.live(i as int) ==> last_key <= self.key_of(i as int));
                    }
                }
            } else {
                proof {
                    assert(!self.live(i as int));
                }
            }
            proof {
                assert((forall|s: int| 0 <= s < i + 1 && #[trigger] self.live(s)
                        ==> last_key <= self.key_of(s))
                    <==> ((forall|s: int| 0 <= s < i && #[trigger] self.live(s)
                        ==> last_key <= self.key_of(s))
                        && (self.live(i as int)
                            ==> last_key <= self.key_of(i as int))));
            }
            i = i + 1;
        }
        proof {
            if ok {
                assert forall|j: int| self@.dom().contains(j)
                    implies last_key <= #[trigger] self@[j] by {
                    let s = self.slot_of(j);
                    assert(self.live(s));
                }
            } else {
                let s = choose|s: int| 0 <= s < self.nodes@.len()
                    && #[trigger] self.live(s) && !(last_key <= self.key_of(s));
                self.lemma_live_slot_id(s);
                assert(self@.dom().contains(self.id_of(s)));
                assert(self@[self.id_of(s)] < last_key);
            }
        }
        ok
    }

    pub fn is_empty(&self) -> (r: bool)
        requires
            self.wf(),
        ensures
            r <==> self@.dom() =~= Set::<int>::empty(),
    {
        proof {
            if self.n == 0 {
                assert forall|id: int| !self@.dom().contains(id) by {
                    if self.live_id(id) {
                        assert(self.live_ids().contains(id));
                    }
                }
                assert(self@.dom() =~= Set::<int>::empty());
            } else {
                broadcast use vstd::set::group_set_axioms;
                let id = self.live_ids().choose();
                assert(self.live_ids().contains(id));
                assert(self@.dom().contains(id));
            }
        }
        self.n == 0
    }

    pub fn len(&self) -> (r: usize)
        requires
            self.wf(),
        ensures
            r as int == self@.len(),
            r == self.n,
    {
        proof {
            assert(self@.dom() =~= self.live_ids());
        }
        self.n
    }

    pub fn get_min(&self) -> (r: Option<(usize, i64)>)
        requires
            self.wf(),
        ensures
            match r {
                Some(e) => crate::is_min_entry(self@, e.0 as int, e.1),
                None => self@.dom() =~= Set::<int>::empty(),
            },
    {
        match self.min_root {
            None => {
                proof {
                    assert forall|id: int| !self@.dom().contains(id) by {
                        if self.live_id(id) {
                            assert(self.live_ids().contains(id));
                        }
                    }
                    assert(self@.dom() =~= Set::<int>::empty());
                }
                None
            }
            Some(m) => {
                let e = self.nodes[m].entry;
                proof {
                    assert(self.live(m as int));
                    self.lemma_live_slot_id(m as int);
                    assert forall|j: int| self@.dom().contains(j)
                        implies e.1 <= self@[j] by {
                        let s = self.slot_of(j);
                        assert(self.live(s));
                        self.lemma_min_le_all(s);
                    }
                }
                Some(e)
            }
        }
    }
}

} // verus!

//! Indexed priority queues: elements are addressed by a dense integer id and
//! carry a totally ordered key.  The main engine is `FibHeap`, a Fibonacci
//! heap built on an index-addressed arena of nodes linked into circular
//! rings; `MinHeap` is the simpler array-backed binary-heap baseline with the
//! same external contract.

use vstd::prelude::*;

pub mod fibonacci_heap;
pub mod minheap;

verus! {

/// Sentinel stored in a position index to mean "this id is not in the heap".
pub const NOT_IN_HEAP: usize = usize::MAX;

/// A contract violation, reported to the caller instead of corrupting the
/// heap: inserting an id that is already live, lowering a key to a value
/// that is not strictly smaller, or addressing an id that is not live.
#[derive(Clone, Copy, Debug, PartialEq, Eq, Structural)]
pub enum HeapError {
    DuplicateId,
    KeyNotDecreasing,
    IdNotPresent,
}

/// The ids of `s` are pairwise distinct.
pub open spec fn distinct_ids(s: Seq<(usize, i64)>) -> bool {
    forall|j: int, k: int| 0 <= j < k < s.len()
        ==> (#[trigger] s[j]).0 != (#[trigger] s[k]).0
}

/// The id-to-key map described by a list of `(id, key)` items; a later item
/// with the same id wins, so for distinct ids the map is exactly the items.
pub open spec fn entries_map(s: Seq<(usize, i64)>) -> Map<int, i64>
    decreases s.len(),
{
    if s.len() == 0 {
        Map::empty()
    } else {
        entries_map(s.drop_last()).insert(s.last().0 as int, s.last().1)
    }
}

/// For items with distinct ids, `entries_map` holds exactly the ids of the
/// items, each mapped to its own key.
pub proof fn lemma_entries_map(s: Seq<(usize, i64)>)
    requires
        distinct_ids(s),
    ensures
        forall|id: int| entries_map(s).dom().contains(id)
            <==> exists|k: int| 0 <= k < s.len() && (#[trigger] s[k]).0 as int == id,
        forall|k: int| 0 <= k < s.len()
            ==> entries_map(s)[(#[trigger] s[k]).0 as int] == s[k].1,
    decreases s.len(),
{
    if s.len() > 0 {
        let t = s.drop_last();
        lemma_entries_map(t);
        assert forall|k: int| 0 <= k < s.len()
            implies entries_map(s)[(#[trigger] s[k]).0 as int] == s[k].1 by {
            if k < s.len() - 1 {
                assert(s[k] == t[k]);
                assert(s[k].0 != s.last().0);
            }
        }
        assert forall|id: int| entries_map(s).dom().contains(id)
            implies exists|k: int| 0 <= k < s.len()
                && (#[trigger] s[k]).0 as int == id by {
            if id != s.last().0 as int {
                assert(entries_map(t).dom().contains(id));
                assert(exists|k: int| 0 <= k < t.len()
                    && (#[trigger] t[k]).0 as int == id);
                let k = choose|k: int| 0 <= k < t.len() && (#[trigger] t[k]).0 as int == id;
                assert(t[k] == s[k]);
                assert(s[k].0 as int == id);
            } else {
                assert(s[s.len() - 1].0 as int == id);
            }
        }
        assert forall|id: int| (exists|k: int| 0 <= k < s.len()
                && (#[trigger] s[k]).0 as int == id)
            implies entries_map(s).dom().contains(id) by {
            let k = choose|k: int| 0 <= k < s.len() && (#[trigger] s[k]).0 as int == id;
            if k < s.len() - 1 {
                assert(t[k].0 as int == id);
            }
        }
    }
}

/// `(id, key)` is a live entry of `m` whose key is no larger than any live key.
pub open spec fn is_min_entry(m: Map<int, i64>, id: int, key: i64) -> bool {
    &&& m.dom().contains(id)
    &&& m[id] == key
    &&& forall|j: int| m.dom().contains(j) ==> key <= #[trigger] m[j]
}

/// Popping the minimum twice in a row never yields a larger key first:
/// the second minimum is drawn from the map with the first entry removed.
pub proof fn lemma_pop_monotone(m: Map<int, i64>, id1: int, k1: i64, id2: int, k2: i64)
    requires
        is_min_entry(m, id1, k1),
        is_min_entry(m.remove(id1), id2, k2),
    ensures
        k1 <= k2,
{
    assert(m.dom().contains(id2));
    assert(k1 <= m[id2]);
}

/// `t` is the sequence of entries produced by repeatedly extracting the
/// minimum from `m` until it is empty.
pub open spec fn is_pop_trace(m: Map<int, i64>, t: Seq<(usize, i64)>) -> bool
    decreases t.len(),
{
    if t.len() == 0 {
        m.dom() == Set::<int>::empty()
    } else {
        is_min_entry(m, t[0].0 as int, t[0].1)
            && is_pop_trace(m.remove(t[0].0 as int), t.drop_first())
    }
}

/// Draining a heap by repeated minimum extraction yields its entries in
/// non-decreasing key order, and every drained entry comes from the heap.
pub proof fn lemma_pop_trace_sorted(m: Map<int, i64>, t: Seq<(usize, i64)>)
    requires
        is_pop_trace(m, t),
    ensures
        forall|i: int, j: int| 0 <= i < j < t.len()
            ==> (#[trigger] t[i]).1 <= (#[trigger] t[j]).1,
        forall|i: int| 0 <= i < t.len()
            ==> m.dom().contains((#[trigger] t[i]).0 as int)
                && m[t[i].0 as int] == t[i].1,
    decreases t.len(),
{
    if t.len() > 0 {
        let m2 = m.remove(t[0].0 as int);
        let t2 = t.drop_first();
        lemma_pop_trace_sorted(m2, t2);
        assert forall|i: int| 0 <= i < t.len()
            implies m.dom().contains((#[trigger] t[i]).0 as int)
                && m[t[i].0 as int] == t[i].1 by {
            if i > 0 {
                assert(t2[i - 1] == t[i]);
                assert(m2.dom().contains(t[i].0 as int));
            }
        }
        assert forall|i: int, j: int| 0 <= i < j < t.len()
            implies (#[trigger] t[i]).1 <= (#[trigger] t[j]).1 by {
            if i == 0 {
                assert(t2[j - 1] == t[j]);
                assert(m2.dom().contains(t[j].0 as int));
                assert(m.dom().contains(t[j].0 as int));
                assert(t[0].1 <= m[t[j].0 as int]);
            } else {
                assert(t2[i - 1] == t[i] && t2[j - 1] == t[j]);
            }
        }
    }
}

} // verus!

//! Array-backed binary min-heap with a position index, the simple baseline
//! implementation of the indexed-priority-queue contract.

use vstd::prelude::*;

use crate::HeapError;
use crate::NOT_IN_HEAP;

verus! {

/// Binary min-heap over `(id, key)` entries.  `heap` holds the entries in
/// the usual implicit-tree layout; `positions[id]` is the index of id's
/// entry in `heap`, or `NOT_IN_HEAP`.
pub struct MinHeap {
    pub heap: Vec<(usize, i64)>,
    pub positions: Vec<usize>,
}

/// The parent index of heap slot `k`.
pub open spec fn hparent(k: int) -> int {
    (k - 1) / 2
}

/// The exact array produced by sifting the entry at `i` downward: at each
/// step the smaller child is chosen, and the entries swap while the child's
/// key is strictly smaller.
pub open spec fn sift_down_spec(s: Seq<(usize, i64)>, i: int) -> Seq<(usize, i64)>
    decreases s.len() - i,
{
    if i < 0 || 2 * i + 1 >= s.len() {
        s
    } else {
        let l = 2 * i + 1;
        let r = 2 * i + 2;
        let c = if r < s.len() && s[r].1 < s[l].1 {
            r
        } else {
            l
        };
        if s[c].1 < s[i].1 {
            sift_down_spec(s.update(i, s[c]).update(c, s[i]), c)
        } else {
            s
        }
    }
}

/// The edge from `hparent(k)` into `k` respects heap order.
pub open spec fn edge_ok(s: Seq<(usize, i64)>, k: int) -> bool {
    s[hparent(k)].1 <= s[k].1
}

impl MinHeap {
    /// The abstract contents: a finite map from live id to its key.
    pub open spec fn view(self) -> Map<int, i64> {
        Map::new(
            |id: int| 0 <= id < self.positions@.len()
                && self.positions@[id] != NOT_IN_HEAP,
            |id: int| self.heap@[self.positions@[id] as int].1,
        )
    }

    /// Every heap entry's id resolves back to its own slot, and every
    /// non-sentinel position entry points at a slot holding that id.
    pub open spec fn positions_ok(self) -> bool {
        &&& forall|k: int| 0 <= k < self.heap@.len()
            ==> (#[trigger] self.heap@[k].0) < self.positions@.len()
                && self.positions@[self.heap@[k].0 as int] == k
        &&& forall|id: int| 0 <= id < self.positions@.len()
                && (#[trigger] self.positions@[id]) != NOT_IN_HEAP
            ==> self.positions@[id] < self.heap@.len()
                && self.heap@[self.positions@[id] as int].0 == id
    }

    /// Heap order on every edge whose parent index is at least `b`.
    pub open spec fn ordered_from(s: Seq<(usize, i64)>, b: int) -> bool {
        forall|k: int| 0 < k < s.len() && b <= hparent(k) ==> #[trigger] edge_ok(s, k)
    }

    /// Well-formed heap: positions are consistent and heap order holds.
    pub open spec fn wf(self) -> bool {
        &&& self.positions_ok()
        &&& Self::ordered_from(self.heap@, 0)
    }

    pub fn new() -> (h: MinHeap)
        ensures
            h.wf(),
            h@ == Map::<int, i64>::empty(),
            h.heap@.len() == 0,
            h.positions@.len() == 0,
    {
        let h = MinHeap { heap: Vec::new(), positions: Vec::new() };
        proof {
            assert(h@ =~= Map::<int, i64>::empty());
        }
        h
    }

    pub fn is_empty(&self) -> (r: bool)
        requires
            self.wf(),
        ensures
            r <==> self@.dom() =~= Set::<int>::empty(),
    {
        let r = self.heap.len() == 0;
        proof {
            if self.heap@.len() == 0 {
                assert(self@.dom() =~= Set::<int>::empty());
            } else {
                assert(self@.dom().contains(self.heap@[0].0 as int));
            }
        }
        r
    }

    pub fn get_min(&self) -> (r: Option<(usize, i64)>)
        requires
            self.wf(),
        ensures
            match r {
                Some(e) => crate::is_min_entry(self@, e.0 as int, e.1),
                None => self@.dom() =~= Set::<int>::empty(),
            },
    {
        if self.heap.len() == 0 {
            proof {
                assert(self@.dom() =~= Set::<int>::empty());
            }
            None
        } else {
            let e = self.heap[0];
            proof {
                self.lemma_root_is_min();
            }
            Some(e)
        }
    }

    /// In a well-formed nonempty heap, the root entry has the smallest key.
    proof fn lemma_root_is_min(self)
        requires
            self.wf(),
            self.heap@.len() > 0,
        ensures
            crate::is_min_entry(self@, self.heap@[0].0 as int, self.heap@[0].1),
    {
        assert forall|j: int| self@.dom().contains(j)
            implies self.heap@[0].1 <= self@[j] by {
            let k = self.positions@[j] as int;
            Self::lemma_root_le(self.heap@, k);
        }
    }

    /// Swap the child at `index` with its parent until the heap order is
    /// restored upward.  On entry every edge except the one into `index` must
    /// already respect heap order, and the grandparent must already bound
    /// `index`'s children (trivially true when `index` has no children).
    pub fn bubble_up(&mut self, index: usize)
        requires
            old(self).positions_ok(),
            index < old(self).heap@.len(),
            forall|k: int| 0 < k < old(self).heap@.len() && k != index
                ==> #[trigger] edge_ok(old(self).heap@, k),
            index > 0 ==> forall|k: int| 0 < k < old(self).heap@.len()
                && hparent(k) == index
                ==> old(self).heap@[hparent(index as int)].1 <= #[trigger] old(self).heap@[k].1,
        ensures
            final(self).wf(),
            final(self)@ == old(self)@,
            final(self).heap@.len() == old(self).heap@.len(),
            final(self).positions@.len() == old(self).positions@.len(),
    {
        let ghost m0 = self@;
        let ghost len0 = self.heap@.len();
        let ghost plen0 = self.positions@.len();
        let mut index = index;
        while index > 0
            invariant
                self.positions_ok(),
                index < self.heap@.len(),
                self@ == m0,
                self.heap@.len() == len0,
                self.positions@.len() == plen0,
                forall|k: int| 0 < k < self.heap@.len() && k != index
                    ==> #[trigger] edge_ok(self.heap@, k),
                index > 0 ==> forall|k: int| 0 < k < self.heap@.len()
                    && hparent(k) == index
                    ==> self.heap@[hparent(index as int)].1 <= #[trigger] self.heap@[k].1,
            ensures
                self.positions_ok(),
                self@ == m0,
                self.heap@.len() == len0,
                self.positions@.len() == plen0,
                Self::ordered_from(self.heap@, 0),
            decreases index,
        {
            let parent = (index - 1) / 2;
            if self.heap[index].1 < self.heap[parent].1 {
                let ghost pre = *self;
                let child_entry = self.heap[index];
                let parent_entry = self.heap[parent];
                self.heap[index] = parent_entry;
                self.heap[parent] = child_entry;

                let child_id = self.heap[index].0;
                let parent_id = self.heap[parent].0;
                self.positions[child_id] = index;
                self.positions[parent_id] = parent;

                proof {
                    let s = self.heap@;
                    let p = pre.heap@;
                    assert(s =~= p.update(index as int, p[parent as int])
                        .update(parent as int, p[index as int]));
                    assert(self@ =~= m0) by {
                        let hi = pre.heap@[index as int];
                        let lo = pre.heap@[parent as int];
                        assert(pre.positions@[hi.0 as int] == index);
                        assert(pre.positions@[lo.0 as int] == parent);
                        assert(self.positions@ =~= pre.positions@
                            .update(hi.0 as int, parent)
                            .update(lo.0 as int, index as usize));
                        assert(index < NOT_IN_HEAP) by {
                            assert(pre.heap.len() == pre.heap@.len());
                        }
                        assert(self@.dom() =~= m0.dom());
                        assert forall|id: int| self@.dom().contains(id)
                            implies self@[id] == m0[id] by {
                            if id == hi.0 as int {
                                assert(self@[id] == s[parent as int].1);
                            } else if id == lo.0 as int {
                                assert(self@[id] == s[index as int].1);
                            } else {
                                let q = pre.positions@[id] as int;
                                assert(pre.heap@[q].0 as int == id);
                                assert(q != index as int && q != parent as int);
                                assert(s[q] == pre.heap@[q]);
                            }
                        }
                    }
                    assert forall|k: int| 0 < k < s.len() && k != parent as int
                        implies #[trigger] edge_ok(s, k) by {
                        if k == index as int {
                            assert(edge_ok(p, k) || hparent(k) == parent as int);
                        } else if hparent(k) == index as int {
                            assert(edge_ok(p, k));
                        } else if hparent(k) == parent as int {
                            assert(edge_ok(p, k) || k == index as int);
                            assert(p[parent as int].1 <= p[k].1
                                || p[index as int].1 <= p[k].1);
                        } else {
                            assert(edge_ok(p, k));
                        }
                    }
                    assert(parent > 0 ==> forall|k: int| 0 < k < s.len()
                        && hparent(k) == parent as int
                        ==> s[hparent(parent as int)].1 <= #[trigger] s[k].1) by {
                        if parent > 0 {
                            assert forall|k: int| 0 < k < s.len()
                                && hparent(k) == parent as int
                                implies s[hparent(parent as int)].1 <= s[k].1 by {
                                assert(edge_ok(p, parent as int));
                                if k == index as int {
                                } else {
                                    assert(edge_ok(p, k));
                                }
                            }
                        }
                    }
                }
                index = parent;
            } else {
                proof {
                    assert(edge_ok(self.heap@, index as int));
                }
                break;
            }
        }
    }

    /// Add a new live item.  Rejected with `DuplicateId` when the id is
    /// already live; the heap is unchanged in that case.
    pub fn insert(&mut self, item: (usize, i64)) -> (r: Result<(), HeapError>)
        requires
            old(self).wf(),
            item.0 < usize::MAX,
        ensures
            final(self).wf(),
            match r {
                Ok(()) => !old(self)@.dom().contains(item.0 as int)
                    && final(self)@ == old(self)@.insert(item.0 as int, item.1),
                Err(e) => e == HeapError::DuplicateId
                    && old(self)@.dom().contains(item.0 as int)
                    && *final(self) == *old(self),
            },
    {
        let (id, key) = item;
        if id < self.positions.len() && self.positions[id] != NOT_IN_HEAP {
            return Err(HeapError::DuplicateId);
        }
        let ghost pre = *self;
        let idx = self.heap.len();
        self.heap.push(item);
        if id >= self.positions.len() {
            self.positions.resize(id + 1, NOT_IN_HEAP);
        }
        self.positions[id] = idx;
        proof {
            assert(idx < NOT_IN_HEAP) by {
                assert(self.heap.len() == self.heap@.len());
            }
            assert forall|j: int| pre.positions@.len() <= j < self.positions@.len()
                && j != id as int
                implies self.positions@[j] == NOT_IN_HEAP by {
                assert(vstd::pervasive::cloned::<usize>(NOT_IN_HEAP, self.positions@[j])
                    ==> self.positions@[j] == NOT_IN_HEAP);
            }
            assert(self.positions_ok()) by {
                assert forall|k: int| 0 <= k < self.heap@.len()
                    implies (#[trigger] self.heap@[k].0) < self.positions@.len()
                        && self.positions@[self.heap@[k].0 as int] == k by {
                    if k < idx {
                        assert(self.heap@[k] == pre.heap@[k]);
                        assert(pre.heap@[k].0 as int != id as int);
                    }
                }
                assert forall|j: int| 0 <= j < self.positions@.len()
                    && (#[trigger] self.positions@[j]) != NOT_IN_HEAP
                    implies self.positions@[j] < self.heap@.len()
                        && self.heap@[self.positions@[j] as int].0 as int == j by {
                    if j == id as int {
                    } else if j < pre.positions@.len() {
                        assert(self.positions@[j] == pre.positions@[j]);
                    }
                }
            }
            assert forall|k: int| 0 < k < self.heap@.len() && k != idx
                implies #[trigger] edge_ok(self.heap@, k) by {
                assert(edge_ok(pre.heap@, k));
            }
            assert forall|k: int| 0 < k < self.heap@.len() && hparent(k) == idx as int
                implies false by {
                assert(k >= 2 * idx + 1);
            }
        }
        let ghost mid = *self;
        self.bubble_up(idx);
        proof {
            assert(mid@ =~= pre@.insert(id as int, key)) by {
                assert forall|j: int| mid@.dom().contains(j) && j != id as int
                    implies mid@[j] == pre@[j] by {
                    let q = pre.positions@[j] as int;
                    assert(pre.heap@[q].0 as int == j);
                }
            }
            assert(!pre@.dom().contains(id as int));
        }
        Ok(())
    }

    /// Lower the key of the live item `id` to the strictly smaller `new_key`.
    /// Rejected with `IdNotPresent` when `id` is not live and with
    /// `KeyNotDecreasing` when `new_key` is not strictly below the current
    /// key; the heap is unchanged in either case.
    pub fn decrease_key(&mut self, id: usize, new_key: i64) -> (r: Result<(), HeapError>)
        requires
            old(self).wf(),
        ensures
            final(self).wf(),
            match r {
                Ok(()) => old(self)@.dom().contains(id as int)
                    && new_key < old(self)@[id as int]
                    && final(self)@ == old(self)@.insert(id as int, new_key),
                Err(HeapError::IdNotPresent) => !old(self)@.dom().contains(id as int)
                    && *final(self) == *old(self),
                Err(HeapError::KeyNotDecreasing) => old(self)@.dom().contains(id as int)
                    && new_key >= old(self)@[id as int]
                    && *final(self) == *old(self),
                Err(HeapError::DuplicateId) => false,
            },
    {
        if id >= self.positions.len() || self.positions[id] == NOT_IN_HEAP {
            return Err(HeapError::IdNotPresent);
        }
        let pos_id = self.positions[id];
        if new_key >= self.heap[pos_id].1 {
            return Err(HeapError::KeyNotDecreasing);
        }
        let ghost pre = *self;
        self.heap[pos_id] = (id, new_key);
        proof {
            assert(self.positions_ok()) by {
                assert forall|k: int| 0 <= k < self.heap@.len()
                    implies (#[trigger] self.heap@[k].0) < self.positions@.len()
                        && self.positions@[self.heap@[k].0 as int] == k by {
                    if k != pos_id as int {
                        assert(self.heap@[k] == pre.heap@[k]);
                    }
                }
            }
            assert forall|k: int| 0 < k < self.heap@.len() && k != pos_id as int
                implies #[trigger] edge_ok(self.heap@, k) by {
                assert(edge_ok(pre.heap@, k));
            }
            assert forall|k: int| 0 < k < self.heap@.len()
                && hparent(k) == pos_id as int && pos_id > 0
                implies self.heap@[hparent(pos_id as int)].1 <= self.heap@[k].1 by {
                assert(edge_ok(pre.heap@, k));
                assert(edge_ok(pre.heap@, pos_id as int));
            }
        }
        let ghost mid = *self;
        self.bubble_up(pos_id);
        proof {
            assert(mid@ =~= pre@.insert(id as int, new_key)) by {
                assert forall|j: int| mid@.dom().contains(j) && j != id as int
                    implies mid@[j] == pre@[j] by {
                    let q = pre.positions@[j] as int;
                    assert(pre.heap@[q].0 as int == j);
                    assert(q != pos_id as int);
                }
            }
        }
        Ok(())
    }

    /// Swap the entries in heap slots `a` and `b` and repoint their position
    /// entries, preserving the abstract contents.
    fn swap_entries(&mut self, a: usize, b: usize)
        requires
            old(self).positions_ok(),
            a < old(self).heap@.len(),
            b < old(self).heap@.len(),
            a != b,
        ensures
            final(self).positions_ok(),
            final(self)@ == old(self)@,
            final(self).heap@ == old(self).heap@
                .update(a as int, old(self).heap@[b as int])
                .update(b as int, old(self).heap@[a as int]),
            final(self).positions@ == old(self).positions@
                .update(old(self).heap@[b as int].0 as int, a)
                .update(old(self).heap@[a as int].0 as int, b),
            final(self).positions@.len() == old(self).positions@.len(),
    {
        let ghost pre = *self;
        let ea = self.heap[a];
        let eb = self.heap[b];
        self.heap[a] = eb;
        self.heap[b] = ea;
        self.positions[eb.0] = a;
        self.positions[ea.0] = b;
        proof {
            assert(a < NOT_IN_HEAP && b < NOT_IN_HEAP) by {
                assert(pre.heap.len() == pre.heap@.len());
            }
            assert(pre.positions@[ea.0 as int] == a);
            assert(pre.positions@[eb.0 as int] == b);
            let s = self.heap@;
            assert(s =~= pre.heap@.update(a as int, eb).update(b as int, ea));
            assert(self.positions_ok()) by {
                assert forall|k: int| 0 <= k < s.len()
                    implies (#[trigger] s[k].0) < self.positions@.len()
                        && self.positions@[s[k].0 as int] == k by {
                    if k != a as int && k != b as int {
                        assert(s[k] == pre.heap@[k]);
                        assert(pre.heap@[k].0 != ea.0 && pre.heap@[k].0 != eb.0);
                    }
                }
                assert forall|j: int| 0 <= j < self.positions@.len()
                    && (#[trigger] self.positions@[j]) != NOT_IN_HEAP
                    implies self.positions@[j] < s.len()
                        && s[self.positions@[j] as int].0 as int == j by {
                    if j != ea.0 as int && j != eb.0 as int {
                        assert(self.positions@[j] == pre.positions@[j]);
                        let q = pre.positions@[j] as int;
                        assert(pre.heap@[q].0 as int == j);
                        assert(q != a as int && q != b as int);
                    }
                }
            }
            assert(self@ =~= pre@) by {
                assert(self@.dom() =~= pre@.dom());
                assert forall|id: int| self@.dom().contains(id)
                    implies self@[id] == pre@[id] by {
                    if id == ea.0 as int {
                        assert(self@[id] == s[b as int].1);
                    } else if id == eb.0 as int {
                        assert(self@[id] == s[a as int].1);
                    } else {
                        let q = pre.positions@[id] as int;
                        assert(pre.heap@[q].0 as int == id);
                        assert(q != a as int && q != b as int);
                    }
                }
            }
        }
    }

    /// Sift the entry at `index` downward until both children bound it.
    /// On entry every edge whose parent slot is above `index` must respect
    /// heap order; on exit every edge whose parent slot is at least `index`
    /// does, so repeated calls from the last internal slot down to the root
    /// heapify the whole array.
    pub fn bubble_down(&mut self, index: usize)
        requires
            old(self).positions_ok(),
            index < old(self).heap@.len(),
            Self::ordered_from(old(self).heap@, index as int + 1),
        ensures
            final(self).positions_ok(),
            Self::ordered_from(final(self).heap@, index as int),
            final(self)@ == old(self)@,
            final(self).heap@ == sift_down_spec(old(self).heap@, index as int),
            final(self).heap@.len() == old(self).heap@.len(),
            final(self).positions@.len() == old(self).positions@.len(),
    {
        let heap_len = self.heap.len();
        let ghost i0 = index as int;
        let ghost h0 = self.heap@;
        let ghost m0 = self@;
        let ghost plen0 = self.positions@.len();
        let mut index = index;
        while index < heap_len / 2
            invariant
                self.positions_ok(),
                self@ == m0,
                self.heap@.len() == heap_len,
                self.positions@.len() == plen0,
                i0 <= index < heap_len,
                forall|k: int| 0 < k < heap_len && i0 <= hparent(k)
                    && hparent(k) != index ==> #[trigger] edge_ok(self.heap@, k),
                index > i0 ==> forall|k: int| 0 < k < heap_len
                    && hparent(k) == index
                    ==> self.heap@[hparent(index as int)].1 <= #[trigger] self.heap@[k].1,
                sift_down_spec(h0, i0) == sift_down_spec(self.heap@, index as int),
            ensures
                self.positions_ok(),
                self@ == m0,
                self.heap@.len() == heap_len,
                self.positions@.len() == plen0,
                self.heap@ == sift_down_spec(h0, i0),
                forall|k: int| 0 < k < heap_len && i0 <= hparent(k)
                    ==> #[trigger] edge_ok(self.heap@, k),
            decreases heap_len - index,
        {
            let left_child = 2 * index + 1;
            let right_child = 2 * index + 2;
            let smaller_child: usize;
            if right_child < heap_len
                && self.heap[right_child].1 < self.heap[left_child].1 {
                smaller_child = right_child;
            } else {
                smaller_child = left_child;
            }
            proof {
                assert(hparent(smaller_child as int) == index as int);
            }
            if self.heap[smaller_child].1 < self.heap[index].1 {
                let ghost p = self.heap@;
                let ghost j = index as int;
                let ghost c = smaller_child as int;
                self.swap_entries(index, smaller_child);
                proof {
                    assert(sift_down_spec(p, j)
                        == sift_down_spec(p.update(j, p[c]).update(c, p[j]), c));
                    assert(self.heap@ == p.update(j, p[c]).update(c, p[j]));
                    let s = self.heap@;
                    assert forall|k: int| 0 < k < heap_len && i0 <= hparent(k)
                        && hparent(k) != c implies #[trigger] edge_ok(s, k) by {
                        if hparent(k) == j {
                            if k == c {
                                assert(s[j].1 == p[c].1 && s[c].1 == p[j].1);
                            } else {
                                assert(s[k] == p[k]);
                                assert(p[c].1 <= p[k].1);
                            }
                        } else if k == j {
                            assert(j > i0);
                            assert(p[hparent(j)].1 <= p[c].1);
                        } else {
                            assert(s[k] == p[k] && s[hparent(k)] == p[hparent(k)]);
                            assert(edge_ok(p, k));
                        }
                    }
                    assert forall|k: int| 0 < k < heap_len && hparent(k) == c
                        implies s[hparent(c)].1 <= #[trigger] s[k].1 by {
                        assert(edge_ok(p, k));
                        assert(s[k] == p[k]);
                    }
                }
                index = smaller_child;
            } else {
                proof {
                    assert(sift_down_spec(self.heap@, index as int) == self.heap@);
                    let s = self.heap@;
                    let j = index as int;
                    assert forall|k: int| 0 < k < heap_len && i0 <= hparent(k)
                        implies #[trigger] edge_ok(s, k) by {
                        if hparent(k) == j {
                            if k == smaller_child as int {
                            } else if right_child < heap_len {
                                assert(k == left_child as int || k == right_child as int);
                            } else {
                                assert(k == left_child as int);
                            }
                        }
                    }
                }
                break;
            }
        }
    }

    /// Remove and return the entry with the smallest key, or `None` when the
    /// heap is empty.
    pub fn delete_min(&mut self) -> (r: Option<(usize, i64)>)
        requires
            old(self).wf(),
        ensures
            final(self).wf(),
            match r {
                Some(e) => crate::is_min_entry(old(self)@, e.0 as int, e.1)
                    && final(self)@ == old(self)@.remove(e.0 as int),
                None => old(self)@.dom() =~= Set::<int>::empty()
                    && *final(self) == *old(self),
            },
    {
        if self.heap.len() == 0 {
            proof {
                assert(self@.dom() =~= Set::<int>::empty());
            }
            return None;
        }
        let ghost pre = *self;
        proof {
            self.lemma_root_is_min();
        }
        let min_entry = self.heap[0];
        let last_item = self.heap.len() - 1;
        if last_item > 0 {
            self.swap_entries(0, last_item);
        }
        let ghost swapped = *self;
        let _popped = self.heap.pop();
        self.positions[min_entry.0] = NOT_IN_HEAP;
        proof {
            assert(self.heap@ =~= swapped.heap@.subrange(0, last_item as int));
        }
        if self.heap.len() > 0 {
            let root_id = self.heap[0].0;
            self.positions[root_id] = 0;
            proof {
                let moved = pre.heap@[last_item as int];
                assert(self.heap@[0] == moved);
                assert(root_id == moved.0);
                assert(moved.0 != min_entry.0);
                assert(self.positions@ =~= pre.positions@
                    .update(moved.0 as int, 0usize)
                    .update(min_entry.0 as int, NOT_IN_HEAP));
                assert(self.positions_ok()) by {
                    assert forall|k: int| 0 <= k < self.heap@.len()
                        implies (#[trigger] self.heap@[k].0) < self.positions@.len()
                            && self.positions@[self.heap@[k].0 as int] == k by {
                        if k != 0 {
                            assert(self.heap@[k] == pre.heap@[k]);
                            assert(pre.heap@[k].0 != moved.0 && pre.heap@[k].0 != min_entry.0);
                        }
                    }
                    assert forall|j: int| 0 <= j < self.positions@.len()
                        && (#[trigger] self.positions@[j]) != NOT_IN_HEAP
                        implies self.positions@[j] < self.heap@.len()
                            && self.heap@[self.positions@[j] as int].0 as int == j by {
                        if j != moved.0 as int && j != min_entry.0 as int {
                            let q = pre.positions@[j] as int;
                            assert(pre.heap@[q].0 as int == j);
                            assert(q != 0 && q != last_item as int);
                            assert(self.heap@[q] == pre.heap@[q]);
                        }
                    }
                }
                assert(Self::ordered_from(self.heap@, 1)) by {
                    assert forall|k: int| 0 < k < self.heap@.len() && 1 <= hparent(k)
                        implies #[trigger] edge_ok(self.heap@, k) by {
                        assert(self.heap@[k] == pre.heap@[k]);
                        assert(self.heap@[hparent(k)] == pre.heap@[hparent(k)]);
                        assert(edge_ok(pre.heap@, k));
                    }
                }
            }
            let ghost mid = *self;
            self.bubble_down(0);
            proof {
                let moved = pre.heap@[last_item as int];
                assert(mid@ =~= pre@.remove(min_entry.0 as int)) by {
                    assert(mid@.dom() =~= pre@.dom().remove(min_entry.0 as int));
                    assert forall|id: int| mid@.dom().contains(id)
                        implies mid@[id] == pre@[id] by {
                        if id == moved.0 as int {
                            assert(mid@[id] == mid.heap@[0].1);
                        } else {
                            let q = pre.positions@[id] as int;
                            assert(pre.heap@[q].0 as int == id);
                            assert(q != 0 && q != last_item as int);
                        }
                    }
                }
                assert(Self::ordered_from(self.heap@, 0));
            }
        } else {
            proof {
                assert(last_item == 0);
                assert forall|j: int| pre@.dom().contains(j)
                    implies j == min_entry.0 as int by {
                    let q = pre.positions@[j] as int;
                    assert(pre.heap@[q].0 as int == j);
                }
                assert(self@ =~= pre@.remove(min_entry.0 as int));
            }
        }
        Some(min_entry)
    }

    /// Build a heap from an unsorted list of `(id, key)` items with pairwise
    /// distinct ids, by placing the items in the array and sifting each
    /// internal slot down from the last to the first.
    pub fn build_heap(items: Vec<(usize, i64)>) -> (h: MinHeap)
        requires
            crate::distinct_ids(items@),
            forall|k: int| 0 <= k < items@.len() ==> (#[trigger] items@[k]).0 < usize::MAX,
        ensures
            h.wf(),
            h@ == crate::entries_map(items@),
    {
        let ghost items0 = items@;
        let heap = items;
        let mut pos_max: usize = 0;
        let mut i: usize = 0;
        while i < heap.len()
            invariant
                i <= heap@.len(),
                forall|k: int| 0 <= k < i ==> (#[trigger] heap@[k]).0 <= pos_max,
                pos_max == 0 || exists|k: int| 0 <= k < i && (#[trigger] heap@[k]).0 == pos_max,
                pos_max < usize::MAX,
                crate::distinct_ids(heap@),
                forall|k: int| 0 <= k < heap@.len() ==> (#[trigger] heap@[k]).0 < usize::MAX,
            decreases heap@.len() - i,
        {
            if heap[i].0 > pos_max {
                pos_max = heap[i].0;
            }
            i = i + 1;
        }

        let mut positions: Vec<usize> = Vec::new();
        let mut j: usize = 0;
        while j < pos_max + 1
            invariant
                pos_max < usize::MAX,
                positions@.len() == j,
                j <= pos_max + 1,
                forall|k: int| 0 <= k < j ==> #[trigger] positions@[k] == NOT_IN_HEAP,
            decreases pos_max + 1 - j,
        {
            positions.push(NOT_IN_HEAP);
            j = j + 1;
        }

        let mut min_heap = MinHeap { heap, positions };
        let mut idx: usize = 0;
        while idx < min_heap.heap.len()
            invariant
                idx <= min_heap.heap@.len(),
                crate::distinct_ids(min_heap.heap@),
                forall|k: int| 0 <= k < min_heap.heap@.len()
                    ==> (#[trigger] min_heap.heap@[k]).0 < min_heap.positions@.len(),
                forall|k: int| 0 <= k < idx
                    ==> min_heap.positions@[(#[trigger] min_heap.heap@[k]).0 as int] == k,
                forall|id: int| 0 <= id < min_heap.positions@.len()
                    && (#[trigger] min_heap.positions@[id]) != NOT_IN_HEAP
                    ==> min_heap.positions@[id] < idx
                        && min_heap.heap@[min_heap.positions@[id] as int].0 as int == id,
                min_heap.heap@ == items0,
                min_heap.positions@.len() == pos_max + 1,
            decreases min_heap.heap@.len() - idx,
        {
            let id = min_heap.heap[idx].0;
            min_heap.positions[id] = idx;
            proof {
                assert(idx < NOT_IN_HEAP) by {
                    assert(min_heap.heap.len() == min_heap.heap@.len());
                }
            }
            idx = idx + 1;
        }
        proof {
            assert(min_heap.positions_ok());
            crate::lemma_entries_map(items0);
            assert(min_heap@ =~= crate::entries_map(items0)) by {
                assert forall|id: int| min_heap@.dom().contains(id)
                    implies crate::entries_map(items0).dom().contains(id)
                        && min_heap@[id] == crate::entries_map(items0)[id] by {
                    let q = min_heap.positions@[id] as int;
                    assert(min_heap.heap@[q].0 as int == id);
                }
                assert forall|id: int| crate::entries_map(items0).dom().contains(id)
                    implies min_heap@.dom().contains(id) by {
                    let k = choose|k: int| 0 <= k < items0.len()
                        && (#[trigger] items0[k]).0 as int == id;
                    assert(min_heap.positions@[items0[k].0 as int] == k);
                }
            }
        }

        let n = min_heap.heap.len();
        let ghost m0 = min_heap@;
        let mut i2 = n / 2;
        while i2 > 0
            invariant
                min_heap.positions_ok(),
                min_heap@ == m0,
                i2 <= n / 2,
                min_heap.heap@.len() == n,
                min_heap.positions@.len() == pos_max + 1,
                Self::ordered_from(min_heap.heap@, i2 as int),
            decreases i2,
        {
            i2 = i2 - 1;
            proof {
                assert(Self::ordered_from(min_heap.heap@, i2 as int + 1));
            }
            min_heap.bubble_down(i2);
        }
        proof {
            if n == 0 {
                assert(Self::ordered_from(min_heap.heap@, 0));
            }
            assert(min_heap.wf());
        }
        min_heap
    }

    /// Heap order implies the root key bounds the key at any slot `k`.
    proof fn lemma_root_le(s: Seq<(usize, i64)>, k: int)
        requires
            MinHeap::ordered_from(s, 0),
            0 <= k < s.len(),
        ensures
            s[0].1 <= s[k].1,
        decreases k,
    {
        if k > 0 {
            assert(edge_ok(s, k));
            Self::lemma_root_le(s, hparent(k));
        }
    }
}

} // verus!

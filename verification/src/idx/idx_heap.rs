use vstd::prelude::*;

use super::idx_vec::IdxVec;
use super::Idx;

verus! {

/// Whether every key of `heap` has a slot in `index` holding its position, except possibly
/// the key at position `m` (whose slot may be out of date), the keys have distinct slots,
/// and every slot that is not `usize::MAX` (and not the slot of the key at `m`) holds the
/// position of the key it belongs to.
pub open spec fn placed<K: Idx>(heap: Seq<K>, index: Seq<usize>, m: int) -> bool {
    &&& heap.len() < usize::MAX
    &&& forall|i: int| 0 <= i < heap.len() ==> (#[trigger] heap[i]).spec_idx() < index.len()
    &&& forall|i: int| 0 <= i < heap.len() && i != m ==> index[(#[trigger] heap[i]).spec_idx() as int] == i
    &&& forall|i: int, j: int|
        0 <= i < heap.len() && 0 <= j < heap.len() && i != j ==> (#[trigger] heap[i]).spec_idx() != (#[trigger] heap[j]).spec_idx()
    &&& forall|k: int|
        0 <= k < index.len() && #[trigger] index[k] != usize::MAX && !(0 <= m < heap.len() && k == heap[m].spec_idx())
            ==> index[k] < heap.len() && heap[index[k] as int].spec_idx() == k
}

/// Whether every key is at most (by position) the key at its parent position.
pub open spec fn max_heap_ordered<K: Idx>(h: Seq<K>) -> bool {
    forall|j: int| 0 < j < h.len() ==> #[trigger] h[j].spec_idx() <= h[(j - 1) / 2].spec_idx()
}

/// The order of a max-heap holds except between position `i` and its parent, and the
/// children of `i` are at most the parent of `i` (a key moving up sits at `i`).
pub open spec fn up_except<K: Idx>(h: Seq<K>, i: int) -> bool {
    &&& forall|j: int| 0 < j < h.len() && j != i ==> #[trigger] h[j].spec_idx() <= h[(j - 1) / 2].spec_idx()
    &&& forall|j: int| 0 < j < h.len() && (j - 1) / 2 == i && i > 0 ==> #[trigger] h[j].spec_idx() <= h[(i - 1) / 2].spec_idx()
}

/// The order of a max-heap holds between every position from `lo` on and its children.
pub open spec fn ordered_from<K: Idx>(h: Seq<K>, lo: int) -> bool {
    forall|j: int| 0 < j < h.len() && (j - 1) / 2 >= lo ==> #[trigger] h[j].spec_idx() <= h[(j - 1) / 2].spec_idx()
}

/// The order of a max-heap holds between every position from `lo` on and its children,
/// except between position `i` and its children, and the children of `i` are at most the
/// parent of `i` when that parent is from `lo` on (a key moving down sits at `i`).
pub open spec fn down_except<K: Idx>(h: Seq<K>, i: int, lo: int) -> bool {
    &&& forall|j: int| 0 < j < h.len() && (j - 1) / 2 >= lo && (j - 1) / 2 != i ==> #[trigger] h[j].spec_idx() <= h[(j - 1) / 2].spec_idx()
    &&& forall|j: int| 0 < j < h.len() && (j - 1) / 2 == i && i > 0 && (i - 1) / 2 >= lo ==> #[trigger] h[j].spec_idx() <= h[(i - 1) / 2].spec_idx()
}

/// Whether `above` puts `a` above `b` exactly when `a` has the larger position.
pub open spec fn is_idx_order<K: Idx, F: Fn(&K, &K) -> bool>(above: F) -> bool {
    forall|a: &K, b: &K, r: bool| #[trigger] above.ensures((a, b), r) ==> r == (a.spec_idx() > b.spec_idx())
}

/// Whether `above` can be called on any two keys.
pub open spec fn callable_on_all<K, F: Fn(&K, &K) -> bool>(above: F) -> bool {
    forall|a: &K, b: &K| #[trigger] above.requires((a, b))
}

/// Whether `above` puts `a` above `b` exactly when `a` has the larger rank.
pub open spec fn is_rank_order<K, F: Fn(&K, &K) -> bool>(above: F, rank: spec_fn(K) -> int) -> bool {
    forall|a: &K, b: &K, r: bool| #[trigger] above.ensures((a, b), r) ==> r == (rank(*a) > rank(*b))
}

/// The rank of a key by its position.
pub open spec fn idx_rank<K: Idx>() -> spec_fn(K) -> int {
    |k: K| k.spec_idx() as int
}

/// Whether every key has at most the rank of the key at its parent position.
pub open spec fn rank_ordered<K>(h: Seq<K>, rank: spec_fn(K) -> int) -> bool {
    forall|j: int| 0 < j < h.len() ==> #[trigger] rank(h[j]) <= rank(h[(j - 1) / 2])
}

/// The order by `rank` holds except between position `i` and its parent, and the children
/// of `i` are at most the parent of `i` (the key at `i` may have to move up).
pub open spec fn rank_up_except<K>(h: Seq<K>, rank: spec_fn(K) -> int, i: int) -> bool {
    &&& forall|j: int| 0 < j < h.len() && j != i ==> #[trigger] rank(h[j]) <= rank(h[(j - 1) / 2])
    &&& forall|j: int| 0 < j < h.len() && (j - 1) / 2 == i && i > 0 ==> #[trigger] rank(h[j]) <= rank(h[(i - 1) / 2])
}

/// The order by `rank` holds except between position `i` and its children, and between `i0`
/// and its parent while the key moving down from `i0` is still there; the children of `i`
/// are at most the parent of `i`.
pub open spec fn rank_down_from<K>(h: Seq<K>, rank: spec_fn(K) -> int, i: int, i0: int) -> bool {
    &&& forall|j: int| 0 < j < h.len() && (j - 1) / 2 != i && !(j == i0 && i == i0) ==> #[trigger] rank(h[j]) <= rank(h[(j - 1) / 2])
    &&& forall|j: int| 0 < j < h.len() && (j - 1) / 2 == i && i > 0 ==> #[trigger] rank(h[j]) <= rank(h[(i - 1) / 2])
}

/// The rank of `key` changed in a heap ordered by `rank` before: the order holds but around
/// the position of `key`.
pub open spec fn key_changed<K>(h: Seq<K>, rank: spec_fn(K) -> int, key: K) -> bool {
    forall|i: int| 0 <= i < h.len() && #[trigger] h[i] == key ==> rank_down_from(h, rank, i, i)
}

/// The rank of `key` rose in a heap ordered by `rank` before: the order holds but between
/// `key` and its parent.
pub open spec fn key_raised<K>(h: Seq<K>, rank: spec_fn(K) -> int, key: K) -> bool {
    forall|i: int| 0 <= i < h.len() && #[trigger] h[i] == key ==> rank_up_except(h, rank, i)
}

/// The rank of `key` fell in a heap ordered by `rank` before: the order holds but between
/// `key` and its children.
pub open spec fn key_lowered<K>(h: Seq<K>, rank: spec_fn(K) -> int, key: K) -> bool {
    forall|i: int|
        0 <= i < h.len() && #[trigger] h[i] == key ==> rank_down_from(h, rank, i, i) && (i == 0 || rank(h[i]) <= rank(h[(i - 1) / 2]))
}

/// A binary heap of keys with the position of each key recorded in an index vector, so
/// that membership tests and updates of a key are direct. The order is given by a
/// comparator `above(a, b)` ("`a` goes above `b`") passed to each operation.
#[derive(Debug)]
pub struct IdxHeap<K: Idx + Copy> {
    heap: Vec<K>,
    index: IdxVec<K, usize>,
}

impl<K: Idx + Copy> View for IdxHeap<K> {
    type V = Seq<K>;

    /// The keys in heap order: the root first, the children of position `i` at `2i + 1`
    /// and `2i + 2`.
    closed spec fn view(&self) -> Seq<K> {
        self.heap@
    }
}

impl<K: Idx + Copy> IdxHeap<K> {
    /// The index vector is consistent with the keys (see [`placed`]).
    pub closed spec fn wf(&self) -> bool {
        placed(self.heap@, self.index@, -1)
    }

    /// An empty heap.
    pub fn new() -> (res: Self)
        ensures
            res.wf(),
            res@ == Seq::<K>::empty(),
    {
        IdxHeap { heap: Vec::new(), index: IdxVec::new() }
    }

    /// Number of keys.
    pub fn len(&self) -> (res: usize)
        ensures
            res == self@.len(),
    {
        self.heap.len()
    }

    /// Whether the heap has no key.
    pub fn is_empty(&self) -> (res: bool)
        ensures
            res == (self@.len() == 0),
    {
        self.heap.len() == 0
    }

    /// Whether `key` is in the heap.
    pub fn contains(&self, key: &K) -> (res: bool)
        requires
            self.wf(),
        ensures
            res == self@.contains(*key),
    {
        let res = self.index.contains_key(key) && *self.index.at(key) != usize::MAX;
        proof {
            let h = self.heap@;
            let ix = self.index@;
            if res {
                let i = ix[key.spec_idx() as int] as int;
                K::lemma_idx_injective(h[i], *key);
                assert(h[i] == *key);
            }
            if h.contains(*key) {
                let i = choose|i: int| 0 <= i < h.len() && h[i] == *key;
                assert(ix[h[i].spec_idx() as int] == i);
            }
        }
        res
    }

    /// Removes every key.
    pub fn clear(&mut self)
        ensures
            final(self).wf(),
            final(self)@ == Seq::<K>::empty(),
    {
        self.heap.clear();
        self.index.clear();
    }

    /// The key at the root, if any.
    pub fn peek(&self) -> (res: Option<&K>)
        ensures
            self@.len() == 0 ==> res is None,
            self@.len() > 0 ==> res == Some(&self@[0]),
    {
        if self.heap.len() == 0 {
            None
        } else {
            Some(&self.heap[0])
        }
    }

    /// The keys in heap order.
    pub fn as_slice(&self) -> (res: &[K])
        ensures
            res@ == self@,
    {
        self.heap.as_slice()
    }

    /// Moves the key at position `i` up while `above` puts it above its parent, then records
    /// its position.
    fn sift_up_by<F: Fn(&K, &K) -> bool>(&mut self, i: usize, above: &F)
        requires
            placed(old(self).heap@, old(self).index@, i as int),
            i < old(self).heap@.len(),
            callable_on_all(*above),
        ensures
            final(self).wf(),
            final(self).heap@.to_multiset() == old(self).heap@.to_multiset(),
            final(self).heap@.len() == old(self).heap@.len(),
            final(self).index@.len() == old(self).index@.len(),
            is_idx_order(*above) && up_except(old(self).heap@, i as int) ==> max_heap_ordered(final(self).heap@),
            forall|rank: spec_fn(K) -> int| #[trigger] is_rank_order(*above, rank) && rank_up_except(old(self).heap@, rank, i as int)
                ==> rank_ordered(final(self).heap@, rank),
    {
        let ghost ord = is_idx_order(*above) && up_except(self.heap@, i as int);
        let ghost i0 = i as int;
        let mut i = i;
        while i > 0
            invariant
                placed(self.heap@, self.index@, i as int),
                i < self.heap@.len(),
                callable_on_all(*above),
                self.heap@.to_multiset() == old(self).heap@.to_multiset(),
                self.heap@.len() == old(self).heap@.len(),
                self.index@.len() == old(self).index@.len(),
                ord ==> is_idx_order(*above) && up_except(self.heap@, i as int),
                forall|rank: spec_fn(K) -> int| #[trigger] is_rank_order(*above, rank) && rank_up_except(old(self).heap@, rank, i0)
                    ==> rank_up_except(self.heap@, rank, i as int),
            ensures
                placed(self.heap@, self.index@, i as int),
                i < self.heap@.len(),
                self.heap@.to_multiset() == old(self).heap@.to_multiset(),
                self.heap@.len() == old(self).heap@.len(),
                self.index@.len() == old(self).index@.len(),
                ord ==> max_heap_ordered(self.heap@),
                forall|rank: spec_fn(K) -> int| #[trigger] is_rank_order(*above, rank) && rank_up_except(old(self).heap@, rank, i0)
                    ==> rank_ordered(self.heap@, rank),
            decreases i,
        {
            let p = (i - 1) / 2;
            let hi = self.heap[i];
            let hp = self.heap[p];
            let go_up = above(&hi, &hp);
            if !go_up {
                proof {
                    if ord {
                        lemma_up_done(self.heap@, i as int);
                    }
                    assert forall|rank: spec_fn(K) -> int| #[trigger] is_rank_order(*above, rank) && rank_up_except(old(self).heap@, rank, i0)
                        implies rank_ordered(self.heap@, rank) by {
                        lemma_rank_up_done(self.heap@, rank, i as int);
                    }
                }
                break;
            }
            if go_up {
                let ghost h0 = self.heap@;
                let ghost ix0 = self.index@;
                self.index.set(&hp, i);
                self.heap.set(i, hp);
                self.heap.set(p, hi);
                proof {
                    lemma_swap_to_multiset(h0, i as int, p as int);
                    assert(self.heap@ =~= h0.update(i as int, h0[p as int]).update(p as int, h0[i as int]));
                    lemma_swap_placed(h0, ix0, i as int, p as int);
                    if ord {
                        lemma_up_step(h0, i as int, p as int);
                    }
                    assert forall|rank: spec_fn(K) -> int| #[trigger] is_rank_order(*above, rank) && rank_up_except(old(self).heap@, rank, i0)
                        implies rank_up_except(self.heap@, rank, p as int) by {
                        lemma_rank_up_step(h0, rank, i as int, p as int);
                    }
                }
                i = p;
                proof {
                    if ord && i == 0 {
                        lemma_up_done(self.heap@, 0);
                    }
                    if i == 0 {
                        assert forall|rank: spec_fn(K) -> int| #[trigger] is_rank_order(*above, rank) && rank_up_except(old(self).heap@, rank, i0)
                            implies rank_ordered(self.heap@, rank) by {
                            lemma_rank_up_done(self.heap@, rank, 0);
                        }
                    }
                }
            }
        }
        let hi = self.heap[i];
        let ghost ix0 = self.index@;
        self.index.set(&hi, i);
        proof {
            lemma_fix_placed(self.heap@, ix0, i as int);
        }
    }

    /// Moves the key at position `i` down, below its child that `above` puts higher, while
    /// `above` puts that child above it, then records its position.
    fn sift_down_by<F: Fn(&K, &K) -> bool>(&mut self, i: usize, above: &F, Ghost(lo): Ghost<int>)
        requires
            placed(old(self).heap@, old(self).index@, i as int),
            i < old(self).heap@.len(),
            callable_on_all(*above),
        ensures
            final(self).wf(),
            final(self).heap@.to_multiset() == old(self).heap@.to_multiset(),
            final(self).heap@.len() == old(self).heap@.len(),
            final(self).index@.len() == old(self).index@.len(),
            is_idx_order(*above) && 0 <= lo <= i && down_except(old(self).heap@, i as int, lo) ==> ordered_from(
                final(self).heap@,
                lo,
            ),
            forall|rank: spec_fn(K) -> int| #[trigger] is_rank_order(*above, rank) && rank_down_from(old(self).heap@, rank, i as int, i as int)
                ==> rank_up_except(final(self).heap@, rank, i as int) && ((i == 0 || rank(old(self).heap@[i as int]) <= rank(
                old(self).heap@[(i - 1) / 2],
            )) ==> rank_ordered(final(self).heap@, rank)),
    {
        let ghost ord = is_idx_order(*above) && 0 <= lo <= i && down_except(self.heap@, i as int, lo);
        let ghost i0 = i as int;
        let mut i = i;
        let len = self.heap.len();
        loop
            invariant
                placed(self.heap@, self.index@, i as int),
                i < self.heap@.len(),
                len == self.heap@.len(),
                callable_on_all(*above),
                self.heap@.to_multiset() == old(self).heap@.to_multiset(),
                self.heap@.len() == old(self).heap@.len(),
                self.index@.len() == old(self).index@.len(),
                ord ==> is_idx_order(*above) && 0 <= lo <= i && down_except(self.heap@, i as int, lo),
                0 <= i0 <= i,
                i as int == i0 ==> self.heap@ == old(self).heap@,
                forall|rank: spec_fn(K) -> int| #[trigger] is_rank_order(*above, rank) && rank_down_from(old(self).heap@, rank, i0, i0)
                    ==> rank_down_from(self.heap@, rank, i as int, i0),
            ensures
                placed(self.heap@, self.index@, i as int),
                i < self.heap@.len(),
                self.heap@.to_multiset() == old(self).heap@.to_multiset(),
                self.heap@.len() == old(self).heap@.len(),
                self.index@.len() == old(self).index@.len(),
                ord ==> ordered_from(self.heap@, lo),
                0 <= i0 <= i,
                i as int == i0 ==> self.heap@ == old(self).heap@,
                forall|rank: spec_fn(K) -> int| #[trigger] is_rank_order(*above, rank) && rank_down_from(old(self).heap@, rank, i0, i0)
                    ==> rank_up_except(self.heap@, rank, i0) && (i as int != i0 ==> rank_ordered(self.heap@, rank)),
            decreases len - i,
        {
            if i > (usize::MAX - 2) / 2 {
                proof {
                    if ord {
                        lemma_down_done(self.heap@, i as int, lo);
                    }
                    assert forall|rank: spec_fn(K) -> int| #[trigger] is_rank_order(*above, rank) && rank_down_from(old(self).heap@, rank, i0, i0)
                        implies rank_up_except(self.heap@, rank, i0) && (i as int != i0 ==> rank_ordered(self.heap@, rank)) by {
                        lemma_rank_down_done(self.heap@, rank, i as int, i0);
                    }
                }
                break;
            }
            let l = 2 * i + 1;
            if l >= len {
                proof {
                    if ord {
                        lemma_down_done(self.heap@, i as int, lo);
                    }
                    assert forall|rank: spec_fn(K) -> int| #[trigger] is_rank_order(*above, rank) && rank_down_from(old(self).heap@, rank, i0, i0)
                        implies rank_up_except(self.heap@, rank, i0) && (i as int != i0 ==> rank_ordered(self.heap@, rank)) by {
                        lemma_rank_down_done(self.heap@, rank, i as int, i0);
                    }
                }
                break;
            }
            let r = 2 * i + 2;
            let mut c = l;
            if r < len {
                let hr = self.heap[r];
                let hl = self.heap[l];
                if above(&hr, &hl) {
                    c = r;
                }
            }
            proof {
                if ord {
                    assert forall|j: int| 0 < j < len && (j - 1) / 2 == i implies #[trigger] self.heap@[j].spec_idx()
                        <= self.heap@[c as int].spec_idx() by {
                        assert(j == l || j == r);
                    }
                }
                assert forall|rank: spec_fn(K) -> int| #[trigger] is_rank_order(*above, rank) implies forall|j: int|
                    0 < j < len && (j - 1) / 2 == i ==> #[trigger] rank(self.heap@[j]) <= rank(self.heap@[c as int]) by {
                    assert forall|j: int| 0 < j < len && (j - 1) / 2 == i implies #[trigger] rank(self.heap@[j]) <= rank(
                        self.heap@[c as int],
                    ) by {
                        assert(j == l || j == r);
                    }
                }
            }
            let hc = self.heap[c];
            let hi = self.heap[i];
            let go_down = above(&hc, &hi);
            if !go_down {
                proof {
                    if ord {
                        assert(hc.spec_idx() <= hi.spec_idx());
                        lemma_down_done(self.heap@, i as int, lo);
                    }
                    assert forall|rank: spec_fn(K) -> int| #[trigger] is_rank_order(*above, rank) && rank_down_from(old(self).heap@, rank, i0, i0)
                        implies rank_up_except(self.heap@, rank, i0) && (i as int != i0 ==> rank_ordered(self.heap@, rank)) by {
                        assert(rank(hc) <= rank(hi));
                        lemma_rank_down_done(self.heap@, rank, i as int, i0);
                    }
                }
                break;
            }
            if go_down {
                let ghost h0 = self.heap@;
                let ghost ix0 = self.index@;
                self.index.set(&hc, i);
                self.heap.set(c, hi);
                self.heap.set(i, hc);
                proof {
                    lemma_swap_to_multiset(h0, i as int, c as int);
                    assert(self.heap@ =~= h0.update(i as int, h0[c as int]).update(c as int, h0[i as int]));
                    lemma_swap_placed(h0, ix0, i as int, c as int);
                    if ord {
                        lemma_down_step(h0, i as int, c as int, lo);
                    }
                    assert forall|rank: spec_fn(K) -> int| #[trigger] is_rank_order(*above, rank) && rank_down_from(old(self).heap@, rank, i0, i0)
                        implies rank_down_from(self.heap@, rank, c as int, i0) by {
                        assert(rank(hc) > rank(hi));
                        lemma_rank_down_step(h0, rank, i as int, c as int, i0);
                    }
                }
                i = c;
            }
        }
        let hi = self.heap[i];
        let ghost ix0 = self.index@;
        self.index.set(&hi, i);
        proof {
            lemma_fix_placed(self.heap@, ix0, i as int);
            assert forall|rank: spec_fn(K) -> int| #[trigger] is_rank_order(*above, rank) && rank_down_from(old(self).heap@, rank, i0, i0)
                implies rank_up_except(self.heap@, rank, i0) && ((i0 == 0 || rank(old(self).heap@[i0]) <= rank(old(self).heap@[(i0 - 1) / 2]))
                ==> rank_ordered(self.heap@, rank)) by {
                if i as int == i0 && (i0 == 0 || rank(old(self).heap@[i0]) <= rank(old(self).heap@[(i0 - 1) / 2])) {
                    lemma_rank_up_done(self.heap@, rank, i0);
                }
            }
        }
    }

    /// Builds a heap holding the keys of `from` (distinct keys), ordered by `above`.
    pub fn heapify_by<F: Fn(&K, &K) -> bool>(from: Vec<K>, above: F) -> (res: Self)
        requires
            from@.len() < usize::MAX,
            forall|i: int, j: int|
                0 <= i < from@.len() && 0 <= j < from@.len() && i != j ==> (#[trigger] from@[i]).spec_idx()
                    != (#[trigger] from@[j]).spec_idx(),
            forall|i: int| 0 <= i < from@.len() ==> (#[trigger] from@[i]).spec_idx() + 1 < usize::MAX,
            callable_on_all(above),
        ensures
            res.wf(),
            res@.to_multiset() == from@.to_multiset(),
            is_idx_order(above) ==> max_heap_ordered(res@),
    {
        let mut index: IdxVec<K, usize> = IdxVec::new();
        let mut k: usize = 0;
        while k < from.len()
            invariant
                k <= from@.len(),
                from@.len() < usize::MAX,
                forall|i: int, j: int|
                    0 <= i < from@.len() && 0 <= j < from@.len() && i != j ==> (#[trigger] from@[i]).spec_idx()
                        != (#[trigger] from@[j]).spec_idx(),
                forall|i: int| 0 <= i < from@.len() ==> (#[trigger] from@[i]).spec_idx() + 1 < usize::MAX,
                forall|i: int| 0 <= i < k ==> (#[trigger] from@[i]).spec_idx() < index@.len() && index@[from@[i].spec_idx() as int] == i,
                forall|j: int| 0 <= j < index@.len() && #[trigger] index@[j] != usize::MAX ==> index@[j] < k && from@[index@[j] as int].spec_idx() == j,
            decreases from@.len() - k,
        {
            let key = from[k];
            let ghost ix0 = index@;
            index.init_by(&key, || -> (r: usize)
                ensures
                    r == usize::MAX,
                { usize::MAX });
            let ghost ix1 = index@;
            index.set(&key, k);
            proof {
                assert forall|i: int| 0 <= i < k + 1 implies (#[trigger] from@[i]).spec_idx() < index@.len() && index@[from@[i].spec_idx() as int] == i by {
                    if i < k {
                        assert(from@[i].spec_idx() != key.spec_idx());
                        assert(ix1[from@[i].spec_idx() as int] == ix0[from@[i].spec_idx() as int]);
                    }
                }
                assert forall|j: int| 0 <= j < index@.len() && #[trigger] index@[j] != usize::MAX implies index@[j] < k + 1 && from@[index@[j] as int].spec_idx() == j by {
                    if j != key.spec_idx() {
                        if j >= ix0.len() {
                            assert(ix1[j] == usize::MAX);
                        } else {
                            assert(ix1[j] == ix0[j]);
                        }
                    }
                }
            }
            k = k + 1;
        }
        let mut this = IdxHeap { heap: from, index };
        let len = this.heap.len();
        let mut i = len;
        while i > 0
            invariant
                i <= len,
                len == this.heap@.len(),
                this.wf(),
                this.heap@.to_multiset() == from@.to_multiset(),
                callable_on_all(above),
                is_idx_order(above) ==> ordered_from(this.heap@, i as int),
            decreases i,
        {
            i = i - 1;
            proof {
                if is_idx_order(above) {
                    let h = this.heap@;
                    assert forall|j: int| 0 < j < h.len() && (j - 1) / 2 == i && i > 0 && (i - 1) / 2 >= i implies #[trigger] h[j].spec_idx()
                        <= h[(i - 1) / 2].spec_idx() by {}
                }
            }
            this.sift_down_by(i, &above, Ghost(i as int));
        }
        this
    }

    /// Inserts `key`, ordered by `above`. Returns `false`, changing nothing, if `key` is
    /// already in the heap.
    pub fn insert_by<F: Fn(&K, &K) -> bool>(&mut self, key: K, above: F) -> (res: bool)
        requires
            old(self).wf(),
            old(self)@.len() + 1 < usize::MAX,
            key.spec_idx() + 1 < usize::MAX,
            callable_on_all(above),
        ensures
            final(self).wf(),
            res == !old(self)@.contains(key),
            res ==> final(self)@.to_multiset() == old(self)@.to_multiset().insert(key),
            !res ==> final(self)@ == old(self)@,
            is_idx_order(above) && max_heap_ordered(old(self)@) ==> max_heap_ordered(final(self)@),
            forall|rank: spec_fn(K) -> int| #[trigger] is_rank_order(above, rank) && rank_ordered(old(self)@, rank) ==> rank_ordered(
                final(self)@,
                rank,
            ),
    {
        if !self.contains(&key) {
            let i = self.heap.len();
            let ghost ix0 = self.index@;
            let ghost h0 = self.heap@;
            self.index.init_by(&key, || -> (r: usize)
                ensures
                    r == usize::MAX,
                { usize::MAX });
            self.heap.push(key);
            proof {
                vstd::seq_lib::to_multiset_build(h0, key);
                let h = self.heap@;
                let ix = self.index@;
                assert(ix0.len() <= ix.len());
                if key.spec_idx() < ix0.len() && ix0[key.spec_idx() as int] != usize::MAX {
                    let p = ix0[key.spec_idx() as int] as int;
                    K::lemma_idx_injective(h0[p], key);
                }
                assert(ix[key.spec_idx() as int] == usize::MAX);
                assert forall|a: int, b: int| 0 <= a < h.len() && 0 <= b < h.len() && a != b implies (#[trigger] h[a]).spec_idx() != (#[trigger] h[b]).spec_idx() by {
                    if a == i {
                        assert(ix0[h0[b].spec_idx() as int] == b);
                    } else if b == i {
                        assert(ix0[h0[a].spec_idx() as int] == a);
                    }
                }
                assert forall|k: int| 0 <= k < ix.len() && #[trigger] ix[k] != usize::MAX && !(0 <= i < h.len() && k == h[i as int].spec_idx())
                    implies ix[k] < h.len() && h[ix[k] as int].spec_idx() == k by {
                    if k >= ix0.len() {
                        assert(ix[k] == usize::MAX);
                    } else {
                        assert(ix[k] == ix0[k]);
                    }
                }
                assert forall|a: int| 0 <= a < h.len() && a != i implies ix[(#[trigger] h[a]).spec_idx() as int] == a by {
                    assert(ix0[h0[a].spec_idx() as int] == a);
                }
                if is_idx_order(above) && max_heap_ordered(h0) {
                    assert forall|j: int| 0 < j < h.len() && j != i implies #[trigger] h[j].spec_idx() <= h[(j - 1) / 2].spec_idx() by {
                        assert(h[j] == h0[j]);
                        assert(h[(j - 1) / 2] == h0[(j - 1) / 2]);
                    }
                }
                assert forall|rank: spec_fn(K) -> int| #[trigger] is_rank_order(above, rank) && rank_ordered(h0, rank) implies rank_up_except(
                    h,
                    rank,
                    i as int,
                ) by {
                    assert forall|j: int| 0 < j < h.len() && j != i implies #[trigger] rank(h[j]) <= rank(h[(j - 1) / 2]) by {
                        assert(h[j] == h0[j]);
                        assert(h[(j - 1) / 2] == h0[(j - 1) / 2]);
                    }
                }
            }
            self.sift_up_by(i, &above);
            true
        } else {
            false
        }
    }

    /// Removes and returns the root key (the first in heap order), restoring the heap with
    /// `above`; `None` when the heap is empty.
    #[verifier::spinoff_prover]
    #[verifier::rlimit(80)]
    pub fn pop_by<F: Fn(&K, &K) -> bool>(&mut self, above: F) -> (res: Option<K>)
        requires
            old(self).wf(),
            callable_on_all(above),
        ensures
            final(self).wf(),
            old(self)@.len() == 0 ==> res is None && final(self)@ == old(self)@,
            old(self)@.len() > 0 ==> res == Some(old(self)@[0]) && final(self)@.len() == old(self)@.len() - 1
                && final(self)@.to_multiset() == old(self)@.to_multiset().remove(old(self)@[0]),
            is_idx_order(above) && max_heap_ordered(old(self)@) ==> max_heap_ordered(final(self)@),
            is_idx_order(above) && max_heap_ordered(old(self)@) && old(self)@.len() > 0 ==> forall|j: int|
                0 <= j < final(self)@.len() ==> #[trigger] final(self)@[j].spec_idx() < old(self)@[0].spec_idx(),
            forall|rank: spec_fn(K) -> int| #[trigger] is_rank_order(above, rank) && rank_ordered(old(self)@, rank) ==> {
                &&& rank_ordered(final(self)@, rank)
                &&& forall|j: int| 0 <= j < old(self)@.len() ==> rank(#[trigger] old(self)@[j]) <= rank(old(self)@[0])
            },
    {
        if self.heap.len() == 0 {
            None
        } else {
            let ghost h0 = self.heap@;
            let ghost ix0 = self.index@;
            let res = self.heap.swap_remove(0);
            self.index.set(&res, usize::MAX);
            proof {
                let s1 = h0.update(0, h0.last());
                vstd::seq_lib::to_multiset_update(h0, 0, h0.last());
                assert(s1.last() == h0.last());
                h0.to_multiset_ensures();
                assert(h0.to_multiset().count(h0.last()) > 0) by {
                    assert(h0.contains(h0.last()));
                }
                vstd::seq_lib::to_multiset_remove(s1, s1.len() - 1);
                assert(s1.remove(s1.len() - 1) =~= s1.drop_last());
                assert(self.heap@.to_multiset() =~= h0.to_multiset().remove(h0[0]));
            }
            if self.heap.len() > 0 {
                let top = self.heap[0];
                let ghost ix1 = self.index@;
                self.index.set(&top, 0);
                proof {
                    let h = self.heap@;
                    let ix = self.index@;
                    let n = h0.len() - 1;
                    assert(h[0] == h0[n]);
                    assert forall|a: int| 0 <= a < h.len() implies (#[trigger] h[a]).spec_idx() < ix.len() by {
                        if a == 0 {
                            assert(h0[n].spec_idx() < ix0.len());
                        } else {
                            assert(h[a] == h0[a]);
                        }
                    }
                    assert forall|a: int, b: int| 0 <= a < h.len() && 0 <= b < h.len() && a != b implies (#[trigger] h[a]).spec_idx() != (#[trigger] h[b]).spec_idx() by {
                        let a0 = if a == 0 { n } else { a };
                        let b0 = if b == 0 { n } else { b };
                        assert(h[a] == h0[a0]);
                        assert(h[b] == h0[b0]);
                    }
                    assert forall|a: int| 0 <= a < h.len() && a != 0 implies ix[(#[trigger] h[a]).spec_idx() as int] == a by {
                        assert(h[a] == h0[a]);
                        assert(h0[a].spec_idx() != h0[0].spec_idx());
                        assert(h0[a].spec_idx() != h0[n].spec_idx());
                    }
                    assert forall|k: int| 0 <= k < ix.len() && #[trigger] ix[k] != usize::MAX && !(k == h[0].spec_idx())
                        implies ix[k] < h.len() && h[ix[k] as int].spec_idx() == k by {
                        assert(k != h0[0].spec_idx());
                        assert(ix[k] == ix0[k]);
                        let p = ix0[k] as int;
                        assert(h0[p].spec_idx() == k);
                        assert(p != n);
                        assert(p != 0);
                        assert(h[p] == h0[p]);
                    }
                    if is_idx_order(above) && max_heap_ordered(h0) {
                        assert forall|j: int| 0 < j < h.len() && (j - 1) / 2 != 0 implies #[trigger] h[j].spec_idx()
                            <= h[(j - 1) / 2].spec_idx() by {
                            assert(h[j] == h0[j]);
                            assert(h[(j - 1) / 2] == h0[(j - 1) / 2]);
                        }
                        assert forall|b: int| 0 <= b < h.len() implies #[trigger] h[b].spec_idx() < h0[0].spec_idx() by {
                            let b0 = if b == 0 { n } else { b };
                            assert(h[b] == h0[b0]);
                            lemma_root_max(h0, b0);
                        }
                    }
                    assert forall|rank: spec_fn(K) -> int| #[trigger] is_rank_order(above, rank) && rank_ordered(h0, rank) implies rank_down_from(
                        h,
                        rank,
                        0,
                        0,
                    ) by {
                        assert forall|j: int| 0 < j < h.len() && (j - 1) / 2 != 0 implies #[trigger] rank(h[j]) <= rank(h[(j - 1) / 2]) by {
                            assert(h[j] == h0[j]);
                            assert(h[(j - 1) / 2] == h0[(j - 1) / 2]);
                        }
                    }
                }
                let ghost h1 = self.heap@;
                self.sift_down_by(0, &above, Ghost(0));
                proof {
                    if is_idx_order(above) && max_heap_ordered(h0) {
                        lemma_same_keys_below(self.heap@, h1, h0[0].spec_idx() as int);
                    }
                }
            } else {
                proof {
                    let ix = self.index@;
                    assert forall|k: int| 0 <= k < ix.len() && #[trigger] ix[k] != usize::MAX implies false by {
                        assert(k != h0[0].spec_idx());
                        assert(ix[k] == ix0[k]);
                        let p = ix0[k] as int;
                        assert(h0[p].spec_idx() == k);
                    }
                }
            }
            proof {
                assert forall|rank: spec_fn(K) -> int| #[trigger] is_rank_order(above, rank) && rank_ordered(h0, rank) implies forall|j: int|
                    0 <= j < h0.len() ==> rank(#[trigger] h0[j]) <= rank(h0[0]) by {
                    assert forall|j: int| 0 <= j < h0.len() implies rank(#[trigger] h0[j]) <= rank(h0[0]) by {
                        lemma_rank_root_max(h0, rank, j);
                    }
                }
            }
            Some(res)
        }
    }

    /// Restores the place of `key` (after its priority changed) with `above`: moves it down,
    /// then moves up the key at its former position.
    pub fn update_by<F: Fn(&K, &K) -> bool>(&mut self, key: K, above: F)
        requires
            old(self).wf(),
            old(self)@.contains(key),
            callable_on_all(above),
        ensures
            final(self).wf(),
            final(self)@.to_multiset() == old(self)@.to_multiset(),
            final(self)@.len() == old(self)@.len(),
            is_idx_order(above) && max_heap_ordered(old(self)@) ==> max_heap_ordered(final(self)@),
            forall|rank: spec_fn(K) -> int| #[trigger] is_rank_order(above, rank) && key_changed(old(self)@, rank, key) ==> rank_ordered(
                final(self)@,
                rank,
            ),
    {
        let i = self.position(&key);
        proof {
            if max_heap_ordered(self.heap@) {
                lemma_ordered_relaxes(self.heap@, i as int);
            }
            assert forall|rank: spec_fn(K) -> int| #[trigger] is_rank_order(above, rank) && key_changed(self.heap@, rank, key) implies rank_down_from(
                self.heap@,
                rank,
                i as int,
                i as int,
            ) by {
                assert(self.heap@[i as int] == key);
            }
        }
        self.sift_down_by(i, &above, Ghost(0));
        let ghost h1 = self.heap@;
        proof {
            if is_idx_order(above) && max_heap_ordered(old(self).heap@) {
                lemma_ordered_relaxes(self.heap@, i as int);
            }
        }
        self.sift_up_by(i, &above);
        proof {
            assert forall|rank: spec_fn(K) -> int| #[trigger] is_rank_order(above, rank) && key_changed(old(self).heap@, rank, key) implies rank_ordered(
                self.heap@,
                rank,
            ) by {
                assert(rank_down_from(old(self).heap@, rank, i as int, i as int));
                assert(rank_up_except(h1, rank, i as int));
            }
        }
    }

    /// Moves `key` up after its priority rose.
    pub fn decrease_by<F: Fn(&K, &K) -> bool>(&mut self, key: K, above: F)
        requires
            old(self).wf(),
            old(self)@.contains(key),
            callable_on_all(above),
        ensures
            final(self).wf(),
            final(self)@.to_multiset() == old(self)@.to_multiset(),
            final(self)@.len() == old(self)@.len(),
            is_idx_order(above) && max_heap_ordered(old(self)@) ==> max_heap_ordered(final(self)@),
            forall|rank: spec_fn(K) -> int| #[trigger] is_rank_order(above, rank) && key_raised(old(self)@, rank, key) ==> rank_ordered(
                final(self)@,
                rank,
            ),
    {
        let i = self.position(&key);
        proof {
            if max_heap_ordered(self.heap@) {
                lemma_ordered_relaxes(self.heap@, i as int);
            }
        }
        self.sift_up_by(i, &above);
        proof {
            assert forall|rank: spec_fn(K) -> int| #[trigger] is_rank_order(above, rank) && key_raised(old(self).heap@, rank, key) implies rank_ordered(
                self.heap@,
                rank,
            ) by {
                assert(old(self).heap@[i as int] == key);
                assert(rank_up_except(old(self).heap@, rank, i as int));
            }
        }
    }

    /// Moves `key` down after its priority fell.
    pub fn increase_by<F: Fn(&K, &K) -> bool>(&mut self, key: K, above: F)
        requires
            old(self).wf(),
            old(self)@.contains(key),
            callable_on_all(above),
        ensures
            final(self).wf(),
            final(self)@.to_multiset() == old(self)@.to_multiset(),
            final(self)@.len() == old(self)@.len(),
            is_idx_order(above) && max_heap_ordered(old(self)@) ==> max_heap_ordered(final(self)@),
            forall|rank: spec_fn(K) -> int| #[trigger] is_rank_order(above, rank) && key_lowered(old(self)@, rank, key) ==> rank_ordered(
                final(self)@,
                rank,
            ),
    {
        let i = self.position(&key);
        proof {
            if max_heap_ordered(self.heap@) {
                lemma_ordered_relaxes(self.heap@, i as int);
            }
        }
        self.sift_down_by(i, &above, Ghost(0));
        proof {
            assert forall|rank: spec_fn(K) -> int| #[trigger] is_rank_order(above, rank) && key_lowered(old(self).heap@, rank, key) implies rank_ordered(
                self.heap@,
                rank,
            ) by {
                assert(old(self).heap@[i as int] == key);
                assert(rank_down_from(old(self).heap@, rank, i as int, i as int));
            }
        }
    }

    /// The position of `key` in heap order.
    fn position(&self, key: &K) -> (res: usize)
        requires
            self.wf(),
            self@.contains(*key),
        ensures
            res < self@.len(),
            self@[res as int] == *key,
    {
        proof {
            let i = choose|i: int| 0 <= i < self.heap@.len() && self.heap@[i] == *key;
            assert(self.index@[self.heap@[i].spec_idx() as int] == i);
        }
        *self.index.at(key)
    }

    /// Pops every key with `above`, returning them in the order they come out.
    pub fn into_sorted_vec_by<F: Fn(&K, &K) -> bool>(self, above: F) -> (res: Vec<K>)
        requires
            self.wf(),
            callable_on_all(above),
        ensures
            res@.to_multiset() == self@.to_multiset(),
            is_idx_order(above) && max_heap_ordered(self@) ==> forall|a: int, b: int|
                0 <= a < b < res@.len() ==> #[trigger] res@[a].spec_idx() > #[trigger] res@[b].spec_idx(),
    {
        broadcast use vstd::multiset::group_multiset_axioms, vstd::seq_lib::to_multiset_len, vstd::multiset::lemma_multiset_empty_len;

        let ghost ord = is_idx_order(above) && max_heap_ordered(self@);
        let mut heap = self;
        let mut res: Vec<K> = Vec::new();
        let ghost all = heap@.to_multiset();
        proof {
            assert(res@.to_multiset().len() == 0);
            assert(res@.to_multiset() =~= vstd::multiset::Multiset::<K>::empty());
            assert(res@.to_multiset().add(heap@.to_multiset()) =~= all);
        }
        loop
            invariant
                heap.wf(),
                callable_on_all(above),
                res@.to_multiset().add(heap@.to_multiset()) == all,
                all == self@.to_multiset(),
                ord ==> is_idx_order(above) && max_heap_ordered(heap@),
                ord ==> forall|a: int, b: int| 0 <= a < b < res@.len() ==> #[trigger] res@[a].spec_idx() > #[trigger] res@[b].spec_idx(),
                ord ==> forall|a: int, b: int|
                    0 <= a < res@.len() && 0 <= b < heap@.len() ==> #[trigger] res@[a].spec_idx() > #[trigger] heap@[b].spec_idx(),
            ensures
                res@.to_multiset() == all,
                ord ==> forall|a: int, b: int| 0 <= a < b < res@.len() ==> #[trigger] res@[a].spec_idx() > #[trigger] res@[b].spec_idx(),
            decreases heap@.len(),
        {
            let ghost before = heap@;
            match heap.pop_by(&above) {
                Some(k) => {
                    proof {
                        vstd::seq_lib::to_multiset_build(res@, k);
                        before.to_multiset_ensures();
                        assert(before.contains(before[0]));
                    }
                    let ghost r0 = res@;
                    res.push(k);
                    proof {
                        assert(res@.to_multiset().add(heap@.to_multiset()) =~= all);
                        if ord {
                            assert(k == before[0]);
                            assert forall|a: int| 0 <= a < r0.len() implies #[trigger] r0[a].spec_idx() > k.spec_idx() by {
                                assert(r0[a].spec_idx() > before[0].spec_idx());
                            }
                            assert forall|a: int, b: int| 0 <= a < b < res@.len() implies #[trigger] res@[a].spec_idx()
                                > #[trigger] res@[b].spec_idx() by {
                                assert(res@[a] == r0[a]);
                                if b < r0.len() {
                                    assert(res@[b] == r0[b]);
                                }
                            }
                            assert forall|a: int, b: int| 0 <= a < res@.len() && 0 <= b < heap@.len() implies #[trigger] res@[a].spec_idx()
                                > #[trigger] heap@[b].spec_idx() by {
                                assert(heap@[b].spec_idx() < k.spec_idx());
                                if a < r0.len() {
                                    assert(res@[a] == r0[a]);
                                }
                            }
                        }
                    }
                },
                None => {
                    proof {
                        assert(heap@.len() == 0);
                        vstd::seq_lib::to_multiset_len(heap@);
                        vstd::multiset::lemma_multiset_empty_len(heap@.to_multiset());
                        assert(heap@.to_multiset().len() == 0);
                        assert(heap@.to_multiset() =~= vstd::multiset::Multiset::<K>::empty());
                        assert(res@.to_multiset().add(heap@.to_multiset()) =~= res@.to_multiset());
                    }
                    break;
                },
            }
        }
        res
    }

    /// Inserts `key`, the heap ordered by decreasing position (`key.idx()`).
    pub fn insert(&mut self, key: K) -> (res: bool)
        requires
            old(self).wf(),
            old(self)@.len() + 1 < usize::MAX,
            key.spec_idx() + 1 < usize::MAX,
        ensures
            final(self).wf(),
            res == !old(self)@.contains(key),
            res ==> final(self)@.to_multiset() == old(self)@.to_multiset().insert(key),
            !res ==> final(self)@ == old(self)@,
            max_heap_ordered(old(self)@) ==> max_heap_ordered(final(self)@),
    {
        proof {
            lemma_greater_idx_order::<K>();
        }
        self.insert_by(key, greater_idx)
    }

    /// Removes and returns the key with the largest position (`key.idx()`).
    pub fn pop(&mut self) -> (res: Option<K>)
        requires
            old(self).wf(),
        ensures
            final(self).wf(),
            old(self)@.len() == 0 ==> res is None && final(self)@ == old(self)@,
            old(self)@.len() > 0 ==> res == Some(old(self)@[0]) && final(self)@.len() == old(self)@.len() - 1
                && final(self)@.to_multiset() == old(self)@.to_multiset().remove(old(self)@[0]),
            max_heap_ordered(old(self)@) ==> max_heap_ordered(final(self)@),
            max_heap_ordered(old(self)@) && old(self)@.len() > 0 ==> forall|j: int|
                0 <= j < final(self)@.len() ==> #[trigger] final(self)@[j].spec_idx() < old(self)@[0].spec_idx(),
    {
        proof {
            lemma_greater_idx_order::<K>();
        }
        self.pop_by(greater_idx)
    }

    /// Restores the place of `key`, the heap ordered by decreasing position.
    pub fn update(&mut self, key: K)
        requires
            old(self).wf(),
            old(self)@.contains(key),
        ensures
            final(self).wf(),
            final(self)@.to_multiset() == old(self)@.to_multiset(),
            max_heap_ordered(old(self)@) ==> max_heap_ordered(final(self)@),
            key_changed(old(self)@, idx_rank(), key) ==> max_heap_ordered(final(self)@),
    {
        proof {
            lemma_greater_idx_order::<K>();
            lemma_greater_idx_rank_order::<K>();
        }
        self.update_by(key, greater_idx);
        proof {
            if key_changed(old(self)@, idx_rank(), key) {
                assert(rank_ordered(self@, idx_rank::<K>()));
                lemma_idx_rank_ordered(self@);
            }
        }
    }

    /// Builds a heap holding the keys of `from`, ordered by decreasing position.
    pub fn heapify(from: Vec<K>) -> (res: Self)
        requires
            from@.len() < usize::MAX,
            forall|i: int, j: int|
                0 <= i < from@.len() && 0 <= j < from@.len() && i != j ==> (#[trigger] from@[i]).spec_idx()
                    != (#[trigger] from@[j]).spec_idx(),
            forall|i: int| 0 <= i < from@.len() ==> (#[trigger] from@[i]).spec_idx() + 1 < usize::MAX,
        ensures
            res.wf(),
            res@.to_multiset() == from@.to_multiset(),
            max_heap_ordered(res@),
    {
        proof {
            lemma_greater_idx_order::<K>();
        }
        Self::heapify_by(from, greater_idx)
    }

    /// Pops every key, by decreasing position.
    pub fn into_sorted_vec(self) -> (res: Vec<K>)
        requires
            self.wf(),
        ensures
            res@.to_multiset() == self@.to_multiset(),
            max_heap_ordered(self@) ==> forall|a: int, b: int|
                0 <= a < b < res@.len() ==> #[trigger] res@[a].spec_idx() > #[trigger] res@[b].spec_idx(),
    {
        proof {
            lemma_greater_idx_order::<K>();
        }
        self.into_sorted_vec_by(greater_idx)
    }
}

/// Comparing by [`greater_idx`] puts a key above another exactly when its position is larger.
pub proof fn lemma_greater_idx_order<K: Idx>()
    ensures
        is_idx_order(greater_idx::<K>),
{
}

/// Comparing by [`greater_idx`] puts a key above another exactly when its rank by position
/// is larger.
pub proof fn lemma_greater_idx_rank_order<K: Idx>()
    ensures
        is_rank_order(greater_idx::<K>, idx_rank::<K>()),
{
}

/// A heap ordered by the rank by position is a max-heap.
pub proof fn lemma_idx_rank_ordered<K: Idx>(h: Seq<K>)
    requires
        rank_ordered(h, idx_rank::<K>()),
    ensures
        max_heap_ordered(h),
{
    assert forall|j: int| 0 < j < h.len() implies #[trigger] h[j].spec_idx() <= h[(j - 1) / 2].spec_idx() by {
        assert(idx_rank::<K>()(h[j]) <= idx_rank::<K>()(h[(j - 1) / 2]));
    }
}

/// Whether `a` has a larger position than `b` (the order of a max-heap of keys).
pub fn greater_idx<K: Idx>(a: &K, b: &K) -> (res: bool)
    ensures
        res == (a.spec_idx() > b.spec_idx()),
{
    a.idx() > b.idx()
}

/// A step up of the moving key keeps the order, the hole moving to the parent.
proof fn lemma_up_step<K: Idx>(h: Seq<K>, i: int, p: int)
    requires
        up_except(h, i),
        0 < i < h.len(),
        p == (i - 1) / 2,
        h[i].spec_idx() > h[p].spec_idx(),
    ensures
        up_except(h.update(i, h[p]).update(p, h[i]), p),
{
    let h1 = h.update(i, h[p]).update(p, h[i]);
    assert forall|j: int| 0 < j < h1.len() && j != p implies #[trigger] h1[j].spec_idx() <= h1[(j - 1) / 2].spec_idx() by {
        let q = (j - 1) / 2;
        if j == i {
        } else if q == i {
            assert(h1[j] == h[j]);
        } else if q == p {
            assert(h1[j] == h[j]);
            assert(h[j].spec_idx() <= h[q].spec_idx());
        } else {
            assert(h1[j] == h[j]);
            assert(h1[q] == h[q]);
        }
    }
    assert forall|j: int| 0 < j < h1.len() && (j - 1) / 2 == p && p > 0 implies #[trigger] h1[j].spec_idx() <= h1[(p - 1) / 2].spec_idx() by {
        let pp = (p - 1) / 2;
        assert(h1[pp] == h[pp]);
        assert(h[p].spec_idx() <= h[pp].spec_idx());
        if j != i {
            assert(h1[j] == h[j]);
            assert(h[j].spec_idx() <= h[p].spec_idx());
        }
    }
}

/// A key that is not above its parent ends a move up with the order restored.
proof fn lemma_up_done<K: Idx>(h: Seq<K>, i: int)
    requires
        up_except(h, i),
        0 <= i < h.len(),
        i == 0 || h[i].spec_idx() <= h[(i - 1) / 2].spec_idx(),
    ensures
        max_heap_ordered(h),
{
    assert forall|j: int| 0 < j < h.len() implies #[trigger] h[j].spec_idx() <= h[(j - 1) / 2].spec_idx() by {
        if j == i {
        }
    }
}

/// A step down of the moving key, swapped with its larger child, keeps the order, the hole
/// moving to that child.
proof fn lemma_down_step<K: Idx>(h: Seq<K>, i: int, c: int, lo: int)
    requires
        down_except(h, i, lo),
        0 <= lo <= i,
        c < h.len(),
        c == 2 * i + 1 || c == 2 * i + 2,
        forall|j: int| 0 < j < h.len() && (j - 1) / 2 == i ==> #[trigger] h[j].spec_idx() <= h[c].spec_idx(),
        h[c].spec_idx() > h[i].spec_idx(),
    ensures
        down_except(h.update(i, h[c]).update(c, h[i]), c, lo),
{
    let h1 = h.update(i, h[c]).update(c, h[i]);
    assert((c - 1) / 2 == i);
    assert forall|j: int| 0 < j < h1.len() && (j - 1) / 2 >= lo && (j - 1) / 2 != c implies #[trigger] h1[j].spec_idx()
        <= h1[(j - 1) / 2].spec_idx() by {
        let q = (j - 1) / 2;
        if j == c {
        } else if j == i {
            assert(h[c].spec_idx() <= h[(i - 1) / 2].spec_idx());
            assert(h1[q] == h[q]);
        } else if q == i {
            assert(h1[j] == h[j]);
            assert(h[j].spec_idx() <= h[c].spec_idx());
        } else {
            assert(h1[j] == h[j]);
            assert(h1[q] == h[q]);
        }
    }
    assert forall|j: int| 0 < j < h1.len() && (j - 1) / 2 == c && c > 0 && (c - 1) / 2 >= lo implies #[trigger] h1[j].spec_idx()
        <= h1[(c - 1) / 2].spec_idx() by {
        assert(h1[j] == h[j]);
        assert(h[j].spec_idx() <= h[c].spec_idx());
    }
}

/// A key that is not below a child ends a move down with the order restored.
proof fn lemma_down_done<K: Idx>(h: Seq<K>, i: int, lo: int)
    requires
        down_except(h, i, lo),
        0 <= i < h.len(),
        forall|j: int| 0 < j < h.len() && (j - 1) / 2 == i ==> #[trigger] h[j].spec_idx() <= h[i].spec_idx(),
    ensures
        ordered_from(h, lo),
{
    assert forall|j: int| 0 < j < h.len() && (j - 1) / 2 >= lo implies #[trigger] h[j].spec_idx() <= h[(j - 1) / 2].spec_idx() by {
        if (j - 1) / 2 == i {
        }
    }
}

/// In a heap ordered by `rank`, the root has the greatest rank.
proof fn lemma_rank_root_max<K>(h: Seq<K>, rank: spec_fn(K) -> int, j: int)
    requires
        rank_ordered(h, rank),
        0 <= j < h.len(),
    ensures
        rank(h[j]) <= rank(h[0]),
    decreases j,
{
    if j > 0 {
        lemma_rank_root_max(h, rank, (j - 1) / 2);
    }
}

/// In a heap ordered by position, the root has the greatest position.
pub proof fn lemma_root_max<K: Idx>(h: Seq<K>, j: int)
    requires
        max_heap_ordered(h),
        0 <= j < h.len(),
    ensures
        h[j].spec_idx() <= h[0].spec_idx(),
    decreases j,
{
    if j > 0 {
        lemma_root_max(h, (j - 1) / 2);
    }
}

/// Two sequences with the same keys (as multisets) have the same bound on positions.
proof fn lemma_same_keys_below<K: Idx>(a: Seq<K>, b: Seq<K>, v: int)
    requires
        a.to_multiset() == b.to_multiset(),
        forall|j: int| 0 <= j < b.len() ==> #[trigger] b[j].spec_idx() < v,
    ensures
        forall|j: int| 0 <= j < a.len() ==> #[trigger] a[j].spec_idx() < v,
{
    a.to_multiset_ensures();
    b.to_multiset_ensures();
    assert forall|j: int| 0 <= j < a.len() implies #[trigger] a[j].spec_idx() < v by {
        assert(a.contains(a[j]));
        assert(a.to_multiset().count(a[j]) > 0);
        assert(b.to_multiset().count(a[j]) > 0);
        assert(b.contains(a[j]));
        let x = choose|x: int| 0 <= x < b.len() && b[x] == a[j];
        assert(b[x].spec_idx() < v);
    }
}

/// A max-heap satisfies both relaxed orders at any position.
proof fn lemma_ordered_relaxes<K: Idx>(h: Seq<K>, i: int)
    requires
        max_heap_ordered(h),
        0 <= i < h.len(),
    ensures
        up_except(h, i),
        down_except(h, i, 0),
{
    assert forall|j: int| 0 < j < h.len() && (j - 1) / 2 == i && i > 0 implies #[trigger] h[j].spec_idx() <= h[(i - 1) / 2].spec_idx() by {
        assert(h[j].spec_idx() <= h[i].spec_idx());
        assert(h[i].spec_idx() <= h[(i - 1) / 2].spec_idx());
    }
}

/// Swapping two positions keeps the multiset of elements.
pub proof fn lemma_swap_to_multiset<A>(s: Seq<A>, i: int, j: int)
    requires
        0 <= i < s.len(),
        0 <= j < s.len(),
    ensures
        s.update(i, s[j]).update(j, s[i]).to_multiset() == s.to_multiset(),
{
    broadcast use vstd::seq_lib::to_multiset_update, vstd::multiset::group_multiset_axioms;

    let s1 = s.update(i, s[j]);
    vstd::seq_lib::to_multiset_update(s, i, s[j]);
    vstd::seq_lib::to_multiset_update(s1, j, s[i]);
    if i == j {
        assert(s.update(i, s[j]).update(j, s[i]) =~= s);
    } else {
        assert(s1[j] == s[j]);
        s.to_multiset_ensures();
        assert(s.to_multiset().count(s[i]) > 0);
        assert(s.to_multiset().count(s[j]) > 0);
        assert(s1.update(j, s[i]).to_multiset() =~= s.to_multiset());
    }
}

/// Swapping the moving key at `i` with the key at `p`, after recording the new position of
/// the latter, leaves only the moving key (now at `p`) without its position recorded.
proof fn lemma_swap_placed<K: Idx>(h: Seq<K>, ix: Seq<usize>, i: int, p: int)
    requires
        placed(h, ix, i),
        0 <= i < h.len(),
        0 <= p < h.len(),
        p != i,
    ensures
        placed(h.update(i, h[p]).update(p, h[i]), ix.update(h[p].spec_idx() as int, i as usize), p),
{
    let h1 = h.update(i, h[p]).update(p, h[i]);
    let ix1 = ix.update(h[p].spec_idx() as int, i as usize);
    assert forall|a: int| 0 <= a < h1.len() implies (#[trigger] h1[a]).spec_idx() < ix1.len() by {
        if a == i {
            assert(h1[a] == h[p]);
        } else if a == p {
            assert(h1[a] == h[i]);
        } else {
            assert(h1[a] == h[a]);
        }
    }
    assert forall|a: int| 0 <= a < h1.len() && a != p implies ix1[(#[trigger] h1[a]).spec_idx() as int] == a by {
        if a == i {
            assert(h1[a] == h[p]);
        } else {
            assert(h1[a] == h[a]);
            assert(h[a].spec_idx() != h[p].spec_idx());
        }
    }
    assert forall|a: int, b: int| 0 <= a < h1.len() && 0 <= b < h1.len() && a != b implies (#[trigger] h1[a]).spec_idx()
        != (#[trigger] h1[b]).spec_idx() by {
        let a0 = if a == i { p } else if a == p { i } else { a };
        let b0 = if b == i { p } else if b == p { i } else { b };
        assert(h1[a] == h[a0]);
        assert(h1[b] == h[b0]);
    }
    assert forall|k: int| 0 <= k < ix1.len() && #[trigger] ix1[k] != usize::MAX && !(k == h1[p].spec_idx())
        implies ix1[k] < h1.len() && h1[ix1[k] as int].spec_idx() == k by {
        if k == h[p].spec_idx() {
            assert(h1[i] == h[p]);
        } else {
            assert(ix1[k] == ix[k]);
            assert(k != h[i].spec_idx());
            let q = ix[k] as int;
            assert(h[q].spec_idx() == k);
            assert(q != i);
            assert(q != p);
            assert(h1[q] == h[q]);
        }
    }
}

/// Recording the position of the moving key makes the index consistent.
proof fn lemma_fix_placed<K: Idx>(h: Seq<K>, ix: Seq<usize>, i: int)
    requires
        placed(h, ix, i),
        0 <= i < h.len(),
    ensures
        placed(h, ix.update(h[i].spec_idx() as int, i as usize), -1),
{
    let ix1 = ix.update(h[i].spec_idx() as int, i as usize);
    assert forall|a: int| 0 <= a < h.len() implies ix1[(#[trigger] h[a]).spec_idx() as int] == a by {
        if a != i {
            assert(h[a].spec_idx() != h[i].spec_idx());
        }
    }
    assert forall|k: int| 0 <= k < ix1.len() && #[trigger] ix1[k] != usize::MAX implies ix1[k] < h.len() && h[ix1[k] as int].spec_idx() == k by {
        if k != h[i].spec_idx() {
            assert(ix1[k] == ix[k]);
        }
    }
}


/// A step up of the moving key keeps the order by `rank`, the hole moving to the parent.
proof fn lemma_rank_up_step<K>(h: Seq<K>, rank: spec_fn(K) -> int, i: int, p: int)
    requires
        rank_up_except(h, rank, i),
        0 < i < h.len(),
        p == (i - 1) / 2,
        rank(h[i]) > rank(h[p]),
    ensures
        rank_up_except(h.update(i, h[p]).update(p, h[i]), rank, p),
{
    let h1 = h.update(i, h[p]).update(p, h[i]);
    assert forall|j: int| 0 < j < h1.len() && j != p implies #[trigger] rank(h1[j]) <= rank(h1[(j - 1) / 2]) by {
        let q = (j - 1) / 2;
        if j == i {
        } else if q == i {
            assert(h1[j] == h[j]);
        } else if q == p {
            assert(h1[j] == h[j]);
            assert(rank(h[j]) <= rank(h[q]));
        } else {
            assert(h1[j] == h[j]);
            assert(h1[q] == h[q]);
        }
    }
    assert forall|j: int| 0 < j < h1.len() && (j - 1) / 2 == p && p > 0 implies #[trigger] rank(h1[j]) <= rank(h1[(p - 1) / 2]) by {
        let pp = (p - 1) / 2;
        assert(h1[pp] == h[pp]);
        assert(rank(h[p]) <= rank(h[pp]));
        if j != i {
            assert(h1[j] == h[j]);
            assert(rank(h[j]) <= rank(h[p]));
        }
    }
}

/// A key not above its parent ends a move up with the order by `rank` restored.
proof fn lemma_rank_up_done<K>(h: Seq<K>, rank: spec_fn(K) -> int, i: int)
    requires
        rank_up_except(h, rank, i),
        0 <= i < h.len(),
        i == 0 || rank(h[i]) <= rank(h[(i - 1) / 2]),
    ensures
        rank_ordered(h, rank),
{
    assert forall|j: int| 0 < j < h.len() implies #[trigger] rank(h[j]) <= rank(h[(j - 1) / 2]) by {
        if j == i {
        }
    }
}

/// A step down of the moving key, swapped with its highest child, keeps the relaxed order
/// by `rank`, the hole moving to that child.
proof fn lemma_rank_down_step<K>(h: Seq<K>, rank: spec_fn(K) -> int, i: int, c: int, i0: int)
    requires
        rank_down_from(h, rank, i, i0),
        0 <= i0 <= i,
        c < h.len(),
        c == 2 * i + 1 || c == 2 * i + 2,
        forall|j: int| 0 < j < h.len() && (j - 1) / 2 == i ==> #[trigger] rank(h[j]) <= rank(h[c]),
        rank(h[c]) > rank(h[i]),
    ensures
        rank_down_from(h.update(i, h[c]).update(c, h[i]), rank, c, i0),
{
    let h1 = h.update(i, h[c]).update(c, h[i]);
    assert((c - 1) / 2 == i);
    assert forall|j: int| 0 < j < h1.len() && (j - 1) / 2 != c && !(j == i0 && c == i0) implies #[trigger] rank(h1[j]) <= rank(
        h1[(j - 1) / 2],
    ) by {
        let q = (j - 1) / 2;
        if j == c {
        } else if j == i {
            assert(rank(h[c]) <= rank(h[(i - 1) / 2]));
            assert(h1[q] == h[q]);
        } else if q == i {
            assert(h1[j] == h[j]);
            assert(rank(h[j]) <= rank(h[c]));
        } else {
            assert(h1[j] == h[j]);
            assert(h1[q] == h[q]);
            assert(j != i0 || i != i0);
        }
    }
    assert forall|j: int| 0 < j < h1.len() && (j - 1) / 2 == c && c > 0 implies #[trigger] rank(h1[j]) <= rank(h1[(c - 1) / 2]) by {
        assert(h1[j] == h[j]);
        assert(rank(h[j]) <= rank(h[c]));
    }
}

/// A key not below a child ends a move down: the order by `rank` holds but, if the key did
/// not move, between its first position and the parent of that position.
proof fn lemma_rank_down_done<K>(h: Seq<K>, rank: spec_fn(K) -> int, i: int, i0: int)
    requires
        rank_down_from(h, rank, i, i0),
        0 <= i0 <= i < h.len(),
        forall|j: int| 0 < j < h.len() && (j - 1) / 2 == i ==> #[trigger] rank(h[j]) <= rank(h[i]),
    ensures
        rank_up_except(h, rank, i0),
        i != i0 ==> rank_ordered(h, rank),
{
    lemma_rank_down_done_pairs(h, rank, i, i0);
    assert forall|j: int| 0 < j < h.len() && (j - 1) / 2 == i0 && i0 > 0 implies #[trigger] rank(h[j]) <= rank(h[(i0 - 1) / 2]) by {
        if i != i0 {
            assert(j != i0);
            assert(rank(h[j]) <= rank(h[(j - 1) / 2]));
            assert(rank(h[i0]) <= rank(h[(i0 - 1) / 2]));
        }
    }
}

/// The pairs of a finished move down: every key but the one at `i0` (while the moving key
/// is there) has at most the rank of its parent.
proof fn lemma_rank_down_done_pairs<K>(h: Seq<K>, rank: spec_fn(K) -> int, i: int, i0: int)
    requires
        rank_down_from(h, rank, i, i0),
        0 <= i0 <= i < h.len(),
        forall|j: int| 0 < j < h.len() && (j - 1) / 2 == i ==> #[trigger] rank(h[j]) <= rank(h[i]),
    ensures
        forall|j: int| 0 < j < h.len() && !(j == i0 && i == i0) ==> #[trigger] rank(h[j]) <= rank(h[(j - 1) / 2]),
{
    assert forall|j: int| 0 < j < h.len() && !(j == i0 && i == i0) implies #[trigger] rank(h[j]) <= rank(h[(j - 1) / 2]) by {
        if (j - 1) / 2 == i {
            assert(rank(h[j]) <= rank(h[i]));
        } else {
            assert(rank(h[j]) <= rank(h[(j - 1) / 2]));
        }
    }
}

} // verus!

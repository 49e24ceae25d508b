//! An indexed binary min-heap of scores, and the nearest-neighbour scan that
//! feeds it.

use crate::color::{hyab, HyAB, Oklab, Score};
use vstd::prelude::*;

verus! {

/// The score that stands for "no neighbour": above every distance.
pub const INFINITY: Score = 0x7fff_ffff_ffff_ffff;

/// The heap position above `i`.
pub open spec fn parent_of(i: int) -> int {
    (i - 1) / 2
}

/// The heap position above `i`.
pub fn parent(i: usize) -> (p: usize)
    requires
        i > 0,
    ensures
        p == parent_of(i as int),
{
    (i - 1) / 2
}

/// The first of the two heap positions below `i`.
pub fn left(i: usize) -> (l: usize)
    requires
        2 * i + 1 <= usize::MAX,
    ensures
        l == 2 * i + 1,
{
    2 * i + 1
}

/// The second of the two heap positions below `i`.
pub fn right(i: usize) -> (r: usize)
    requires
        2 * i + 2 <= usize::MAX,
    ensures
        r == 2 * i + 2,
{
    2 * i + 2
}

/// A heap key: it names the palette slot that an entry belongs to.
pub trait ScoreIndex {
    /// The palette slot that this key names.
    spec fn slot(&self) -> usize;

    /// The palette slot that this key names.
    fn get(&self) -> (i: usize)
        ensures
            i == self.slot(),
    ;
}

/// A slot names itself.
impl ScoreIndex for usize {
    open spec fn slot(&self) -> usize {
        *self
    }

    fn get(&self) -> (i: usize) {
        *self
    }
}

/// A pair `(owner, partner)` names the slot of its owner.
impl ScoreIndex for (usize, usize) {
    open spec fn slot(&self) -> usize {
        self.0
    }

    fn get(&self) -> (i: usize) {
        self.0
    }
}

/// Positions and entries point at each other: `index[k]` is the heap position
/// of the entry whose key names slot `k`.
pub open spec fn linked<K: ScoreIndex>(index: Seq<usize>, heap: Seq<(Score, K)>) -> bool {
    &&& index.len() >= heap.len()
    &&& forall|k: int|
        0 <= k < heap.len() ==> (#[trigger] index[k]) < heap.len() && heap[index[k] as int].1.slot()
            == k
    &&& forall|p: int|
        0 <= p < heap.len() ==> (#[trigger] heap[p]).1.slot() < heap.len() && index[heap[p].1.slot() as int]
            == p
}

/// No entry is smaller than the one above it.
pub open spec fn ordered<K>(heap: Seq<(Score, K)>) -> bool {
    forall|p: int| 0 < p < heap.len() ==> heap[parent_of(p)].0 <= (#[trigger] heap[p]).0
}

/// The entries in the order of their slots.
pub open spec fn by_slot<K>(index: Seq<usize>, heap: Seq<(Score, K)>) -> Seq<(Score, K)> {
    Seq::new(heap.len(), |k: int| heap[index[k] as int])
}

/// `r` is an entry of `entries` (listed by slot) and none has a smaller score.
pub open spec fn is_minimum<K: ScoreIndex>(entries: Seq<(Score, K)>, r: (Score, K)) -> bool {
    &&& r.1.slot() < entries.len()
    &&& entries[r.1.slot() as int] == r
    &&& forall|k: int| 0 <= k < entries.len() ==> r.0 <= (#[trigger] entries[k]).0
}

/// Ordered everywhere but perhaps between `i` and the entry above it; the
/// entries below `i` are already no smaller than the one above `i`.
spec fn ordered_but_above<K>(heap: Seq<(Score, K)>, i: int) -> bool {
    &&& forall|p: int|
        0 < p < heap.len() && p != i ==> heap[parent_of(p)].0 <= (#[trigger] heap[p]).0
    &&& forall|c: int|
        0 < c < heap.len() && parent_of(c) == i && i > 0 ==> heap[parent_of(i)].0 <= (
        #[trigger] heap[c]).0
}

/// Ordered everywhere but perhaps between `i` and the entries below it; those
/// are already no smaller than the one above `i`.
spec fn ordered_but_below<K>(heap: Seq<(Score, K)>, i: int) -> bool {
    &&& forall|p: int|
        0 < p < heap.len() && parent_of(p) != i ==> heap[parent_of(p)].0 <= (#[trigger] heap[p]).0
    &&& forall|c: int|
        0 < c < heap.len() && parent_of(c) == i && i > 0 ==> heap[parent_of(i)].0 <= (
        #[trigger] heap[c]).0
}

/// In an ordered heap the root is the smallest entry.
proof fn lemma_root_is_least<K>(heap: Seq<(Score, K)>, p: int)
    requires
        ordered(heap),
        0 <= p < heap.len(),
    ensures
        heap[0].0 <= heap[p].0,
    decreases p,
{
    if p > 0 {
        lemma_root_is_least(heap, parent_of(p));
    }
}

/// A binary min-heap of scores with a key each, and for every slot the heap
/// position of its entry.
pub struct Scores<K: ScoreIndex + Copy> {
    index: Vec<usize>,
    heap: Vec<(Score, K)>,
}

impl<K: ScoreIndex + Copy> Scores<K> {
    /// The heap position of each slot's entry.
    pub closed spec fn positions(&self) -> Seq<usize> {
        self.index@
    }

    /// The entries in heap order, root first.
    pub closed spec fn entries(&self) -> Seq<(Score, K)> {
        self.heap@
    }

    /// The heap is not empty, has one entry and one position per slot, each
    /// pointing at the other, and is ordered.
    pub open spec fn wf(&self) -> bool {
        &&& self.entries().len() > 0
        &&& self.positions().len() == self.entries().len()
        &&& linked(self.positions(), self.entries())
        &&& ordered(self.entries())
    }

    /// The entries listed by slot: `self@[k]` is the score and the key of
    /// slot `k`.
    pub open spec fn view(&self) -> Seq<(Score, K)> {
        by_slot(self.positions(), self.entries())
    }

    /// The entry at the root.
    pub open spec fn spec_min(&self) -> (Score, K) {
        self.entries()[0]
    }

    /// The number of entries.
    pub fn len(&self) -> (n: usize)
        ensures
            n == self.entries().len(),
    {
        self.heap.len()
    }

    /// The heap position of the entry of slot `k`.
    pub fn position(&self, k: usize) -> (p: usize)
        requires
            k < self.positions().len(),
        ensures
            p == self.positions()[k as int],
    {
        self.index[k]
    }

    /// The entry at heap position `p`.
    pub fn entry(&self, p: usize) -> (e: (Score, K))
        requires
            p < self.entries().len(),
        ensures
            e == self.entries()[p as int],
    {
        self.heap[p]
    }

    /// Exchanges two entries, and with them the positions recorded for
    /// their slots.
    fn swap_heap(&mut self, i: usize, j: usize)
        requires
            linked(old(self).index@, old(self).heap@),
            i < old(self).heap.len(),
            j < old(self).heap.len(),
        ensures
            linked(final(self).index@, final(self).heap@),
            final(self).heap@ == old(self).heap@.update(i as int, old(self).heap@[j as int]).update(
                j as int,
                old(self).heap@[i as int],
            ),
            final(self).index.len() == old(self).index.len(),
            by_slot(final(self).index@, final(self).heap@) == by_slot(
                old(self).index@,
                old(self).heap@,
            ),
            forall|k: int|
                old(self).heap.len() <= k < old(self).index.len() ==> final(self).index@[k] == old(
                    self,
                ).index@[k],
    {
        let a = self.heap[i];
        let b = self.heap[j];
        self.heap[i] = b;
        self.heap[j] = a;
        self.index[b.1.get()] = i;
        self.index[a.1.get()] = j;
        proof {
            let h0 = old(self).heap@;
            let x0 = old(self).index@;
            let h1 = self.heap@;
            let x1 = self.index@;
            assert(h0[i as int].1.slot() < h0.len());
            assert(h0[j as int].1.slot() < h0.len());
            assert forall|k: int| 0 <= k < h1.len() implies (#[trigger] x1[k]) < h1.len()
                && h1[x1[k] as int].1.slot() == k by {
                assert(x0[k] < h0.len());
            }
            assert forall|p: int| 0 <= p < h1.len() implies (#[trigger] h1[p]).1.slot() < h1.len()
                && x1[h1[p].1.slot() as int] == p by {
                assert(h0[p].1.slot() < h0.len());
            }
            assert forall|k: int| 0 <= k < h1.len() implies h1[x1[k] as int] == h0[x0[k] as int] by {
                assert(x0[k] < h0.len());
            }
            assert(by_slot(x1, h1) =~= by_slot(x0, h0));
        }
    }
    /// Moves the entry at `i` up until the one above it is no larger.
    fn percolate_up(&mut self, mut i: usize)
        requires
            linked(old(self).index@, old(self).heap@),
            i < old(self).heap.len(),
            ordered_but_above(old(self).heap@, i as int),
        ensures
            linked(final(self).index@, final(self).heap@),
            ordered(final(self).heap@),
            final(self).heap.len() == old(self).heap.len(),
            final(self).index.len() == old(self).index.len(),
            by_slot(final(self).index@, final(self).heap@) == by_slot(
                old(self).index@,
                old(self).heap@,
            ),
            forall|k: int|
                old(self).heap.len() <= k < old(self).index.len() ==> final(self).index@[k] == old(
                    self,
                ).index@[k],
    {
        loop
            invariant_except_break
                ordered_but_above(self.heap@, i as int),
            invariant
                linked(self.index@, self.heap@),
                i < self.heap.len(),
                self.heap.len() == old(self).heap.len(),
                self.index.len() == old(self).index.len(),
                by_slot(self.index@, self.heap@) == by_slot(old(self).index@, old(self).heap@),
                forall|k: int|
                    old(self).heap.len() <= k < old(self).index.len() ==> self.index@[k] == old(
                        self,
                    ).index@[k],
            ensures
                ordered(self.heap@),
            decreases i,
        {
            if i == 0 {
                break ;
            }
            let p = parent(i);
            if self.heap[p].0 <= self.heap[i].0 {
                break ;
            }
            let ghost before = self.heap@;
            self.swap_heap(i, p);
            proof {
                let after = self.heap@;
                assert forall|q: int| 0 < q < after.len() && q != p implies after[parent_of(q)].0
                    <= (#[trigger] after[q]).0 by {
                    if q != i {
                        assert(before[parent_of(q)].0 <= before[q].0);
                    }
                }
                assert forall|c: int|
                    0 < c < after.len() && parent_of(c) == p && p > 0 implies after[parent_of(
                    p as int,
                )].0 <= (#[trigger] after[c]).0 by {
                    assert(before[parent_of(p as int)].0 <= before[p as int].0);
                    if c != i {
                        assert(before[parent_of(c)].0 <= before[c].0);
                    }
                }
            }
            i = p;
        }
    }

    /// Moves the entry at `i` down until neither entry below it is smaller.
    fn percolate_down(&mut self, mut i: usize)
        requires
            linked(old(self).index@, old(self).heap@),
            i < old(self).heap.len(),
            ordered_but_below(old(self).heap@, i as int),
        ensures
            linked(final(self).index@, final(self).heap@),
            ordered(final(self).heap@),
            final(self).heap.len() == old(self).heap.len(),
            final(self).index.len() == old(self).index.len(),
            by_slot(final(self).index@, final(self).heap@) == by_slot(
                old(self).index@,
                old(self).heap@,
            ),
    {
        let i_val = self.heap[i].0;
        loop
            invariant_except_break
                ordered_but_below(self.heap@, i as int),
            invariant
                linked(self.index@, self.heap@),
                i < self.heap.len(),
                self.heap@[i as int].0 == i_val,
                self.heap.len() == old(self).heap.len(),
                self.index.len() == old(self).index.len(),
                by_slot(self.index@, self.heap@) == by_slot(old(self).index@, old(self).heap@),
            ensures
                ordered(self.heap@),
            decreases self.heap.len() - i,
        {
            let len = self.heap.len();
            if i >= len / 2 {
                break ;
            }
            let l = left(i);
            let r = right(i);
            let l_val = self.heap[l].0;
            let (min_index, min_val) = if r < len && self.heap[r].0 < l_val {
                (r, self.heap[r].0)
            } else {
                (l, l_val)
            };
            if i_val <= min_val {
                break ;
            }
            let ghost before = self.heap@;
            self.swap_heap(i, min_index);
            proof {
                let after = self.heap@;
                let m = min_index as int;
                assert(parent_of(m) == i);
                assert forall|q: int|
                    0 < q < after.len() && parent_of(q) != m implies after[parent_of(q)].0 <= (
                #[trigger] after[q]).0 by {
                    if parent_of(q) == i {
                        assert(q == l || q == r);
                    } else if q == i {
                        assert(before[parent_of(i as int)].0 <= before[m].0);
                    } else {
                        assert(before[parent_of(q)].0 <= before[q].0);
                    }
                }
                assert forall|c: int|
                    0 < c < after.len() && parent_of(c) == m && m > 0 implies after[parent_of(m)].0
                    <= (#[trigger] after[c]).0 by {
                    assert(before[parent_of(c)].0 <= before[c].0);
                }
            }
            i = min_index;
        }
    }

    /// The smallest entry: its score and the key that names its slot.
    pub fn get_min_score(&self) -> (r: (Score, K))
        requires
            self.wf(),
        ensures
            r == self.spec_min(),
            is_minimum(self@, r),
    {
        proof {
            let heap = self.heap@;
            assert(heap[0].1.slot() < heap.len());
            assert forall|k: int| 0 <= k < self@.len() implies heap[0].0 <= (#[trigger] self@[k]).0 by {
                assert(self.index@[k] < heap.len());
                lemma_root_is_least(heap, self.index@[k] as int);
            }
        }
        self.heap[0]
    }

    /// Gives the slot that `i` names a new score and the key `i`, and moves
    /// its entry to where the heap order wants it.
    pub fn update(&mut self, i: K, val: Score)
        requires
            old(self).wf(),
            i.slot() < old(self)@.len(),
        ensures
            final(self).wf(),
            final(self)@ == old(self)@.update(i.slot() as int, (val, i)),
    {
        let index = self.index[i.get()];
        let old_val = self.heap[index].0;
        let ghost before = self.heap@;
        self.heap[index] = (val, i);
        proof {
            let after = self.heap@;
            let x = self.index@;
            assert(index < before.len());
            assert(before[index as int].1.slot() == i.slot());
            assert forall|k: int| 0 <= k < after.len() implies (#[trigger] x[k]) < after.len()
                && after[x[k] as int].1.slot() == k by {}
            assert forall|p: int| 0 <= p < after.len() implies (#[trigger] after[p]).1.slot()
                < after.len() && x[after[p].1.slot() as int] == p by {
                assert(before[p].1.slot() < before.len());
            }
            assert forall|k: int| 0 <= k < after.len() implies by_slot(x, after)[k] == by_slot(
                x,
                before,
            ).update(i.slot() as int, (val, i))[k] by {
                assert(x[k] < before.len());
            }
            assert(by_slot(x, after) =~= by_slot(x, before).update(i.slot() as int, (val, i)));
            assert forall|p: int| 0 < p < after.len() && p != index implies #[trigger] before[p].0
                == after[p].0 by {}
        }
        if val < old_val {
            proof {
                let after = self.heap@;
                assert forall|p: int| 0 < p < after.len() && p != index implies after[parent_of(
                    p,
                )].0 <= (#[trigger] after[p]).0 by {
                    assert(before[parent_of(p)].0 <= before[p].0);
                }
                assert forall|c: int|
                    0 < c < after.len() && parent_of(c) == index && index > 0 implies after[parent_of(
                    index as int,
                )].0 <= (#[trigger] after[c]).0 by {
                    assert(before[parent_of(c)].0 <= before[c].0);
                    assert(before[parent_of(index as int)].0 <= before[index as int].0);
                }
            }
            self.percolate_up(index);
        } else {
            proof {
                let after = self.heap@;
                assert forall|p: int|
                    0 < p < after.len() && parent_of(p) != index implies after[parent_of(p)].0 <= (
                #[trigger] after[p]).0 by {
                    assert(before[parent_of(p)].0 <= before[p].0);
                }
                assert forall|c: int|
                    0 < c < after.len() && parent_of(c) == index && index > 0 implies after[parent_of(
                    index as int,
                )].0 <= (#[trigger] after[c]).0 by {
                    assert(before[parent_of(c)].0 <= before[c].0);
                    assert(before[parent_of(index as int)].0 <= before[index as int].0);
                }
            }
            self.percolate_down(index);
        }
    }
    /// Appends `e`, the entry of the next free slot, and moves it up to its
    /// place.
    fn push_entry(&mut self, e: (Score, K))
        requires
            linked(old(self).index@, old(self).heap@),
            ordered(old(self).heap@),
            old(self).heap.len() < old(self).index.len(),
            e.1.slot() == old(self).heap.len(),
            forall|k: int|
                old(self).heap.len() <= k < old(self).index.len() ==> old(self).index@[k] == k,
        ensures
            linked(final(self).index@, final(self).heap@),
            ordered(final(self).heap@),
            final(self).heap.len() == old(self).heap.len() + 1,
            final(self).index.len() == old(self).index.len(),
            by_slot(final(self).index@, final(self).heap@) == by_slot(
                old(self).index@,
                old(self).heap@,
            ).push(e),
            forall|k: int|
                final(self).heap.len() <= k < final(self).index.len() ==> final(self).index@[k]
                    == k,
    {
        let i = self.heap.len();
        let ghost before = self.heap@;
        self.heap.push(e);
        proof {
            let after = self.heap@;
            let x = self.index@;
            assert forall|k: int| 0 <= k < after.len() implies (#[trigger] x[k]) < after.len()
                && after[x[k] as int].1.slot() == k by {
                if k < i {
                    assert(x[k] < before.len());
                }
            }
            assert forall|p: int| 0 <= p < after.len() implies (#[trigger] after[p]).1.slot()
                < after.len() && x[after[p].1.slot() as int] == p by {
                if p < i {
                    assert(before[p].1.slot() < before.len());
                }
            }
            assert forall|p: int| 0 < p < after.len() && p != i implies after[parent_of(p)].0 <= (
            #[trigger] after[p]).0 by {
                assert(before[parent_of(p)].0 <= before[p].0);
            }
            assert forall|k: int| 0 <= k < after.len() implies by_slot(x, after)[k] == by_slot(
                x,
                before,
            ).push(e)[k] by {
                if k < i {
                    assert(x[k] < before.len());
                }
            }
            assert(by_slot(x, after) =~= by_slot(x, before).push(e));
        }
        self.percolate_up(i);
    }
}

/// The positions `0, 1, .., len - 1`.
fn identity_positions(len: usize) -> (index: Vec<usize>)
    ensures
        index.len() == len,
        forall|k: int| 0 <= k < len ==> index@[k] == k,
{
    let mut index: Vec<usize> = Vec::with_capacity(len);
    let mut k: usize = 0;
    while k < len
        invariant
            k <= len,
            index.len() == k,
            forall|j: int| 0 <= j < k ==> index@[j] == j,
        decreases len - k,
    {
        index.push(k);
        k += 1;
    }
    index
}

impl Scores<usize> {
    /// A heap with one entry per slot: slot `k` has the score `data[k]` and
    /// the key `k`.
    pub fn new(data: &Vec<Score>) -> (scores: Self)
        requires
            data.len() > 0,
        ensures
            scores.wf(),
            scores@.len() == data.len(),
            forall|k: int| 0 <= k < data.len() ==> scores@[k] == (data[k], k as usize),
    {
        let len = data.len();
        let mut scores = Self { index: identity_positions(len), heap: Vec::with_capacity(len) };
        let mut i: usize = 0;
        while i < len
            invariant
                i <= len,
                len == data.len(),
                scores.heap.len() == i,
                scores.index.len() == len,
                linked(scores.index@, scores.heap@),
                ordered(scores.heap@),
                forall|k: int| i <= k < len ==> scores.index@[k] == k,
                forall|k: int|
                    0 <= k < i ==> by_slot(scores.index@, scores.heap@)[k] == (data[k], k as usize),
            decreases len - i,
        {
            scores.push_entry((data[i], i));
            i += 1;
        }
        scores
    }
}

impl Scores<(usize, usize)> {
    /// A heap with one entry per slot: slot `k` has the score `data[k].0` and
    /// the key `(k, data[k].1)`, its owner and its partner.
    pub fn new_pairs(data: &Vec<(Score, usize)>) -> (scores: Self)
        requires
            data.len() > 0,
        ensures
            scores.wf(),
            scores@.len() == data.len(),
            forall|k: int|
                0 <= k < data.len() ==> scores@[k] == (data[k].0, (k as usize, data[k].1)),
    {
        let len = data.len();
        let mut scores = Self { index: identity_positions(len), heap: Vec::with_capacity(len) };
        let mut i: usize = 0;
        while i < len
            invariant
                i <= len,
                len == data.len(),
                scores.heap.len() == i,
                scores.index.len() == len,
                linked(scores.index@, scores.heap@),
                ordered(scores.heap@),
                forall|k: int| i <= k < len ==> scores.index@[k] == k,
                forall|k: int|
                    0 <= k < i ==> by_slot(scores.index@, scores.heap@)[k] == (
                        data[k].0,
                        (k as usize, data[k].1),
                    ),
            decreases len - i,
        {
            scores.push_entry((data[i].0, (i, data[i].1)));
            i += 1;
        }
        scores
    }
}

/// The heap, the position array and the listing by slot have one length.
pub proof fn lemma_lengths_agree<K: ScoreIndex + Copy>(scores: Scores<K>)
    requires
        scores.wf(),
    ensures
        scores.entries().len() == scores@.len(),
        scores.positions().len() == scores@.len(),
{
}

/// The root carries the smallest score of all slots.
pub proof fn lemma_root_is_minimum<K: ScoreIndex + Copy>(scores: Scores<K>)
    requires
        scores.wf(),
    ensures
        is_minimum(scores@, scores.spec_min()),
{
    let heap = scores.entries();
    assert(heap[0].1.slot() < heap.len());
    assert forall|k: int| 0 <= k < scores@.len() implies heap[0].0 <= (#[trigger] scores@[k]).0 by {
        assert(scores.positions()[k] < heap.len());
        lemma_root_is_least(heap, scores.positions()[k] as int);
    }
}

/// The position recorded for slot `k` holds the entry of slot `k`: its key
/// names `k`, and it is the entry that the listing by slot shows for `k`.
pub proof fn lemma_position_finds_entry<K: ScoreIndex + Copy>(scores: Scores<K>, k: int)
    requires
        scores.wf(),
        0 <= k < scores@.len(),
    ensures
        scores.positions()[k] < scores.entries().len(),
        scores.entries()[scores.positions()[k] as int].1.slot() == k,
        scores.entries()[scores.positions()[k] as int] == scores@[k],
{
}

/// No entry below the root is smaller than the entry above it.
pub proof fn lemma_parent_not_larger<K: ScoreIndex + Copy>(scores: Scores<K>, p: int)
    requires
        scores.wf(),
        0 < p < scores.entries().len(),
    ensures
        scores.entries()[parent_of(p)].0 <= scores.entries()[p].0,
{
}

/// `r` is a nearest later neighbour of colour `i`: a distance and the index
/// `j > i` that attains it, no later colour being nearer. The last colour has
/// no later neighbour and gets `(INFINITY, i)`.
pub open spec fn is_nearest(colors: Seq<Oklab>, i: int, r: (Score, usize)) -> bool {
    if i + 1 < colors.len() {
        &&& i < r.1 < colors.len()
        &&& r.0 == hyab(colors[i], colors[r.1 as int])
        &&& forall|k: int| i < k < colors.len() ==> r.0 <= #[trigger] hyab(colors[i], colors[k])
    } else {
        r == (INFINITY, i as usize)
    }
}

/// `r` is the nearest later neighbour of colour `i`, the first one where
/// several are equally near.
pub open spec fn is_first_nearest(colors: Seq<Oklab>, i: int, r: (Score, usize)) -> bool {
    &&& is_nearest(colors, i, r)
    &&& forall|k: int| i < k < r.1 ==> r.0 < #[trigger] hyab(colors[i], colors[k])
}

/// The distance from colour `i` to its nearest later neighbour, and that
/// neighbour's index.
pub fn get_pair_score(i: usize, pre_colors: &Vec<Oklab>) -> (score: (Score, usize))
    requires
        i < pre_colors.len(),
    ensures
        is_first_nearest(pre_colors@, i as int, score),
{
    let c = &pre_colors[i];
    let mut score = (INFINITY, i);
    let mut j: usize = i + 1;
    while j < pre_colors.len()
        invariant
            i < j <= pre_colors.len(),
            *c == pre_colors@[i as int],
            j == i + 1 ==> score == (INFINITY, i),
            j > i + 1 ==> i < score.1 < j && score.0 == hyab(
                pre_colors@[i as int],
                pre_colors@[score.1 as int],
            ),
            forall|k: int| i < k < j ==> score.0 <= #[trigger] hyab(pre_colors@[i as int], pre_colors@[k]),
            forall|k: int|
                i < k < score.1 && k < j ==> score.0 < #[trigger] hyab(
                    pre_colors@[i as int],
                    pre_colors@[k],
                ),
        decreases pre_colors.len() - j,
    {
        let dist = HyAB(c, &pre_colors[j]);
        if dist < score.0 {
            score = (dist, j);
        }
        j += 1;
    }
    score
}

/// For every colour, the distance to its nearest later neighbour and that
/// neighbour's index.
pub fn get_pair_scores(pre_colors: &Vec<Oklab>) -> (scores: Vec<(Score, usize)>)
    ensures
        scores.len() == pre_colors.len(),
        forall|i: int|
            0 <= i < pre_colors.len() ==> is_first_nearest(pre_colors@, i, #[trigger] scores@[i]),
{
    let mut scores: Vec<(Score, usize)> = Vec::with_capacity(pre_colors.len());
    let mut i: usize = 0;
    while i < pre_colors.len()
        invariant
            i <= pre_colors.len(),
            scores.len() == i,
            forall|k: int| 0 <= k < i ==> is_first_nearest(pre_colors@, k, #[trigger] scores@[k]),
        decreases pre_colors.len() - i,
    {
        scores.push(get_pair_score(i, pre_colors));
        i += 1;
    }
    scores
}

} // verus!

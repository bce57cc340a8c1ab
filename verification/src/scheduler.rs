//! Manages the priority queue for active cells.
//!
//! The scheduler decides which cells get updated each tick. Active cells
//! (those with interesting physics: high temperature, pressure or mana) are
//! enqueued with a priority score. Cold, static cells sleep until something
//! disturbs them.
//!
//! Priorities are `f32` scores handed over as their bit patterns
//! (`f32::to_bits`); the queue orders them by [`priority_key`], which sorts
//! them as `OrderedFloat<f32>` does. Ties between equal priorities go to
//! the larger cell index, as in a max-heap of `(priority, index)` pairs.

use vstd::prelude::*;

use crate::grid::Grid;
use crate::material::Material;
use crate::priority::{
    f32_bits_gt, f32_gt, priority_key, spec_priority_key, SLEEP_THRESHOLD_BITS,
};

verus! {

/// What the scheduler reads of a cell: its material and the bit pattern of
/// its activity score.
#[derive(Debug, Clone, Copy, PartialEq, Eq, Structural)]
pub struct CellActivity {
    pub material: Material,
    /// `f32::to_bits` of the cell's activity score.
    pub score_bits: u32,
}

/// A queue entry: the priority key and the flat cell index.
pub type Entry = (u32, usize);

/// Strict order of queue entries: by key, then by cell index.
pub open spec fn entry_lt(a: Entry, b: Entry) -> bool {
    a.0 < b.0 || (a.0 == b.0 && a.1 < b.1)
}

/// Entries in strictly ascending order.
pub open spec fn sorted_entries(s: Seq<Entry>) -> bool {
    forall|i: int, j: int| 0 <= i < j < s.len() ==> entry_lt(#[trigger] s[i], #[trigger] s[j])
}

/// Whether seeding would enqueue the cell: it is not inert and its score
/// exceeds the sleep threshold.
pub open spec fn seeds(cell: CellActivity) -> bool {
    !cell.material.is_inert() && f32_gt(cell.score_bits, SLEEP_THRESHOLD_BITS)
}

/// A priority-based scheduler that controls which cells tick each frame.
pub struct Scheduler {
    /// `(key, index)` entries in ascending order; the last is drained first.
    queue: Vec<Entry>,
    /// Tracks which flat indices are currently in the queue.
    in_queue: Vec<bool>,
}

impl Scheduler {
    /// The queued entries in ascending order; draining takes them from the
    /// end.
    pub closed spec fn entries(&self) -> Seq<Entry> {
        self.queue@
    }

    /// For each cell index below the capacity, whether it is queued.
    pub closed spec fn flags(&self) -> Seq<bool> {
        self.in_queue@
    }

    /// Whether some queued entry is for cell `k`.
    pub open spec fn has_index(&self, k: int) -> bool {
        exists|i: int| 0 <= i < self.entries().len() && #[trigger] self.entries()[i].1 == k
    }

    /// The scheduler's invariant: entries are strictly sorted, hold each
    /// cell index at most once, and a cell is flagged as queued exactly
    /// when it has an entry.
    pub open spec fn wf(&self) -> bool {
        &&& sorted_entries(self.entries())
        &&& forall|i: int, j: int|
            0 <= i < j < self.entries().len() ==> #[trigger] self.entries()[i].1
                != #[trigger] self.entries()[j].1
        &&& forall|i: int|
            0 <= i < self.entries().len() ==> (#[trigger] self.entries()[i].1 as int)
                < self.flags().len() && self.flags()[self.entries()[i].1 as int]
        &&& forall|k: int| 0 <= k < self.flags().len() && #[trigger] self.flags()[k] ==> self.has_index(k)
    }

    /// `post` is `self` after enqueuing cell `idx` with the priority whose
    /// bits are `bits`: nothing changes if the cell is already queued,
    /// otherwise exactly the entry `(priority_key(bits), idx)` joins.
    pub open spec fn enqueued(&self, post: &Self, idx: usize, bits: u32) -> bool {
        &&& post.wf()
        &&& post.flags().len() == self.flags().len()
        &&& if self.flags()[idx as int] {
            post.entries() == self.entries() && post.flags() == self.flags()
        } else {
            &&& post.flags() == self.flags().update(idx as int, true)
            &&& post.entries().len() == self.entries().len() + 1
            &&& forall|e: Entry| #[trigger]
                post.entries().contains(e) <==> (self.entries().contains(e) || e == (
                    spec_priority_key(bits),
                    idx,
                ))
        }
    }

    /// The key of the `i`-th entry in drain order (highest first).
    pub open spec fn drain_key(&self, i: int) -> u32 {
        self.entries()[self.entries().len() - 1 - i].0
    }

    /// Creates a new scheduler with room for `capacity` cells, all initially
    /// marked as not-in-queue.
    pub fn new(capacity: usize) -> (s: Scheduler)
        ensures
            s.wf(),
            s.entries() == Seq::<Entry>::empty(),
            s.flags() == Seq::new(capacity as nat, |i: int| false),
    {
        let mut in_queue: Vec<bool> = Vec::new();
        let mut i: usize = 0;
        while i < capacity
            invariant
                i <= capacity,
                in_queue@ == Seq::new(i as nat, |j: int| false),
            decreases capacity - i,
        {
            in_queue.push(false);
            i = i + 1;
        }
        Scheduler { queue: Vec::new(), in_queue }
    }

    /// Number of cell indices the scheduler can track.
    pub fn capacity(&self) -> (n: usize)
        ensures
            n == self.flags().len(),
    {
        self.in_queue.len()
    }

    /// Adds a cell (by flat index) to the queue with the priority whose bit
    /// pattern is `priority_bits`. Does nothing if the cell is already
    /// enqueued.
    pub fn enqueue(&mut self, idx: usize, priority_bits: u32)
        requires
            old(self).wf(),
            idx < old(self).flags().len(),
        ensures
            old(self).enqueued(final(self), idx, priority_bits),
    {
        if self.in_queue[idx] {
            return;
        }
        let key = priority_key(priority_bits);
        let ghost e: Entry = (key, idx);
        let ghost old_q = self.queue@;
        proof {
            assert forall|i: int| 0 <= i < old_q.len() implies #[trigger] old_q[i].1 != idx by {
                if old_q[i].1 == idx {
                    assert(self.in_queue@[old_q[i].1 as int]);
                }
            }
        }
        let n = self.queue.len();
        let mut pos: usize = 0;
        while pos < n
            invariant
                pos <= n,
                n == self.queue@.len(),
                self.queue@ == old_q,
                e == (key, idx),
                forall|i: int| 0 <= i < pos ==> entry_lt(#[trigger] old_q[i], e),
            ensures
                pos <= n,
                forall|i: int| 0 <= i < pos ==> entry_lt(#[trigger] old_q[i], e),
                pos < n ==> !entry_lt(old_q[pos as int], e),
            decreases n - pos,
        {
            let cur = self.queue[pos];
            if !(cur.0 < key || (cur.0 == key && cur.1 < idx)) {
                break;
            }
            pos = pos + 1;
        }
        self.queue.insert(pos, (key, idx));
        self.in_queue.set(idx, true);
        proof {
            let q = self.queue@;
            assert(q == old_q.insert(pos as int, e));
            assert forall|j: int| pos < j < q.len() implies entry_lt(e, #[trigger] q[j]) by {
                assert(q[j] == old_q[j - 1]);
                if j - 1 > pos {
                    assert(entry_lt(old_q[pos as int], old_q[j - 1]));
                }
            }
            assert forall|i: int, j: int| 0 <= i < j < q.len() implies entry_lt(
                #[trigger] q[i],
                #[trigger] q[j],
            ) by {
                if i < pos && j < pos {
                } else if i < pos && j == pos {
                } else if i < pos && j > pos {
                    assert(q[j] == old_q[j - 1]);
                    assert(entry_lt(e, q[j]));
                } else if i == pos {
                } else {
                    assert(q[i] == old_q[i - 1]);
                    assert(q[j] == old_q[j - 1]);
                }
            }
            assert forall|i: int, j: int| 0 <= i < j < q.len() implies #[trigger] q[i].1
                != #[trigger] q[j].1 by {
                if i == pos as int {
                    assert(q[j] == old_q[j - 1]);
                } else if j == pos as int {
                    assert(q[i] == old_q[i]);
                } else {
                    let oi = if i < pos { i } else { i - 1 };
                    let oj = if j < pos { j } else { j - 1 };
                    assert(q[i] == old_q[oi]);
                    assert(q[j] == old_q[oj]);
                }
            }
            assert forall|i: int| 0 <= i < q.len() implies (#[trigger] q[i].1 as int)
                < self.in_queue@.len() && self.in_queue@[q[i].1 as int] by {
                if i < pos {
                    assert(q[i] == old_q[i]);
                } else if i > pos {
                    assert(q[i] == old_q[i - 1]);
                }
            }
            assert forall|k: int|
                0 <= k < self.in_queue@.len() && #[trigger] self.in_queue@[k] implies self.has_index(
                k,
            ) by {
                if k == idx {
                    assert(self.entries()[pos as int].1 == idx);
                } else {
                    assert(old(self).has_index(k));
                    let i = choose|i: int| 0 <= i < old_q.len() && #[trigger] old_q[i].1 == k;
                    if i < pos {
                        assert(self.entries()[i].1 == k);
                    } else {
                        assert(self.entries()[i + 1].1 == k);
                    }
                }
            }
            assert forall|x: Entry| #[trigger] q.contains(x) <==> (old_q.contains(x) || x == e) by {
                if q.contains(x) {
                    let i = choose|i: int| 0 <= i < q.len() && q[i] == x;
                    if i < pos {
                        assert(q[i] == old_q[i]);
                    } else if i > pos {
                        assert(q[i] == old_q[i - 1]);
                    }
                }
                if old_q.contains(x) {
                    let i = choose|i: int| 0 <= i < old_q.len() && old_q[i] == x;
                    if i < pos {
                        assert(q[i] == x);
                    } else {
                        assert(q[i + 1] == x);
                    }
                }
                if x == e {
                    assert(q[pos as int] == x);
                }
            }
        }
    }

    /// Enqueues cell `idx` if its activity score, given as the bit pattern
    /// `score_bits`, exceeds the sleep threshold (`0.1`) in an IEEE-754
    /// comparison, so a NaN score never enqueues; the score is also the
    /// priority. The score rewards cells that deviate from ambient
    /// conditions or carry mana.
    pub fn enqueue_if_active(&mut self, idx: usize, score_bits: u32)
        requires
            old(self).wf(),
            idx < old(self).flags().len(),
        ensures
            f32_gt(score_bits, SLEEP_THRESHOLD_BITS) ==> old(self).enqueued(
                final(self),
                idx,
                score_bits,
            ),
            !f32_gt(score_bits, SLEEP_THRESHOLD_BITS) ==> final(self).entries() == old(
                self,
            ).entries() && final(self).flags() == old(self).flags(),
    {
        if f32_bits_gt(score_bits, SLEEP_THRESHOLD_BITS) {
            self.enqueue(idx, score_bits);
        }
    }

    /// Pops up to `max` highest-priority cell indices for this tick, highest
    /// first. Each popped cell is marked as not-in-queue so it can be
    /// re-enqueued later if it remains active.
    pub fn drain_batch(&mut self, max: usize) -> (batch: Vec<usize>)
        requires
            old(self).wf(),
        ensures
            final(self).wf(),
            batch@.len() == if max < old(self).entries().len() {
                max as int
            } else {
                old(self).entries().len() as int
            },
            forall|i: int|
                0 <= i < batch@.len() ==> #[trigger] batch@[i] == old(self).entries()[old(
                    self,
                ).entries().len() - 1 - i].1,
            final(self).entries() == old(self).entries().subrange(
                0,
                old(self).entries().len() - batch@.len(),
            ),
            final(self).flags().len() == old(self).flags().len(),
            forall|k: int|
                0 <= k < old(self).flags().len() ==> #[trigger] final(self).flags()[k] == (old(
                    self,
                ).flags()[k] && !batch@.contains(k as usize)),
    {
        let ghost old_q = self.queue@;
        let ghost old_f = self.in_queue@;
        let ghost n0 = old_q.len();
        proof {
            vstd::std_specs::vec::axiom_spec_len(&self.in_queue);
        }
        let mut batch: Vec<usize> = Vec::new();
        let mut count: usize = 0;
        while count < max
            invariant
                self.wf(),
                old_q == old(self).entries(),
                old_f == old(self).flags(),
                n0 == old_q.len(),
                old_f.len() <= usize::MAX,
                count <= max,
                count <= n0,
                batch@.len() == count,
                self.queue@ == old_q.subrange(0, n0 - count),
                forall|i: int| 0 <= i < count ==> #[trigger] batch@[i] == old_q[n0 - 1 - i].1,
                self.in_queue@.len() == old_f.len(),
                forall|k: int|
                    0 <= k < old_f.len() ==> #[trigger] self.in_queue@[k] == (old_f[k]
                        && !batch@.contains(k as usize)),
            ensures
                self.wf(),
                count <= n0,
                batch@.len() == count,
                count == max || count == n0,
                self.queue@ == old_q.subrange(0, n0 - count),
                forall|i: int| 0 <= i < count ==> #[trigger] batch@[i] == old_q[n0 - 1 - i].1,
                self.in_queue@.len() == old_f.len(),
                forall|k: int|
                    0 <= k < old_f.len() ==> #[trigger] self.in_queue@[k] == (old_f[k]
                        && !batch@.contains(k as usize)),
            decreases max - count,
        {
            let ghost q = self.queue@;
            let ghost b = batch@;
            let ghost f = self.in_queue@;
            let ghost pre = *self;
            match self.queue.pop() {
                Some(entry) => {
                    let idx = entry.1;
                    proof {
                        assert(q[q.len() - 1] == entry);
                        assert(self.entries() == q.drop_last());
                    }
                    self.in_queue.set(idx, false);
                    batch.push(idx);
                    count = count + 1;
                    proof {
                        let nq = self.queue@;
                        assert(batch@ == b.push(idx));
                        assert(nq =~= old_q.subrange(0, n0 - count));
                        assert(old_q[n0 - count] == entry);
                        assert forall|i: int| 0 <= i < count implies #[trigger] batch@[i]
                            == old_q[n0 - 1 - i].1 by {
                            if i < count - 1 {
                                assert(batch@[i] == b[i]);
                            }
                        }
                        assert forall|i: int| 0 <= i < nq.len() implies #[trigger] nq[i].1 != idx by {
                            assert(q[i] == nq[i]);
                            assert(q[q.len() - 1].1 == idx);
                        }
                        assert forall|k: int|
                            0 <= k < old_f.len() implies #[trigger] self.in_queue@[k] == (old_f[k]
                                && !batch@.contains(k as usize)) by {
                            if k == idx as int {
                                assert(batch@[count - 1] == idx);
                            } else {
                                assert(self.in_queue@[k] == f[k]);
                                if b.contains(k as usize) {
                                    let i = choose|i: int| 0 <= i < b.len() && b[i] == k as usize;
                                    assert(batch@[i] == k as usize);
                                }
                                if batch@.contains(k as usize) {
                                    let i = choose|i: int|
                                        0 <= i < batch@.len() && batch@[i] == k as usize;
                                    assert((k as usize) as int == k);
                                    assert(batch@[b.len() as int] == idx);
                                    assert(i != b.len());
                                    assert(b[i] == k as usize);
                                }
                            }
                        }
                        assert forall|i: int|
                            0 <= i < nq.len() implies (#[trigger] self.entries()[i].1 as int)
                            < self.flags().len() && self.flags()[self.entries()[i].1 as int] by {
                            assert(q[i] == nq[i]);
                            assert(q[i].1 != idx);
                        }
                        assert forall|k: int|
                            0 <= k < self.flags().len() && #[trigger] self.flags()[k] implies self.has_index(
                            k,
                        ) by {
                            assert(f[k]);
                            let i = choose|i: int| 0 <= i < q.len() && #[trigger] q[i].1 == k;
                            assert(i != q.len() - 1);
                            assert(self.entries()[i].1 == k);
                        }
                    }
                },
                None => {
                    proof {
                        assert(self.queue@ == pre.queue@);
                        assert(self.entries() == pre.entries());
                        assert(self.flags() == pre.flags());
                    }
                    break;
                },
            }
        }
        batch
    }

    /// Scans every cell of the grid in row-major order and enqueues the
    /// active ones, skipping the inert materials (earth and vacuum). Call
    /// this once when a scenario is first loaded.
    pub fn seed_from_grid(&mut self, grid: &Grid<CellActivity>)
        requires
            old(self).wf(),
            grid.wf(),
            grid.width() * grid.height() <= old(self).flags().len(),
        ensures
            final(self).wf(),
            final(self).flags().len() == old(self).flags().len(),
            forall|k: int|
                0 <= k < old(self).flags().len() ==> #[trigger] final(self).flags()[k] == (old(
                    self,
                ).flags()[k] || (k < grid.cells_view().len() && seeds(grid.cells_view()[k]))),
            forall|e: Entry| #[trigger]
                final(self).entries().contains(e) <==> (old(self).entries().contains(e) || (
                (e.1 as int) < grid.cells_view().len() && !old(self).flags()[e.1 as int] && seeds(
                    grid.cells_view()[e.1 as int],
                ) && e.0 == spec_priority_key(grid.cells_view()[e.1 as int].score_bits))),
    {
        let cells = grid.cells();
        let n = cells.len();
        let mut k: usize = 0;
        while k < n
            invariant
                self.wf(),
                k <= n,
                n == cells@.len(),
                cells@ == grid.cells_view(),
                n <= old(self).flags().len(),
                self.flags().len() == old(self).flags().len(),
                forall|j: int|
                    0 <= j < old(self).flags().len() ==> #[trigger] self.flags()[j] == (old(
                        self,
                    ).flags()[j] || (j < k && seeds(cells@[j]))),
                forall|e: Entry| #[trigger]
                    self.entries().contains(e) <==> (old(self).entries().contains(e) || (
                    (e.1 as int) < k && !old(self).flags()[e.1 as int] && seeds(cells@[e.1 as int])
                        && e.0 == spec_priority_key(cells@[e.1 as int].score_bits))),
            decreases n - k,
        {
            let cell = cells[k];
            let ghost pre = *self;
            if !cell.material.is_inert() {
                self.enqueue_if_active(k, cell.score_bits);
            }
            proof {
                assert forall|j: int|
                    0 <= j < old(self).flags().len() implies #[trigger] self.flags()[j] == (old(
                        self,
                    ).flags()[j] || (j < k + 1 && seeds(cells@[j]))) by {
                    if j != k {
                        assert(self.flags()[j] == pre.flags()[j]);
                    }
                }
                assert forall|e: Entry| #[trigger]
                    self.entries().contains(e) <==> (old(self).entries().contains(e) || (
                    (e.1 as int) < k + 1 && !old(self).flags()[e.1 as int] && seeds(
                        cells@[e.1 as int],
                    ) && e.0 == spec_priority_key(cells@[e.1 as int].score_bits))) by {
                    if pre.flags()[k as int] && seeds(cells@[k as int]) {
                        assert(old(self).flags()[k as int]);
                    }
                    assert(pre.entries().contains(e) == self.entries().contains(e) || e.1 == k);
                }
            }
            k = k + 1;
        }
    }
}

/// A cell is flagged as queued exactly when the queue holds an entry for
/// it, so no cell is ever queued twice.
pub proof fn lemma_queued_iff_entry(s: &Scheduler, k: int)
    requires
        s.wf(),
        0 <= k < s.flags().len(),
    ensures
        s.flags()[k] <==> s.has_index(k),
        forall|i: int, j: int|
            0 <= i < j < s.entries().len() ==> #[trigger] s.entries()[i].1 != #[trigger] s.entries()[j].1,
{
    if s.has_index(k) {
        let i = choose|i: int| 0 <= i < s.entries().len() && #[trigger] s.entries()[i].1 == k;
        assert(s.flags()[s.entries()[i].1 as int]);
    }
}

/// Draining takes the highest priorities first: the `n` entries at the end
/// of the queue, in the order draining takes them, come in non-increasing
/// key order, and none of the entries left behind has a larger key than
/// any drained one.
pub proof fn lemma_drain_priority_order(s: &Scheduler, n: int)
    requires
        s.wf(),
        0 <= n <= s.entries().len(),
    ensures
        forall|i: int, j: int|
            0 <= i < j < n ==> #[trigger] s.drain_key(i) >= #[trigger] s.drain_key(j),
        forall|i: int, r: int|
            0 <= i < n && 0 <= r < s.entries().len() - n ==> #[trigger] s.drain_key(i)
                >= #[trigger] s.entries()[r].0,
{
    let q = s.entries();
    assert forall|i: int, j: int| 0 <= i < j < n implies #[trigger] s.drain_key(i)
        >= #[trigger] s.drain_key(j) by {
        assert(entry_lt(q[q.len() - 1 - j], q[q.len() - 1 - i]));
    }
    assert forall|i: int, r: int| 0 <= i < n && 0 <= r < q.len() - n implies #[trigger] s.drain_key(
        i,
    ) >= #[trigger] q[r].0 by {
        assert(entry_lt(q[r], q[q.len() - 1 - i]));
    }
}

/// Seeding skips exactly earth and vacuum: a cell of any other material
/// (liquids included) is seeded exactly when its score exceeds the sleep
/// threshold `0.1` as a float; for a positive, non-NaN score that is when
/// its bit pattern exceeds `0x3DCC_CCCD`, and a negative score never seeds.
pub proof fn lemma_seeds_exactly(c: CellActivity)
    ensures
        seeds(c) <==> (c.material != Material::Earth && c.material != Material::Vacuum && f32_gt(
            c.score_bits,
            SLEEP_THRESHOLD_BITS,
        )),
        c.material != Material::Earth && c.material != Material::Vacuum
            && c.score_bits < 0x7F80_0001 ==> (seeds(c) <==> c.score_bits > 0x3DCC_CCCD),
        c.score_bits >= 0x8000_0000 ==> !seeds(c),
        c.material == Material::Earth || c.material == Material::Vacuum ==> !seeds(c),
{
    crate::priority::lemma_threshold(c.score_bits);
}

/// The queue is ordered by key and, among equal keys, by cell index, so
/// draining (which takes entries from the end) takes the larger key first
/// and, between equal keys, the larger cell index first.
pub proof fn lemma_queue_order(s: &Scheduler, i: int, j: int)
    requires
        s.wf(),
        0 <= i < j < s.entries().len(),
    ensures
        s.entries()[i].0 < s.entries()[j].0 || (s.entries()[i].0 == s.entries()[j].0
            && s.entries()[i].1 < s.entries()[j].1),
        s.entries()[i].1 != s.entries()[j].1,
{
}

} // verus!

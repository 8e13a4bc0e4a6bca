//! Per-worker scratch state and the scoped slot table that holds it.
//!
//! Each worker owns one slot for the lifetime of a traversal: a style
//! sharing cache plus a statistics accumulator. A slot is created lazily,
//! on the worker's first demand, and is addressed only by that worker's
//! own index; the driver reads the slots back only after all spawned work
//! has joined.

use vstd::prelude::*;
use crate::stats::{TraversalStatistics, sat_add, sat_add64};

verus! {

/// One worker's scratch state: the sibling/cousin style-sharing cache
/// (node identities whose style may be reused) and the worker's share of
/// the traversal statistics.
pub struct ThreadLocalStyleContext {
    pub sharing_cache: Vec<usize>,
    pub statistics: TraversalStatistics,
}

/// Fills a worker's slot with a freshly created thread-local context. Kept
/// out of line so callers do not reserve stack space for the whole
/// structure before knowing the slot is empty.
#[inline(never)]
pub fn create_thread_local_context(slot: &mut Option<ThreadLocalStyleContext>)
    ensures
        ((*final(slot)) is Some),
        (*final(slot)).unwrap().sharing_cache@ == Seq::<usize>::empty(),
        (*final(slot)).unwrap().statistics == (TraversalStatistics {
            elements_traversed: 0u64,
            elements_styled: 0u64,
            styles_shared: 0u64,
            traversal_time_ns: 0u64,
            is_parallel: false,
        }),
{
    *slot = Some(
        ThreadLocalStyleContext { sharing_cache: Vec::new(), statistics: Default::default() },
    );
}

/// The per-traversal slot table: one lazily filled slot for every worker
/// of the pool, addressed by worker index only.
pub struct ScopedTls {
    pub slots: Vec<Option<ThreadLocalStyleContext>>,
}

impl ScopedTls {
    /// One empty slot per worker; at least one, so that a caller not
    /// belonging to the pool still has a slot to use.
    pub fn new(num_workers: usize) -> (r: ScopedTls)
        ensures
            r.slots@.len() == if num_workers >= 1 {
                num_workers as int
            } else {
                1
            },
            forall|i: int| 0 <= i < r.slots@.len() ==> r.slots@[i] is None,
    {
        let n = if num_workers >= 1 {
            num_workers
        } else {
            1
        };
        let mut slots: Vec<Option<ThreadLocalStyleContext>> = Vec::new();
        let mut i: usize = 0;
        while i < n
            invariant
                i <= n,
                slots@.len() == i,
                forall|k: int| 0 <= k < i ==> slots@[k] is None,
            decreases n - i,
        {
            slots.push(None);
            i += 1;
        }
        ScopedTls { slots }
    }

    /// Creates the slot for `worker` if this is its first demand, and
    /// counts one more traversed element into that worker's statistics.
    pub fn note_traversed(&mut self, worker: usize)
        requires
            worker < old(self).slots@.len(),
        ensures
            (*final(self)).slots@.len() == old(self).slots@.len(),
            forall|i: int|
                0 <= i < old(self).slots@.len() && i != worker ==> (*final(self)).slots@[i] == old(
                    self,
                ).slots@[i],
            ((*final(self)).slots@[worker as int] is Some),
            (*final(self)).slots@[worker as int].unwrap().statistics == (TraversalStatistics {
                elements_traversed: sat_add64(slot_traversed(old(self).slots@[worker as int]), 1),
                ..slot_statistics(old(self).slots@[worker as int])
            }),
    {
        let slot = self.slots.remove(worker);
        let mut ctx = match slot {
            Some(c) => c,
            None => {
                let mut fresh: Option<ThreadLocalStyleContext> = None;
                create_thread_local_context(&mut fresh);
                fresh.unwrap()
            },
        };
        ctx.statistics.elements_traversed = sat_add(ctx.statistics.elements_traversed, 1);
        self.slots.insert(worker, Some(ctx));
    }
}

/// The statistics a slot holds; an empty slot holds the empty accumulator.
pub open spec fn slot_statistics(slot: Option<ThreadLocalStyleContext>) -> TraversalStatistics {
    match slot {
        Some(c) => c.statistics,
        None => TraversalStatistics {
            elements_traversed: 0u64,
            elements_styled: 0u64,
            styles_shared: 0u64,
            traversal_time_ns: 0u64,
            is_parallel: false,
        },
    }
}

/// A slot that only traversal counting has touched: styling, sharing and
/// time fields still zero.
pub open spec fn slot_clean(slot: Option<ThreadLocalStyleContext>) -> bool {
    &&& slot_statistics(slot).elements_styled == 0
    &&& slot_statistics(slot).styles_shared == 0
    &&& slot_statistics(slot).traversal_time_ns == 0
}

/// The traversed-element count a slot holds; an empty slot counts zero.
pub open spec fn slot_traversed(slot: Option<ThreadLocalStyleContext>) -> u64 {
    match slot {
        Some(c) => c.statistics.elements_traversed,
        None => 0u64,
    }
}

/// The total traversed-element count across a slot table.
pub open spec fn sum_traversed(slots: Seq<Option<ThreadLocalStyleContext>>) -> int
    decreases slots.len(),
{
    if slots.len() == 0 {
        0
    } else {
        sum_traversed(slots.drop_last()) + slot_traversed(slots.last())
    }
}

/// Every slot's count is part of the total, and the total is not negative.
pub proof fn lemma_sum_bounds(slots: Seq<Option<ThreadLocalStyleContext>>, w: int)
    requires
        0 <= w < slots.len(),
    ensures
        sum_traversed(slots) >= slot_traversed(slots[w]) >= 0,
    decreases slots.len(),
{
    lemma_sum_nonneg(slots.drop_last());
    if w < slots.len() - 1 {
        assert(slots.drop_last()[w] == slots[w]);
        lemma_sum_bounds(slots.drop_last(), w);
    }
}

pub proof fn lemma_sum_nonneg(slots: Seq<Option<ThreadLocalStyleContext>>)
    ensures
        sum_traversed(slots) >= 0,
    decreases slots.len(),
{
    if slots.len() > 0 {
        lemma_sum_nonneg(slots.drop_last());
    }
}

/// A table of untouched slots counts nothing.
pub proof fn lemma_sum_empty(slots: Seq<Option<ThreadLocalStyleContext>>)
    requires
        forall|i: int| 0 <= i < slots.len() ==> slots[i] is None,
    ensures
        sum_traversed(slots) == 0,
    decreases slots.len(),
{
    if slots.len() > 0 {
        lemma_sum_empty(slots.drop_last());
    }
}

/// Changing one slot changes the total by the change in that slot.
pub proof fn lemma_sum_update(
    s1: Seq<Option<ThreadLocalStyleContext>>,
    s2: Seq<Option<ThreadLocalStyleContext>>,
    w: int,
)
    requires
        0 <= w < s1.len(),
        s2.len() == s1.len(),
        forall|i: int| 0 <= i < s1.len() && i != w ==> s1[i] == s2[i],
    ensures
        sum_traversed(s2) == sum_traversed(s1) - slot_traversed(s1[w]) + slot_traversed(s2[w]),
    decreases s1.len(),
{
    if w == s1.len() - 1 {
        assert(s1.drop_last() =~= s2.drop_last());
    } else {
        assert(forall|i: int|
            0 <= i < s1.drop_last().len() && i != w ==> s1.drop_last()[i] == s2.drop_last()[i]);
        assert(s1.drop_last()[w] == s1[w] && s2.drop_last()[w] == s2[w]);
        lemma_sum_update(s1.drop_last(), s2.drop_last(), w);
        assert(s1.last() == s2.last());
    }
}

/// A prefix of the table counts no more than the whole table.
pub proof fn lemma_sum_prefix(slots: Seq<Option<ThreadLocalStyleContext>>, i: int)
    requires
        0 <= i <= slots.len(),
    ensures
        sum_traversed(slots.subrange(0, i)) <= sum_traversed(slots),
    decreases slots.len() - i,
{
    if i == slots.len() {
        assert(slots.subrange(0, i) =~= slots);
    } else {
        lemma_sum_prefix(slots, i + 1);
        assert(slots.subrange(0, i + 1).drop_last() =~= slots.subrange(0, i));
        assert(slots.subrange(0, i + 1).last() == slots[i]);
        assert(sum_traversed(slots.subrange(0, i + 1)) == sum_traversed(slots.subrange(0, i))
            + slot_traversed(slots[i]));
    }
}

} // verus!

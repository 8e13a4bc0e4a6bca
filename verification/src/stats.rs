//! Per-thread traversal statistics and their aggregation.
//!
//! Each worker accumulates counters in its own thread-local slot; after
//! all work has joined, the driver merges the per-thread accumulators.
//! The merge saturates instead of overflowing, and is proved associative
//! and commutative, so the aggregate does not depend on the order in which
//! the per-thread accumulators are folded.

use vstd::prelude::*;
use vstd::seq_lib::{commutative_foldr, lemma_fold_right_permutation};

verus! {

/// A merged result with at least this many elements traversed is
/// classified a large traversal and worth reporting.
pub const LARGE_TRAVERSAL_MIN: u64 = 50;

/// Counters accumulated over one traversal. `traversal_time_ns` and
/// `is_parallel` are stamped by `finish` after aggregation.
#[derive(Clone, Copy, PartialEq, Eq, Structural, Debug)]
pub struct TraversalStatistics {
    pub elements_traversed: u64,
    pub elements_styled: u64,
    pub styles_shared: u64,
    pub traversal_time_ns: u64,
    pub is_parallel: bool,
}

/// Addition that stops at the largest representable count.
pub open spec fn sat_add64(a: u64, b: u64) -> u64 {
    if a + b > u64::MAX {
        u64::MAX
    } else {
        (a + b) as u64
    }
}

/// The merge of two accumulators: counters add (saturating), and the
/// parallel flag is joined.
pub open spec fn merged(a: TraversalStatistics, b: TraversalStatistics) -> TraversalStatistics {
    TraversalStatistics {
        elements_traversed: sat_add64(a.elements_traversed, b.elements_traversed),
        elements_styled: sat_add64(a.elements_styled, b.elements_styled),
        styles_shared: sat_add64(a.styles_shared, b.styles_shared),
        traversal_time_ns: sat_add64(a.traversal_time_ns, b.traversal_time_ns),
        is_parallel: a.is_parallel || b.is_parallel,
    }
}

pub fn sat_add(a: u64, b: u64) -> (r: u64)
    ensures
        r == sat_add64(a, b),
{
    if u64::MAX - b < a {
        u64::MAX
    } else {
        a + b
    }
}

impl Default for TraversalStatistics {
    /// The empty accumulator: every counter zero, not yet parallel.
    fn default() -> (r: TraversalStatistics)
        ensures
            r == (TraversalStatistics {
                elements_traversed: 0u64,
                elements_styled: 0u64,
                styles_shared: 0u64,
                traversal_time_ns: 0u64,
                is_parallel: false,
            }),
    {
        TraversalStatistics {
            elements_traversed: 0,
            elements_styled: 0,
            styles_shared: 0,
            traversal_time_ns: 0,
            is_parallel: false,
        }
    }
}

impl TraversalStatistics {
    /// The associative, commutative combination of two accumulators.
    pub fn merge(&self, other: &TraversalStatistics) -> (r: TraversalStatistics)
        ensures
            r == merged(*self, *other),
    {
        TraversalStatistics {
            elements_traversed: sat_add(self.elements_traversed, other.elements_traversed),
            elements_styled: sat_add(self.elements_styled, other.elements_styled),
            styles_shared: sat_add(self.styles_shared, other.styles_shared),
            traversal_time_ns: sat_add(self.traversal_time_ns, other.traversal_time_ns),
            is_parallel: self.is_parallel || other.is_parallel,
        }
    }

    /// Stamps the elapsed time and the execution style onto a merged
    /// accumulator once all work has joined.
    pub fn finish(&mut self, elapsed_ns: u64, parallel: bool)
        ensures
            *final(self) == (TraversalStatistics {
                traversal_time_ns: elapsed_ns,
                is_parallel: parallel,
                ..*old(self)
            }),
    {
        self.traversal_time_ns = elapsed_ns;
        self.is_parallel = parallel;
    }

    /// Whether the merged result is worth a report.
    pub fn is_large_traversal(&self) -> (r: bool)
        ensures
            r == (self.elements_traversed >= LARGE_TRAVERSAL_MIN),
    {
        self.elements_traversed >= LARGE_TRAVERSAL_MIN
    }

    /// Relies on std's formatting machinery to render the counters as one
    /// report line; nothing is promised of the text.
    #[verifier::external_body]
    pub(crate) fn summary_string(&self) -> String {
        format!(
            "[PERF] traversal: {} traversed, {} styled, {} shared, {} ns, parallel: {}",
            self.elements_traversed,
            self.elements_styled,
            self.styles_shared,
            self.traversal_time_ns,
            self.is_parallel,
        )
    }
}

/// Relies on time::OffsetDateTime::now_utc and unix_timestamp_nanos: the
/// wall-clock time in nanoseconds since the Unix epoch. The result depends
/// on the clock, so nothing is promised of it.
#[verifier::external_body]
pub(crate) fn now_unix_ns() -> i128 {
    time::OffsetDateTime::now_utc().unix_timestamp_nanos()
}

/// The elapsed nanoseconds between two clock readings, clamped to zero
/// when the clock moved backwards and to the largest representable count
/// when it moved further than fits.
pub fn elapsed_ns(start: i128, end: i128) -> (r: u64)
    ensures
        start <= end && end - start <= u64::MAX ==> r == end - start,
        end <= start ==> r == 0,
        end - start > u64::MAX ==> r == u64::MAX,
{
    if end <= start {
        0
    } else if start < 0 && end > i128::MAX + start {
        u64::MAX
    } else if end - start > u64::MAX as i128 {
        u64::MAX
    } else {
        (end - start) as u64
    }
}

/// Merging is commutative: the two operands may change places.
pub proof fn lemma_merged_commutative(a: TraversalStatistics, b: TraversalStatistics)
    ensures
        merged(a, b) == merged(b, a),
{
}

/// Merging is associative: a fold over per-thread accumulators may group
/// them in any way.
pub proof fn lemma_merged_associative(
    a: TraversalStatistics,
    b: TraversalStatistics,
    c: TraversalStatistics,
)
    ensures
        merged(merged(a, b), c) == merged(a, merged(b, c)),
{
}

/// The aggregate of a whole collection of per-thread accumulators,
/// folded one after another onto a base.
pub open spec fn merged_all(
    accs: Seq<TraversalStatistics>,
    base: TraversalStatistics,
) -> TraversalStatistics {
    accs.fold_right(|x: TraversalStatistics, acc: TraversalStatistics| merged(x, acc), base)
}

/// Merging any number of per-thread accumulators is order-independent:
/// two foldings of the same accumulators, however arranged, agree.
pub proof fn lemma_merged_order_independent(
    l1: Seq<TraversalStatistics>,
    l2: Seq<TraversalStatistics>,
    base: TraversalStatistics,
)
    requires
        l1.to_multiset() == l2.to_multiset(),
    ensures
        merged_all(l1, base) == merged_all(l2, base),
{
    let f = |x: TraversalStatistics, acc: TraversalStatistics| merged(x, acc);
    assert forall|x: TraversalStatistics, y: TraversalStatistics, v: TraversalStatistics|
        #[trigger] f(x, f(y, v)) == f(y, f(x, v)) by {
        lemma_merged_associative(x, y, v);
        lemma_merged_associative(y, x, v);
        lemma_merged_commutative(x, y);
    }
    lemma_fold_right_permutation(l1, l2, f, base);
}

/// The empty accumulator is the identity of the merge.
pub proof fn lemma_merged_identity(a: TraversalStatistics)
    ensures
        merged(
            a,
            TraversalStatistics {
                elements_traversed: 0u64,
                elements_styled: 0u64,
                styles_shared: 0u64,
                traversal_time_ns: 0u64,
                is_parallel: false,
            },
        ) == a,
{
}

} // verus!

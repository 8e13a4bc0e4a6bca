//! The parallel top-down traversal: driver, dispatcher and level processor.
//!
//! The traversal is breadth-first and top-down: a node's preorder step
//! runs only after its parent's, every node is reached exactly once, and
//! nodes travel between workers in bounded work units. The scheduler's
//! queue of spawned-but-unstarted work units is carried explicitly in the
//! traversal state, so every guarantee is proved over all interleavings of
//! spawning and tail-calling; the work-stealing pool is consulted only for
//! hints (pending local work, worker identity) that no guarantee depends
//! on.

use vstd::prelude::*;
use vstd::slice::slice_index_get;
use vstd::set_lib::{set_int_range, lemma_int_range, lemma_len_subset};
use crate::dispatch::{DispatchMode, may_dispatch_tail, WORK_UNIT_MAX, RECURSION_DEPTH_LIMIT};
use crate::events::{
    Event, pre_node, pre_info, post_info, pre_at, post_at, count_pre, count_post, visited_set,
    lemma_count_pre_push, lemma_count_post_push, lemma_pre_at_count, lemma_count_pre_at,
    lemma_post_at_count, lemma_count_post_at, lemma_count_pre_two, lemma_count_post_two,
    lemma_visited_set_len, lemma_visited_set_push, lemma_visited_set_monotone,
};
use crate::tree::{Tree, lemma_depth_child, lemma_depth_le};
use crate::work_unit::{
    WorkUnit, NodeBuffer, work_unit_nodes, node_buffer_nodes, work_unit_new, work_unit_push,
    work_unit_as_slice, node_buffer_new, node_buffer_push, node_buffer_as_slice,
    node_buffer_clear,
};
use crate::context::{ScopedTls, sum_traversed, slot_traversed, lemma_sum_bounds, lemma_sum_empty, lemma_sum_update, lemma_sum_prefix, lemma_sum_nonneg, slot_clean, slot_statistics};
use crate::pool::{pool_has_pending_tasks, pool_current_thread_index, pool_num_threads};
use crate::stats::{TraversalStatistics, now_unix_ns, elapsed_ns, LARGE_TRAVERSAL_MIN};

verus! {

/// The level-scoped data a work unit carries: the tree depth of the nodes
/// in the unit. It is cloned, not shared, when a new unit is spawned.
#[derive(Clone, Copy, PartialEq, Eq, Structural, Debug)]
pub struct PerLevelTraversalData {
    pub current_dom_depth: usize,
}

/// One spawned-but-unstarted task: a work unit and its level data.
pub struct PendingUnit {
    pub nodes: WorkUnit,
    pub data: PerLevelTraversalData,
}

/// Everything one traversal owns: the scheduler's queue of spawned units,
/// the event log, the sizes of every work unit processed and spawned, and
/// the per-worker slot table.
pub struct TraversalState {
    pub pending: Vec<PendingUnit>,
    pub log: Vec<Event>,
    pub unit_sizes: Vec<usize>,
    pub spawned_sizes: Vec<usize>,
    pub tls: ScopedTls,
}

/// How many times node `c` occurs in a batch of node handles.
pub open spec fn seq_count(s: Seq<usize>, c: int) -> nat
    decreases s.len(),
{
    if s.len() == 0 {
        0
    } else {
        seq_count(s.drop_last(), c) + if s.last() as int == c {
            1nat
        } else {
            0nat
        }
    }
}

/// How many times node `c` occurs across the queued work units.
pub open spec fn pend_count(pending: Seq<PendingUnit>, c: int) -> nat
    decreases pending.len(),
{
    if pending.len() == 0 {
        0
    } else {
        pend_count(pending.drop_last(), c) + seq_count(
            work_unit_nodes(pending.last().nodes),
            c,
        )
    }
}

/// How many copies of node `c` are in flight: queued in a spawned unit, or
/// held by the batch `extra` that some active level processor owns.
pub open spec fn flight_count(s: TraversalState, extra: Seq<usize>, c: int) -> nat {
    pend_count(s.pending@, c) + seq_count(extra, c)
}

pub proof fn lemma_seq_count_push(s: Seq<usize>, x: usize, c: int)
    ensures
        seq_count(s.push(x), c) == seq_count(s, c) + if x as int == c {
            1nat
        } else {
            0nat
        },
{
    assert(s.push(x).drop_last() =~= s);
    assert(s.push(x).last() == x);
}

pub proof fn lemma_seq_count_concat(a: Seq<usize>, b: Seq<usize>, c: int)
    ensures
        seq_count(a + b, c) == seq_count(a, c) + seq_count(b, c),
    decreases b.len(),
{
    if b.len() == 0 {
        assert(a + b =~= a);
    } else {
        assert((a + b).drop_last() =~= a + b.drop_last());
        assert((a + b).last() == b.last());
        lemma_seq_count_concat(a, b.drop_last(), c);
    }
}

/// An element of a batch is counted at least once.
pub proof fn lemma_seq_count_index(s: Seq<usize>, i: int)
    requires
        0 <= i < s.len(),
    ensures
        seq_count(s, s[i] as int) >= 1,
    decreases s.len(),
{
    if i < s.len() - 1 {
        assert(s.drop_last()[i] == s[i]);
        lemma_seq_count_index(s.drop_last(), i);
    }
}

/// A counted element occurs at some position.
pub proof fn lemma_seq_count_pos(s: Seq<usize>, c: int) -> (i: int)
    requires
        seq_count(s, c) >= 1,
    ensures
        0 <= i < s.len() && s[i] as int == c,
    decreases s.len(),
{
    if s.last() as int == c {
        s.len() - 1
    } else {
        let i = lemma_seq_count_pos(s.drop_last(), c);
        assert(s.drop_last()[i] == s[i]);
        i
    }
}

/// A batch of pairwise distinct elements counts each node at most once.
pub proof fn lemma_seq_count_le1(s: Seq<usize>, c: int)
    requires
        forall|i: int, j: int| 0 <= i < j < s.len() ==> s[i] != s[j],
    ensures
        seq_count(s, c) <= 1,
    decreases s.len(),
{
    if s.len() > 0 {
        assert(forall|i: int, j: int|
            0 <= i < j < s.drop_last().len() ==> s.drop_last()[i] != s.drop_last()[j]);
        lemma_seq_count_le1(s.drop_last(), c);
        if s.last() as int == c && seq_count(s.drop_last(), c) >= 1 {
            let i = lemma_seq_count_pos(s.drop_last(), c);
            assert(s[i] == s[s.len() - 1]);
            assert(false);
        }
    }
}

pub proof fn lemma_pend_count_push(pending: Seq<PendingUnit>, u: PendingUnit, c: int)
    ensures
        pend_count(pending.push(u), c) == pend_count(pending, c) + seq_count(
            work_unit_nodes(u.nodes),
            c,
        ),
{
    assert(pending.push(u).drop_last() =~= pending);
    assert(pending.push(u).last() == u);
}

/// A batch whose nodes are pairwise distinct and drawn from `0 .. n` holds
/// at most `n` of them.
pub proof fn lemma_distinct_len(s: Seq<usize>, n: nat)
    requires
        forall|c: int| #[trigger] seq_count(s, c) <= 1,
        forall|c: int| #[trigger] seq_count(s, c) >= 1 ==> 0 <= c < n,
    ensures
        s.len() <= n,
{
    lemma_distinct_len_rec(s, n);
}

proof fn lemma_distinct_len_rec(s: Seq<usize>, n: nat)
    requires
        forall|c: int| #[trigger] seq_count(s, c) <= 1,
        forall|c: int| #[trigger] seq_count(s, c) >= 1 ==> 0 <= c < n,
    ensures
        occ_set(s).finite(),
        occ_set(s).len() <= n,
        s.len() <= occ_set(s).len(),
    decreases s.len(),
{
    lemma_int_range(0, n as int);
    assert(occ_set(s).subset_of(set_int_range(0, n as int)));
    lemma_len_subset(occ_set(s), set_int_range(0, n as int));
    if s.len() > 0 {
        let d = s.drop_last();
        let c = s.last() as int;
        assert(forall|e: int| #[trigger] seq_count(d, e) <= seq_count(s, e));
        lemma_distinct_len_rec(d, n);
        assert(seq_count(s, c) >= 1);
        assert(seq_count(d, c) == 0);
        assert(occ_set(d).subset_of(occ_set(s).remove(c)));
        assert(occ_set(s).remove(c).finite());
        lemma_len_subset(occ_set(d), occ_set(s).remove(c));
        assert(occ_set(s).contains(c));
        assert(occ_set(s).remove(c).len() == occ_set(s).len() - 1);
    }
}

/// The nodes a batch counts at least once.
pub open spec fn occ_set(s: Seq<usize>) -> Set<int> {
    Set::new(|c: int| seq_count(s, c) >= 1)
}

/// Every node of a batch stands at tree depth `d`.
pub open spec fn batch_at_depth(t: Tree, nodes: Seq<usize>, d: int) -> bool {
    forall|k: int| 0 <= k < nodes.len() ==> t.depth_of((#[trigger] nodes[k]) as int) == d
}

/// A queued work unit's level data carries exactly its nodes' tree depth.
pub open spec fn unit_depth_ok(t: Tree, u: PendingUnit) -> bool {
    batch_at_depth(t, work_unit_nodes(u.nodes), u.data.current_dom_depth as int)
}

/// Two distinct positions holding the same node count it at least twice.
pub proof fn lemma_seq_count_two(s: Seq<usize>, i: int, j: int)
    requires
        0 <= i < j < s.len(),
        s[i] == s[j],
    ensures
        seq_count(s, s[i] as int) >= 2,
    decreases s.len(),
{
    if j == s.len() - 1 {
        lemma_seq_count_index(s.drop_last(), i);
        assert(s.drop_last()[i] == s[i]);
    } else {
        assert(s.drop_last()[i] == s[i] && s.drop_last()[j] == s[j]);
        lemma_seq_count_two(s.drop_last(), i, j);
    }
}

/// A log extended at the end keeps every recorded event in place.
pub proof fn lemma_prefix_trans(a: Seq<Event>, b: Seq<Event>, c: Seq<Event>)
    requires
        a.is_prefix_of(b),
        b.is_prefix_of(c),
    ensures
        a.is_prefix_of(c),
{
    assert(a =~= c.subrange(0, a.len() as int));
}

pub proof fn lemma_prefix_push(a: Seq<Event>, e: Event)
    ensures
        a.is_prefix_of(a.push(e)),
{
    assert(a =~= a.push(e).subrange(0, a.len() as int));
}

/// Within one work unit, nodes are processed strictly in list order: each
/// earlier node's postorder step stands in the log before any later
/// node's preorder step begins.
pub open spec fn unit_ordered(log: Seq<Event>, nodes: Seq<usize>) -> bool {
    forall|k1: int, k2: int, i1: int, i2: int|
        0 <= k1 < k2 < nodes.len() && #[trigger] post_at(log, i1, nodes[k1] as int)
            && #[trigger] pre_at(log, i2, nodes[k2] as int) ==> i1 < i2
}

/// Once every node of a unit is fully recorded, appending anything to the
/// log cannot disturb the unit's processing order: each node's steps
/// stand at their unique recorded positions.
pub proof fn lemma_unit_ordered_extend(loga: Seq<Event>, logb: Seq<Event>, nodes: Seq<usize>)
    requires
        loga.is_prefix_of(logb),
        unit_ordered(loga, nodes),
        forall|k: int|
            0 <= k < nodes.len() ==> count_pre(loga, (#[trigger] nodes[k]) as int) == 1
                && count_post(loga, nodes[k] as int) == 1,
        forall|k: int|
            0 <= k < nodes.len() ==> count_pre(logb, (#[trigger] nodes[k]) as int) <= 1
                && count_post(logb, nodes[k] as int) <= 1,
    ensures
        unit_ordered(logb, nodes),
{
    assert forall|k1: int, k2: int, i1: int, i2: int|
        0 <= k1 < k2 < nodes.len() && #[trigger] post_at(logb, i1, nodes[k1] as int)
            && #[trigger] pre_at(logb, i2, nodes[k2] as int) implies i1 < i2 by {
        let n1 = nodes[k1] as int;
        let n2 = nodes[k2] as int;
        let i1p = lemma_count_post_at(loga, n1);
        let i2p = lemma_count_pre_at(loga, n2);
        assert(loga =~= logb.subrange(0, loga.len() as int));
        assert(logb[i1p] == loga[i1p] && logb[i2p] == loga[i2p]);
        assert(post_at(logb, i1p, n1) && pre_at(logb, i2p, n2));
        if i1 < i1p {
            lemma_count_post_two(logb, i1, i1p, n1);
        } else if i1 > i1p {
            lemma_count_post_two(logb, i1p, i1, n1);
        }
        if i2 < i2p {
            lemma_count_pre_two(logb, i2, i2p, n2);
        } else if i2 > i2p {
            lemma_count_pre_two(logb, i2p, i2, n2);
        }
        assert(i1 == i1p && i2 == i2p);
    }
}

/// How many capacity-sized chunks a batch of `len` nodes splits into:
/// one for a batch that fits, one more per full work unit beyond that.
pub open spec fn chunk_count(len: int) -> int
    decreases len when len >= 1
{
    if len <= WORK_UNIT_MAX {
        1
    } else {
        1 + chunk_count(len - WORK_UNIT_MAX)
    }
}

/// Where chunk `ci` of a batch of `len` nodes ends: a full work unit
/// beyond its start, or the batch's end for the last chunk.
pub open spec fn chunk_end(len: int, ci: int) -> int {
    if WORK_UNIT_MAX * (ci + 1) <= len {
        WORK_UNIT_MAX * (ci + 1)
    } else {
        len
    }
}

/// The state after an oversized batch is split: everything already queued
/// or logged stays as it was, and one new unit per chunk is queued, in
/// input order, covering the batch exactly — sizes of one work unit each
/// except a smaller last — every chunk carrying the batch's own level
/// data, with its size appended to the spawned-size record.
pub open spec fn chunked(
    old_s: TraversalState,
    new_s: TraversalState,
    nodes: Seq<usize>,
    data: PerLevelTraversalData,
) -> bool {
    &&& new_s.log@ == old_s.log@
    &&& new_s.unit_sizes@ == old_s.unit_sizes@
    &&& new_s.tls == old_s.tls
    &&& new_s.pending@.len() == old_s.pending@.len() + chunk_count(nodes.len() as int)
    &&& forall|u: int| 0 <= u < old_s.pending@.len() ==> new_s.pending@[u] == old_s.pending@[u]
    &&& forall|ci: int|
        0 <= ci < chunk_count(nodes.len() as int) ==> {
            &&& work_unit_nodes(
                (#[trigger] new_s.pending@[old_s.pending@.len() + ci]).nodes,
            ) == nodes.subrange(WORK_UNIT_MAX * ci, chunk_end(nodes.len() as int, ci))
            &&& new_s.pending@[old_s.pending@.len() + ci].data == data
        }
    &&& new_s.spawned_sizes@.len() == old_s.spawned_sizes@.len() + chunk_count(nodes.len() as int)
    &&& forall|u: int|
        0 <= u < old_s.spawned_sizes@.len() ==> new_s.spawned_sizes@[u] == old_s.spawned_sizes@[u]
    &&& forall|ci: int|
        0 <= ci < chunk_count(nodes.len() as int)
            ==> #[trigger] new_s.spawned_sizes@[old_s.spawned_sizes@.len() + ci] == chunk_end(
            nodes.len() as int,
            ci,
        ) - WORK_UNIT_MAX * ci
}

/// The log's ordering guarantees: a node's preorder step runs only after
/// its parent's, a node's postorder step only after its own preorder step,
/// and every postorder step carries the node's exact child count.
pub open spec fn log_inv(t: Tree, log: Seq<Event>) -> bool {
    &&& forall|i: int, p: int, c: int|
        #[trigger] pre_at(log, i, c) && #[trigger] t.is_child(p, c) ==> exists|k: int|
            0 <= k < i && pre_at(log, k, p)
    &&& forall|i: int, c: int|
        #[trigger] post_at(log, i, c) ==> exists|k: int| 0 <= k < i && pre_at(log, k, c)
    &&& forall|i: int|
        0 <= i < log.len() && #[trigger] post_info(log[i]) is Some ==> {
            &&& 0 <= post_info(log[i]).unwrap().0 < t.n()
            &&& post_info(log[i]).unwrap().1 == t.num_children(post_info(log[i]).unwrap().0)
        }
    &&& forall|i: int|
        0 <= i < log.len() && #[trigger] pre_info(log[i]) is Some ==> pre_info(log[i]).unwrap().1
            == t.depth_of(pre_info(log[i]).unwrap().0)
}

/// Every node is visited at most once, and in-flight copies are unique:
/// the preorder count plus the in-flight count never exceeds one, only
/// real nodes are in flight or logged, and postorder steps pair off with
/// preorder steps.
pub open spec fn once_inv(t: Tree, log: Seq<Event>, s: TraversalState, extra: Seq<usize>) -> bool {
    &&& forall|c: int|
        count_pre(log, c) + #[trigger] flight_count(s, extra, c) <= 1 && (!(0 <= c < t.n())
            ==> flight_count(s, extra, c) == 0)
    &&& forall|c: int|
        #[trigger] count_pre(log, c) <= 1 && count_post(log, c) == count_pre(log, c) && (!(0 <= c
            < t.n()) ==> count_pre(log, c) == 0)
}

/// A node is put in flight only once its parent has been visited.
pub open spec fn parent_flight_inv(
    t: Tree,
    log: Seq<Event>,
    s: TraversalState,
    extra: Seq<usize>,
) -> bool {
    forall|p: int, c: int|
        #[trigger] t.is_child(p, c) && #[trigger] flight_count(s, extra, c) >= 1 ==> count_pre(
            log,
            p,
        ) == 1
}

/// Every child of a visited node is visited or in flight: no discovered
/// work is ever dropped.
pub open spec fn closure_inv(t: Tree, log: Seq<Event>, s: TraversalState, extra: Seq<usize>) -> bool {
    forall|p: int, c: int|
        #[trigger] t.is_child(p, c) && #[trigger] count_pre(log, p) == 1 ==> count_pre(log, c)
            + flight_count(s, extra, c) == 1
}

/// The root is visited or in flight.
pub open spec fn root_inv(t: Tree, log: Seq<Event>, s: TraversalState, extra: Seq<usize>) -> bool {
    count_pre(log, 0) + flight_count(s, extra, 0) == 1
}

/// Bounds carried by the bookkeeping: every queued, processed or spawned
/// work unit holds between one node and the work-unit capacity, and the
/// slot table covers at least one worker.
pub open spec fn misc_inv(t: Tree, s: TraversalState) -> bool {
    &&& forall|u: int|
        0 <= u < s.pending@.len() ==> 1 <= #[trigger] work_unit_nodes(s.pending@[u].nodes).len()
            <= WORK_UNIT_MAX
    &&& forall|i: int| 0 <= i < s.unit_sizes@.len() ==> 1 <= #[trigger] s.unit_sizes@[i] <= WORK_UNIT_MAX
    &&& forall|i: int|
        0 <= i < s.spawned_sizes@.len() ==> 1 <= #[trigger] s.spawned_sizes@[i] <= WORK_UNIT_MAX
    &&& forall|u: int| 0 <= u < s.pending@.len() ==> unit_depth_ok(t, #[trigger] s.pending@[u])
    &&& s.tls.slots@.len() >= 1
}

/// The whole traversal invariant, over the state and the batch of nodes
/// owned by whatever level processor is currently running.
pub open spec fn st_inv(t: Tree, s: TraversalState, extra: Seq<usize>) -> bool {
    &&& t.wf()
    &&& log_inv(t, s.log@)
    &&& once_inv(t, s.log@, s, extra)
    &&& parent_flight_inv(t, s.log@, s, extra)
    &&& closure_inv(t, s.log@, s, extra)
    &&& root_inv(t, s.log@, s, extra)
    &&& misc_inv(t, s)
    &&& sum_traversed(s.tls.slots@) == visited_set(s.log@, t.n()).len()
    &&& forall|w: int| 0 <= w < s.tls.slots@.len() ==> slot_clean(#[trigger] s.tls.slots@[w])
}

/// The invariant only reads the queue and the owned batch through
/// per-node counts, so redistributing nodes between the two — spawning a
/// unit, taking one, reordering a batch — preserves it.
pub proof fn lemma_flight_rewrite(
    t: Tree,
    s1: TraversalState,
    e1: Seq<usize>,
    s2: TraversalState,
    e2: Seq<usize>,
)
    requires
        st_inv(t, s1, e1),
        s2.log@ == s1.log@,
        s2.tls == s1.tls,
        misc_inv(t, s2),
        forall|c: int| #[trigger] flight_count(s2, e2, c) == flight_count(s1, e1, c),
    ensures
        st_inv(t, s2, e2),
{
    assert forall|c: int|
        count_pre(s2.log@, c) + #[trigger] flight_count(s2, e2, c) <= 1 && (!(0 <= c < t.n())
            ==> flight_count(s2, e2, c) == 0) by {
        assert(flight_count(s1, e1, c) == flight_count(s2, e2, c));
    }
    assert forall|p: int, c: int|
        #[trigger] t.is_child(p, c) && #[trigger] flight_count(s2, e2, c) >= 1 implies count_pre(
        s2.log@,
        p,
    ) == 1 by {
        assert(flight_count(s1, e1, c) >= 1);
    }
    assert forall|p: int, c: int|
        #[trigger] t.is_child(p, c) && #[trigger] count_pre(s2.log@, p) == 1 implies count_pre(
        s2.log@,
        c,
    ) + flight_count(s2, e2, c) == 1 by {
        assert(flight_count(s2, e2, c) == flight_count(s1, e1, c));
    }
    assert(flight_count(s2, e2, 0) == flight_count(s1, e1, 0));
    assert forall|w: int| 0 <= w < s2.tls.slots@.len() implies slot_clean(
        #[trigger] s2.tls.slots@[w],
    ) by {
        assert(s2.tls.slots@[w] == s1.tls.slots@[w]);
    }
}

/// A parallel top-down level processor: consumes one work unit, runs every
/// node's preorder and postorder step in order on this worker, and hands
/// every discovered child onward — eagerly once a full work unit of
/// children has accumulated, and at the end as a tail dispatch so a linear
/// chain of nodes keeps running on this stack.
#[verifier::rlimit(80)]
fn top_down_dom(
    t: &Tree,
    nodes: &[usize],
    recursion_depth: usize,
    root: usize,
    data: PerLevelTraversalData,
    pool: &rayon::ThreadPool,
    s: &mut TraversalState,
    others: Ghost<Seq<usize>>,
)
    requires
        1 <= nodes@.len() <= WORK_UNIT_MAX,
        recursion_depth <= RECURSION_DEPTH_LIMIT,
        batch_at_depth(*t, nodes@, data.current_dom_depth as int),
        st_inv(*t, *old(s), nodes@ + others@),
    ensures
        st_inv(*t, *final(s), others@),
        forall|c: int| count_pre(old(s).log@, c) <= #[trigger] count_pre((*final(s)).log@, c),
        (*final(s)).tls.slots@.len() == old(s).tls.slots@.len(),
        visited_set((*final(s)).log@, t.n()).len() > visited_set(old(s).log@, t.n()).len(),
        old(s).log@.is_prefix_of((*final(s)).log@),
        unit_ordered((*final(s)).log@, nodes@),
        forall|k: int|
            0 <= k < nodes@.len() ==> count_pre((*final(s)).log@, (#[trigger] nodes@[k]) as int)
                == 1,
        (forall|k: int|
            0 <= k < nodes@.len() ==> t.num_children((#[trigger] nodes@[k]) as int) == 0) ==> {
            &&& (*final(s)).pending@ == old(s).pending@
            &&& (*final(s)).spawned_sizes@ == old(s).spawned_sizes@
            &&& (*final(s)).log@.len() == old(s).log@.len() + 2 * nodes@.len()
        },
    decreases t.n() - visited_set(s.log@, t.n()).len(), RECURSION_DEPTH_LIMIT + 1 - recursion_depth, 0int,
{
    let n_nodes = nodes.len();
    s.unit_sizes.push(n_nodes);
    proof {
        assert forall|c: int|
            #[trigger] flight_count(*s, nodes@ + others@, c) == flight_count(
                *old(s),
                nodes@ + others@,
                c,
            ) by {}
        assert(misc_inv(*t, *s)) by {
            assert forall|ii: int| 0 <= ii < s.unit_sizes@.len() implies 1
                <= #[trigger] s.unit_sizes@[ii] <= WORK_UNIT_MAX by {
                if ii < s.unit_sizes@.len() - 1 {
                    assert(s.unit_sizes@[ii] == old(s).unit_sizes@[ii]);
                } else {
                    assert(s.unit_sizes@[ii] == n_nodes);
                }
            }
            assert forall|uu: int| 0 <= uu < s.pending@.len() implies unit_depth_ok(
                *t,
                #[trigger] s.pending@[uu],
            ) by {
                assert(s.pending@[uu] == old(s).pending@[uu]);
            }
        }
        lemma_flight_rewrite(*t, *old(s), nodes@ + others@, *s, nodes@ + others@);
    }
    let workers = s.tls.slots.len();
    let widx = pool_current_thread_index(pool);
    let worker = match widx {
        Some(i) => if i < workers {
            i
        } else {
            0
        },
        None => 0,
    };
    let mut discovered = node_buffer_new();
    proof {
        assert(nodes@.subrange(0, n_nodes as int) =~= nodes@);
        assert(nodes@.subrange(0, n_nodes as int) + node_buffer_nodes(discovered) =~= nodes@);
        lemma_seq_count_index(nodes@, 0);
        lemma_seq_count_concat(nodes@, others@, nodes@[0] as int);
        assert(flight_count(*s, nodes@ + others@, nodes@[0] as int) >= 1);
        assert(0 <= (nodes@[0] as int) && (nodes@[0] as int) < t.n());
        assert forall|k1: int, k2: int| 0 <= k1 < k2 < nodes@.len() implies nodes@[k1]
            != nodes@[k2] by {
            if nodes@[k1] == nodes@[k2] {
                lemma_seq_count_two(nodes@, k1, k2);
                lemma_seq_count_concat(nodes@, others@, nodes@[k1] as int);
                assert(flight_count(*s, nodes@ + others@, nodes@[k1] as int) >= 2);
            }
        }
        assert forall|k1: int, k2: int, i1: int, i2: int|
            0 <= k1 < k2 < nodes@.len() && #[trigger] post_at(s.log@, i1, nodes@[k1] as int)
                && #[trigger] pre_at(s.log@, i2, nodes@[k2] as int) implies i1 < i2 by {
            lemma_seq_count_index(nodes@, k2);
            lemma_seq_count_concat(nodes@, others@, nodes@[k2] as int);
            assert(flight_count(*s, nodes@ + others@, nodes@[k2] as int) >= 1);
            assert(count_pre(s.log@, nodes@[k2] as int) == 0);
            lemma_pre_at_count(s.log@, i2, nodes@[k2] as int);
        }
        assert(unit_ordered(s.log@, nodes@));
        assert(old(s).log@ =~= s.log@.subrange(0, old(s).log@.len() as int));
    }
    let mut i: usize = 0;
    while i < n_nodes
        invariant
            i <= n_nodes,
            n_nodes == nodes@.len(),
            nodes@.len() <= WORK_UNIT_MAX,
            recursion_depth <= RECURSION_DEPTH_LIMIT,
            worker < s.tls.slots@.len(),
            s.tls.slots@.len() == old(s).tls.slots@.len(),
            st_inv(
                *t,
                *s,
                nodes@.subrange(i as int, n_nodes as int) + node_buffer_nodes(discovered)
                    + others@,
            ),
            i == 0 ==> node_buffer_nodes(discovered) == Seq::<usize>::empty(),
            old(s).log@.is_prefix_of(s.log@),
            forall|k1: int, k2: int| 0 <= k1 < k2 < nodes@.len() ==> nodes@[k1] != nodes@[k2],
            forall|k: int|
                0 <= k < i ==> count_pre(s.log@, (#[trigger] nodes@[k]) as int) == 1 && count_post(
                    s.log@,
                    nodes@[k] as int,
                ) == 1,
            unit_ordered(s.log@, nodes@),
            (forall|k: int|
                0 <= k < nodes@.len() ==> t.num_children((#[trigger] nodes@[k]) as int) == 0) ==> {
                &&& node_buffer_nodes(discovered) == Seq::<usize>::empty()
                &&& s.pending@ == old(s).pending@
                &&& s.spawned_sizes@ == old(s).spawned_sizes@
                &&& s.log@.len() == old(s).log@.len() + 2 * i
            },
            batch_at_depth(*t, nodes@, data.current_dom_depth as int),
            batch_at_depth(*t, node_buffer_nodes(discovered), data.current_dom_depth + 1),
            0 <= (nodes@[0] as int) && (nodes@[0] as int) < t.n(),
            forall|c: int| count_pre(old(s).log@, c) <= #[trigger] count_pre(s.log@, c),
            i >= 1 ==> visited_set(s.log@, t.n()).len() > visited_set(old(s).log@, t.n()).len(),
        decreases n_nodes - i,
    {
        let ghost sub_i = nodes@.subrange(i as int, n_nodes as int);
        let buf_len = node_buffer_as_slice(&discovered).len();
        if buf_len >= WORK_UNIT_MAX {
            let mut data_copy = data;
            data_copy.current_dom_depth = if data.current_dom_depth < usize::MAX {
                data.current_dom_depth + 1
            } else {
                data.current_dom_depth
            };
            let ghost buf0 = node_buffer_nodes(discovered);
            proof {
                assert(i >= 1);
                assert forall|c: int|
                    #[trigger] flight_count(*s, buf0 + (sub_i + others@), c) == flight_count(
                        *s,
                        sub_i + buf0 + others@,
                        c,
                    ) by {
                    lemma_seq_count_concat(buf0, sub_i + others@, c);
                    lemma_seq_count_concat(sub_i, others@, c);
                    lemma_seq_count_concat(sub_i + buf0, others@, c);
                    lemma_seq_count_concat(sub_i, buf0, c);
                }
                lemma_flight_rewrite(
                    *t,
                    *s,
                    sub_i + buf0 + others@,
                    *s,
                    buf0 + (sub_i + others@),
                );
                lemma_visited_set_len(s.log@, t.n());
                lemma_depth_le(*t, nodes@[0] as int);
                assert(t.depth_of(nodes@[0] as int) == data.current_dom_depth as int);
                assert(data.current_dom_depth < usize::MAX);
                assert(data_copy.current_dom_depth == data.current_dom_depth + 1);
                assert(batch_at_depth(*t, buf0, data_copy.current_dom_depth as int));
            }
            let ghost s_mid = *s;
            let buf_slice = node_buffer_as_slice(&discovered);
            traverse_nodes(
                t,
                buf_slice,
                DispatchMode::NotTailCall,
                recursion_depth,
                root,
                data_copy,
                pool,
                s,
                Ghost(sub_i + others@),
            );
            node_buffer_clear(&mut discovered);
            proof {
                assert(sub_i + node_buffer_nodes(discovered) + others@ =~= sub_i + others@);
                lemma_visited_set_monotone(s_mid.log@, s.log@, t.n());
                lemma_visited_set_monotone(old(s).log@, s_mid.log@, t.n());
            }
        }
        let node = *slice_index_get(nodes, i);
        let ghost buf0 = node_buffer_nodes(discovered);
        let ghost log0 = s.log@;
        let ghost s0 = *s;
        let ghost ext0 = sub_i + buf0 + others@;
        proof {
            assert(sub_i[0] == node);
            lemma_seq_count_index(sub_i, 0);
            lemma_seq_count_concat(sub_i, buf0, node as int);
            lemma_seq_count_concat(sub_i + buf0, others@, node as int);
            assert(flight_count(s0, ext0, node as int) >= 1);
            assert(count_pre(log0, node as int) == 0);
            assert(0 <= (node as int) && (node as int) < t.n());
            assert(nodes@[i as int] == node);
            assert(t.depth_of(node as int) == data.current_dom_depth as int);
        }
        s.tls.note_traversed(worker);
        let ghost s1 = *s;
        let ghost epre = Event::Preorder { node, dom_depth: data.current_dom_depth };
        s.log.push(Event::Preorder { node, dom_depth: data.current_dom_depth });
        let ghost log1 = s.log@;
        let n_children = t.children_count(node);
        let ghost kids = t.children_seq()[node as int];
        proof {
            assert(log1 =~= log0.push(epre));
            assert forall|c: int| true implies {
                &&& #[trigger] count_pre(log1, c) == count_pre(log0, c) + if c == node as int {
                    1nat
                } else {
                    0nat
                }
                &&& count_post(log1, c) == count_post(log0, c)
            } by {
                lemma_count_pre_push(log0, epre, c);
                lemma_count_post_push(log0, epre, c);
            }
            assert(kids.len() == n_children);
            assert forall|k: int| 0 <= k < kids.len() implies (#[trigger] kids[k]) as int
                == t.child_at(node as int, k) && t.links(node as int, k, kids[k] as int) by {}
            assert forall|k1: int, k2: int| 0 <= k1 < k2 < kids.len() implies kids[k1]
                != kids[k2] by {
                assert(t.links(node as int, k1, kids[k1] as int));
                assert(t.links(node as int, k2, kids[k2] as int));
                if kids[k1] == kids[k2] {
                    assert(false);
                }
            }
            assert forall|k: int| 0 <= k < kids.len() implies count_pre(
                log0,
                (#[trigger] kids[k]) as int,
            ) == 0 && flight_count(s0, ext0, kids[k] as int) == 0 by {
                let c = kids[k] as int;
                assert(t.links(node as int, k, c));
                assert(t.is_child(node as int, c));
                if flight_count(s0, ext0, c) >= 1 {
                    assert(count_pre(log0, node as int) == 1);
                    assert(false);
                }
                if count_pre(log0, c) >= 1 {
                    let ipos = lemma_count_pre_at(log0, c);
                    let kk = choose|kk: int| 0 <= kk < ipos && pre_at(log0, kk, node as int);
                    assert(pre_at(log0, kk, node as int));
                    lemma_pre_at_count(log0, kk, node as int);
                    assert(false);
                }
            }
        }
        let ghost s_inner = *s;
        let mut j: usize = 0;
        while j < n_children
            invariant
                j <= n_children,
                n_children == kids.len(),
                t.wf(),
                *s == s_inner,
                kids == t.children_seq()[node as int],
                0 <= (node as int) && (node as int) < t.n(),
                ext0 == sub_i + buf0 + others@,
                st_inv(*t, s0, ext0),
                node_buffer_nodes(discovered) == buf0 + kids.subrange(0, j as int),
                forall|k1: int, k2: int| 0 <= k1 < k2 < kids.len() ==> kids[k1] != kids[k2],
                forall|k: int|
                    0 <= k < kids.len() ==> count_pre(log0, (#[trigger] kids[k]) as int) == 0
                        && flight_count(s0, ext0, kids[k] as int) == 0,
                forall|k: int|
                    0 <= k < kids.len() ==> (#[trigger] kids[k]) as int == t.child_at(
                        node as int,
                        k,
                    ),
            decreases n_children - j,
        {
            let ch = t.child(node, j);
            proof {
                let bufj = node_buffer_nodes(discovered);
                assert forall|c: int| #[trigger] seq_count(bufj, c) <= 1 && (seq_count(bufj, c) >= 1
                    ==> 0 <= c < t.n()) by {
                    lemma_seq_count_concat(buf0, kids.subrange(0, j as int), c);
                    assert(seq_count(buf0, c) <= flight_count(s0, ext0, c)) by {
                        lemma_seq_count_concat(sub_i, buf0, c);
                        lemma_seq_count_concat(sub_i + buf0, others@, c);
                    }
                    lemma_seq_count_le1(kids.subrange(0, j as int), c);
                    if seq_count(kids.subrange(0, j as int), c) >= 1 {
                        let kpos = lemma_seq_count_pos(kids.subrange(0, j as int), c);
                        assert(kids[kpos] as int == c);
                        assert(flight_count(s0, ext0, c) == 0);
                        assert(seq_count(buf0, c) == 0);
                        assert(0 <= c < t.n()) by {
                            assert(t.links(node as int, kpos, c));
                        }
                    }
                }
                lemma_distinct_len(bufj, t.n());
                assert(bufj.len() < usize::MAX);
            }
            node_buffer_push(&mut discovered, ch);
            proof {
                assert(buf0 + kids.subrange(0, j as int + 1) =~= (buf0 + kids.subrange(
                    0,
                    j as int,
                )).push(ch));
            }
            j += 1;
        }
        let ghost epost = Event::Postorder { node, children_count: n_children };
        s.log.push(Event::Postorder { node, children_count: n_children });
        proof {
            let log2 = s.log@;
            let s2 = *s;
            let buff = buf0 + kids;
            let sub_i1 = nodes@.subrange(i as int + 1, n_nodes as int);
            let ext1 = sub_i1 + buff + others@;
            assert(kids.subrange(0, kids.len() as int) =~= kids);
            assert(node_buffer_nodes(discovered) == buff);
            assert(log2 =~= log1.push(epost));
            assert forall|c: int| true implies {
                &&& #[trigger] count_pre(log2, c) == count_pre(log0, c) + if c == node as int {
                    1nat
                } else {
                    0nat
                }
                &&& count_post(log2, c) == count_post(log0, c) + if c == node as int {
                    1nat
                } else {
                    0nat
                }
            } by {
                lemma_count_pre_push(log1, epost, c);
                lemma_count_post_push(log1, epost, c);
            }
            // each node is its own parent's child exactly once in the kid batch
            assert forall|c: int| true implies #[trigger] seq_count(kids, c) == if t.is_child(
                node as int,
                c,
            ) {
                1nat
            } else {
                0nat
            } by {
                lemma_seq_count_le1(kids, c);
                if t.is_child(node as int, c) {
                    let k = choose|k: int| t.links(node as int, k, c);
                    lemma_seq_count_index(kids, k);
                }
                if seq_count(kids, c) >= 1 {
                    let kpos = lemma_seq_count_pos(kids, c);
                    assert(t.links(node as int, kpos, c));
                    assert(t.is_child(node as int, c));
                }
            }
            assert(!t.is_child(node as int, node as int));
            // the flight change from taking `node` and adding its children
            assert forall|c: int| true implies #[trigger] flight_count(s2, ext1, c) + (if c
                == node as int {
                1nat
            } else {
                0nat
            }) == flight_count(s0, ext0, c) + seq_count(kids, c) by {
                lemma_seq_count_concat(sub_i1, buff, c);
                lemma_seq_count_concat(sub_i1 + buff, others@, c);
                lemma_seq_count_concat(buf0, kids, c);
                lemma_seq_count_concat(sub_i, buf0, c);
                lemma_seq_count_concat(sub_i + buf0, others@, c);
                assert(sub_i =~= nodes@.subrange(i as int, i as int + 1) + sub_i1);
                lemma_seq_count_concat(nodes@.subrange(i as int, i as int + 1), sub_i1, c);
                assert(nodes@.subrange(i as int, i as int + 1) =~= Seq::<usize>::empty().push(
                    node,
                ));
                lemma_seq_count_push(Seq::<usize>::empty(), node, c);
            }
            // every clause of the invariant, re-established
            assert forall|c: int|
                count_pre(log2, c) + #[trigger] flight_count(s2, ext1, c) <= 1 && (!(0 <= c < t.n())
                    ==> flight_count(s2, ext1, c) == 0) by {
                if c == node as int {
                    assert(flight_count(s0, ext0, c) >= 1);
                } else if t.is_child(node as int, c) {
                    let k = choose|k: int| t.links(node as int, k, c);
                    assert(flight_count(s0, ext0, c) == 0);
                    assert(count_pre(log0, c) == 0);
                    assert(0 <= c < t.n());
                } else {
                    assert(flight_count(s2, ext1, c) == flight_count(s0, ext0, c));
                }
            }
            assert forall|p: int, c: int|
                #[trigger] t.is_child(p, c) && #[trigger] flight_count(s2, ext1, c)
                    >= 1 implies count_pre(log2, p) == 1 by {
                if flight_count(s0, ext0, c) >= 1 {
                    assert(count_pre(log0, p) == 1);
                    if p == node as int {
                        assert(false);
                    }
                } else {
                    assert(seq_count(kids, c) >= 1);
                    assert(t.is_child(node as int, c));
                    let k1 = choose|k1: int| t.links(p, k1, c);
                    let k2 = choose|k2: int| t.links(node as int, k2, c);
                    assert(p == node as int);
                }
            }
            assert forall|p: int, c: int|
                #[trigger] t.is_child(p, c) && #[trigger] count_pre(log2, p) == 1 implies count_pre(
                log2,
                c,
            ) + flight_count(s2, ext1, c) == 1 by {
                if p == node as int {
                    assert(seq_count(kids, c) == 1);
                    assert(flight_count(s0, ext0, c) == 0);
                    assert(count_pre(log0, c) == 0);
                    if c == node as int {
                        assert(false);
                    }
                } else {
                    assert(count_pre(log0, p) == 1);
                    assert(count_pre(log0, c) + flight_count(s0, ext0, c) == 1);
                    if c == node as int {
                        assert(count_pre(log0, c) == 0);
                        assert(flight_count(s0, ext0, c) == 1);
                    } else if t.is_child(node as int, c) {
                        let k1 = choose|k1: int| t.links(p, k1, c);
                        let k2 = choose|k2: int| t.links(node as int, k2, c);
                        assert(p == node as int);
                        assert(false);
                    } else {
                        assert(seq_count(kids, c) == 0);
                    }
                }
            }
            assert(count_pre(log2, 0) + flight_count(s2, ext1, 0) == 1) by {
                if node as int == 0 {
                    assert(flight_count(s0, ext0, 0) >= 1);
                } else {
                    assert(!t.is_child(node as int, 0)) by {
                        if t.is_child(node as int, 0) {
                            let k = choose|k: int| t.links(node as int, k, 0);
                        }
                    }
                    assert(seq_count(kids, 0) == 0);
                }
            }
            // the log ordering clauses
            assert(log2.len() == log0.len() + 2);
            assert(log2[log0.len() as int] == epre);
            assert(log2[log0.len() as int + 1] == epost);
            assert forall|ii: int, c: int| 0 <= ii < log0.len() implies (#[trigger] pre_at(
                log2,
                ii,
                c,
            ) == pre_at(log0, ii, c) && post_at(log2, ii, c) == post_at(log0, ii, c)
                && log2[ii] == log0[ii]) by {}
            assert forall|ii: int, p: int, c: int|
                #[trigger] pre_at(log2, ii, c) && #[trigger] t.is_child(p, c) implies exists|k: int|
                0 <= k < ii && pre_at(log2, k, p) by {
                if ii < log0.len() {
                    assert(pre_at(log0, ii, c));
                    let k = choose|k: int| 0 <= k < ii && pre_at(log0, k, p);
                    assert(pre_at(log2, k, p));
                } else {
                    assert(ii == log0.len() && c == node as int);
                    assert(flight_count(s0, ext0, c) >= 1);
                    assert(count_pre(log0, p) == 1);
                    let k = lemma_count_pre_at(log0, p);
                    assert(pre_at(log2, k, p));
                }
            }
            assert forall|ii: int, c: int| #[trigger] post_at(log2, ii, c) implies exists|k: int|
                0 <= k < ii && pre_at(log2, k, c) by {
                if ii < log0.len() {
                    assert(post_at(log0, ii, c));
                    let k = choose|k: int| 0 <= k < ii && pre_at(log0, k, c);
                    assert(pre_at(log2, k, c));
                } else {
                    assert(ii == log0.len() + 1 && c == node as int);
                    assert(pre_at(log2, log0.len() as int, c));
                }
            }
            assert forall|ii: int|
                0 <= ii < log2.len() && #[trigger] post_info(log2[ii]) is Some implies {
                &&& 0 <= post_info(log2[ii]).unwrap().0 < t.n()
                &&& post_info(log2[ii]).unwrap().1 == t.num_children(post_info(log2[ii]).unwrap().0)
            } by {
                if ii < log0.len() {
                    assert(log2[ii] == log0[ii]);
                }
            }
            // visited set growth
            lemma_visited_set_push(log0, epre, t.n());
            lemma_visited_set_push(log1, epost, t.n());
            assert(visited_set(log2, t.n()) == visited_set(log0, t.n()).insert(node as int));
            lemma_visited_set_len(log0, t.n());
            assert(!visited_set(log0, t.n()).contains(node as int));
            assert(visited_set(log2, t.n()).len() == visited_set(log0, t.n()).len() + 1);
            lemma_visited_set_monotone(old(s).log@, log0, t.n());
            assert(sub_i1 =~= nodes@.subrange(i as int + 1, n_nodes as int));
            // the worker's slot counted this node, and nothing else moved
            assert(visited_set(log0, t.n()).len() <= t.n() - 1) by {
                lemma_int_range(0, t.n() as int);
                assert(set_int_range(0, t.n() as int).contains(node as int));
                assert(visited_set(log0, t.n()).subset_of(
                    set_int_range(0, t.n() as int).remove(node as int),
                ));
                lemma_len_subset(
                    visited_set(log0, t.n()),
                    set_int_range(0, t.n() as int).remove(node as int),
                );
            }
            lemma_sum_bounds(s0.tls.slots@, worker as int);
            assert(slot_traversed(s0.tls.slots@[worker as int]) < u64::MAX);
            lemma_sum_update(s0.tls.slots@, s2.tls.slots@, worker as int);
            assert(sum_traversed(s2.tls.slots@) == visited_set(log2, t.n()).len());
            assert forall|w: int| 0 <= w < s2.tls.slots@.len() implies slot_clean(
                #[trigger] s2.tls.slots@[w],
            ) by {
                if w != worker {
                    assert(s2.tls.slots@[w] == s0.tls.slots@[w]);
                } else {
                    assert(slot_clean(s0.tls.slots@[w]));
                }
            }
            // recorded depths stay truthful, and the refilled buffer sits
            // one level below this unit
            assert forall|ii: int|
                0 <= ii < log2.len() && #[trigger] pre_info(log2[ii]) is Some implies pre_info(
                log2[ii],
            ).unwrap().1 == t.depth_of(pre_info(log2[ii]).unwrap().0) by {
                if ii < log0.len() {
                    assert(log2[ii] == log0[ii]);
                } else if ii == log0.len() {
                    assert(log2[ii] == epre);
                    assert(t.depth_of(node as int) == data.current_dom_depth as int);
                } else {
                    assert(log2[ii] == epost);
                }
            }
            assert forall|k: int|
                0 <= k < buff.len() implies t.depth_of((#[trigger] buff[k]) as int)
                    == data.current_dom_depth + 1 by {
                if k < buf0.len() {
                    assert(buff[k] == buf0[k]);
                } else {
                    let kk = k - buf0.len();
                    assert(buff[k] == kids[kk]);
                    assert(t.links(node as int, kk, kids[kk] as int));
                    assert(t.is_child(node as int, kids[kk] as int));
                    lemma_depth_child(*t, node as int, kids[kk] as int);
                }
            }
            // this unit stays processed strictly in list order
            lemma_prefix_push(log0, epre);
            lemma_prefix_push(log1, epost);
            lemma_prefix_trans(log0, log1, log2);
            lemma_prefix_trans(old(s).log@, log0, log2);
            assert forall|k: int|
                0 <= k < i + 1 implies count_pre(log2, (#[trigger] nodes@[k]) as int) == 1
                    && count_post(log2, nodes@[k] as int) == 1 by {
                if k < i {
                    assert(nodes@[k] != node);
                }
            }
            assert forall|k1: int, k2: int, i1: int, i2: int|
                0 <= k1 < k2 < nodes@.len() && #[trigger] post_at(log2, i1, nodes@[k1] as int)
                    && #[trigger] pre_at(log2, i2, nodes@[k2] as int) implies i1 < i2 by {
                let n1 = nodes@[k1] as int;
                let n2 = nodes@[k2] as int;
                if i2 < log0.len() {
                    assert(pre_at(log0, i2, n2));
                    if i1 < log0.len() {
                        assert(post_at(log0, i1, n1));
                    } else {
                        assert(log2[i1] == epost && n1 == node as int);
                        assert(k1 == i);
                        assert(k2 > i);
                        lemma_seq_count_index(sub_i, k2 - i);
                        lemma_seq_count_concat(sub_i, buf0, n2);
                        lemma_seq_count_concat(sub_i + buf0, others@, n2);
                        assert(flight_count(s0, ext0, n2) >= 1);
                        assert(count_pre(log0, n2) == 0);
                        lemma_pre_at_count(log0, i2, n2);
                    }
                } else {
                    assert(log2[i2] == epre && n2 == node as int);
                    assert(k2 == i && i2 == log0.len());
                    assert(k1 < i);
                    if i1 >= log0.len() {
                        assert(log2[i1] == epre || log2[i1] == epost);
                        assert(n1 == node as int);
                        assert(k1 == i);
                    }
                }
            }
        }
        i += 1;
    }
    let rem_len = node_buffer_as_slice(&discovered).len();
    proof {
        assert(nodes@.subrange(n_nodes as int, n_nodes as int) + node_buffer_nodes(discovered)
            + others@ =~= node_buffer_nodes(discovered) + others@);
    }
    if rem_len > 0 {
        let mut data2 = data;
        data2.current_dom_depth = if data.current_dom_depth < usize::MAX {
            data.current_dom_depth + 1
        } else {
            data.current_dom_depth
        };
        proof {
            lemma_visited_set_len(s.log@, t.n());
            lemma_depth_le(*t, nodes@[0] as int);
            assert(t.depth_of(nodes@[0] as int) == data.current_dom_depth as int);
            assert(data.current_dom_depth < usize::MAX);
            assert(data2.current_dom_depth == data.current_dom_depth + 1);
            assert(batch_at_depth(
                *t,
                node_buffer_nodes(discovered),
                data2.current_dom_depth as int,
            ));
        }
        let ghost s_before = *s;
        let rem_slice = node_buffer_as_slice(&discovered);
        traverse_nodes(
            t,
            rem_slice,
            DispatchMode::TailCall,
            recursion_depth,
            root,
            data2,
            pool,
            s,
            others,
        );
        proof {
            lemma_visited_set_monotone(s_before.log@, s.log@, t.n());
            lemma_visited_set_monotone(old(s).log@, s_before.log@, t.n());
            lemma_prefix_trans(old(s).log@, s_before.log@, s.log@);
            assert forall|k: int|
                0 <= k < nodes@.len() implies count_pre(s.log@, (#[trigger] nodes@[k]) as int)
                    == 1 && count_post(s.log@, nodes@[k] as int) == 1 by {
                assert(count_pre(s_before.log@, nodes@[k] as int) == 1);
            }
            lemma_unit_ordered_extend(s_before.log@, s.log@, nodes@);
        }
    } else {
        proof {
            assert(node_buffer_nodes(discovered) + others@ =~= others@);
        }
    }
}

/// The dispatcher: given a batch of discovered nodes, guarantees every one
/// of them is processed in some future work unit. An oversized batch is
/// split into capacity-sized chunks, each spawned unconditionally; a batch
/// that fits becomes one work unit, processed on this stack when the mode,
/// the recursion depth and the worker's queue allow, and spawned otherwise.
fn traverse_nodes(
    t: &Tree,
    nodes: &[usize],
    mode: DispatchMode,
    recursion_depth: usize,
    root: usize,
    data: PerLevelTraversalData,
    pool: &rayon::ThreadPool,
    s: &mut TraversalState,
    others: Ghost<Seq<usize>>,
)
    requires
        nodes@.len() >= 1,
        recursion_depth <= RECURSION_DEPTH_LIMIT,
        batch_at_depth(*t, nodes@, data.current_dom_depth as int),
        st_inv(*t, *old(s), nodes@ + others@),
    ensures
        st_inv(*t, *final(s), others@),
        forall|c: int| count_pre(old(s).log@, c) <= #[trigger] count_pre((*final(s)).log@, c),
        (*final(s)).tls.slots@.len() == old(s).tls.slots@.len(),
        nodes@.len() > WORK_UNIT_MAX ==> chunked(*old(s), *final(s), nodes@, data),
        mode == DispatchMode::NotTailCall ==> (*final(s)).log@ == old(s).log@,
        old(s).log@.is_prefix_of((*final(s)).log@),
    decreases t.n() - visited_set(s.log@, t.n()).len(), RECURSION_DEPTH_LIMIT + 1 - recursion_depth, 1int,
{
    let n_nodes = nodes.len();
    let pending_hint = pool_has_pending_tasks(pool);
    let has_pending = match pending_hint {
        Some(b) => b,
        None => false,
    };
    let may_tail = may_dispatch_tail(mode, recursion_depth, has_pending);
    if n_nodes <= WORK_UNIT_MAX {
        let mut work = work_unit_new();
        let mut k: usize = 0;
        while k < n_nodes
            invariant
                k <= n_nodes,
                n_nodes == nodes@.len(),
                n_nodes <= WORK_UNIT_MAX,
                work_unit_nodes(work) == nodes@.subrange(0, k as int),
            decreases n_nodes - k,
        {
            let x = *slice_index_get(nodes, k);
            work_unit_push(&mut work, x);
            proof {
                assert(nodes@.subrange(0, k as int + 1) =~= nodes@.subrange(0, k as int).push(x));
            }
            k += 1;
        }
        proof {
            assert(nodes@.subrange(0, n_nodes as int) =~= nodes@);
        }
        if may_tail {
            proof {
                lemma_visited_set_len(s.log@, t.n());
            }
            let work_slice = work_unit_as_slice(&work);
            top_down_dom(t, work_slice, recursion_depth + 1, root, data, pool, s, others);
        } else {
            s.spawned_sizes.push(n_nodes);
            let u = PendingUnit { nodes: work, data };
            let ghost gu = u;
            s.pending.push(u);
            proof {
                assert(s.pending@ =~= old(s).pending@.push(gu));
                assert forall|c: int|
                    #[trigger] flight_count(*s, others@, c) == flight_count(
                        *old(s),
                        nodes@ + others@,
                        c,
                    ) by {
                    lemma_pend_count_push(old(s).pending@, gu, c);
                    lemma_seq_count_concat(nodes@, others@, c);
                }
                assert(misc_inv(*t, *s)) by {
                    assert forall|uu: int| 0 <= uu < s.pending@.len() implies 1
                        <= #[trigger] work_unit_nodes(s.pending@[uu].nodes).len()
                        <= WORK_UNIT_MAX by {
                        if uu < s.pending@.len() - 1 {
                            assert(s.pending@[uu] == old(s).pending@[uu]);
                        } else {
                            assert(s.pending@[uu] == gu);
                        }
                    }
                    assert forall|uu: int| 0 <= uu < s.pending@.len() implies unit_depth_ok(
                        *t,
                        #[trigger] s.pending@[uu],
                    ) by {
                        if uu < s.pending@.len() - 1 {
                            assert(s.pending@[uu] == old(s).pending@[uu]);
                        } else {
                            assert(s.pending@[uu] == gu);
                            assert(work_unit_nodes(gu.nodes) == nodes@);
                        }
                    }
                }
                lemma_flight_rewrite(*t, *old(s), nodes@ + others@, *s, others@);
            }
        }
    } else {
        let mut start: usize = 0;
        let ghost mut done: int = 0;
        proof {
            assert(nodes@.subrange(0, n_nodes as int) =~= nodes@);
        }
        while start < n_nodes
            invariant
                start <= n_nodes,
                n_nodes == nodes@.len(),
                n_nodes > WORK_UNIT_MAX,
                batch_at_depth(*t, nodes@, data.current_dom_depth as int),
                st_inv(*t, *s, nodes@.subrange(start as int, n_nodes as int) + others@),
                s.log@ == old(s).log@,
                s.unit_sizes@ == old(s).unit_sizes@,
                s.tls == old(s).tls,
                s.tls.slots@.len() == old(s).tls.slots@.len(),
                done >= 0,
                s.pending@.len() == old(s).pending@.len() + done,
                s.spawned_sizes@.len() == old(s).spawned_sizes@.len() + done,
                forall|u: int|
                    0 <= u < old(s).pending@.len() ==> s.pending@[u] == old(s).pending@[u],
                forall|u: int|
                    0 <= u < old(s).spawned_sizes@.len() ==> s.spawned_sizes@[u] == old(
                        s,
                    ).spawned_sizes@[u],
                forall|ci: int|
                    0 <= ci < done ==> {
                        &&& work_unit_nodes(
                            (#[trigger] s.pending@[old(s).pending@.len() + ci]).nodes,
                        ) == nodes@.subrange(
                            WORK_UNIT_MAX * ci,
                            chunk_end(nodes@.len() as int, ci),
                        )
                        &&& s.pending@[old(s).pending@.len() + ci].data == data
                    },
                forall|ci: int|
                    0 <= ci < done ==> #[trigger] s.spawned_sizes@[old(s).spawned_sizes@.len()
                        + ci] == chunk_end(nodes@.len() as int, ci) - WORK_UNIT_MAX * ci,
                start < n_nodes ==> start == WORK_UNIT_MAX * done,
                start < n_nodes ==> done + chunk_count(n_nodes - start) == chunk_count(
                    n_nodes as int,
                ),
                start == n_nodes ==> done == chunk_count(n_nodes as int),
            decreases n_nodes - start,
        {
            let remaining = n_nodes - start;
            let this_chunk = if remaining < WORK_UNIT_MAX {
                remaining
            } else {
                WORK_UNIT_MAX
            };
            let end = start + this_chunk;
            let mut work = work_unit_new();
            let mut k: usize = start;
            while k < end
                invariant
                    start <= k <= end <= n_nodes,
                    n_nodes == nodes@.len(),
                    end - start <= WORK_UNIT_MAX,
                    work_unit_nodes(work) == nodes@.subrange(start as int, k as int),
                decreases end - k,
            {
                let x = *slice_index_get(nodes, k);
                work_unit_push(&mut work, x);
                proof {
                    assert(nodes@.subrange(start as int, k as int + 1) =~= nodes@.subrange(
                        start as int,
                        k as int,
                    ).push(x));
                }
                k += 1;
            }
            let ghost s0 = *s;
            s.spawned_sizes.push(this_chunk);
            let u = PendingUnit { nodes: work, data };
            let ghost gu = u;
            s.pending.push(u);
            proof {
                assert(s.pending@ =~= s0.pending@.push(gu));
                assert forall|c: int|
                    #[trigger] flight_count(
                        *s,
                        nodes@.subrange(end as int, n_nodes as int) + others@,
                        c,
                    ) == flight_count(
                        s0,
                        nodes@.subrange(start as int, n_nodes as int) + others@,
                        c,
                    ) by {
                    lemma_pend_count_push(s0.pending@, gu, c);
                    lemma_seq_count_concat(
                        nodes@.subrange(start as int, n_nodes as int),
                        others@,
                        c,
                    );
                    lemma_seq_count_concat(nodes@.subrange(end as int, n_nodes as int), others@, c);
                    assert(nodes@.subrange(start as int, n_nodes as int) =~= nodes@.subrange(
                        start as int,
                        end as int,
                    ) + nodes@.subrange(end as int, n_nodes as int));
                    lemma_seq_count_concat(
                        nodes@.subrange(start as int, end as int),
                        nodes@.subrange(end as int, n_nodes as int),
                        c,
                    );
                }
                assert(misc_inv(*t, *s)) by {
                    assert forall|uu: int| 0 <= uu < s.pending@.len() implies 1
                        <= #[trigger] work_unit_nodes(s.pending@[uu].nodes).len()
                        <= WORK_UNIT_MAX by {
                        if uu < s.pending@.len() - 1 {
                            assert(s.pending@[uu] == s0.pending@[uu]);
                        } else {
                            assert(s.pending@[uu] == gu);
                        }
                    }
                    assert forall|uu: int| 0 <= uu < s.pending@.len() implies unit_depth_ok(
                        *t,
                        #[trigger] s.pending@[uu],
                    ) by {
                        if uu < s.pending@.len() - 1 {
                            assert(s.pending@[uu] == s0.pending@[uu]);
                        } else {
                            assert(s.pending@[uu] == gu);
                            assert forall|kk: int|
                                0 <= kk < work_unit_nodes(gu.nodes).len() implies t.depth_of(
                                (#[trigger] work_unit_nodes(gu.nodes)[kk]) as int,
                            ) == data.current_dom_depth as int by {
                                assert(work_unit_nodes(gu.nodes)[kk] == nodes@[start as int + kk]);
                            }
                        }
                    }
                }
                lemma_flight_rewrite(
                    *t,
                    s0,
                    nodes@.subrange(start as int, n_nodes as int) + others@,
                    *s,
                    nodes@.subrange(end as int, n_nodes as int) + others@,
                );
                done = done + 1;
                assert(start == WORK_UNIT_MAX * (done - 1));
                assert(chunk_end(n_nodes as int, done - 1) == end as int);
                assert(work_unit_nodes(gu.nodes) == nodes@.subrange(
                    WORK_UNIT_MAX * (done - 1),
                    chunk_end(n_nodes as int, done - 1),
                ));
                if end < n_nodes {
                    assert(this_chunk == WORK_UNIT_MAX);
                    assert(chunk_count(n_nodes - start) == 1 + chunk_count(n_nodes - end));
                } else {
                    assert(chunk_count(n_nodes - start) == 1);
                }
            }
            start = end;
        }
        proof {
            assert(nodes@.subrange(n_nodes as int, n_nodes as int) + others@ =~= others@);
        }
    }
}

/// The result of a pre-traversal eligibility check, handed to the driver
/// by the caller: the traversal runs only with a token that allows it.
pub struct PreTraverseToken {
    traverse: bool,
}

impl PreTraverseToken {
    /// Whether this token allows the traversal.
    pub closed spec fn spec_should_traverse(&self) -> bool {
        self.traverse
    }

    pub fn new(traverse: bool) -> (r: PreTraverseToken)
        ensures
            r.spec_should_traverse() == traverse,
    {
        PreTraverseToken { traverse }
    }

    pub fn should_traverse(&self) -> (r: bool)
        ensures
            r == self.spec_should_traverse(),
    {
        self.traverse
    }
}

/// What one traversal produced: the event log, the size of every work
/// unit processed and of every unit spawned as a task, the merged
/// statistics when they were requested, and the report line when the
/// traversal was classified large.
pub struct TraversalOutcome {
    pub log: Vec<Event>,
    pub unit_sizes: Vec<usize>,
    pub spawned_sizes: Vec<usize>,
    pub statistics: Option<TraversalStatistics>,
    pub report: Option<String>,
}

/// Once nothing is in flight, every node is visited: walking parent links
/// down to the root, each link's parent is visited, and every child of a
/// visited node is visited.
proof fn lemma_all_visited(t: Tree, s: TraversalState, c: int)
    requires
        st_inv(t, s, Seq::<usize>::empty()),
        s.pending@.len() == 0,
        0 <= c < t.n(),
    ensures
        count_pre(s.log@, c) == 1,
    decreases c,
{
    assert(flight_count(s, Seq::<usize>::empty(), c) == 0);
    if c == 0 {
    } else {
        assert(t.has_parent(c));
        let (p, j) = choose|p: int, j: int| t.links(p, j, c);
        assert(t.links(p, j, c));
        assert(0 <= p < c);
        lemma_all_visited(t, s, p);
        assert(t.is_child(p, c));
        assert(flight_count(s, Seq::<usize>::empty(), c) == 0);
    }
}

/// Entry point for the parallel traversal: performs one complete
/// top-down, breadth-first pass over the tree. Every node's preorder and
/// postorder step runs exactly once, a node's preorder step only after
/// its parent's, every postorder step with the node's exact child count,
/// and no work unit ever exceeds the capacity. When requested, the
/// per-worker statistics are merged and stamped, and a report line is
/// produced for a large traversal.
pub fn traverse_dom(
    t: &Tree,
    token: PreTraverseToken,
    dump_statistics: bool,
    pool: &rayon::ThreadPool,
) -> (r: TraversalOutcome)
    requires
        t.wf(),
        token.spec_should_traverse(),
    ensures
        log_inv(*t, r.log@),
        forall|c: int|
            0 <= c < t.n() ==> #[trigger] count_pre(r.log@, c) == 1 && count_post(r.log@, c) == 1,
        forall|c: int|
            !(0 <= c < t.n()) ==> #[trigger] count_pre(r.log@, c) == 0 && count_post(r.log@, c)
                == 0,
        forall|i: int|
            0 <= i < r.unit_sizes@.len() ==> 1 <= #[trigger] r.unit_sizes@[i] <= WORK_UNIT_MAX,
        forall|i: int|
            0 <= i < r.spawned_sizes@.len() ==> 1 <= #[trigger] r.spawned_sizes@[i]
                <= WORK_UNIT_MAX,
        (r.statistics is Some) == dump_statistics,
        dump_statistics ==> r.statistics.unwrap().elements_traversed == t.n()
            && r.statistics.unwrap().is_parallel,
        dump_statistics ==> r.statistics.unwrap().elements_styled == 0
            && r.statistics.unwrap().styles_shared == 0,
        (r.report is Some) == (dump_statistics && r.statistics.unwrap().elements_traversed
            >= LARGE_TRAVERSAL_MIN),
{
    let start_time: i128 = if dump_statistics {
        now_unix_ns()
    } else {
        0
    };
    let workers = pool_num_threads(pool);
    let mut s = TraversalState {
        pending: Vec::new(),
        log: Vec::new(),
        unit_sizes: Vec::new(),
        spawned_sizes: Vec::new(),
        tls: ScopedTls::new(workers),
    };
    let mut root_unit = work_unit_new();
    work_unit_push(&mut root_unit, 0);
    let data = PerLevelTraversalData { current_dom_depth: 0 };
    let ghost seed = Seq::<usize>::empty().push(0usize);
    proof {
        assert(work_unit_nodes(root_unit) == seed);
        assert forall|c: int| true implies {
            &&& #[trigger] count_pre(s.log@, c) == 0
            &&& count_post(s.log@, c) == 0
            &&& flight_count(s, seed + Seq::<usize>::empty(), c) == if c == 0 {
                1nat
            } else {
                0nat
            }
        } by {
            lemma_seq_count_concat(seed, Seq::<usize>::empty(), c);
            lemma_seq_count_push(Seq::<usize>::empty(), 0usize, c);
        }
        assert forall|p: int| true implies !t.is_child(p, 0) by {
            if t.is_child(p, 0) {
                let j = choose|j: int| t.links(p, j, 0);
            }
        }
        lemma_sum_empty(s.tls.slots@);
        assert(visited_set(s.log@, t.n()) =~= Set::<int>::empty());
        assert(st_inv(*t, s, seed + Seq::<usize>::empty()));
        assert forall|k: int| 0 <= k < seed.len() implies t.depth_of((#[trigger] seed[k]) as int)
            == 0 by {
            assert(seed[k] == 0usize);
        }
        assert(batch_at_depth(*t, seed, 0));
    }
    let root_slice = work_unit_as_slice(&root_unit);
    traverse_nodes(
        t,
        root_slice,
        DispatchMode::TailCall,
        0,
        0,
        data,
        pool,
        &mut s,
        Ghost(Seq::<usize>::empty()),
    );
    while s.pending.len() > 0
        invariant
            st_inv(*t, s, Seq::<usize>::empty()),
        decreases t.n() - visited_set(s.log@, t.n()).len(),
    {
        let ghost s0 = s;
        let unit = s.pending.pop().unwrap();
        let ghost gu = unit;
        proof {
            assert(s0.pending@ =~= s.pending@.push(gu));
            assert forall|c: int|
                #[trigger] flight_count(s, work_unit_nodes(gu.nodes) + Seq::<usize>::empty(), c)
                    == flight_count(s0, Seq::<usize>::empty(), c) by {
                lemma_pend_count_push(s.pending@, gu, c);
                lemma_seq_count_concat(work_unit_nodes(gu.nodes), Seq::<usize>::empty(), c);
            }
            assert(1 <= work_unit_nodes(gu.nodes).len() <= WORK_UNIT_MAX) by {
                assert(work_unit_nodes(s0.pending@[s0.pending@.len() - 1].nodes).len() >= 1);
            }
            assert forall|uu: int| 0 <= uu < s.pending@.len() implies unit_depth_ok(
                *t,
                #[trigger] s.pending@[uu],
            ) by {
                assert(s.pending@[uu] == s0.pending@[uu]);
            }
            assert(unit_depth_ok(*t, gu)) by {
                assert(gu == s0.pending@[s0.pending@.len() - 1]);
            }
            lemma_flight_rewrite(
                *t,
                s0,
                Seq::<usize>::empty(),
                s,
                work_unit_nodes(gu.nodes) + Seq::<usize>::empty(),
            );
            lemma_visited_set_len(s.log@, t.n());
        }
        let unit_slice = work_unit_as_slice(&unit.nodes);
        top_down_dom(t, unit_slice, 0, 0, unit.data, pool, &mut s, Ghost(Seq::<usize>::empty()));
        proof {
            lemma_visited_set_len(s.log@, t.n());
        }
    }
    let ghost glog = s.log@;
    let ghost gunits = s.unit_sizes@;
    let ghost gspawned = s.spawned_sizes@;
    let ghost gslots = s.tls.slots@;
    proof {
        assert forall|c: int| 0 <= c < t.n() implies #[trigger] count_pre(glog, c) == 1
            && count_post(glog, c) == 1 by {
            lemma_all_visited(*t, s, c);
            assert(count_pre(glog, c) == count_pre(s.log@, c));
        }
        assert forall|c: int| !(0 <= c < t.n()) implies #[trigger] count_pre(glog, c) == 0
            && count_post(glog, c) == 0 by {
            assert(flight_count(s, Seq::<usize>::empty(), c) == 0);
            assert(count_pre(glog, c) == count_pre(s.log@, c));
        }
        assert(log_inv(*t, glog));
        assert forall|i: int| 0 <= i < gunits.len() implies 1 <= #[trigger] gunits[i]
            <= WORK_UNIT_MAX by {
            assert(gunits[i] == s.unit_sizes@[i]);
        }
        assert forall|i: int| 0 <= i < gspawned.len() implies 1 <= #[trigger] gspawned[i]
            <= WORK_UNIT_MAX by {
            assert(gspawned[i] == s.spawned_sizes@[i]);
        }
        assert(visited_set(glog, t.n()) =~= set_int_range(0, t.n() as int)) by {
            assert forall|c: int| set_int_range(0, t.n() as int).contains(c) implies visited_set(
                glog,
                t.n(),
            ).contains(c) by {
                assert(count_pre(glog, c) == 1);
            }
        }
        lemma_int_range(0, t.n() as int);
        assert(sum_traversed(gslots) == t.n()) by {
            assert(sum_traversed(gslots) == sum_traversed(s.tls.slots@));
            assert(visited_set(glog, t.n()) == visited_set(s.log@, t.n()));
        }
        assert forall|w: int| 0 <= w < gslots.len() implies slot_clean(#[trigger] gslots[w]) by {
            assert(gslots[w] == s.tls.slots@[w]);
        }
    }
    let statistics = if dump_statistics {
        let mut aggregate: TraversalStatistics = Default::default();
        let mut i: usize = 0;
        let n_slots = s.tls.slots.len();
        while i < n_slots
            invariant
                i <= n_slots,
                s.log@ == glog,
                s.unit_sizes@ == gunits,
                s.spawned_sizes@ == gspawned,
                s.tls.slots@ == gslots,
                n_slots == s.tls.slots@.len(),
                t.wf(),
                sum_traversed(gslots) == t.n(),
                aggregate.elements_traversed == sum_traversed(gslots.subrange(0, i as int)),
                aggregate.elements_styled == 0,
                aggregate.styles_shared == 0,
                forall|w: int| 0 <= w < gslots.len() ==> slot_clean(#[trigger] gslots[w]),
            decreases n_slots - i,
        {
            proof {
                assert(gslots.subrange(0, i as int + 1).drop_last() =~= gslots.subrange(
                    0,
                    i as int,
                ));
                assert(gslots.subrange(0, i as int + 1).last() == gslots[i as int]);
                lemma_sum_prefix(gslots, i as int + 1);
                lemma_sum_nonneg(gslots.subrange(0, i as int));
                assert(s.tls.slots@[i as int] == gslots[i as int]);
                assert(slot_clean(gslots[i as int]));
            }
            match &s.tls.slots[i] {
                Some(cx) => {
                    aggregate = aggregate.merge(&cx.statistics);
                },
                None => {},
            }
            i += 1;
        }
        proof {
            assert(gslots.subrange(0, n_slots as int) =~= gslots);
        }
        let end_time = now_unix_ns();
        aggregate.finish(elapsed_ns(start_time, end_time), true);
        Some(aggregate)
    } else {
        None
    };
    let report = match &statistics {
        Some(st) => if st.is_large_traversal() {
            Some(st.summary_string())
        } else {
            None
        },
        None => None,
    };
    proof {
        assert forall|c: int|
            0 <= c < t.n() implies #[trigger] count_pre(s.log@, c) == 1 && count_post(s.log@, c)
                == 1 by {
            assert(count_pre(glog, c) == 1 && count_post(glog, c) == 1);
        }
        assert forall|c: int|
            !(0 <= c < t.n()) implies #[trigger] count_pre(s.log@, c) == 0 && count_post(
                s.log@,
                c,
            ) == 0 by {
            assert(count_pre(glog, c) == 0 && count_post(glog, c) == 0);
        }
        assert(log_inv(*t, s.log@)) by {
            assert(s.log@ == glog);
        }
        assert forall|i: int| 0 <= i < s.unit_sizes@.len() implies 1 <= #[trigger] s.unit_sizes@[i]
            <= WORK_UNIT_MAX by {
            assert(s.unit_sizes@[i] == gunits[i]);
        }
        assert forall|i: int|
            0 <= i < s.spawned_sizes@.len() implies 1 <= #[trigger] s.spawned_sizes@[i]
                <= WORK_UNIT_MAX by {
            assert(s.spawned_sizes@[i] == gspawned[i]);
        }
    }
    TraversalOutcome {
        log: s.log,
        unit_sizes: s.unit_sizes,
        spawned_sizes: s.spawned_sizes,
        statistics,
        report,
    }
}

} // verus!

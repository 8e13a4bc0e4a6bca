//! The observable record of one traversal.
//!
//! The engine's effects on the outside world are the preorder and
//! postorder steps it runs for each node; the collaborator callbacks that
//! do the per-node computation are outside this engine's scope. Each step
//! is recorded as an event, and the engine's guarantees are stated over
//! the event log: how often each node's steps ran, in what relative order,
//! and with what child count.

use vstd::prelude::*;
use vstd::set_lib::{set_int_range, lemma_int_range, lemma_len_subset};

verus! {

/// One step the engine ran: a node's preorder step (which discovers the
/// node's children), or its postorder step (which receives the number of
/// children the preorder step discovered).
#[derive(Clone, Copy, PartialEq, Eq, Structural, Debug)]
pub enum Event {
    Preorder { node: usize, dom_depth: usize },
    Postorder { node: usize, children_count: usize },
}

/// The node whose preorder step this event records, if it is one.
pub open spec fn pre_node(e: Event) -> Option<int> {
    match e {
        Event::Preorder { node, .. } => Some(node as int),
        _ => None,
    }
}

/// The node and recorded depth this preorder event carries, if it is one.
pub open spec fn pre_info(e: Event) -> Option<(int, int)> {
    match e {
        Event::Preorder { node, dom_depth } => Some((node as int, dom_depth as int)),
        _ => None,
    }
}

/// The node and child count this postorder event records, if it is one.
pub open spec fn post_info(e: Event) -> Option<(int, int)> {
    match e {
        Event::Postorder { node, children_count } => Some((node as int, children_count as int)),
        _ => None,
    }
}

/// True when position `i` of the log records node `c`'s preorder step.
pub open spec fn pre_at(log: Seq<Event>, i: int, c: int) -> bool {
    0 <= i < log.len() && pre_node(log[i]) == Some(c)
}

/// True when position `i` of the log records node `c`'s postorder step.
pub open spec fn post_at(log: Seq<Event>, i: int, c: int) -> bool {
    0 <= i < log.len() && post_info(log[i]) is Some && post_info(log[i]).unwrap().0 == c
}

/// How many times node `c`'s preorder step appears in the log.
pub open spec fn count_pre(log: Seq<Event>, c: int) -> nat
    decreases log.len(),
{
    if log.len() == 0 {
        0
    } else {
        count_pre(log.drop_last(), c) + if pre_node(log.last()) == Some(c) {
            1nat
        } else {
            0nat
        }
    }
}

/// How many times node `c`'s postorder step appears in the log.
pub open spec fn count_post(log: Seq<Event>, c: int) -> nat
    decreases log.len(),
{
    if log.len() == 0 {
        0
    } else {
        count_post(log.drop_last(), c) + if post_info(log.last()) is Some
            && post_info(log.last()).unwrap().0 == c {
            1nat
        } else {
            0nat
        }
    }
}

/// The set of nodes, out of `0 .. n`, whose preorder step has run.
pub open spec fn visited_set(log: Seq<Event>, n: nat) -> Set<int> {
    Set::new(|c: int| 0 <= c < n && count_pre(log, c) >= 1)
}

pub proof fn lemma_count_pre_push(log: Seq<Event>, e: Event, c: int)
    ensures
        count_pre(log.push(e), c) == count_pre(log, c) + if pre_node(e) == Some(c) {
            1nat
        } else {
            0nat
        },
{
    assert(log.push(e).drop_last() =~= log);
    assert(log.push(e).last() == e);
}

pub proof fn lemma_count_post_push(log: Seq<Event>, e: Event, c: int)
    ensures
        count_post(log.push(e), c) == count_post(log, c) + if post_info(e) is Some
            && post_info(e).unwrap().0 == c {
            1nat
        } else {
            0nat
        },
{
    assert(log.push(e).drop_last() =~= log);
    assert(log.push(e).last() == e);
}

/// A preorder step that appears somewhere in the log is counted.
pub proof fn lemma_pre_at_count(log: Seq<Event>, i: int, c: int)
    requires
        pre_at(log, i, c),
    ensures
        count_pre(log, c) >= 1,
    decreases log.len(),
{
    if i == log.len() - 1 {
    } else {
        assert(pre_at(log.drop_last(), i, c));
        lemma_pre_at_count(log.drop_last(), i, c);
    }
}

/// A counted preorder step appears somewhere in the log.
pub proof fn lemma_count_pre_at(log: Seq<Event>, c: int) -> (i: int)
    requires
        count_pre(log, c) >= 1,
    ensures
        pre_at(log, i, c),
    decreases log.len(),
{
    if pre_node(log.last()) == Some(c) {
        log.len() - 1
    } else {
        let i = lemma_count_pre_at(log.drop_last(), c);
        assert(pre_at(log, i, c));
        i
    }
}

/// A postorder step that appears somewhere in the log is counted.
pub proof fn lemma_post_at_count(log: Seq<Event>, i: int, c: int)
    requires
        post_at(log, i, c),
    ensures
        count_post(log, c) >= 1,
    decreases log.len(),
{
    if i == log.len() - 1 {
    } else {
        assert(post_at(log.drop_last(), i, c));
        lemma_post_at_count(log.drop_last(), i, c);
    }
}

/// A counted postorder step appears somewhere in the log.
pub proof fn lemma_count_post_at(log: Seq<Event>, c: int) -> (i: int)
    requires
        count_post(log, c) >= 1,
    ensures
        post_at(log, i, c),
    decreases log.len(),
{
    if post_info(log.last()) is Some && post_info(log.last()).unwrap().0 == c {
        log.len() - 1
    } else {
        let i = lemma_count_post_at(log.drop_last(), c);
        assert(post_at(log, i, c));
        i
    }
}

/// Two distinct positions holding the same node's preorder step count it
/// at least twice.
pub proof fn lemma_count_pre_two(log: Seq<Event>, i: int, j: int, c: int)
    requires
        0 <= i < j < log.len(),
        pre_at(log, i, c),
        pre_at(log, j, c),
    ensures
        count_pre(log, c) >= 2,
    decreases log.len(),
{
    if j == log.len() - 1 {
        assert(pre_at(log.drop_last(), i, c));
        lemma_pre_at_count(log.drop_last(), i, c);
    } else {
        assert(pre_at(log.drop_last(), i, c) && pre_at(log.drop_last(), j, c));
        lemma_count_pre_two(log.drop_last(), i, j, c);
    }
}

/// Two distinct positions holding the same node's postorder step count it
/// at least twice.
pub proof fn lemma_count_post_two(log: Seq<Event>, i: int, j: int, c: int)
    requires
        0 <= i < j < log.len(),
        post_at(log, i, c),
        post_at(log, j, c),
    ensures
        count_post(log, c) >= 2,
    decreases log.len(),
{
    if j == log.len() - 1 {
        assert(post_at(log.drop_last(), i, c));
        lemma_post_at_count(log.drop_last(), i, c);
    } else {
        assert(post_at(log.drop_last(), i, c) && post_at(log.drop_last(), j, c));
        lemma_count_post_two(log.drop_last(), i, j, c);
    }
}

/// The visited set is finite and no larger than the node count.
pub proof fn lemma_visited_set_len(log: Seq<Event>, n: nat)
    ensures
        visited_set(log, n).finite(),
        visited_set(log, n).len() <= n,
{
    lemma_int_range(0, n as int);
    lemma_len_subset(visited_set(log, n), set_int_range(0, n as int));
}

/// Appending an event other than a preorder step leaves the visited set as
/// it was; appending node `c`'s preorder step adds `c` to it.
pub proof fn lemma_visited_set_push(log: Seq<Event>, e: Event, n: nat)
    ensures
        pre_node(e) is None ==> visited_set(log.push(e), n) == visited_set(log, n),
        forall|c: int|
            pre_node(e) == Some(c) ==> visited_set(log.push(e), n) == if 0 <= c < n {
                visited_set(log, n).insert(c)
            } else {
                visited_set(log, n)
            },
{
    assert forall|d: int| true implies count_pre(log.push(e), d) == count_pre(log, d) + if pre_node(
        e,
    ) == Some(d) {
        1nat
    } else {
        0nat
    } by {
        lemma_count_pre_push(log, e, d);
    }
    if pre_node(e) is None {
        assert(visited_set(log.push(e), n) =~= visited_set(log, n));
    } else {
        let c = pre_node(e).unwrap();
        if 0 <= c < n {
            assert(visited_set(log.push(e), n) =~= visited_set(log, n).insert(c));
        } else {
            assert(visited_set(log.push(e), n) =~= visited_set(log, n));
        }
    }
}

/// Monotone preorder counts give a visited set that only grows.
pub proof fn lemma_visited_set_monotone(log1: Seq<Event>, log2: Seq<Event>, n: nat)
    requires
        forall|d: int| count_pre(log1, d) <= count_pre(log2, d),
    ensures
        visited_set(log1, n).subset_of(visited_set(log2, n)),
        visited_set(log1, n).len() <= visited_set(log2, n).len(),
{
    lemma_visited_set_len(log2, n);
    lemma_len_subset(visited_set(log1, n), visited_set(log2, n));
}

} // verus!

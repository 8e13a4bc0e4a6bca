use style_parallel::stats::{elapsed_ns, TraversalStatistics, LARGE_TRAVERSAL_MIN};
use style_parallel::traversal::{traverse_dom, PreTraverseToken};
use style_parallel::tree::Tree;

fn st(traversed: u64, styled: u64, shared: u64) -> TraversalStatistics {
    TraversalStatistics {
        elements_traversed: traversed,
        elements_styled: styled,
        styles_shared: shared,
        traversal_time_ns: 0,
        is_parallel: false,
    }
}

#[test]
fn merge_adds_counters() {
    let a = st(3, 2, 1);
    let b = st(10, 20, 30);
    let m = a.merge(&b);
    assert_eq!(m.elements_traversed, 13);
    assert_eq!(m.elements_styled, 22);
    assert_eq!(m.styles_shared, 31);
    assert!(!m.is_parallel);
}

#[test]
fn merge_is_commutative_and_associative() {
    let a = st(5, 1, 0);
    let b = st(7, 0, 9);
    let c = st(11, 4, 2);
    assert_eq!(a.merge(&b), b.merge(&a));
    assert_eq!(a.merge(&b).merge(&c), a.merge(&b.merge(&c)));
    // any fold order over three accumulators gives one aggregate
    assert_eq!(c.merge(&a).merge(&b), b.merge(&c).merge(&a));
}

#[test]
fn merge_saturates_instead_of_overflowing() {
    let a = st(u64::MAX - 1, 0, 0);
    let b = st(5, 0, 0);
    assert_eq!(a.merge(&b).elements_traversed, u64::MAX);
}

#[test]
fn default_is_merge_identity() {
    let a = st(5, 6, 7);
    let z: TraversalStatistics = Default::default();
    assert_eq!(a.merge(&z), a);
    assert_eq!(z.elements_traversed, 0);
}

#[test]
fn finish_stamps_time_and_parallelism() {
    let mut a = st(5, 6, 7);
    a.finish(1234, true);
    assert_eq!(a.traversal_time_ns, 1234);
    assert!(a.is_parallel);
    assert_eq!(a.elements_traversed, 5);
}

#[test]
fn large_traversal_threshold() {
    assert!(!st(LARGE_TRAVERSAL_MIN - 1, 0, 0).is_large_traversal());
    assert!(st(LARGE_TRAVERSAL_MIN, 0, 0).is_large_traversal());
}

#[test]
fn elapsed_clamps_and_subtracts() {
    assert_eq!(elapsed_ns(100, 350), 250);
    assert_eq!(elapsed_ns(350, 100), 0);
    assert_eq!(elapsed_ns(7, 7), 0);
}

#[test]
fn traversal_aggregates_one_count_per_node() {
    let mut t = Tree::new();
    for _ in 0..59 {
        t.add_node(0);
    }
    let pool = rayon::ThreadPoolBuilder::new().num_threads(2).build().unwrap();
    let out = traverse_dom(&t, PreTraverseToken::new(true), true, &pool);
    let stats = out.statistics.expect("statistics were requested");
    assert_eq!(stats.elements_traversed, 60);
    assert!(stats.is_parallel);
    assert!(stats.is_large_traversal());
    let line = out.report.expect("a large traversal is reported");
    assert!(line.contains("60"));
}

#[test]
fn statistics_absent_when_not_requested() {
    let t = Tree::new();
    let pool = rayon::ThreadPoolBuilder::new().num_threads(1).build().unwrap();
    let out = traverse_dom(&t, PreTraverseToken::new(true), false, &pool);
    assert!(out.statistics.is_none());
    assert!(out.report.is_none());
}

#[test]
fn report_absent_below_threshold() {
    let mut t = Tree::new();
    for _ in 0..(LARGE_TRAVERSAL_MIN as usize - 2) {
        t.add_node(0);
    }
    let pool = rayon::ThreadPoolBuilder::new().num_threads(2).build().unwrap();
    let out = traverse_dom(&t, PreTraverseToken::new(true), true, &pool);
    let stats = out.statistics.expect("statistics were requested");
    assert_eq!(stats.elements_traversed, LARGE_TRAVERSAL_MIN - 1);
    assert_eq!(stats.elements_styled, 0);
    assert_eq!(stats.styles_shared, 0);
    assert!(!stats.is_large_traversal());
    assert!(out.report.is_none());
}

use style_parallel::dispatch::{may_dispatch_tail, DispatchMode, RECURSION_DEPTH_LIMIT, WORK_UNIT_MAX};
use style_parallel::events::Event;
use style_parallel::traversal::{traverse_dom, PreTraverseToken, TraversalOutcome};
use style_parallel::tree::Tree;

fn pool() -> rayon::ThreadPool {
    rayon::ThreadPoolBuilder::new().num_threads(4).build().unwrap()
}

fn run(t: &Tree) -> TraversalOutcome {
    traverse_dom(t, PreTraverseToken::new(true), false, &pool())
}

fn assert_complete(t: &Tree, out: &TraversalOutcome) {
    let n = t.num_nodes();
    let mut pre = vec![0usize; n];
    let mut post = vec![0usize; n];
    for e in &out.log {
        match e {
            Event::Preorder { node, .. } => pre[*node] += 1,
            Event::Postorder { node, .. } => post[*node] += 1,
        }
    }
    for node in 0..n {
        assert_eq!(pre[node], 1, "node {} preorder count", node);
        assert_eq!(post[node], 1, "node {} postorder count", node);
    }
    assert!(out.unit_sizes.iter().all(|&s| 1 <= s && s <= WORK_UNIT_MAX));
    assert!(out.spawned_sizes.iter().all(|&s| 1 <= s && s <= WORK_UNIT_MAX));
}

fn star(width: usize) -> Tree {
    let mut t = Tree::new();
    for _ in 0..width {
        t.add_node(0);
    }
    t
}

#[test]
fn branching_factor_one_deep_chain() {
    // a linear chain longer than the recursion-depth ceiling, so the
    // engine must fall back from tail-calling to spawning and stay correct
    let mut t = Tree::new();
    let mut tip = 0usize;
    for _ in 0..(RECURSION_DEPTH_LIMIT + 50) {
        tip = t.add_node(tip);
    }
    let out = run(&t);
    assert_complete(&t, &out);
    assert!(out.unit_sizes.iter().all(|&s| s == 1));
}

#[test]
fn branching_factor_sixteen() {
    let t = star(16);
    let out = run(&t);
    assert_complete(&t, &out);
    // 16 children exactly fill one work unit: no chunk split is needed
    let mut sorted = out.unit_sizes.clone();
    sorted.sort();
    assert_eq!(sorted, vec![1, 16]);
}

#[test]
fn branching_factor_seventeen() {
    let t = star(17);
    let out = run(&t);
    assert_complete(&t, &out);
    assert_eq!(out.spawned_sizes, vec![16, 1]);
}

#[test]
fn branching_factor_one_thousand() {
    let t = star(1000);
    let out = run(&t);
    assert_complete(&t, &out);
    assert_eq!(out.spawned_sizes.iter().sum::<usize>(), 1000);
}

#[test]
fn wide_tree_completes_with_small_pool() {
    // width far beyond the pool's thread count: the traversal still runs
    // to completion with every node seen once
    let mut t = Tree::new();
    let mut firsts = Vec::new();
    for _ in 0..300 {
        firsts.push(t.add_node(0));
    }
    for &p in firsts.iter().take(50) {
        t.add_node(p);
        t.add_node(p);
    }
    let out = run(&t);
    assert_complete(&t, &out);
}

#[test]
fn full_binary_tree_mid_unit_dispatch() {
    // every node has two children, so a full work unit discovers more
    // than a unit's worth of children and must kick off work mid-unit
    let mut t = Tree::new();
    let mut frontier = vec![0usize];
    for _ in 0..7 {
        let mut next = Vec::new();
        for &p in &frontier {
            next.push(t.add_node(p));
            next.push(t.add_node(p));
        }
        frontier = next;
    }
    assert_eq!(t.num_nodes(), 255);
    let out = run(&t);
    assert_complete(&t, &out);
}

#[test]
fn dispatch_mode_tail_call() {
    assert!(DispatchMode::TailCall.is_tail_call());
    assert!(!DispatchMode::NotTailCall.is_tail_call());
    assert_eq!(DispatchMode::TailCall, DispatchMode::TailCall);
}

#[test]
fn tail_dispatch_decision() {
    assert!(may_dispatch_tail(DispatchMode::TailCall, 0, false));
    assert!(!may_dispatch_tail(DispatchMode::TailCall, 0, true));
    assert!(!may_dispatch_tail(DispatchMode::TailCall, RECURSION_DEPTH_LIMIT, false));
    assert!(may_dispatch_tail(DispatchMode::TailCall, RECURSION_DEPTH_LIMIT - 1, false));
    assert!(!may_dispatch_tail(DispatchMode::NotTailCall, 0, false));
}

#[test]
fn tree_assigns_sequential_indices() {
    let mut t = Tree::new();
    assert_eq!(t.num_nodes(), 1);
    let a = t.add_node(0);
    let b = t.add_node(0);
    let c = t.add_node(a);
    assert_eq!((a, b, c), (1, 2, 3));
    assert_eq!(t.children_count(0), 2);
    assert_eq!(t.children_count(a), 1);
    assert_eq!(t.child(0, 0), a);
    assert_eq!(t.child(0, 1), b);
    assert_eq!(t.child(a, 0), c);
}

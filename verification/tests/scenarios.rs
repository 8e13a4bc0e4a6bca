use style_parallel::dispatch::WORK_UNIT_MAX;
use style_parallel::events::Event;
use style_parallel::traversal::{traverse_dom, PreTraverseToken, TraversalOutcome};
use style_parallel::tree::Tree;

fn pool() -> rayon::ThreadPool {
    rayon::ThreadPoolBuilder::new().num_threads(2).build().unwrap()
}

fn count_pre(log: &[Event], node: usize) -> usize {
    log.iter()
        .filter(|e| matches!(e, Event::Preorder { node: n, .. } if *n == node))
        .count()
}

fn count_post(log: &[Event], node: usize) -> usize {
    log.iter()
        .filter(|e| matches!(e, Event::Postorder { node: n, .. } if *n == node))
        .count()
}

fn run(t: &Tree) -> TraversalOutcome {
    traverse_dom(t, PreTraverseToken::new(true), false, &pool())
}

#[test]
fn single_root_no_children() {
    let t = Tree::new();
    let out = run(&t);
    assert_eq!(
        out.log,
        vec![
            Event::Preorder { node: 0, dom_depth: 0 },
            Event::Postorder { node: 0, children_count: 0 },
        ]
    );
    assert_eq!(out.unit_sizes, vec![1]);
    assert!(out.spawned_sizes.is_empty());
}

#[test]
fn root_with_twenty_children() {
    let mut t = Tree::new();
    for _ in 0..20 {
        t.add_node(0);
    }
    let out = run(&t);
    let pre_total = out
        .log
        .iter()
        .filter(|e| matches!(e, Event::Preorder { .. }))
        .count();
    let post_total = out
        .log
        .iter()
        .filter(|e| matches!(e, Event::Postorder { .. }))
        .count();
    assert_eq!(pre_total, 21);
    assert_eq!(post_total, 21);
    // the 20 children exceed one work unit, so they are chunked into a
    // 16-node unit and a 4-node unit, each spawned as a separate task
    assert_eq!(out.spawned_sizes, vec![16, 4]);
    let mut sorted = out.unit_sizes.clone();
    sorted.sort();
    assert_eq!(sorted, vec![1, 4, 16]);
    assert_eq!(out.unit_sizes[0], 1);
}

#[test]
fn root_preorder_runs_first() {
    let mut t = Tree::new();
    for _ in 0..20 {
        t.add_node(0);
    }
    let out = run(&t);
    assert_eq!(out.log[0], Event::Preorder { node: 0, dom_depth: 0 });
    assert_eq!(out.log[1], Event::Postorder { node: 0, children_count: 20 });
}

#[test]
fn every_parent_precedes_its_children() {
    let mut t = Tree::new();
    // three levels: root, 5 children, 4 grandchildren each
    let mut level1 = Vec::new();
    for _ in 0..5 {
        level1.push(t.add_node(0));
    }
    let mut all = vec![0usize];
    all.extend(&level1);
    for &p in &level1 {
        for _ in 0..4 {
            all.push(t.add_node(p));
        }
    }
    let out = run(&t);
    // parent's preorder index is smaller than each child's
    let pre_index = |node: usize| {
        out.log
            .iter()
            .position(|e| matches!(e, Event::Preorder { node: n, .. } if *n == node))
            .unwrap()
    };
    for &p in &level1 {
        assert!(pre_index(0) < pre_index(p));
    }
    for node in all {
        assert_eq!(count_pre(&out.log, node), 1);
        assert_eq!(count_post(&out.log, node), 1);
    }
}

#[test]
fn postorder_reports_exact_child_counts() {
    let mut t = Tree::new();
    let a = t.add_node(0);
    let b = t.add_node(0);
    t.add_node(a);
    t.add_node(a);
    t.add_node(a);
    let out = run(&t);
    for e in &out.log {
        if let Event::Postorder { node, children_count } = e {
            let expected = match *node {
                0 => 2,
                n if n == a => 3,
                n if n == b => 0,
                _ => 0,
            };
            assert_eq!(*children_count, expected);
        }
    }
    assert!(out.unit_sizes.iter().all(|&s| 1 <= s && s <= WORK_UNIT_MAX));
}

#[test]
fn token_reports_its_decision() {
    assert!(PreTraverseToken::new(true).should_traverse());
    assert!(!PreTraverseToken::new(false).should_traverse());
}

#[test]
fn depth_increases_level_by_level() {
    let mut t = Tree::new();
    let a = t.add_node(0);
    let b = t.add_node(a);
    let c = t.add_node(b);
    let out = run(&t);
    let depth_of = |node: usize| {
        out.log
            .iter()
            .find_map(|e| match e {
                Event::Preorder { node: n, dom_depth } if *n == node => Some(*dom_depth),
                _ => None,
            })
            .unwrap()
    };
    assert_eq!(depth_of(0), 0);
    assert_eq!(depth_of(a), 1);
    assert_eq!(depth_of(b), 2);
    assert_eq!(depth_of(c), 3);
}

#[test]
fn depths_recorded_for_wide_levels() {
    // chunked siblings still carry their own level's depth
    let mut t = Tree::new();
    let mut kids = Vec::new();
    for _ in 0..20 {
        kids.push(t.add_node(0));
    }
    let grand = t.add_node(kids[17]);
    let out = run(&t);
    for e in &out.log {
        if let Event::Preorder { node, dom_depth } = e {
            let expected = if *node == 0 {
                0
            } else if *node == grand {
                2
            } else {
                1
            };
            assert_eq!(*dom_depth, expected, "node {}", node);
        }
    }
}

#[test]
fn unit_nodes_processed_in_list_order() {
    // the 4-node chunk of a split level is one unit: its nodes' steps
    // appear in input order in the log
    let mut t = Tree::new();
    let mut kids = Vec::new();
    for _ in 0..20 {
        kids.push(t.add_node(0));
    }
    let out = run(&t);
    let pre_pos = |node: usize| {
        out.log
            .iter()
            .position(|e| matches!(e, Event::Preorder { node: n, .. } if *n == node))
            .unwrap()
    };
    let post_pos = |node: usize| {
        out.log
            .iter()
            .position(|e| matches!(e, Event::Postorder { node: n, .. } if *n == node))
            .unwrap()
    };
    // the last chunk holds kids[16..20] in order
    for w in kids[16..20].windows(2) {
        assert!(post_pos(w[0]) < pre_pos(w[1]));
    }
    for w in kids[0..16].windows(2) {
        assert!(post_pos(w[0]) < pre_pos(w[1]));
    }
}

use current_location::process::{
    build_process_tree, Process, ProcessInfo, ProcessTree, SnapshotEntry,
};
use current_location::walk::{
    fits_within, ContinueFlow, FnVisitor, Node, Walker, WalkerNode,
};
use std::ops::ControlFlow;

type Cursor<'a> = WalkerNode<'a, ProcessInfo, Process>;

fn line(pid: i32, parent: i32) -> SnapshotEntry {
    SnapshotEntry { info: ProcessInfo::new(pid, format!("p{pid}")), parent: Some(parent) }
}

// 10 -> 11 -> 13
//          -> 14 -> 16
//    -> 12 -> 15
fn bushy() -> ProcessTree {
    build_process_tree(&[
        line(10, 0),
        line(11, 10),
        line(12, 10),
        line(13, 11),
        line(14, 11),
        line(15, 12),
        line(16, 14),
    ])
}

fn forward() -> ControlFlow<i32, ContinueFlow> {
    ControlFlow::Continue(ContinueFlow::Forward)
}

#[test]
fn breadth_first_goes_level_by_level() {
    let tree = bushy();
    let mut seen = Vec::new();
    let mut walker = Walker::new(tree.get(&10).unwrap(), &tree);
    let mut visitor = FnVisitor::new(|node: Cursor<'_>| {
        seen.push((node.inner.data().pid, node.depth, node.sibling_no));
        forward()
    });
    assert_eq!(walker.bfs(&mut visitor), None);
    assert_eq!(
        seen,
        vec![(10, 0, 0), (11, 1, 0), (12, 1, 1), (13, 2, 0), (14, 2, 1), (15, 2, 0), (16, 3, 0)]
    );
    let depths: Vec<u64> = seen.iter().map(|visit| visit.1).collect();
    let mut sorted = depths.clone();
    sorted.sort();
    assert_eq!(depths, sorted);
}

#[test]
fn depth_first_finishes_a_subtree_before_its_sibling() {
    let tree = bushy();
    let mut seen = Vec::new();
    let mut walker = Walker::new(tree.get(&10).unwrap(), &tree);
    let mut visitor = FnVisitor {
        call: |node: Cursor<'_>| {
            seen.push((node.inner.data().pid, node.depth, node.sibling_no));
            forward()
        },
    };
    assert_eq!(walker.dfs(&mut visitor), None);
    assert_eq!(
        seen,
        vec![(10, 0, 0), (12, 1, 1), (15, 2, 0), (11, 1, 0), (14, 2, 1), (16, 3, 0), (13, 2, 0)]
    );
}

#[test]
fn skip_keeps_the_subtree_out() {
    let tree = bushy();
    let mut seen = Vec::new();
    let mut walker = Walker::new(tree.get(&10).unwrap(), &tree);
    let mut visitor = FnVisitor {
        call: |node: Cursor<'_>| {
            let pid = node.inner.data().pid;
            seen.push(pid);
            if pid == 11 {
                ControlFlow::<i32, ContinueFlow>::Continue(ContinueFlow::Skip)
            } else {
                forward()
            }
        },
    };
    assert_eq!(walker.bfs(&mut visitor), None);
    assert_eq!(seen, vec![10, 11, 12, 15]);

    let mut seen = Vec::new();
    let mut walker = Walker::new(tree.get(&10).unwrap(), &tree);
    let mut visitor = FnVisitor {
        call: |node: Cursor<'_>| {
            let pid = node.inner.data().pid;
            seen.push(pid);
            if pid == 11 {
                ControlFlow::<i32, ContinueFlow>::Continue(ContinueFlow::Skip)
            } else {
                forward()
            }
        },
    };
    assert_eq!(walker.dfs(&mut visitor), None);
    assert_eq!(seen, vec![10, 12, 15, 11]);
}

#[test]
fn stop_ends_the_traversal_at_once() {
    let tree = bushy();
    let mut seen = Vec::new();
    let mut walker = Walker::new(tree.get(&10).unwrap(), &tree);
    let mut visitor = FnVisitor {
        call: |node: Cursor<'_>| {
            let pid = node.inner.data().pid;
            seen.push(pid);
            if pid == 12 {
                ControlFlow::Break(pid * 2)
            } else {
                forward()
            }
        },
    };
    assert_eq!(walker.bfs(&mut visitor), Some(24));
    drop(visitor);
    assert_eq!(seen, vec![10, 11, 12]);

    // what was pending at the stop is still pending
    let mut rest = Vec::new();
    let mut visitor = FnVisitor {
        call: |node: Cursor<'_>| {
            rest.push(node.inner.data().pid);
            forward()
        },
    };
    assert_eq!(walker.bfs(&mut visitor), None);
    assert_eq!(rest, vec![13, 14, 15, 16]);
}

#[test]
fn stop_ends_a_depth_first_traversal() {
    let tree = bushy();
    let mut seen = Vec::new();
    let mut walker = Walker::with_capacity(tree.get(&10).unwrap(), &tree, 8);
    let mut visitor = FnVisitor {
        call: |node: Cursor<'_>| {
            let pid = node.inner.data().pid;
            seen.push(pid);
            if pid == 15 {
                ControlFlow::Break("found")
            } else {
                ControlFlow::Continue(ContinueFlow::Forward)
            }
        },
    };
    assert_eq!(walker.dfs(&mut visitor), Some("found"));
    assert_eq!(seen, vec![10, 12, 15]);
}

#[test]
fn redirected_walker_does_what_a_new_one_does() {
    let tree = bushy();
    let first = tree.get(&10).unwrap();
    let second = tree.get(&11).unwrap();

    let mut walker = Walker::with_capacity(first, &tree, 4);
    let mut visitor = FnVisitor {
        call: |node: Cursor<'_>| {
            if node.inner.data().pid == 12 {
                ControlFlow::Break(0)
            } else {
                forward()
            }
        },
    };
    assert_eq!(walker.bfs(&mut visitor), Some(0));

    walker.set(second);
    let mut redirected = Vec::new();
    let mut visitor = FnVisitor {
        call: |node: Cursor<'_>| {
            redirected.push((node.inner.data().pid, node.depth, node.sibling_no));
            forward()
        },
    };
    assert_eq!(walker.bfs(&mut visitor), None);

    let mut fresh = Vec::new();
    let mut new_walker = Walker::new(second, &tree);
    let mut visitor = FnVisitor {
        call: |node: Cursor<'_>| {
            fresh.push((node.inner.data().pid, node.depth, node.sibling_no));
            forward()
        },
    };
    assert_eq!(new_walker.bfs(&mut visitor), None);

    assert_eq!(redirected, fresh);
    assert_eq!(fresh, vec![(11, 0, 0), (13, 1, 0), (14, 1, 1), (16, 2, 0)]);
}

#[test]
fn steps_one_at_a_time() {
    let tree = bushy();
    let mut walker = Walker::new(tree.get(&12).unwrap(), &tree);
    let mut seen = Vec::new();

    let flow = walker.bfs_step(FnVisitor {
        call: |node: Cursor<'_>| {
            seen.push(node.inner.data().pid);
            forward()
        },
    });
    assert_eq!(flow, forward());
    let flow = walker.bfs_step_by_ref(&mut FnVisitor {
        call: |node: Cursor<'_>| {
            seen.push(node.inner.data().pid);
            ControlFlow::<i32, ContinueFlow>::Continue(ContinueFlow::Skip)
        },
    });
    assert_eq!(flow, ControlFlow::Continue(ContinueFlow::Skip));
    assert_eq!(seen, vec![12, 15]);

    // nothing is pending: the visitor is not called
    let flow = walker.bfs_step(FnVisitor {
        call: |_node: Cursor<'_>| ControlFlow::Break(1),
    });
    assert_eq!(flow, forward());
    let flow = walker.dfs_step(FnVisitor {
        call: |_node: Cursor<'_>| ControlFlow::Break(1),
    });
    assert_eq!(flow, forward());
}

#[test]
fn depth_first_steps_take_the_newest() {
    let tree = bushy();
    let mut walker = Walker::new(tree.get(&10).unwrap(), &tree);
    let mut seen = Vec::new();
    for _ in 0..3 {
        let flow = walker.dfs_step_by_ref(&mut FnVisitor {
            call: |node: Cursor<'_>| {
                seen.push(node.inner.data().pid);
                forward()
            },
        });
        assert_eq!(flow, forward());
    }
    let flow = walker.dfs_step(FnVisitor {
        call: |node: Cursor<'_>| ControlFlow::Break(node.inner.data().pid),
    });
    assert_eq!(flow, ControlFlow::Break(11));
    assert_eq!(seen, vec![10, 12, 15]);
}

#[test]
fn cursors() {
    let tree = bushy();
    let top = tree.get(&10).unwrap();
    let root = WalkerNode::<ProcessInfo, Process>::root(top);
    assert_eq!((root.inner.data().pid, root.depth, root.sibling_no), (10, 0, 0));
    let kids = root.children(&tree);
    let found: Vec<(i32, u64, u64)> =
        kids.iter().map(|kid| (kid.inner.data().pid, kid.depth, kid.sibling_no)).collect();
    assert_eq!(found, vec![(11, 1, 0), (12, 1, 1)]);
    let copy = kids[1].clone();
    assert_eq!((copy.inner.data().pid, copy.depth, copy.sibling_no), (12, 1, 1));
    assert!(kids[1].children(&tree)[0].children(&tree).is_empty());
    assert_eq!(ContinueFlow::default(), ContinueFlow::Forward);
}

#[test]
fn levels_of_a_tree() {
    let tree = bushy();
    let top = tree.get(&10).unwrap();
    assert!(fits_within(top, &tree, 4));
    assert!(fits_within(top, &tree, u64::MAX));
    assert!(!fits_within(top, &tree, 3));
    assert!(!fits_within(top, &tree, 0));
    assert!(fits_within(tree.get(&16).unwrap(), &tree, 1));
    assert!(!fits_within(tree.get(&16).unwrap(), &tree, 0));

    let looping = build_process_tree(&[line(5, 6), line(6, 5)]);
    assert!(!fits_within(looping.get(&5).unwrap(), &looping, 50));
}

#[test]
fn copy_of_a_walker_goes_its_own_way() {
    let tree = bushy();
    let mut walker = Walker::new(tree.get(&10).unwrap(), &tree);
    let flow = walker.bfs_step(FnVisitor::new(|_node: Cursor<'_>| forward()));
    assert_eq!(flow, forward());

    let mut copy = walker.clone();
    let mut first = Vec::new();
    let mut visitor = FnVisitor::new(|node: Cursor<'_>| {
        first.push(node.inner.data().pid);
        forward()
    });
    assert_eq!(copy.bfs(&mut visitor), None);
    let mut second = Vec::new();
    let mut visitor = FnVisitor::new(|node: Cursor<'_>| {
        second.push(node.inner.data().pid);
        forward()
    });
    assert_eq!(walker.dfs(&mut visitor), None);
    assert_eq!(first, vec![11, 12, 13, 14, 15, 16]);
    assert_eq!(second, vec![12, 15, 11, 14, 16, 13]);
}

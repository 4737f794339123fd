use current_location::process::{
    build_process_tree, empty_tree, record_process, Process, ProcessInfo, ProcessTree,
    SnapshotEntry, PROCESS_TREE_CAPACITY, TOP_PID,
};
use current_location::walk::Node;
use current_location::{known_procs, search};

fn line(pid: i32, name: &str, parent: Option<i32>) -> SnapshotEntry {
    SnapshotEntry { info: ProcessInfo::new(pid, name.to_string()), parent }
}

fn kids(tree: &ProcessTree, pid: i32) -> Vec<i32> {
    tree.get(&pid).unwrap().children(tree).iter().map(|kid| kid.data().pid).collect()
}

fn record(tree: &ProcessTree, pid: i32) -> (i32, String) {
    let info = tree.get(&pid).unwrap().data();
    (info.pid, info.name.clone())
}

#[test]
fn every_process_is_a_child_of_its_parent_once() {
    let tree = build_process_tree(&[
        line(2, "kthreadd", Some(0)),
        line(40, "login", Some(2)),
        line(50, "terminal", Some(40)),
        line(51, "zsh", Some(50)),
        line(52, "nvim", Some(51)),
        line(53, "zsh", Some(50)),
    ]);
    assert_eq!(tree.len(), 7);
    assert_eq!(kids(&tree, 0), vec![2]);
    assert_eq!(kids(&tree, 2), vec![40]);
    assert_eq!(kids(&tree, 40), vec![50]);
    assert_eq!(kids(&tree, 50), vec![51, 53]);
    assert_eq!(kids(&tree, 51), vec![52]);
    assert_eq!(kids(&tree, 52), Vec::<i32>::new());
    assert_eq!(kids(&tree, 53), Vec::<i32>::new());
    for pid in [2, 40, 50, 51, 52, 53] {
        let mut times = 0;
        for node in tree.values() {
            times += node.children(&tree).iter().filter(|kid| kid.data().pid == pid).count();
        }
        assert_eq!(times, 1, "process {pid}");
    }
    assert_eq!(record(&tree, 50), (50, "terminal".to_string()));
    assert_eq!(record(&tree, 53), (53, "zsh".to_string()));
}

#[test]
fn parent_met_after_its_child_keeps_the_child() {
    let tree = build_process_tree(&[
        line(52, "nvim", Some(51)),
        line(51, "zsh", Some(50)),
        line(50, "terminal", Some(7)),
    ]);
    assert_eq!(record(&tree, 51), (51, "zsh".to_string()));
    assert_eq!(kids(&tree, 51), vec![52]);
    assert_eq!(record(&tree, 50), (50, "terminal".to_string()));
    assert_eq!(kids(&tree, 50), vec![51]);
}

#[test]
fn parent_that_is_not_listed_gets_a_placeholder() {
    let tree = build_process_tree(&[line(51, "zsh", Some(50))]);
    assert_eq!(tree.len(), 2);
    assert_eq!(record(&tree, 50), (0, String::new()));
    assert_eq!(kids(&tree, 50), vec![51]);
    let placeholder = ProcessInfo::default();
    assert_eq!((placeholder.pid, placeholder.name), (0, String::new()));
}

#[test]
fn children_of_the_top_process_are_not_attached() {
    assert_eq!(TOP_PID, 1);
    let tree = build_process_tree(&[
        line(1, "init", Some(0)),
        line(50, "terminal", Some(1)),
        line(60, "daemon", Some(1)),
    ]);
    assert_eq!(kids(&tree, 1), Vec::<i32>::new());
    assert_eq!(kids(&tree, 0), vec![1]);
    assert_eq!(record(&tree, 50), (50, "terminal".to_string()));

    let tree = build_process_tree(&[line(50, "terminal", Some(1))]);
    assert_eq!(tree.len(), 1);
    assert!(tree.get(&1).is_none());
}

#[test]
fn process_without_a_known_parent_stands_alone() {
    let tree = build_process_tree(&[line(50, "terminal", None), line(51, "zsh", None)]);
    assert_eq!(tree.len(), 2);
    assert_eq!(kids(&tree, 50), Vec::<i32>::new());
    assert_eq!(record(&tree, 51), (51, "zsh".to_string()));
}

#[test]
fn process_listed_twice_keeps_its_last_record() {
    let tree = build_process_tree(&[
        line(51, "bash", Some(50)),
        line(52, "nvim", Some(51)),
        line(51, "zsh", Some(50)),
    ]);
    assert_eq!(record(&tree, 51), (51, "zsh".to_string()));
    assert_eq!(kids(&tree, 51), vec![52]);
    assert_eq!(kids(&tree, 50), vec![51, 51]);
}

#[test]
fn empty_snapshot_gives_an_empty_tree() {
    let tree = build_process_tree(&[]);
    assert!(tree.is_empty());
    let tree = empty_tree();
    assert!(tree.is_empty());
    assert!(tree.capacity() >= PROCESS_TREE_CAPACITY);
}

#[test]
fn processes_are_recorded_one_by_one() {
    let mut tree = empty_tree();
    record_process(&mut tree, ProcessInfo::new(51, "zsh".to_string()), Some(50));
    assert_eq!(tree.len(), 2);
    assert_eq!(kids(&tree, 50), vec![51]);
    record_process(&mut tree, ProcessInfo::new(50, "terminal".to_string()), Some(1));
    assert_eq!(tree.len(), 2);
    assert_eq!(record(&tree, 50), (50, "terminal".to_string()));
    assert_eq!(kids(&tree, 50), vec![51]);
    record_process(&mut tree, ProcessInfo::new(52, "nvim".to_string()), None);
    assert_eq!(tree.len(), 3);
    assert_eq!(kids(&tree, 52), Vec::<i32>::new());
}

#[test]
fn nodes_by_hand() {
    let mut tree = empty_tree();
    tree.insert(7, Process::new(ProcessInfo::new(7, "leaf".to_string())));
    tree.insert(
        3,
        Process::new_with_children(ProcessInfo::new(3, "top".to_string()), vec![7, 8, 7]),
    );
    // an id without a node names no child
    assert_eq!(kids(&tree, 3), vec![7, 7]);
    assert_eq!(kids(&tree, 7), Vec::<i32>::new());

    let mut node = Process::new(ProcessInfo::new(9, "old".to_string()));
    node.data_mut().name = "new".to_string();
    assert_eq!(node.data().name, "new");
    assert_eq!(node.data().pid, 9);
}

#[test]
fn same_search_twice_gives_the_same() {
    let tree = build_process_tree(&[
        line(50, "terminal", Some(1)),
        line(51, "zsh", Some(50)),
        line(53, "zsh", Some(50)),
        line(54, "nvim", Some(53)),
        line(55, "nvim", Some(51)),
    ]);
    let names = known_procs();
    let first = search(&tree, 50, &names);
    let second = search(&tree, 50, &names);
    assert_eq!(first, second);
    // the last known program in level order: 51, 53, then 55 below 51, then 54 below 53
    assert_eq!(first, Ok(Some("/tmp/current-location/nvim-54.txt".to_string())));
}

#[test]
fn last_in_level_order_is_not_always_the_deepest() {
    let tree = build_process_tree(&[
        line(50, "terminal", Some(1)),
        line(51, "zsh", Some(50)),
        line(52, "sh", Some(51)),
        line(53, "nvim", Some(52)),
        line(54, "tmux", Some(50)),
        line(55, "zsh", Some(54)),
    ]);
    assert_eq!(
        search(&tree, 50, &known_procs()),
        Ok(Some("/tmp/current-location/nvim-53.txt".to_string()))
    );
    assert_eq!(
        search(&tree, 54, &known_procs()),
        Ok(Some("/tmp/current-location/zsh-55.txt".to_string()))
    );
    assert_eq!(
        search(&tree, 55, &["tmux".to_string()]),
        Ok(None)
    );
    // a chain as long as the tree has nodes is still a tree
    let chain = build_process_tree(&[
        line(3, "zsh", Some(2)),
        line(2, "zsh", Some(9)),
        line(9, "x", None),
    ]);
    assert_eq!(chain.len(), 3);
    assert_eq!(
        search(&chain, 9, &known_procs()),
        Ok(Some("/tmp/current-location/zsh-3.txt".to_string()))
    );
}

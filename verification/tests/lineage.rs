use current_location::process::{
    build_process_tree, Process, ProcessInfo, ProcessTree, SnapshotEntry,
};
use current_location::walk::{ContinueFlow, FnVisitor, Node, Walker, WalkerNode};
use current_location::{
    active_root, build_path, known_procs, search, LocationData, LocationSearch, SearchError,
};
use std::ops::ControlFlow;

fn line(pid: i32, name: &str, parent: i32) -> SnapshotEntry {
    SnapshotEntry { info: ProcessInfo::new(pid, name.to_string()), parent: Some(parent) }
}

fn desktop() -> ProcessTree {
    build_process_tree(&[
        line(1, "init", 0),
        line(50, "terminal", 1),
        line(51, "zsh", 50),
        line(52, "nvim", 51),
    ])
}

#[test]
fn editor_in_shell_in_terminal_is_selected() {
    let tree = desktop();
    let root = tree.get(&50).unwrap();

    let mut order = Vec::new();
    let mut walker = Walker::new(root, &tree);
    let mut trace = FnVisitor {
        call: |node: WalkerNode<'_, ProcessInfo, Process>| {
            order.push((node.inner.data().pid, node.depth, node.sibling_no));
            ControlFlow::<i32, ContinueFlow>::Continue(ContinueFlow::Forward)
        },
    };
    assert_eq!(walker.bfs(&mut trace), None);
    assert_eq!(order, vec![(50, 0, 0), (51, 1, 0), (52, 2, 0)]);

    let names = known_procs();
    let mut walker = Walker::new(root, &tree);
    let mut policy = LocationSearch::new(&names);
    assert_eq!(walker.bfs(&mut policy), None);
    let chosen = policy.select().unwrap();
    assert_eq!((chosen.pid, chosen.name.as_str()), (52, "nvim"));

    assert_eq!(
        search(&tree, 50, &names),
        Ok(Some("/tmp/current-location/nvim-52.txt".to_string()))
    );
}

#[test]
fn no_known_names_selects_nothing() {
    let tree = desktop();
    let names: Vec<String> = Vec::new();
    assert_eq!(search(&tree, 50, &names), Ok(None));
    let data = LocationData::fallback(Some("/home/u".to_string()));
    assert_eq!(data.location, "/home/u");
    assert_eq!(data.nvim_pipe, None);
}

#[test]
fn missing_root_is_not_found() {
    let tree = desktop();
    assert_eq!(search(&tree, 77, &known_procs()), Err(SearchError::ProcessNotFound));
}

#[test]
fn loop_of_parents_is_not_a_tree() {
    let tree = build_process_tree(&[line(5, "zsh", 6), line(6, "zsh", 5)]);
    assert_eq!(search(&tree, 5, &known_procs()), Err(SearchError::NotATree));
}

#[test]
fn fallback_without_home() {
    let data = LocationData::fallback(None);
    assert_eq!(data.location, "/home/root/");
    assert_eq!(data.nvim_pipe, None);
}

#[test]
fn record_paths() {
    assert_eq!(build_path(52, "nvim"), "/tmp/current-location/nvim-52.txt");
    assert_eq!(build_path(0, ""), "/tmp/current-location/-0.txt");
    assert_eq!(build_path(-7, "zsh"), "/tmp/current-location/zsh--7.txt");
    assert_eq!(
        build_path(i32::MIN, "a b"),
        "/tmp/current-location/a b--2147483648.txt"
    );
    assert_eq!(build_path(i32::MAX, "x"), "/tmp/current-location/x-2147483647.txt");
    assert_eq!(build_path(1000, "x"), "/tmp/current-location/x-1000.txt");
}

#[test]
fn root_of_the_search() {
    assert_eq!(active_root(None, None, None), Err(SearchError::NoActiveWindow));
    assert_eq!(active_root(None, None, Some(9)), Err(SearchError::NoActiveWindow));
    assert_eq!(active_root(Some(3), None, None), Ok(3));
    assert_eq!(active_root(Some(3), Some(4), None), Ok(3));
    assert_eq!(active_root(None, Some(4), None), Ok(4));
    assert_eq!(active_root(None, Some(4), Some(9)), Ok(9));
    assert_eq!(active_root(Some(3), None, Some(9)), Ok(9));
}

#[test]
fn errors_in_words() {
    assert_eq!(SearchError::NoActiveWindow.message(), "no active client");
    assert_eq!(SearchError::ProcessNotFound.message(), "process not found");
    assert_eq!(SearchError::NotATree.message(), "processes do not form a tree");
}

//! The process tree: one node per process id, each with its record and the
//! ids of its children, built in one pass over a snapshot of the process
//! table.

use crate::walk::Node;
use rustc_hash::FxBuildHasher;
use std::collections::HashMap;
use vstd::prelude::*;

verus! {

/// The id of a process.
pub type Pid = i32;

/// The process tree: the node of each process under its id. Children are
/// named by id, so the tree is a flat map.
pub type ProcessTree = HashMap<Pid, Process, FxBuildHasher>;

/// The room set aside for a process tree when it is built.
pub const PROCESS_TREE_CAPACITY: usize = 2048;

/// The process at the top of the process table. Its children are not
/// recorded: there are too many of them to be of use in a search.
pub const TOP_PID: Pid = 1;

/// `rustc_hash::FxBuildHasher`, which the process tree hashes its ids with.
/// Nothing is said of what it holds.
#[verifier::external_type_specification]
#[verifier::external_body]
pub struct ExFxBuildHasher(FxBuildHasher);

/// What is known of one process: its id and its display name.
#[derive(Clone, Debug)]
pub struct ProcessInfo {
    pub pid: Pid,
    pub name: String,
}

/// A process record as a plain value.
pub struct InfoView {
    pub pid: Pid,
    pub name: Seq<char>,
}

impl View for ProcessInfo {
    type V = InfoView;

    open spec fn view(&self) -> InfoView {
        InfoView { pid: self.pid, name: self.name@ }
    }
}

/// The record of a process that is known only as the parent of another.
pub open spec fn placeholder() -> InfoView {
    InfoView { pid: 0, name: Seq::empty() }
}

impl Default for ProcessInfo {
    /// The record of a process of which nothing is known yet.
    fn default() -> (info: Self)
        ensures
            info@ == placeholder(),
    {
        ProcessInfo { pid: 0, name: String::new() }
    }
}

impl ProcessInfo {
    /// The record of the process `pid` that runs `name`.
    pub fn new(pid: Pid, name: String) -> (info: Self)
        ensures
            info.pid == pid,
            info.name == name,
    {
        Self { pid, name }
    }
}

/// A node of the process tree: the record of a process and the ids of its
/// children, in the order in which they were attached.
#[derive(Clone, Debug)]
pub struct Process {
    info: ProcessInfo,
    children: Vec<Pid>,
}

/// A node of the process tree as a plain value.
pub struct ProcessView {
    pub info: InfoView,
    pub children: Seq<Pid>,
}

impl View for Process {
    type V = ProcessView;

    open spec fn view(&self) -> ProcessView {
        ProcessView { info: self.info()@, children: self.child_pids() }
    }
}

impl Process {
    /// The record of this process.
    pub closed spec fn info(&self) -> ProcessInfo {
        self.info
    }

    /// The ids of the children of this process, in the order of attachment.
    pub closed spec fn child_pids(&self) -> Seq<Pid> {
        self.children@
    }

    /// A node with the record `info` and no children.
    pub fn new(info: ProcessInfo) -> (process: Self)
        ensures
            process.info() == info,
            process.child_pids() == Seq::<Pid>::empty(),
    {
        Self { info, children: vec![] }
    }

    /// A node with the record `info` and the children `children`.
    pub fn new_with_children(info: ProcessInfo, children: Vec<Pid>) -> (process: Self)
        ensures
            process.info() == info,
            process.child_pids() == children@,
    {
        Self { info, children }
    }
}

/// The nodes that `pids` name in `tree`, in the order of `pids`; an id that
/// `tree` does not hold names none.
pub open spec fn resolve(pids: Seq<Pid>, tree: Map<Pid, Process>) -> Seq<Process>
    decreases pids.len(),
{
    if pids.len() == 0 {
        Seq::empty()
    } else if tree.contains_key(pids.last()) {
        resolve(pids.drop_last(), tree).push(tree[pids.last()])
    } else {
        resolve(pids.drop_last(), tree)
    }
}

/// `HashMap::get` on a map that hashes with `FxBuildHasher`: the value under
/// `pid`, if the map holds one. The hasher of `rustc_hash` starts from the
/// same state whenever it is built, so equal keys fall in the same place.
#[verifier::external_body]
pub(crate) fn tree_get<'a>(tree: &'a ProcessTree, pid: Pid) -> (found: Option<&'a Process>)
    ensures
        found == if tree@.contains_key(pid) {
            Some(&tree@[pid])
        } else {
            None
        },
{
    tree.get(&pid)
}

/// `HashMap::len` on a map that hashes with `FxBuildHasher`: the number of
/// ids that the map holds a value under.
#[verifier::external_body]
pub(crate) fn tree_len(tree: &ProcessTree) -> (len: usize)
    ensures
        len == tree@.len(),
{
    tree.len()
}

/// `HashMap::get_mut` on a map that hashes with `FxBuildHasher`: the value
/// under `pid` to be changed in place, if the map holds one. The map then
/// holds under `pid` what the value was changed to, and is as before
/// elsewhere.
#[verifier::external_body]
fn tree_get_mut<'a>(tree: &'a mut ProcessTree, pid: Pid) -> (found: Option<&'a mut Process>)
    ensures
        match found {
            Some(process) => {
                &&& old(tree)@.contains_key(pid)
                &&& *process == old(tree)@[pid]
                &&& final(tree)@ == old(tree)@.insert(pid, *final(process))
            },
            None => !old(tree)@.contains_key(pid) && final(tree)@ == old(tree)@,
        },
{
    tree.get_mut(&pid)
}

/// `HashMap::insert` on a map that hashes with `FxBuildHasher`: the map then
/// holds `process` under `pid`, and is as before elsewhere.
#[verifier::external_body]
fn tree_insert(tree: &mut ProcessTree, pid: Pid, process: Process)
    ensures
        final(tree)@ == old(tree)@.insert(pid, process),
{
    tree.insert(pid, process);
}

impl Node<ProcessInfo> for Process {
    type Context = ProcessTree;

    open spec fn record(&self) -> ProcessInfo {
        self.info()
    }

    open spec fn child_nodes(&self, ctx: &ProcessTree) -> Seq<Process> {
        resolve(self.child_pids(), ctx@)
    }

    fn data(&self) -> (r: &ProcessInfo) {
        &self.info
    }

    fn data_mut(&mut self) -> (r: &mut ProcessInfo) {
        &mut self.info
    }

    fn children<'a>(&'a self, tree: &'a ProcessTree) -> (kids: Vec<&'a Process>) {
        let mut kids: Vec<&'a Process> = Vec::new();
        let mut i: usize = 0;
        while i < self.children.len()
            invariant
                i <= self.children@.len(),
                kids@.len() == resolve(self.children@.take(i as int), tree@).len(),
                forall|j: int|
                    0 <= j < kids@.len() ==> *#[trigger] kids@[j] == resolve(
                        self.children@.take(i as int),
                        tree@,
                    )[j],
            decreases self.children@.len() - i,
        {
            proof {
                assert(self.children@.take(i as int + 1).drop_last() =~= self.children@.take(
                    i as int,
                ));
            }
            match tree_get(tree, self.children[i]) {
                Some(kid) => {
                    kids.push(kid);
                },
                None => {},
            }
            i += 1;
        }
        proof {
            assert(self.children@.take(i as int) =~= self.children@);
        }
        kids
    }
}

/// One line of a snapshot of the process table: the record of a process and
/// the id of its parent, where that could be told.
#[derive(Clone, Debug)]
pub struct SnapshotEntry {
    pub info: ProcessInfo,
    pub parent: Option<Pid>,
}

/// A line of a snapshot as a plain value.
pub struct EntryView {
    pub info: InfoView,
    pub parent: Option<Pid>,
}

impl View for SnapshotEntry {
    type V = EntryView;

    open spec fn view(&self) -> EntryView {
        EntryView { info: self.info@, parent: self.parent }
    }
}

/// A process tree as a plain value: the node under each id.
pub open spec fn model(tree: Map<Pid, Process>) -> Map<Pid, ProcessView> {
    tree.map_values(|process: Process| process@)
}

/// The parent that a process with this snapshot line is attached to, if any:
/// none where the parent is unknown or is the top of the process table.
pub open spec fn attaches_to(entry: EntryView) -> Option<Pid> {
    match entry.parent {
        Some(parent) if parent != TOP_PID => Some(parent),
        _ => None,
    }
}

/// `tree` with the record `info` under its own id: a node that is there
/// already keeps its children.
pub open spec fn with_record(tree: Map<Pid, ProcessView>, info: InfoView) -> Map<
    Pid,
    ProcessView,
> {
    tree.insert(
        info.pid,
        ProcessView {
            info,
            children: if tree.contains_key(info.pid) {
                tree[info.pid].children
            } else {
                Seq::empty()
            },
        },
    )
}

/// `tree` with `child` attached to `parent`: a parent that is not there yet
/// gets a node with a placeholder for its record.
pub open spec fn with_child(tree: Map<Pid, ProcessView>, parent: Pid, child: Pid) -> Map<
    Pid,
    ProcessView,
> {
    tree.insert(
        parent,
        if tree.contains_key(parent) {
            ProcessView { info: tree[parent].info, children: tree[parent].children.push(child) }
        } else {
            ProcessView { info: placeholder(), children: seq![child] }
        },
    )
}

/// `tree` after one more line of the snapshot.
pub open spec fn recorded(tree: Map<Pid, ProcessView>, entry: EntryView) -> Map<
    Pid,
    ProcessView,
> {
    let known = with_record(tree, entry.info);
    match attaches_to(entry) {
        Some(parent) => with_child(known, parent, entry.info.pid),
        None => known,
    }
}

/// The tree that one pass over `snapshot` leaves.
pub open spec fn built(snapshot: Seq<EntryView>) -> Map<Pid, ProcessView>
    decreases snapshot.len(),
{
    if snapshot.len() == 0 {
        Map::empty()
    } else {
        recorded(built(snapshot.drop_last()), snapshot.last())
    }
}

/// An empty process tree with room for `PROCESS_TREE_CAPACITY` processes.
pub fn empty_tree() -> (tree: ProcessTree)
    ensures
        tree@ == Map::<Pid, Process>::empty(),
{
    let mut tree: ProcessTree = HashMap::default();
    tree.reserve(PROCESS_TREE_CAPACITY);
    tree
}

/// Takes one process of the snapshot into `tree`: its record goes under its
/// own id, and its id goes to the children of its parent, unless the parent
/// is unknown or is the top of the process table.
pub fn record_process(tree: &mut ProcessTree, info: ProcessInfo, parent: Option<Pid>)
    ensures
        model(final(tree)@) == recorded(
            model(old(tree)@),
            EntryView { info: info@, parent },
        ),
{
    let pid = info.pid;
    match tree_get_mut(tree, pid) {
        Some(process) => {
            process.info = info;
        },
        None => {
            tree_insert(tree, pid, Process::new(info));
        },
    }
    proof {
        assert(model(tree@) =~= with_record(model(old(tree)@), info@));
    }
    let ghost known = tree@;
    match parent {
        Some(parent_pid) => {
            if parent_pid != TOP_PID {
                match tree_get_mut(tree, parent_pid) {
                    Some(process) => {
                        process.children.push(pid);
                    },
                    None => {
                        let mut children: Vec<Pid> = Vec::new();
                        children.push(pid);
                        tree_insert(
                            tree,
                            parent_pid,
                            Process::new_with_children(ProcessInfo::default(), children),
                        );
                    },
                }
                proof {
                    assert(model(tree@) =~= with_child(model(known), parent_pid, pid));
                }
            }
        },
        None => {},
    }
}

/// `snapshot` has a line that names `pid`, as a process or as a parent that
/// a process is attached to.
pub open spec fn mentions(snapshot: Seq<EntryView>, pid: Pid) -> bool {
    exists|i: int|
        0 <= i < snapshot.len() && ((#[trigger] snapshot[i]).info.pid == pid || attaches_to(
            snapshot[i],
        ) == Some(pid))
}

/// The record that `snapshot` gives for `pid`: that of its last line for
/// this process, or a placeholder where it has none.
pub open spec fn latest(snapshot: Seq<EntryView>, pid: Pid) -> InfoView
    decreases snapshot.len(),
{
    if snapshot.len() == 0 {
        placeholder()
    } else if snapshot.last().info.pid == pid {
        snapshot.last().info
    } else {
        latest(snapshot.drop_last(), pid)
    }
}

/// The ids of the processes that `snapshot` attaches to `parent`, in the
/// order of their lines.
pub open spec fn attached(snapshot: Seq<EntryView>, parent: Pid) -> Seq<Pid>
    decreases snapshot.len(),
{
    if snapshot.len() == 0 {
        Seq::empty()
    } else if attaches_to(snapshot.last()) == Some(parent) {
        attached(snapshot.drop_last(), parent).push(snapshot.last().info.pid)
    } else {
        attached(snapshot.drop_last(), parent)
    }
}

/// The process tree of a snapshot: a node for every id that the snapshot
/// mentions, with the record the snapshot gives for it and the processes
/// attached to it.
pub open spec fn snapshot_tree(snapshot: Seq<EntryView>) -> Map<Pid, ProcessView> {
    Map::new(
        |pid: Pid| mentions(snapshot, pid),
        |pid: Pid| ProcessView { info: latest(snapshot, pid), children: attached(snapshot, pid) },
    )
}

proof fn lemma_mentions_grows(snapshot: Seq<EntryView>, pid: Pid)
    requires
        snapshot.len() > 0,
    ensures
        mentions(snapshot, pid) <==> mentions(snapshot.drop_last(), pid)
            || snapshot.last().info.pid == pid || attaches_to(snapshot.last()) == Some(pid),
{
    let before = snapshot.drop_last();
    if mentions(snapshot, pid) {
        let i = choose|i: int|
            0 <= i < snapshot.len() && ((#[trigger] snapshot[i]).info.pid == pid || attaches_to(
                snapshot[i],
            ) == Some(pid));
        if i < before.len() {
            assert(before[i] == snapshot[i]);
        }
    }
    if mentions(before, pid) {
        let i = choose|i: int|
            0 <= i < before.len() && ((#[trigger] before[i]).info.pid == pid || attaches_to(
                before[i],
            ) == Some(pid));
        assert(snapshot[i] == before[i]);
    }
    assert(snapshot[snapshot.len() - 1] == snapshot.last());
}

/// What a snapshot does not mention has no record and no children in it.
proof fn lemma_unmentioned_is_bare(snapshot: Seq<EntryView>, pid: Pid)
    ensures
        !mentions(snapshot, pid) ==> latest(snapshot, pid) == placeholder() && attached(
            snapshot,
            pid,
        ) == Seq::<Pid>::empty(),
    decreases snapshot.len(),
{
    if snapshot.len() > 0 {
        lemma_mentions_grows(snapshot, pid);
        lemma_unmentioned_is_bare(snapshot.drop_last(), pid);
    }
}

/// One pass over a snapshot, line by line, leaves the process tree of the
/// snapshot.
pub proof fn lemma_built_is_snapshot_tree(snapshot: Seq<EntryView>)
    ensures
        built(snapshot) == snapshot_tree(snapshot),
    decreases snapshot.len(),
{
    if snapshot.len() == 0 {
        assert(built(snapshot) =~= snapshot_tree(snapshot));
    } else {
        let before = snapshot.drop_last();
        let line = snapshot.last();
        lemma_built_is_snapshot_tree(before);
        let known = with_record(built(before), line.info);
        assert forall|pid: Pid| #[trigger]
            built(snapshot).contains_key(pid) <==> mentions(snapshot, pid) by {
            lemma_mentions_grows(snapshot, pid);
        }
        assert forall|pid: Pid| #[trigger] built(snapshot).contains_key(pid) implies built(
            snapshot,
        )[pid] == snapshot_tree(snapshot)[pid] by {
            lemma_mentions_grows(snapshot, pid);
            lemma_unmentioned_is_bare(before, pid);
            let node = built(snapshot)[pid];
            assert(node.info == latest(snapshot, pid));
            assert(node.children =~= attached(snapshot, pid));
        }
        assert(built(snapshot) =~= snapshot_tree(snapshot));
    }
}

/// Every process that a snapshot attaches to a parent is a process that the
/// snapshot lists.
proof fn lemma_attached_are_listed(snapshot: Seq<EntryView>, parent: Pid, i: int)
    requires
        0 <= i < attached(snapshot, parent).len(),
    ensures
        mentions(snapshot, attached(snapshot, parent)[i]),
    decreases snapshot.len(),
{
    let before = snapshot.drop_last();
    let line = snapshot.last();
    assert(line == snapshot[snapshot.len() - 1]);
    lemma_mentions_grows(snapshot, attached(snapshot, parent)[i]);
    if i < attached(before, parent).len() {
        lemma_attached_are_listed(before, parent, i);
    }
}

/// In the tree of a snapshot every child has a node of its own: no node
/// names a child that the tree does not hold.
pub proof fn lemma_children_have_nodes(snapshot: Seq<EntryView>, parent: Pid, i: int)
    requires
        built(snapshot).contains_key(parent),
        0 <= i < built(snapshot)[parent].children.len(),
    ensures
        built(snapshot).contains_key(built(snapshot)[parent].children[i]),
{
    lemma_built_is_snapshot_tree(snapshot);
    lemma_attached_are_listed(snapshot, parent, i);
}

/// How many times `pid` stands in `pids`.
pub open spec fn times(pids: Seq<Pid>, pid: Pid) -> nat
    decreases pids.len(),
{
    if pids.len() == 0 {
        0
    } else if pids.last() == pid {
        times(pids.drop_last(), pid) + 1
    } else {
        times(pids.drop_last(), pid)
    }
}

/// No two lines of `snapshot` are for the same process.
pub open spec fn lists_each_once(snapshot: Seq<EntryView>) -> bool {
    forall|a: int, b: int|
        0 <= a < b < snapshot.len() ==> (#[trigger] snapshot[a]).info.pid != (
        #[trigger] snapshot[b]).info.pid
}

proof fn lemma_unlisted_is_no_child(snapshot: Seq<EntryView>, parent: Pid, pid: Pid)
    requires
        forall|i: int| 0 <= i < snapshot.len() ==> (#[trigger] snapshot[i]).info.pid != pid,
    ensures
        times(attached(snapshot, parent), pid) == 0,
    decreases snapshot.len(),
{
    if snapshot.len() > 0 {
        let before = snapshot.drop_last();
        assert forall|i: int| 0 <= i < before.len() implies (#[trigger] before[i]).info.pid
            != pid by {
            assert(before[i] == snapshot[i]);
        }
        lemma_unlisted_is_no_child(before, parent, pid);
        assert(snapshot[snapshot.len() - 1].info.pid != pid);
        assert(attached(before, parent).push(snapshot.last().info.pid).drop_last() =~= attached(
            before,
            parent,
        ));
    }
}

proof fn lemma_listed_once_is_child_once(
    snapshot: Seq<EntryView>,
    i: int,
    parent: Pid,
    other: Pid,
)
    requires
        lists_each_once(snapshot),
        0 <= i < snapshot.len(),
        attaches_to(snapshot[i]) == Some(parent),
        other != parent,
    ensures
        times(attached(snapshot, parent), snapshot[i].info.pid) == 1,
        times(attached(snapshot, other), snapshot[i].info.pid) == 0,
    decreases snapshot.len(),
{
    let before = snapshot.drop_last();
    let pid = snapshot[i].info.pid;
    let line = snapshot.last();
    assert(line == snapshot[snapshot.len() - 1]);
    assert(attached(before, parent).push(line.info.pid).drop_last() =~= attached(before, parent));
    assert(attached(before, other).push(line.info.pid).drop_last() =~= attached(before, other));
    if i == snapshot.len() - 1 {
        assert forall|k: int| 0 <= k < before.len() implies (#[trigger] before[k]).info.pid
            != pid by {
            assert(before[k] == snapshot[k]);
        }
        lemma_unlisted_is_no_child(before, parent, pid);
        lemma_unlisted_is_no_child(before, other, pid);
    } else {
        assert forall|a: int, b: int| 0 <= a < b < before.len() implies (
        #[trigger] before[a]).info.pid != (#[trigger] before[b]).info.pid by {
            assert(before[a] == snapshot[a] && before[b] == snapshot[b]);
        }
        assert(before[i] == snapshot[i]);
        lemma_listed_once_is_child_once(before, i, parent, other);
        assert(line.info.pid != pid);
    }
}

proof fn lemma_latest_of_listed_once(snapshot: Seq<EntryView>, i: int)
    requires
        lists_each_once(snapshot),
        0 <= i < snapshot.len(),
    ensures
        latest(snapshot, snapshot[i].info.pid) == snapshot[i].info,
    decreases snapshot.len(),
{
    if i < snapshot.len() - 1 {
        let before = snapshot.drop_last();
        assert forall|a: int, b: int| 0 <= a < b < before.len() implies (
        #[trigger] before[a]).info.pid != (#[trigger] before[b]).info.pid by {
            assert(before[a] == snapshot[a] && before[b] == snapshot[b]);
        }
        assert(before[i] == snapshot[i]);
        assert(snapshot[snapshot.len() - 1].info.pid != snapshot[i].info.pid);
        lemma_latest_of_listed_once(before, i);
    }
}

/// In the tree of a snapshot that lists each process once, a process that
/// is attached to a parent stands exactly once among the children of that
/// parent's node and nowhere among the children of another node; and where
/// the snapshot lists the parent too, the parent's node carries the
/// parent's own record.
pub proof fn lemma_child_of_its_parent_once(
    snapshot: Seq<EntryView>,
    child: int,
    parent: int,
    other: Pid,
)
    requires
        lists_each_once(snapshot),
        0 <= child < snapshot.len(),
        0 <= parent < snapshot.len(),
        attaches_to(snapshot[child]) == Some(snapshot[parent].info.pid),
        other != snapshot[parent].info.pid,
    ensures
        built(snapshot).contains_key(snapshot[parent].info.pid),
        built(snapshot)[snapshot[parent].info.pid].info == snapshot[parent].info,
        times(
            built(snapshot)[snapshot[parent].info.pid].children,
            snapshot[child].info.pid,
        ) == 1,
        built(snapshot).contains_key(other) ==> times(
            built(snapshot)[other].children,
            snapshot[child].info.pid,
        ) == 0,
{
    lemma_built_is_snapshot_tree(snapshot);
    lemma_listed_once_is_child_once(snapshot, child, snapshot[parent].info.pid, other);
    lemma_latest_of_listed_once(snapshot, parent);
}

/// Builds the process tree of a snapshot in one pass, line by line.
pub fn build_process_tree(snapshot: &[SnapshotEntry]) -> (tree: ProcessTree)
    ensures
        model(tree@) == snapshot_tree(snapshot@.map_values(|entry: SnapshotEntry| entry@)),
        model(tree@) == built(snapshot@.map_values(|entry: SnapshotEntry| entry@)),
{
    let ghost lines = snapshot@.map_values(|entry: SnapshotEntry| entry@);
    let mut tree = empty_tree();
    let mut i: usize = 0;
    proof {
        assert(model(tree@) =~= built(lines.take(0)));
    }
    while i < snapshot.len()
        invariant
            i <= snapshot@.len(),
            lines == snapshot@.map_values(|entry: SnapshotEntry| entry@),
            model(tree@) == built(lines.take(i as int)),
        decreases snapshot@.len() - i,
    {
        let entry = &snapshot[i];
        let info = ProcessInfo::new(entry.info.pid, entry.info.name.clone());
        proof {
            assert(lines.take(i as int + 1).drop_last() =~= lines.take(i as int));
            assert(lines.take(i as int + 1).last() == entry@);
        }
        record_process(&mut tree, info, entry.parent);
        i += 1;
    }
    proof {
        assert(lines.take(i as int) =~= lines);
        lemma_built_is_snapshot_tree(lines);
    }
    tree
}

} // verus!

//! Finds the working location of the program behind the focused window: a
//! process tree is built from a snapshot of the process table, walked
//! breadth-first from the window's process, and the last well-known program
//! met on the way names the registry record that holds the location.

pub mod order;
pub mod process;
pub mod runs;
pub mod status;
pub mod tosubstr;
pub mod walk;

use crate::order::{lemma_bfs_visits_level_order, level_order, positions};
use crate::process::{tree_get, tree_len, Pid, Process, ProcessInfo, ProcessTree};
use crate::walk::{
    at_root, completes, descend, fits_within, is_run, visitor_after, within, ContinueFlow, Node,
    Order, Visit, Visitor, Walker, WalkerNode,
};
use std::ops::ControlFlow;
use vstd::prelude::*;
use vstd::string::*;

verus! {

/// The room set aside for the frontier of a search.
pub const BSF_HEAP_CAPACITY: usize = 1024;

/// The names of the programs that record their location: a shell and an
/// editor.
pub fn known_procs() -> (names: Vec<String>)
    ensures
        names@.len() == 2,
        names@[0]@ == "zsh"@,
        names@[1]@ == "nvim"@,
{
    let mut names: Vec<String> = Vec::new();
    names.push(String::from_str("zsh"));
    names.push(String::from_str("nvim"));
    names
}

/// What a registry record holds: a working location and, for an editor, the
/// id of the process that owns its control pipe.
#[derive(Clone, Debug)]
pub struct LocationData {
    pub location: String,
    pub nvim_pipe: Option<Pid>,
}

/// The location that stands in where the home directory is unknown.
pub open spec fn default_home() -> Seq<char> {
    "/home/root/"@
}

impl LocationData {
    /// The record to answer with where no known program was found: the home
    /// directory of the user, or `/home/root/` where that is unknown.
    pub fn fallback(home: Option<String>) -> (data: Self)
        ensures
            data.nvim_pipe is None,
            data.location@ == match home {
                Some(dir) => dir@,
                None => default_home(),
            },
    {
        let location = match home {
            Some(dir) => dir,
            None => String::from_str("/home/root/"),
        };
        Self { location, nvim_pipe: None }
    }
}

/// `found` with `record` behind it, where the name in `record` is one of
/// `names`; else `found` as it is.
pub open spec fn noted(found: Seq<ProcessInfo>, names: Seq<Seq<char>>, record: ProcessInfo) -> Seq<
    ProcessInfo,
> {
    if names.contains(record@.name) {
        found.push(record)
    } else {
        found
    }
}

/// `found`, and behind it the records with a name in `names` that lie at
/// `paths` below `root`, in the order of `paths`.
pub open spec fn gathered(
    found: Seq<ProcessInfo>,
    names: Seq<Seq<char>>,
    root: Process,
    tree: ProcessTree,
    paths: Seq<Seq<int>>,
) -> Seq<ProcessInfo>
    decreases paths.len(),
{
    if paths.len() == 0 {
        found
    } else {
        noted(
            gathered(found, names, root, tree, paths.drop_last()),
            names,
            descend(root, tree, paths.last()).record(),
        )
    }
}

/// The policy of the search: it keeps the record of every visited process
/// that runs a known program, and lets the traversal go on everywhere.
#[derive(Clone, Debug)]
pub struct LocationSearch<'a> {
    names: &'a [String],
    known_procs: Vec<&'a ProcessInfo>,
}

impl<'a> LocationSearch<'a> {
    /// The names of the known programs.
    pub closed spec fn names(&self) -> Seq<Seq<char>> {
        self.names@.map_values(|name: String| name@)
    }

    /// The records kept so far, in the order in which they were met.
    pub closed spec fn found(&self) -> Seq<ProcessInfo> {
        self.known_procs@.map_values(|record: &ProcessInfo| *record)
    }

    /// A search for the programs called `names` that has met none yet.
    pub fn new(names: &'a [String]) -> (search: Self)
        ensures
            search.names() == names@.map_values(|name: String| name@),
            search.found() == Seq::<ProcessInfo>::empty(),
    {
        let search = Self { names, known_procs: Vec::new() };
        assert(search.found() =~= Seq::<ProcessInfo>::empty());
        search
    }

    /// Keeps the record of `node` where its name is known.
    pub fn handle_node(&mut self, node: WalkerNode<'a, ProcessInfo, Process>) -> (flow:
        ControlFlow<Pid, ContinueFlow>)
        ensures
            flow == ControlFlow::<Pid, ContinueFlow>::Continue(ContinueFlow::Forward),
            final(self).names() == old(self).names(),
            final(self).found() == noted(
                old(self).found(),
                old(self).names(),
                node.inner.record(),
            ),
    {
        let record = node.inner.data();
        let ghost names = self.names();
        let mut known = false;
        let mut i: usize = 0;
        while i < self.names.len()
            invariant
                i <= self.names@.len(),
                names == self.names(),
                known <==> names.take(i as int).contains(record@.name),
            decreases self.names@.len() - i,
        {
            proof {
                let upto = names.take(i as int);
                let next = names.take(i as int + 1);
                assert(next =~= upto.push(names[i as int]));
                assert(names[i as int] == self.names@[i as int]@);
                if upto.contains(record@.name) {
                    let k = choose|k: int| 0 <= k < upto.len() && upto[k] == record@.name;
                    assert(next[k] == record@.name);
                }
                if next.contains(record@.name) && !upto.contains(record@.name) {
                    let k = choose|k: int| 0 <= k < next.len() && next[k] == record@.name;
                    if k < i {
                        assert(upto[k] == record@.name);
                    }
                }
                if names[i as int] == record@.name {
                    assert(next[i as int] == record@.name);
                }
            }
            if self.names[i] == record.name {
                known = true;
            }
            i += 1;
        }
        proof {
            assert(names.take(i as int) =~= names);
        }
        if known {
            self.known_procs.push(record);
            proof {
                assert(self.found() =~= old(self).found().push(*record));
            }
        }
        ControlFlow::Continue(ContinueFlow::Forward)
    }

    /// The record kept last, if any was kept.
    pub fn select(&self) -> (chosen: Option<&'a ProcessInfo>)
        ensures
            match chosen {
                Some(record) => self.found().len() > 0 && *record == self.found().last(),
                None => self.found().len() == 0,
            },
    {
        let count = self.known_procs.len();
        if count == 0 {
            None
        } else {
            Some(self.known_procs[count - 1])
        }
    }
}

impl<'a> Visitor<'a, ProcessInfo, Process, Pid> for LocationSearch<'a> {
    open spec fn ready(&self) -> bool {
        true
    }

    open spec fn observes(
        &self,
        node: WalkerNode<'a, ProcessInfo, Process>,
        flow: ControlFlow<Pid, ContinueFlow>,
        after: &Self,
    ) -> bool {
        &&& flow == ControlFlow::<Pid, ContinueFlow>::Continue(ContinueFlow::Forward)
        &&& after.names() == self.names()
        &&& after.found() == noted(self.found(), self.names(), node.inner.record())
    }

    fn visit(&mut self, node: WalkerNode<'a, ProcessInfo, Process>) -> (flow: ControlFlow<
        Pid,
        ContinueFlow,
    >) {
        self.handle_node(node)
    }
}

/// The character that stands for a decimal digit.
pub open spec fn digit(d: int) -> char {
    if d == 0 {
        '0'
    } else if d == 1 {
        '1'
    } else if d == 2 {
        '2'
    } else if d == 3 {
        '3'
    } else if d == 4 {
        '4'
    } else if d == 5 {
        '5'
    } else if d == 6 {
        '6'
    } else if d == 7 {
        '7'
    } else if d == 8 {
        '8'
    } else {
        '9'
    }
}

/// The decimal digits of `n`, the most significant first.
pub open spec fn digits(n: nat) -> Seq<char>
    decreases n,
{
    if n < 10 {
        seq![digit(n as int)]
    } else {
        digits(n / 10).push(digit((n % 10) as int))
    }
}

/// `n` written in decimal, with a minus sign where it is negative.
pub open spec fn decimal(n: int) -> Seq<char> {
    if n < 0 {
        seq!['-'] + digits((-n) as nat)
    } else {
        digits(n as nat)
    }
}

/// The digits that `lows` holds from the least significant up, written the
/// most significant first.
spec fn written(lows: Seq<u8>) -> Seq<char> {
    Seq::new(lows.len(), |i: int| digit(lows[lows.len() - 1 - i] as int))
}

fn digit_text(d: u8) -> (text: &'static str)
    requires
        d < 10,
    ensures
        text@ == seq![digit(d as int)],
{
    proof {
        reveal_strlit("0");
        reveal_strlit("1");
        reveal_strlit("2");
        reveal_strlit("3");
        reveal_strlit("4");
        reveal_strlit("5");
        reveal_strlit("6");
        reveal_strlit("7");
        reveal_strlit("8");
        reveal_strlit("9");
    }
    let text = match d {
        0 => "0",
        1 => "1",
        2 => "2",
        3 => "3",
        4 => "4",
        5 => "5",
        6 => "6",
        7 => "7",
        8 => "8",
        _ => "9",
    };
    assert(text@ =~= seq![digit(d as int)]);
    text
}

/// A process id written in decimal.
pub fn pid_text(pid: Pid) -> (text: String)
    ensures
        text@ == decimal(pid as int),
{
    let wide: i64 = pid as i64;
    let size: u64 = if wide < 0 {
        (0 - wide) as u64
    } else {
        wide as u64
    };
    let mut lows: Vec<u8> = Vec::new();
    lows.push((size % 10) as u8);
    let mut rest: u64 = size / 10;
    proof {
        assert(written(lows@) =~= seq![digit((size % 10) as int)]);
        if rest > 0 {
            assert(digits(size as nat) =~= digits(rest as nat) + written(lows@));
        } else {
            assert(digits(size as nat) =~= written(lows@));
        }
    }
    while rest > 0
        invariant
            lows@.len() > 0,
            forall|i: int| 0 <= i < lows@.len() ==> #[trigger] lows@[i] < 10,
            rest > 0 ==> digits(size as nat) == digits(rest as nat) + written(lows@),
            rest == 0 ==> digits(size as nat) == written(lows@),
        decreases rest,
    {
        let ghost before = lows@;
        let low = (rest % 10) as u8;
        lows.push(low);
        proof {
            assert(written(lows@) =~= seq![digit(low as int)] + written(before));
            let up = (rest / 10) as nat;
            if up > 0 {
                assert(digits(rest as nat) == digits(up).push(digit(low as int)));
                assert(digits(size as nat) =~= digits(up) + written(lows@));
            } else {
                assert(digits(rest as nat) =~= seq![digit(low as int)]);
                assert(digits(size as nat) =~= written(lows@));
            }
        }
        rest = rest / 10;
    }
    let mut text = String::new();
    if wide < 0 {
        proof {
            reveal_strlit("-");
        }
        text.append("-");
    }
    let ghost sign = text@;
    proof {
        assert(sign =~= if wide < 0 {
            seq!['-']
        } else {
            Seq::<char>::empty()
        });
    }
    let mut i: usize = lows.len();
    while i > 0
        invariant
            i <= lows@.len(),
            forall|j: int| 0 <= j < lows@.len() ==> #[trigger] lows@[j] < 10,
            text@ == sign + written(lows@).take(lows@.len() - i),
        decreases i,
    {
        i -= 1;
        let ghost before = text@;
        text.append(digit_text(lows[i]));
        proof {
            let all = written(lows@);
            let done = lows@.len() - i - 1;
            assert(all.take(done + 1) =~= all.take(done).push(all[done]));
            assert(text@ =~= sign + all.take(done + 1));
        }
    }
    proof {
        assert(written(lows@).take(lows@.len() as int) =~= written(lows@));
        assert(text@ =~= decimal(pid as int));
    }
    text
}

/// The directory that holds the registry records.
pub open spec fn registry_dir() -> Seq<char> {
    "/tmp/current-location/"@
}

/// The path of the registry record of the process `pid` that runs `name`.
pub open spec fn record_path(pid: Pid, name: Seq<char>) -> Seq<char> {
    registry_dir() + name + "-"@ + decimal(pid as int) + ".txt"@
}

/// The path of the registry record of the process `pid` that runs `name`:
/// the name, a hyphen, the id and `.txt`, in the registry directory.
pub fn build_path(pid: Pid, name: &str) -> (path: String)
    ensures
        path@ == record_path(pid, name@),
{
    let mut path = String::from_str("/tmp/current-location/");
    path.append(name);
    path.append("-");
    let id = pid_text(pid);
    path.append(id.as_str());
    path.append(".txt");
    path
}

/// Why a search gave no answer.
#[derive(PartialEq, Eq, Structural, Copy, Clone, Debug)]
pub enum SearchError {
    /// No window has the focus, and no process id was given in its place.
    NoActiveWindow,
    /// The process tree holds no process with the id of the root.
    ProcessNotFound,
    /// The processes below the root do not form a tree: a path through
    /// them is longer than the number of processes in the tree.
    NotATree,
}

impl SearchError {
    /// What went wrong, in words.
    pub fn message(&self) -> (text: String)
        ensures
            text@ == match self {
                SearchError::NoActiveWindow => "no active client"@,
                SearchError::ProcessNotFound => "process not found"@,
                SearchError::NotATree => "processes do not form a tree"@,
            },
    {
        match self {
            SearchError::NoActiveWindow => String::from_str("no active client"),
            SearchError::ProcessNotFound => String::from_str("process not found"),
            SearchError::NotATree => String::from_str("processes do not form a tree"),
        }
    }
}

/// The id of the process to start the search from: the one given, or else
/// the one that owns the focused window; `forced` takes the place of either.
pub fn active_root(given: Option<Pid>, focused: Option<Pid>, forced: Option<Pid>) -> (root:
    Result<Pid, SearchError>)
    ensures
        root == match (given, focused) {
            (None, None) => Err::<Pid, SearchError>(SearchError::NoActiveWindow),
            (Some(pid), _) => Ok(forced.unwrap_or(pid)),
            (None, Some(pid)) => Ok(forced.unwrap_or(pid)),
        },
{
    let active = match given {
        Some(pid) => pid,
        None => match focused {
            Some(pid) => pid,
            None => {
                return Err(SearchError::NoActiveWindow);
            },
        },
    };
    match forced {
        Some(pid) => Ok(pid),
        None => Ok(active),
    }
}

/// The records of the known programs below `root`, in level order.
pub open spec fn lineage(names: Seq<Seq<char>>, root: Process, tree: ProcessTree) -> Seq<
    ProcessInfo,
> {
    gathered(Seq::empty(), names, root, tree, level_order(root, tree))
}

/// The process that a search from `root` settles on: the last of the known
/// programs below `root` in level order.
pub open spec fn selected(names: Seq<Seq<char>>, root: Process, tree: ProcessTree) -> Option<
    ProcessInfo,
> {
    let known = lineage(names, root, tree);
    if known.len() == 0 {
        None
    } else {
        Some(known.last())
    }
}

/// Whatever order it walks in, the search lets every visit go on, keeps its
/// names, and gathers the known records at the visited positions.
pub proof fn lemma_search_gathers<'a>(
    root: Process,
    tree: ProcessTree,
    start: Seq<Seq<int>>,
    order: Order,
    search: LocationSearch<'a>,
    visits: Seq<Visit<LocationSearch<'a>, Pid>>,
)
    requires
        is_run(root, tree, start, order, search, visits),
    ensures
        forall|i: int|
            0 <= i < visits.len() ==> (#[trigger] visits[i]).flow == ControlFlow::<
                Pid,
                ContinueFlow,
            >::Continue(ContinueFlow::Forward),
        visitor_after(search, visits).names() == search.names(),
        visitor_after(search, visits).found() == gathered(
            search.found(),
            search.names(),
            root,
            tree,
            positions(visits),
        ),
    decreases visits.len(),
{
    if visits.len() > 0 {
        let before = visits.drop_last();
        lemma_search_gathers(root, tree, start, order, search, before);
        assert(positions(visits).drop_last() =~= positions(before));
        assert forall|i: int| 0 <= i < visits.len() implies (#[trigger] visits[i]).flow
            == ControlFlow::<Pid, ContinueFlow>::Continue(ContinueFlow::Forward) by {
            if i < before.len() {
                assert(visits[i] == before[i]);
            }
        }
    } else {
        assert(positions(visits) =~= Seq::<Seq<int>>::empty());
    }
}

/// What a search from `active_pid` answers: the path of the registry record
/// of the selected process, or none where no known program runs below
/// `active_pid`; an error where `tree` has no such process, or where the
/// processes below it do not fit in as many levels as `tree` has nodes.
pub open spec fn answer(tree: ProcessTree, active_pid: Pid, names: Seq<Seq<char>>) -> Result<
    Option<Seq<char>>,
    SearchError,
> {
    if !tree@.contains_key(active_pid) {
        Err(SearchError::ProcessNotFound)
    } else if !within(tree@[active_pid], tree, tree@.len()) {
        Err(SearchError::NotATree)
    } else {
        Ok(
            match selected(names, tree@[active_pid], tree) {
                Some(record) => Some(record_path(record.pid, record.name@)),
                None => None,
            },
        )
    }
}

/// The answer of a search as a plain value.
pub open spec fn as_text(found: Result<Option<String>, SearchError>) -> Result<
    Option<Seq<char>>,
    SearchError,
> {
    match found {
        Ok(Some(path)) => Ok(Some(path@)),
        Ok(None) => Ok(None),
        Err(error) => Err(error),
    }
}

/// Asked twice about the same tree, root and names, a search answers the
/// same: whatever two searches found, they found the same.
pub proof fn lemma_search_repeats(
    tree: ProcessTree,
    active_pid: Pid,
    names: Seq<Seq<char>>,
    first: Result<Option<String>, SearchError>,
    second: Result<Option<String>, SearchError>,
)
    requires
        as_text(first) == answer(tree, active_pid, names),
        as_text(second) == answer(tree, active_pid, names),
    ensures
        as_text(first) == as_text(second),
{
}

/// Searches the processes below `active_pid` for the known programs, level
/// by level, and gives the path of the registry record of the last one met;
/// none where no known program runs there.
pub fn search(tree: &ProcessTree, active_pid: Pid, names: &[String]) -> (found: Result<
    Option<String>,
    SearchError,
>)
    ensures
        as_text(found) == answer(*tree, active_pid, names@.map_values(|name: String| name@)),
{
    let root = match tree_get(tree, active_pid) {
        Some(root) => root,
        None => {
            return Err(SearchError::ProcessNotFound);
        },
    };
    if !fits_within(root, tree, tree_len(tree) as u64) {
        return Err(SearchError::NotATree);
    }
    let mut walker = Walker::with_capacity(root, tree, BSF_HEAP_CAPACITY);
    let mut location_search = LocationSearch::new(names);
    let ghost fresh = location_search;
    let stopped = walker.bfs(&mut location_search);
    proof {
        let visits = choose|visits: Seq<Visit<LocationSearch<'_>, Pid>>|
            #[trigger] completes(
                *root,
                *tree,
                at_root(),
                Order::BreadthFirst,
                fresh,
                visits,
                stopped,
                walker.pending(),
                location_search,
            );
        lemma_search_gathers(*root, *tree, at_root(), Order::BreadthFirst, fresh, visits);
        lemma_bfs_visits_level_order(*root, *tree, fresh, visits);
    }
    match location_search.select() {
        Some(record) => Ok(Some(build_path(record.pid, record.name.as_str()))),
        None => Ok(None),
    }
}

} // verus!

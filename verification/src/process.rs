//! The processes that the daemon knows of, and how they descend from each other.

use vstd::prelude::*;

use crate::service::OwnedPriority;

verus! {

/// A process.
#[derive(Debug)]
pub struct Process {
    /// Process ID.
    pub id: u32,
    /// ID of the process that started it.
    pub parent_id: u32,
    /// Path of its cgroup, empty where that is not known.
    pub cgroup: String,
    /// Its command line.
    pub cmdline: String,
    /// Its name.
    pub name: String,
    /// The name that it had before it took the present one.
    pub forked_name: String,
    /// The known process that started it.
    pub parent: Option<u32>,
    /// The priority that it was assigned.
    pub assigned_priority: OwnedPriority,
    /// The process by which it takes part in audio or video streams.
    pub pipewire_ancestor: Option<u32>,
}

impl Process {
    /// A process of which only the IDs are known.
    pub fn new(id: u32, parent_id: u32) -> (r: Self)
        ensures
            r.id == id,
            r.parent_id == parent_id,
            r.cgroup@.len() == 0,
            r.cmdline@.len() == 0,
            r.name@.len() == 0,
            r.forked_name@.len() == 0,
            r.parent is None,
            r.assigned_priority is NotAssignable,
            r.pipewire_ancestor is None,
    {
        Process {
            id,
            parent_id,
            cgroup: String::new(),
            cmdline: String::new(),
            name: String::new(),
            forked_name: String::new(),
            parent: None,
            assigned_priority: OwnedPriority::NotAssignable,
            pipewire_ancestor: None,
        }
    }
}

/// Whether the process at a position has the given ID.
pub open spec fn is_at(list: Seq<Process>, pid: u32, i: int) -> bool {
    0 <= i < list.len() && list[i].id == pid
}

/// Whether a process is known.
pub open spec fn known(list: Seq<Process>, pid: u32) -> bool {
    exists|i: int| is_at(list, pid, i)
}

/// The known process of an ID.
pub open spec fn lookup(list: Seq<Process>, pid: u32) -> Option<Process> {
    if known(list, pid) {
        Some(list[choose|i: int| is_at(list, pid, i)])
    } else {
        None
    }
}

/// No two known processes have the same ID.
pub open spec fn distinct(list: Seq<Process>) -> bool {
    forall|i: int, j: int| 0 <= i < j < list.len() ==> (#[trigger] list[i]).id != (#[trigger] list[j]).id
}

/// Links lead to known processes.
pub open spec fn linked(list: Seq<Process>) -> bool {
    forall|i: int|
        0 <= i < list.len() ==> ((#[trigger] list[i]).parent matches Some(parent) ==> known(list, parent))
}

/// The known process that started a process.
pub open spec fn parent_of(list: Seq<Process>, process: Process) -> Option<Process> {
    match process.parent {
        Some(parent) => lookup(list, parent),
        None => None,
    }
}

/// The parent of a process, the parent of that, and so on.
pub open spec fn nth_ancestor(list: Seq<Process>, process: Process, n: nat) -> Option<Process>
    decreases n,
{
    if n == 0 {
        parent_of(list, process)
    } else {
        match nth_ancestor(list, process, (n - 1) as nat) {
            Some(ancestor) => parent_of(list, ancestor),
            None => None,
        }
    }
}

/// Whether a process has an ancestor of the given kind.
pub open spec fn has_ancestor(list: Seq<Process>, process: Process, kind: spec_fn(Process) -> bool) -> bool {
    exists|n: nat| (#[trigger] nth_ancestor(list, process, n)) matches Some(ancestor) && kind(ancestor)
}

/// Whether the nearest ancestor of the given kind is the one at a distance.
pub open spec fn is_nearest(
    list: Seq<Process>,
    process: Process,
    kind: spec_fn(Process) -> bool,
    n: nat,
) -> bool {
    &&& nth_ancestor(list, process, n) matches Some(ancestor) && kind(ancestor)
    &&& forall|m: nat| m < n ==> ((#[trigger] nth_ancestor(list, process, m)) matches Some(nearer) ==> !kind(nearer))
}

/// The nearest ancestor of the given kind.
pub open spec fn nearest_ancestor(
    list: Seq<Process>,
    process: Process,
    kind: spec_fn(Process) -> bool,
) -> Option<Process> {
    if exists|n: nat| is_nearest(list, process, kind, n) {
        nth_ancestor(list, process, choose|n: nat| is_nearest(list, process, kind, n))
    } else {
        None
    }
}

/// A process stands at one position only.
pub proof fn lemma_position(list: Seq<Process>, i: int)
    requires
        distinct(list),
        0 <= i < list.len(),
    ensures
        known(list, list[i].id),
        lookup(list, list[i].id) == Some(list[i]),
{
    let pid = list[i].id;
    assert(is_at(list, pid, i));
    let j = choose|j: int| is_at(list, pid, j);
    if i < j {
        assert(list[i].id != list[j].id);
    }
    if j < i {
        assert(list[j].id != list[i].id);
    }
}

/// There is one nearest ancestor of a kind at most.
pub proof fn lemma_nearest(list: Seq<Process>, process: Process, kind: spec_fn(Process) -> bool, n: nat)
    requires
        is_nearest(list, process, kind, n),
    ensures
        nearest_ancestor(list, process, kind) == nth_ancestor(list, process, n),
{
    let m = choose|m: nat| is_nearest(list, process, kind, m);
    if m < n {
        assert(nth_ancestor(list, process, m) matches Some(nearer) ==> !kind(nearer));
    }
    if n < m {
        assert(nth_ancestor(list, process, n) matches Some(nearer) ==> !kind(nearer));
    }
}

/// Positions below a bound without repetition are no more than the bound.
proof fn lemma_pigeonhole(positions: Seq<usize>, bound: nat)
    requires
        positions.no_duplicates(),
        forall|i: int| 0 <= i < positions.len() ==> (#[trigger] positions[i]) < bound,
    ensures
        positions.len() <= bound,
{
    let numbers = positions.map_values(|p: usize| p as int);
    assert(numbers.no_duplicates());
    numbers.unique_seq_to_set();
    let all = vstd::set_lib::set_int_range(0, bound as int);
    vstd::set_lib::lemma_int_range(0, bound as int);
    assert(numbers.to_set().subset_of(all));
    vstd::set_lib::lemma_len_subset(numbers.to_set(), all);
}

/// Whether a process stands at one of the positions.
pub open spec fn visits(list: Seq<Process>, positions: Seq<usize>, process: Process) -> bool {
    exists|j: int| 0 <= j < positions.len() && list[(#[trigger] positions[j]) as int] == process
}

/// Whether positions lead along the ancestors of a process, parent first, past every one of them.
pub open spec fn walks(list: Seq<Process>, process: Process, positions: Seq<usize>) -> bool {
    &&& forall|i: int|
        0 <= i < positions.len() ==> (#[trigger] positions[i]) < list.len() && nth_ancestor(list, process, i as nat)
            == Some(list[positions[i] as int])
    &&& forall|n: nat|
        (#[trigger] nth_ancestor(list, process, n)) matches Some(ancestor) ==> visits(list, positions, ancestor)
}

/// A process has an ancestor of a kind when the walk along its ancestors meets one.
pub proof fn lemma_has_ancestor(
    list: Seq<Process>,
    process: Process,
    positions: Seq<usize>,
    kind: spec_fn(Process) -> bool,
)
    requires
        walks(list, process, positions),
    ensures
        has_ancestor(list, process, kind) <==> exists|i: int|
            0 <= i < positions.len() && kind(list[(#[trigger] positions[i]) as int]),
{
    if has_ancestor(list, process, kind) {
        let n = choose|n: nat| (#[trigger] nth_ancestor(list, process, n)) matches Some(ancestor) && kind(ancestor);
        let ancestor = nth_ancestor(list, process, n)->0;
        assert(visits(list, positions, ancestor));
        let i = choose|i: int| 0 <= i < positions.len() && list[(#[trigger] positions[i]) as int] == ancestor;
        assert(kind(list[positions[i] as int]));
    }
    if exists|i: int| 0 <= i < positions.len() && kind(list[(#[trigger] positions[i]) as int]) {
        let i = choose|i: int| 0 <= i < positions.len() && kind(list[(#[trigger] positions[i]) as int]);
        assert(nth_ancestor(list, process, i as nat) == Some(list[positions[i] as int]));
    }
}

/// The nearest ancestor of a kind is the first one of that kind on the walk along the ancestors.
pub proof fn lemma_nearest_on_walk(
    list: Seq<Process>,
    process: Process,
    positions: Seq<usize>,
    kind: spec_fn(Process) -> bool,
    i: int,
)
    requires
        walks(list, process, positions),
        0 <= i <= positions.len(),
        forall|j: int| 0 <= j < i ==> !kind(list[(#[trigger] positions[j]) as int]),
        i < positions.len() ==> kind(list[positions[i] as int]),
    ensures
        nearest_ancestor(list, process, kind) == (if i < positions.len() {
            Some(list[positions[i] as int])
        } else {
            None
        }),
{
    if i < positions.len() {
        assert forall|m: nat| m < i implies ((#[trigger] nth_ancestor(list, process, m)) matches Some(nearer)
            ==> !kind(nearer)) by {
            assert(!kind(list[positions[m as int] as int]));
        }
        assert(is_nearest(list, process, kind, i as nat));
        lemma_nearest(list, process, kind, i as nat);
    } else {
        lemma_has_ancestor(list, process, positions, kind);
        assert(!(exists|n: nat| is_nearest(list, process, kind, n)));
    }
}

/// When the walk along the ancestors has nothing new to visit, it has visited every ancestor.
proof fn lemma_walk_complete(list: Seq<Process>, process: Process, visited: Seq<usize>, n: nat)
    requires
        forall|i: int|
            0 <= i < visited.len() ==> (#[trigger] visited[i]) < list.len() && nth_ancestor(list, process, i as nat)
                == Some(list[visited[i] as int]),
        nth_ancestor(list, process, visited.len()) matches Some(next) ==> visits(list, visited, next),
    ensures
        nth_ancestor(list, process, n) matches Some(ancestor) ==> visits(list, visited, ancestor),
    decreases n,
{
    if n < visited.len() {
        assert(visited[n as int] < list.len());
    } else if n > visited.len() {
        lemma_walk_complete(list, process, visited, (n - 1) as nat);
        if let Some(before) = nth_ancestor(list, process, (n - 1) as nat) {
            let j = choose|j: int| 0 <= j < visited.len() && list[(#[trigger] visited[j]) as int] == before;
            assert(nth_ancestor(list, process, j as nat) == Some(before));
            assert(nth_ancestor(list, process, (j + 1) as nat) == parent_of(list, before));
            if j + 1 < visited.len() {
                assert(visited[j + 1] < list.len());
            }
        }
    }
}

/// Whether two processes differ at most in what was decided on them.
pub open spec fn alike(a: Process, b: Process) -> bool {
    a == (Process { assigned_priority: a.assigned_priority, pipewire_ancestor: a.pipewire_ancestor, ..b })
}

/// Whether two tables of processes differ at most in what was decided on the processes.
pub open spec fn lists_alike(a: Seq<Process>, b: Seq<Process>) -> bool {
    &&& a.len() == b.len()
    &&& forall|i: int| 0 <= i < a.len() ==> alike(#[trigger] a[i], #[trigger] b[i])
}

/// What is decided on processes does not touch their IDs and links.
pub proof fn lemma_wf_alike(a: Seq<Process>, b: Seq<Process>)
    requires
        lists_alike(a, b),
    ensures
        forall|pid: u32| #[trigger] known(a, pid) == known(b, pid),
        distinct(a) ==> distinct(b),
        linked(a) ==> linked(b),
{
    assert forall|pid: u32| #[trigger] known(a, pid) == known(b, pid) by {
        if known(a, pid) {
            let i = choose|i: int| is_at(a, pid, i);
            assert(alike(a[i], b[i]));
            assert(is_at(b, pid, i));
        }
        if known(b, pid) {
            let i = choose|i: int| is_at(b, pid, i);
            assert(alike(a[i], b[i]));
            assert(is_at(a, pid, i));
        }
    }
    if distinct(a) {
        assert forall|i: int, j: int| 0 <= i < j < b.len() implies (#[trigger] b[i]).id != (#[trigger] b[j]).id by {
            assert(alike(a[i], b[i]) && alike(a[j], b[j]));
            assert(a[i].id != a[j].id);
        }
    }
    if linked(a) {
        assert forall|i: int| 0 <= i < b.len() implies ((#[trigger] b[i]).parent matches Some(parent) ==> known(
            b,
            parent,
        )) by {
            assert(alike(a[i], b[i]));
            assert(a[i].parent matches Some(parent) ==> known(a, parent));
        }
    }
}

/// The ancestors of a process are the same but for what was decided on them.
pub proof fn lemma_ancestor_alike(a: Seq<Process>, b: Seq<Process>, p: Process, q: Process, n: nat)
    requires
        lists_alike(a, b),
        distinct(a),
        alike(p, q),
    ensures
        nth_ancestor(a, p, n) is Some <==> nth_ancestor(b, q, n) is Some,
        nth_ancestor(a, p, n) is Some ==> alike(nth_ancestor(a, p, n)->0, nth_ancestor(b, q, n)->0),
    decreases n,
{
    lemma_wf_alike(a, b);
    if n == 0 {
        lemma_parent_alike(a, b, p, q);
    } else {
        lemma_ancestor_alike(a, b, p, q, (n - 1) as nat);
        if let Some(before) = nth_ancestor(a, p, (n - 1) as nat) {
            lemma_parent_alike(a, b, before, nth_ancestor(b, q, (n - 1) as nat)->0);
        }
    }
}

/// The parent of a process is the same but for what was decided on it.
pub proof fn lemma_parent_alike(a: Seq<Process>, b: Seq<Process>, p: Process, q: Process)
    requires
        lists_alike(a, b),
        distinct(a),
        alike(p, q),
    ensures
        parent_of(a, p) is Some <==> parent_of(b, q) is Some,
        parent_of(a, p) is Some ==> alike(parent_of(a, p)->0, parent_of(b, q)->0),
{
    lemma_wf_alike(a, b);
    if let Some(parent) = p.parent {
        if known(a, parent) {
            let i = choose|i: int| is_at(a, parent, i);
            lemma_position(a, i);
            assert(alike(a[i], b[i]));
            lemma_position(b, i);
        }
    }
}

/// Whether a process has an ancestor of a kind does not depend on what was decided on processes, if the kind does
/// not.
pub proof fn lemma_has_ancestor_alike(
    a: Seq<Process>,
    b: Seq<Process>,
    p: Process,
    q: Process,
    kind: spec_fn(Process) -> bool,
)
    requires
        lists_alike(a, b),
        distinct(a),
        alike(p, q),
        forall|x: Process, y: Process| #[trigger] alike(x, y) ==> kind(x) == kind(y),
    ensures
        has_ancestor(a, p, kind) == has_ancestor(b, q, kind),
{
    if has_ancestor(a, p, kind) {
        let n = choose|n: nat| (#[trigger] nth_ancestor(a, p, n)) matches Some(ancestor) && kind(ancestor);
        lemma_ancestor_alike(a, b, p, q, n);
        assert(nth_ancestor(b, q, n) is Some && kind(nth_ancestor(b, q, n)->0));
    }
    if has_ancestor(b, q, kind) {
        let n = choose|n: nat| (#[trigger] nth_ancestor(b, q, n)) matches Some(ancestor) && kind(ancestor);
        lemma_ancestor_alike(a, b, p, q, n);
        assert(nth_ancestor(a, p, n) is Some && kind(nth_ancestor(a, p, n)->0));
    }
}

/// A process without its link to a process that is dropped.
pub open spec fn unlinked(process: Process, dropped: Seq<u32>) -> Process {
    Process {
        parent: match process.parent {
            Some(parent) => if dropped.contains(parent) {
                None
            } else {
                Some(parent)
            },
            None => None,
        },
        ..process
    }
}

/// The processes that are left when some are dropped.
pub open spec fn survivors(list: Seq<Process>, dropped: Seq<u32>) -> Seq<Process>
    decreases list.len(),
{
    if list.len() == 0 {
        list
    } else {
        let before = survivors(list.drop_last(), dropped);
        if dropped.contains(list.last().id) {
            before
        } else {
            before.push(unlinked(list.last(), dropped))
        }
    }
}

/// Whether a process is another, or one that the other descends from.
pub open spec fn in_tree(list: Seq<Process>, process: u32, pid: u32) -> bool {
    ||| pid == process
    ||| lookup(list, process) matches Some(entry) && has_ancestor(list, entry, |a: Process| a.id == pid)
}

/// Dropping processes leaves those that are known and not dropped, in their order.
pub proof fn lemma_survivors(list: Seq<Process>, dropped: Seq<u32>)
    requires
        distinct(list),
    ensures
        distinct(survivors(list, dropped)),
        survivors(list, dropped).len() <= list.len(),
        forall|pid: u32|
            #[trigger] known(survivors(list, dropped), pid) <==> known(list, pid) && !dropped.contains(pid),
        forall|i: int|
            0 <= i < survivors(list, dropped).len() ==> exists|j: int|
                0 <= j < list.len() && #[trigger] survivors(list, dropped)[i] == unlinked(#[trigger] list[j], dropped),
    decreases list.len(),
{
    let left = survivors(list, dropped);
    if list.len() == 0 {
        assert forall|pid: u32| #[trigger] known(left, pid) <==> known(list, pid) && !dropped.contains(pid) by {}
    } else {
        let head = list.drop_last();
        let before = survivors(head, dropped);
        let last = list.last();
        lemma_survivors(head, dropped);
        assert forall|pid: u32| known(list, pid) == (known(head, pid) || pid == last.id) by {
            if known(list, pid) {
                let i = choose|i: int| is_at(list, pid, i);
                if i < head.len() {
                    assert(is_at(head, pid, i));
                }
            }
            if known(head, pid) {
                let i = choose|i: int| is_at(head, pid, i);
                assert(is_at(list, pid, i));
            }
            if pid == last.id {
                assert(is_at(list, pid, list.len() - 1));
            }
        }
        assert(!known(head, last.id)) by {
            if known(head, last.id) {
                let i = choose|i: int| is_at(head, last.id, i);
                assert(list[i].id != list[list.len() - 1].id);
            }
        }
        assert forall|i: int| 0 <= i < left.len() implies exists|j: int|
            0 <= j < list.len() && #[trigger] left[i] == unlinked(#[trigger] list[j], dropped) by {
            if i < before.len() {
                let j = choose|j: int| 0 <= j < head.len() && before[i] == unlinked(#[trigger] head[j], dropped);
                assert(left[i] == unlinked(list[j], dropped));
            } else {
                assert(left[i] == unlinked(list[list.len() - 1], dropped));
            }
        }
        if dropped.contains(last.id) {
            assert forall|pid: u32| #[trigger] known(left, pid) <==> known(list, pid) && !dropped.contains(pid) by {}
        } else {
            assert forall|pid: u32| known(left, pid) == (known(before, pid) || pid == last.id) by {
                if known(left, pid) {
                    let i = choose|i: int| is_at(left, pid, i);
                    if i < before.len() {
                        assert(is_at(before, pid, i));
                    }
                }
                if known(before, pid) {
                    let i = choose|i: int| is_at(before, pid, i);
                    assert(is_at(left, pid, i));
                }
                if pid == last.id {
                    assert(is_at(left, pid, left.len() - 1));
                }
            }
            assert(!known(before, last.id));
            assert forall|i: int, j: int| 0 <= i < j < left.len() implies (#[trigger] left[i]).id != (
            #[trigger] left[j]).id by {
                if j == before.len() {
                    assert(is_at(before, left[i].id, i));
                }
            }
            assert forall|pid: u32| #[trigger] known(left, pid) <==> known(list, pid) && !dropped.contains(pid) by {}
        }
    }
}

/// The processes that the daemon knows of.
pub struct ProcessMap {
    /// The processes, in the order in which they became known.
    pub processes: Vec<Process>,
    /// Processes that are dropped unless they are seen again.
    pub stale: Vec<u32>,
}

impl ProcessMap {
    /// IDs are unique, and links lead to known processes.
    pub open spec fn wf(&self) -> bool {
        &&& distinct(self.processes@)
        &&& linked(self.processes@)
    }

    /// No processes.
    pub fn new() -> (r: Self)
        ensures
            r.wf(),
            r.processes@.len() == 0,
            r.stale@.len() == 0,
    {
        ProcessMap { processes: Vec::new(), stale: Vec::new() }
    }

    /// The position of a process.
    pub fn position(&self, pid: u32) -> (r: Option<usize>)
        ensures
            r is Some <==> known(self.processes@, pid),
            r matches Some(i) ==> is_at(self.processes@, pid, i as int),
    {
        let mut i: usize = 0;
        while i < self.processes.len()
            invariant
                i <= self.processes@.len(),
                forall|j: int| 0 <= j < i ==> !is_at(self.processes@, pid, j),
            decreases self.processes@.len() - i,
        {
            if self.processes[i].id == pid {
                assert(is_at(self.processes@, pid, i as int));
                return Some(i);
            }
            i += 1;
        }
        None
    }

    /// The known process of an ID.
    pub fn get_pid(&self, pid: u32) -> (r: Option<&Process>)
        requires
            self.wf(),
        ensures
            r is Some <==> known(self.processes@, pid),
            r matches Some(process) ==> lookup(self.processes@, pid) == Some(*process),
    {
        match self.position(pid) {
            Some(i) => {
                proof {
                    lemma_position(self.processes@, i as int);
                }
                Some(&self.processes[i])
            },
            None => None,
        }
    }

    /// The known process that started a process.
    pub fn parent(&self, process: &Process) -> (r: Option<&Process>)
        requires
            self.wf(),
        ensures
            r is Some <==> parent_of(self.processes@, *process) is Some,
            r matches Some(parent) ==> parent_of(self.processes@, *process) == Some(*parent),
    {
        match process.parent {
            Some(parent) => self.get_pid(parent),
            None => None,
        }
    }

    /// Adds a process, if it is not known yet, and gives its position.
    pub fn insert(&mut self, process: Process) -> (r: usize)
        requires
            old(self).wf(),
            process.parent matches Some(parent) ==> known(old(self).processes@, parent),
        ensures
            final(self).wf(),
            final(self).stale@ == old(self).stale@,
            final(self).processes@ == (if known(old(self).processes@, process.id) {
                old(self).processes@
            } else {
                old(self).processes@.push(process)
            }),
            is_at(final(self).processes@, process.id, r as int),
    {
        match self.position(process.id) {
            Some(at) => at,
            None => {
                let at: usize = self.processes.len();
                let ghost before = self.processes@;
                self.processes.push(process);
                proof {
                    let list = self.processes@;
                    assert(is_at(list, process.id, at as int));
                    assert forall|i: int, j: int| 0 <= i < j < list.len() implies (#[trigger] list[i]).id != (
                    #[trigger] list[j]).id by {
                        if j == at {
                            assert(is_at(before, list[i].id, i));
                        }
                    }
                    assert forall|i: int| 0 <= i < list.len() implies ((#[trigger] list[i]).parent matches Some(parent)
                        ==> known(list, parent)) by {
                        if let Some(parent) = list[i].parent {
                            if i < at {
                                assert(before[i].parent == Some(parent));
                            }
                            let j = choose|j: int| is_at(before, parent, j);
                            assert(is_at(list, parent, j));
                        }
                    }
                }
                at
            },
        }
    }

    /// Marks every process as stale.
    pub fn drain_filter_prepare(&mut self)
        ensures
            final(self).processes@ == old(self).processes@,
            final(self).stale@ == old(self).processes@.map_values(|p: Process| p.id),
    {
        let mut stale: Vec<u32> = Vec::new();
        let mut i: usize = 0;
        while i < self.processes.len()
            invariant
                i <= self.processes@.len(),
                stale@.len() == i,
                forall|j: int| 0 <= j < i ==> stale@[j] == (#[trigger] self.processes@[j]).id,
            decreases self.processes@.len() - i,
        {
            stale.push(self.processes[i].id);
            i += 1;
        }
        proof {
            assert(stale@ =~= self.processes@.map_values(|p: Process| p.id));
        }
        self.stale = stale;
    }

    /// Keeps a process, and those that it descends from, from being dropped.
    pub fn retain_process_tree(&mut self, process: &Process)
        requires
            old(self).wf(),
        ensures
            final(self).processes@ == old(self).processes@,
            final(self).stale@ == old(self).stale@.filter(
                |pid: u32| !in_tree(old(self).processes@, process.id, pid),
            ),
    {
        let ghost list = self.processes@;
        let ghost kept = |pid: u32| !in_tree(list, process.id, pid);
        let entry: Option<usize> = self.position(process.id);
        let tree: Vec<usize> = match entry {
            Some(at) => {
                proof {
                    lemma_position(list, at as int);
                }
                self.ancestors(&self.processes[at])
            },
            None => Vec::new(),
        };
        let mut stale: Vec<u32> = Vec::new();
        let mut i: usize = 0;
        proof {
            assert(self.stale@.take(0).filter(kept) =~= stale@) by {
                reveal(Seq::filter);
            }
        }
        while i < self.stale.len()
            invariant
                list == self.processes@,
                kept == (|pid: u32| !in_tree(list, process.id, pid)),
                i <= self.stale@.len(),
                stale@ == self.stale@.take(i as int).filter(kept),
                entry is None ==> tree@.len() == 0 && lookup(list, process.id) is None,
                entry matches Some(at) ==> at < list.len() && lookup(list, process.id) == Some(list[at as int])
                    && walks(list, list[at as int], tree@),
            decreases self.stale@.len() - i,
        {
            let pid: u32 = self.stale[i];
            let mut found = pid == process.id;
            let mut j: usize = 0;
            while j < tree.len()
                invariant
                    list == self.processes@,
                    j <= tree@.len(),
                    forall|k: int| 0 <= k < tree@.len() ==> (#[trigger] tree@[k]) < list.len(),
                    found == (pid == process.id || exists|k: int|
                        0 <= k < j && list[(#[trigger] tree@[k]) as int].id == pid),
                decreases tree@.len() - j,
            {
                if self.processes[tree[j]].id == pid {
                    found = true;
                }
                j += 1;
            }
            proof {
                if let Some(at) = entry {
                    let start = list[at as int];
                    let named = |a: Process| a.id == pid;
                    lemma_has_ancestor(list, start, tree@, named);
                    if has_ancestor(list, start, named) {
                        let k = choose|k: int| 0 <= k < tree@.len() && named(list[(#[trigger] tree@[k]) as int]);
                        assert(list[tree@[k] as int].id == pid);
                    }
                    if exists|k: int| 0 <= k < j && list[(#[trigger] tree@[k]) as int].id == pid {
                        let k = choose|k: int| 0 <= k < j && list[(#[trigger] tree@[k]) as int].id == pid;
                        assert(named(list[tree@[k] as int]));
                    }
                }
                assert(found == in_tree(list, process.id, pid));
                assert(self.stale@.take(i + 1) =~= self.stale@.take(i as int).push(pid));
                self.stale@.take(i as int).lemma_filter_push(pid, kept);
            }
            if !found {
                stale.push(pid);
            }
            i += 1;
        }
        proof {
            assert(self.stale@.take(i as int) =~= self.stale@);
        }
        self.stale = stale;
    }

    /// Drops the processes that are still stale, and the links to them.
    pub fn drain_filter(&mut self)
        requires
            old(self).wf(),
        ensures
            final(self).wf(),
            final(self).processes@ == survivors(old(self).processes@, old(self).stale@),
            final(self).stale@.len() == 0,
    {
        let ghost before = self.processes@;
        let ghost dropped = self.stale@;
        let ghost mut seen: int = 0;
        let mut i: usize = 0;
        proof {
            assert(before.take(0) =~= Seq::empty());
            assert(before.skip(0) =~= before);
            assert(survivors(before.take(0), dropped) + before.skip(0) =~= before);
        }
        while i < self.processes.len()
            invariant
                dropped == self.stale@,
                0 <= seen <= before.len(),
                i == survivors(before.take(seen), dropped).len(),
                self.processes@ == survivors(before.take(seen), dropped) + before.skip(seen),
            decreases self.processes@.len() - i,
        {
            let ghost left = survivors(before.take(seen), dropped);
            let ghost current = before[seen];
            proof {
                assert(self.processes@[i as int] == current);
                assert(before.take(seen + 1).drop_last() =~= before.take(seen));
                assert(before.take(seen + 1).last() == current);
                assert(before.skip(seen) =~= seq![current] + before.skip(seen + 1));
            }
            if contains_pid(&self.stale, self.processes[i].id) {
                let _ = self.processes.remove(i);
                proof {
                    assert(self.processes@ =~= left + before.skip(seen + 1));
                }
            } else {
                let gone: bool = match self.processes[i].parent {
                    Some(parent) => contains_pid(&self.stale, parent),
                    None => false,
                };
                if gone {
                    self.processes[i].parent = None;
                }
                proof {
                    assert(self.processes@[i as int] == unlinked(current, dropped));
                    assert(self.processes@ =~= left.push(unlinked(current, dropped)) + before.skip(seen + 1));
                }
                i += 1;
            }
            proof {
                seen = seen + 1;
            }
        }
        proof {
            assert(before.take(seen) =~= before);
            assert(self.processes@ =~= survivors(before, dropped));
            lemma_survivors(before, dropped);
            let list = self.processes@;
            assert forall|k: int| 0 <= k < list.len() implies ((#[trigger] list[k]).parent matches Some(parent)
                ==> known(list, parent)) by {
                let j = choose|j: int|
                    0 <= j < before.len() && list[k] == unlinked(#[trigger] before[j], dropped);
                if let Some(parent) = list[k].parent {
                    assert(before[j].parent == Some(parent));
                    assert(known(before, parent));
                }
            }
        }
        self.stale = Vec::new();
    }

    /// The positions of the ancestors of a process, from its parent on, each once.
    pub fn ancestors(&self, process: &Process) -> (r: Vec<usize>)
        requires
            self.wf(),
        ensures
            walks(self.processes@, *process, r@),
    {
        let ghost list = self.processes@;
        let mut visited: Vec<usize> = Vec::new();
        let mut link: Option<u32> = process.parent;
        loop
            invariant
                self.wf(),
                list == self.processes@,
                visited@.no_duplicates(),
                forall|i: int|
                    0 <= i < visited@.len() ==> (#[trigger] visited@[i]) < list.len() && nth_ancestor(
                        list,
                        *process,
                        i as nat,
                    ) == Some(list[visited@[i] as int]),
                nth_ancestor(list, *process, visited@.len()) == (match link {
                    Some(pid) => lookup(list, pid),
                    None => None,
                }),
            decreases list.len() - visited@.len(),
        {
            let next: Option<usize> = match link {
                Some(pid) => self.position(pid),
                None => None,
            };
            let at: usize = match next {
                Some(at) => at,
                None => {
                    proof {
                        assert forall|n: nat| ((#[trigger] nth_ancestor(list, *process, n)) matches Some(ancestor)
                            ==> visits(list, visited@, ancestor)) by {
                            lemma_walk_complete(list, *process, visited@, n);
                        }
                    }
                    return visited;
                },
            };
            proof {
                lemma_position(list, at as int);
            }
            if contains_position(&visited, at) {
                proof {
                    let j = choose|j: int| 0 <= j < visited@.len() && visited@[j] == at;
                    assert(list[visited@[j] as int] == list[at as int]);
                    assert forall|n: nat| ((#[trigger] nth_ancestor(list, *process, n)) matches Some(ancestor)
                            ==> visits(list, visited@, ancestor)) by {
                        lemma_walk_complete(list, *process, visited@, n);
                    }
                }
                return visited;
            }
            visited.push(at);
            proof {
                lemma_pigeonhole(visited@, list.len());
            }
            link = self.processes[at].parent;
        }
    }
}

fn contains_position(list: &Vec<usize>, at: usize) -> (r: bool)
    ensures
        r == list@.contains(at),
{
    let mut i: usize = 0;
    while i < list.len()
        invariant
            i <= list.len(),
            forall|j: int| 0 <= j < i ==> list@[j] != at,
        decreases list.len() - i,
    {
        if list[i] == at {
            return true;
        }
        i += 1;
    }
    false
}

/// Whether a list of process IDs holds one.
pub fn contains_pid(list: &Vec<u32>, pid: u32) -> (r: bool)
    ensures
        r == list@.contains(pid),
{
    let mut i: usize = 0;
    while i < list.len()
        invariant
            i <= list.len(),
            forall|j: int| 0 <= j < i ==> list@[j] != pid,
        decreases list.len() - i,
    {
        if list[i] == pid {
            return true;
        }
        i += 1;
    }
    false
}

/// Takes the first occurrence of a process out of a list, and says whether there was one.
pub fn remove_pid(list: &mut Vec<u32>, pid: u32) -> (r: bool)
    ensures
        final(list)@ == old(list)@.remove_value(pid),
        !old(list)@.contains(pid) ==> *final(list) == *old(list),
        r == old(list)@.contains(pid),
{
    let ghost before = list@;
    proof {
        before.index_of_first_ensures(pid);
    }
    let mut i: usize = 0;
    while i < list.len()
        invariant
            before == old(list)@,
            *list == *old(list),
            i <= before.len(),
            forall|j: int| 0 <= j < i ==> before[j] != pid,
        decreases before.len() - i,
    {
        if list[i] == pid {
            proof {
                before.index_of_first_ensures(pid);
                assert(before.contains(pid));
                let first = before.index_of_first(pid)->0;
                assert(first == i);
            }
            let _ = list.remove(i);
            return true;
        }
        i += 1;
    }
    false
}

} // verus!

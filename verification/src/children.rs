//! The processes that a process has started, and those that they have started.

use vstd::prelude::*;

use crate::arrivals;
use crate::arrivals::ProcessReading;
use crate::process;
use crate::scheduler::TextMatcher;
use crate::service::{Effects, Service};
use crate::weights;

verus! {

/// How far the search for the children of a process has come.
pub ghost struct ScanState {
    /// Processes whose children are to be looked for. The last one is next.
    pub scan: Seq<u32>,
    /// Processes whose children were looked for, in this order.
    pub scanned: Seq<u32>,
}

impl ScanState {
    /// The search before it has begun.
    pub open spec fn start(root: u32) -> ScanState {
        ScanState { scan: seq![root], scanned: Seq::empty() }
    }

    /// The search when the next process was taken.
    pub open spec fn taken(self) -> ScanState
        recommends
            self.scan.len() > 0,
    {
        ScanState { scan: self.scan.drop_last(), scanned: self.scanned.push(self.scan.last()) }
    }

    /// The search when children were found. Those that are part of it already are not added.
    pub open spec fn found(self, children: Seq<u32>) -> ScanState
        decreases children.len(),
    {
        if children.len() == 0 {
            self
        } else {
            let before = self.found(children.drop_last());
            let child = children.last();
            if before.scan.contains(child) || before.scanned.contains(child) {
                before
            } else {
                ScanState { scan: before.scan.push(child), ..before }
            }
        }
    }

    /// Whether a process is part of the search.
    pub open spec fn has(self, pid: u32) -> bool {
        self.scan.contains(pid) || self.scanned.contains(pid)
    }

    /// No process is part of the search twice.
    pub open spec fn wf(self) -> bool {
        (self.scanned + self.scan).no_duplicates()
    }

    /// The search when the children of some processes were found: of the first that is taken, the next, and so on.
    /// It ends where no process is left.
    pub open spec fn run(root: u32, answers: Seq<Seq<u32>>) -> ScanState
        decreases answers.len(),
    {
        if answers.len() == 0 {
            ScanState::start(root)
        } else {
            let before = ScanState::run(root, answers.drop_last());
            if before.scan.len() == 0 {
                before
            } else {
                before.taken().found(answers.last())
            }
        }
    }

    /// Taking a process keeps each process once, and the same processes.
    proof fn lemma_taken(self)
        requires
            self.wf(),
            self.scan.len() > 0,
        ensures
            self.taken().wf(),
            forall|pid: u32| #[trigger] self.taken().has(pid) == self.has(pid),
    {
        let after = self.taken();
        let all = self.scanned + self.scan;
        let n = self.scanned.len() as int;
        assert forall|i: int, j: int|
            0 <= i < j < (after.scanned + after.scan).len() implies (after.scanned + after.scan)[i] != (after.scanned
            + after.scan)[j] by {
            let to = |k: int|
                if k < n {
                    k
                } else if k == n {
                    all.len() - 1
                } else {
                    k - 1
                };
            assert((after.scanned + after.scan)[i] == all[to(i)]);
            assert((after.scanned + after.scan)[j] == all[to(j)]);
            assert(to(i) != to(j));
        }
        assert forall|pid: u32| #[trigger] after.has(pid) == self.has(pid) by {
            if self.scan.contains(pid) {
                let i = choose|i: int| 0 <= i < self.scan.len() && self.scan[i] == pid;
                if i < self.scan.len() - 1 {
                    assert(after.scan[i] == pid);
                } else {
                    assert(after.scanned[n] == pid);
                }
            }
            if self.scanned.contains(pid) {
                let i = choose|i: int| 0 <= i < self.scanned.len() && self.scanned[i] == pid;
                assert(after.scanned[i] == pid);
            }
            if after.scan.contains(pid) {
                let i = choose|i: int| 0 <= i < after.scan.len() && after.scan[i] == pid;
                assert(self.scan[i] == pid);
            }
            if after.scanned.contains(pid) {
                let i = choose|i: int| 0 <= i < after.scanned.len() && after.scanned[i] == pid;
                if i < n {
                    assert(self.scanned[i] == pid);
                } else {
                    assert(self.scan[self.scan.len() - 1] == pid);
                }
            }
        }
    }

    /// Finding children adds them and nothing else, and keeps each process once.
    proof fn lemma_found(self, children: Seq<u32>)
        requires
            self.wf(),
        ensures
            self.found(children).wf(),
            self.found(children).scanned == self.scanned,
            forall|pid: u32| #[trigger] self.found(children).has(pid) == (self.has(pid) || children.contains(pid)),
        decreases children.len(),
    {
        if children.len() > 0 {
            let head = children.drop_last();
            let child = children.last();
            let before = self.found(head);
            let after = self.found(children);
            self.lemma_found(head);
            if !before.has(child) {
                let all = before.scanned + before.scan;
                let more = after.scanned + after.scan;
                assert(more =~= all.push(child));
                assert forall|i: int, j: int| 0 <= i < j < more.len() implies more[i] != more[j] by {
                    if j == all.len() && more[i] == child {
                        if i < before.scanned.len() {
                            assert(before.scanned[i] == child);
                        } else {
                            assert(before.scan[i - before.scanned.len()] == child);
                        }
                    }
                }
            }
            assert forall|pid: u32| #[trigger] after.has(pid) == (self.has(pid) || children.contains(pid)) by {
                assert(before.has(pid) == (self.has(pid) || head.contains(pid)));
                if children.contains(pid) {
                    let i = choose|i: int| 0 <= i < children.len() && children[i] == pid;
                    if i < head.len() {
                        assert(head[i] == pid);
                    }
                }
                if head.contains(pid) {
                    let i = choose|i: int| 0 <= i < head.len() && head[i] == pid;
                    assert(children[i] == pid);
                }
                assert(children[children.len() - 1] == child);
                if !before.has(child) {
                    assert(after.scan[before.scan.len() as int] == child);
                    if after.scan.contains(pid) {
                        let i = choose|i: int| 0 <= i < after.scan.len() && after.scan[i] == pid;
                        if i < before.scan.len() {
                            assert(before.scan[i] == pid);
                        }
                    }
                    if before.scan.contains(pid) {
                        let i = choose|i: int| 0 <= i < before.scan.len() && before.scan[i] == pid;
                        assert(after.scan[i] == pid);
                    }
                }
            }
        } else {
            assert forall|pid: u32| #[trigger] self.found(children).has(pid) == (self.has(pid) || children.contains(
                pid,
            )) by {}
        }
    }
}

/// Whether a process was found as a child.
pub open spec fn is_answer(answers: Seq<Seq<u32>>, pid: u32) -> bool {
    exists|i: int| 0 <= i < answers.len() && (#[trigger] answers[i]).contains(pid)
}

/// The search holds each process once, and it holds the process that it began with, the children that were found
/// and no other. So when no process is left to be looked at, it has looked at each of these once.
pub proof fn lemma_search_complete(root: u32, answers: Seq<Seq<u32>>)
    requires
        forall|n: int|
            0 <= n < answers.len() ==> (#[trigger] ScanState::run(root, answers.take(n))).scan.len() > 0,
    ensures
        ScanState::run(root, answers).wf(),
        ScanState::run(root, answers).scanned.len() == answers.len(),
        forall|pid: u32| #[trigger]
            ScanState::run(root, answers).has(pid) <==> pid == root || is_answer(answers, pid),
    decreases answers.len(),
{
    let after = ScanState::run(root, answers);
    if answers.len() == 0 {
        assert forall|pid: u32| #[trigger] after.has(pid) <==> pid == root || is_answer(answers, pid) by {
            assert(after.scan[0] == root);
        }
    } else {
        let head = answers.drop_last();
        let before = ScanState::run(root, head);
        assert forall|n: int| 0 <= n < head.len() implies (#[trigger] ScanState::run(root, head.take(n))).scan.len()
            > 0 by {
            assert(head.take(n) =~= answers.take(n));
        }
        assert(head =~= answers.take(answers.len() - 1));
        lemma_search_complete(root, head);
        before.lemma_taken();
        before.taken().lemma_found(answers.last());
        assert forall|pid: u32| #[trigger] after.has(pid) <==> pid == root || is_answer(answers, pid) by {
            assert(after.has(pid) == (before.taken().has(pid) || answers.last().contains(pid)));
            assert(before.taken().has(pid) == before.has(pid));
            if is_answer(head, pid) {
                let i = choose|i: int| 0 <= i < head.len() && (#[trigger] head[i]).contains(pid);
                assert(answers[i].contains(pid));
            }
            if is_answer(answers, pid) {
                let i = choose|i: int| 0 <= i < answers.len() && (#[trigger] answers[i]).contains(pid);
                if i < head.len() {
                    assert(head[i].contains(pid));
                }
            }
        }
    }
}

/// A search for the children of a process, and for theirs.
pub struct ChildScan {
    /// Processes whose children are to be looked for. The last one is next.
    pub scan: Vec<u32>,
    /// Processes whose children were looked for, in this order.
    pub scanned: Vec<u32>,
}

impl View for ChildScan {
    type V = ScanState;

    open spec fn view(&self) -> ScanState {
        ScanState { scan: self.scan@, scanned: self.scanned@ }
    }
}

impl ChildScan {
    /// A search that begins with a process.
    pub fn new(pid: u32) -> (r: Self)
        ensures
            r@ == ScanState::start(pid),
    {
        let mut scan: Vec<u32> = Vec::new();
        scan.push(pid);
        proof {
            assert(scan@ =~= seq![pid]);
        }
        ChildScan { scan, scanned: Vec::new() }
    }

    /// The process whose children are to be looked for next.
    pub fn next(&mut self) -> (r: Option<u32>)
        ensures
            r is Some <==> old(self)@.scan.len() > 0,
            r matches Some(pid) ==> pid == old(self)@.scan.last() && final(self)@ == old(self)@.taken(),
            r is None ==> final(self)@ == old(self)@,
    {
        match self.scan.pop() {
            Some(pid) => {
                self.scanned.push(pid);
                Some(pid)
            },
            None => None,
        }
    }

    /// Takes in the children of a process.
    pub fn found(&mut self, children: &Vec<u32>)
        ensures
            final(self)@ == old(self)@.found(children@),
    {
        let ghost before = self@;
        let mut i: usize = 0;
        proof {
            assert(children@.take(0) =~= Seq::empty());
        }
        while i < children.len()
            invariant
                i <= children@.len(),
                self@ == before.found(children@.take(i as int)),
            decreases children@.len() - i,
        {
            let child: u32 = children[i];
            proof {
                let part = children@.take(i + 1);
                assert(part.drop_last() =~= children@.take(i as int));
                assert(part.last() == child);
            }
            if !(process::contains_pid(&self.scan, child) || process::contains_pid(&self.scanned, child)) {
                self.scan.push(child);
            }
            i += 1;
        }
        proof {
            assert(children@.take(i as int) =~= children@);
        }
    }
}

impl<M: TextMatcher> Service<M> {
    /// How the service changes with a process that was found in the search for children, and what comes of it.
    pub open spec fn child_assigned(
        &self,
        after: Service<M>,
        pid: u32,
        parent_pid: Option<u32>,
        name: Seq<char>,
        cmdline: Option<Seq<char>>,
        reading: Option<ProcessReading>,
        r: Option<Effects>,
    ) -> bool {
        let passed = process::known(self.process_map.processes@, pid) || parent_pid is None || cmdline is None;
        &&& r is None <==> passed
        &&& passed ==> after == *self
        &&& r matches Some(effects) ==> exists|process: process::Process| #[trigger]
            arrivals::is_arrival(
                process,
                self.process_map.processes@,
                pid,
                parent_pid->0,
                name,
                cmdline->0,
                reading,
            ) && self.arrived(after, process, effects)
    }

    /// Assigns a process that was found in the search for children, in case it has not been assigned. Without a
    /// process that started it or a command line it is passed over.
    pub fn assign_child(
        &mut self,
        pid: u32,
        parent_pid: Option<u32>,
        name: String,
        cmdline: Option<String>,
        reading: Option<ProcessReading>,
    ) -> (r: Option<Effects>)
        requires
            old(self).wf(),
        ensures
            final(self).wf(),
            old(self).child_assigned(
                *final(self),
                pid,
                parent_pid,
                name@,
                weights::optional_text(cmdline),
                reading,
                r,
            ),
    {
        if self.process_map.position(pid).is_some() {
            return None;
        }
        let ghost list = self.process_map.processes@;
        let ghost text = weights::optional_text(cmdline)->0;
        match (parent_pid, cmdline) {
            (Some(parent_pid), Some(cmdline)) => {
                assert(text == cmdline@);
                let effects: Effects = self.assign_new_process(pid, parent_pid, name, cmdline, reading);
                proof {
                    let process = choose|process: process::Process| #[trigger]
                        arrivals::is_arrival(process, list, pid, parent_pid, name@, cmdline@, reading) && old(
                            self,
                        ).arrived(*self, process, effects);
                    assert(arrivals::is_arrival(process, list, pid, parent_pid, name@, text, reading));
                }
                Some(effects)
            },
            _ => None,
        }
    }
}

} // verus!

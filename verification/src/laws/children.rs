//! How the processes that a process started are searched for and taken in.

use vstd::prelude::*;

use crate::arrivals;
use crate::arrivals::ProcessReading;
use crate::children::ScanState;
use crate::process::Process;
use crate::scheduler::TextMatcher;
use crate::service::{Effects, Service};

verus! {

/// A search begins with one process, of which nobody was searched. The process that is taken is searched, and is the
/// one that was found last.
pub proof fn lemma_next(state: ScanState, root: u32)
    ensures
        ScanState::start(root).scan == seq![root],
        ScanState::start(root).scanned.len() == 0,
        state.scan.len() > 0 ==> {
            let pid = state.scan[state.scan.len() - 1];
            &&& state.taken().scan.push(pid) == state.scan
            &&& state.taken().scanned == state.scanned.push(pid)
        },
{
    if state.scan.len() > 0 {
        assert(state.taken().scan.push(state.scan.last()) =~= state.scan);
    }
}

/// A process that is found is to be searched behind the others, unless it was found before. Nobody is searched by
/// being found.
pub proof fn lemma_found(state: ScanState, children: Seq<u32>, child: u32)
    ensures
        state.found(Seq::empty()) == state,
        ({
            let before = state.found(children);
            let after = state.found(children.push(child));
            &&& after.scanned == before.scanned
            &&& before.scan.contains(child) || before.scanned.contains(child) ==> after.scan == before.scan
            &&& !before.scan.contains(child) && !before.scanned.contains(child) ==> after.scan == before.scan.push(child)
        }),
{
    assert(children.push(child).drop_last() =~= children);
}

impl<M: TextMatcher> Service<M> {
    /// A process that is known, that nobody is known to have started or of which the command line could not be read is
    /// passed over, and nothing changes.
    pub proof fn lemma_passed_over(
        &self,
        after: Service<M>,
        pid: u32,
        parent_pid: Option<u32>,
        name: Seq<char>,
        cmdline: Option<Seq<char>>,
        reading: Option<ProcessReading>,
        r: Option<Effects>,
    )
        requires
            self.child_assigned(after, pid, parent_pid, name, cmdline, reading, r),
            ({
                ||| parent_pid is None
                ||| cmdline is None
                ||| exists|i: int|
                    0 <= i < self.process_map.processes@.len() && (#[trigger] self.process_map.processes@[i]).id == pid
            }),
        ensures
            r is None,
            after == *self,
    {
        let list = self.process_map.processes@;
        if exists|i: int| 0 <= i < list.len() && (#[trigger] list[i]).id == pid {
            let i = choose|i: int| 0 <= i < list.len() && (#[trigger] list[i]).id == pid;
            assert(crate::process::is_at(list, pid, i));
        }
    }

    /// Every other process is taken in as one that was started is.
    pub proof fn lemma_child_taken_in(
        &self,
        after: Service<M>,
        pid: u32,
        parent_pid: u32,
        name: Seq<char>,
        cmdline: Seq<char>,
        reading: Option<ProcessReading>,
        r: Option<Effects>,
    ) -> (process: Process)
        requires
            self.child_assigned(after, pid, Some(parent_pid), name, Some(cmdline), reading, r),
            forall|i: int|
                0 <= i < self.process_map.processes@.len() ==> (#[trigger] self.process_map.processes@[i]).id != pid,
        ensures
            r is Some,
            arrivals::is_arrival(process, self.process_map.processes@, pid, parent_pid, name, cmdline, reading),
            self.arrived(after, process, r->0),
    {
        let list = self.process_map.processes@;
        assert(!crate::process::known(list, pid)) by {
            if crate::process::known(list, pid) {
                let i = choose|i: int| crate::process::is_at(list, pid, i);
                assert(list[i].id == pid);
            }
        }
        choose|process: Process| #[trigger]
            arrivals::is_arrival(process, list, pid, parent_pid, name, cmdline, reading) && self.arrived(
                after,
                process,
                r->0,
            )
    }
}

} // verus!

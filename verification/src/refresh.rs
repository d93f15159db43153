//! How the processes that are known are kept up to date.

use vstd::prelude::*;

use crate::assignment;
use crate::number;
use crate::process;
use crate::process::{Process, ProcessMap};
use crate::scheduler::TextMatcher;
use crate::service;
use crate::service::{Effects, PrioritySetting, Service};

verus! {

/// The process that an entry of the process directory is for. Other entries have none.
pub fn pid_of_entry(file_name: &[u8]) -> (r: Option<u32>)
    ensures
        (match r {
            Some(pid) => Some(pid as int),
            None => None,
        }) == number::leading_number(file_name@),
{
    number::atoi(file_name)
}

/// A process that was found to be alive.
pub struct Scanned {
    /// The process.
    pub process: Process,
    /// ID of the process that started it, where that could be read.
    pub parent: Option<u32>,
}

impl Scanned {
    /// Whether it is a process with what was read of it, on which nothing was decided.
    pub open spec fn is_scan_of(
        &self,
        pid: u32,
        parent: Option<u32>,
        cmdline: String,
        name: String,
        cgroup: Option<String>,
    ) -> bool {
        &&& self.parent == parent
        &&& self.process.id == pid
        &&& self.process.parent_id == (match parent {
            Some(parent) => parent,
            None => 0,
        })
        &&& self.process.cmdline == cmdline
        &&& self.process.name == name
        &&& self.process.cgroup@ == (match cgroup {
            Some(cgroup) => cgroup@,
            None => Seq::empty(),
        })
        &&& self.process.forked_name@.len() == 0
        &&& self.process.parent is None
        &&& self.process.assigned_priority is NotAssignable
        &&& self.process.pipewire_ancestor is None
    }

    /// A process with what was read of it.
    pub fn new(
        pid: u32,
        parent: Option<u32>,
        cmdline: String,
        name: String,
        cgroup: Option<String>,
    ) -> (r: Self)
        ensures
            r.is_scan_of(pid, parent, cmdline, name, cgroup),
    {
        let parent_id: u32 = match parent {
            Some(parent) => parent,
            None => 0,
        };
        let mut process: Process = Process::new(pid, parent_id);
        proof {
            assert(process.cgroup@ =~= Seq::empty());
        }
        process.cmdline = cmdline;
        process.name = name;
        if let Some(cgroup) = cgroup {
            process.cgroup = cgroup;
        }
        Scanned { process, parent }
    }

    /// Whether it is a process of which only the IDs are recorded, and on which nothing was decided.
    pub open spec fn is_bare(&self, pid: u32, parent: Option<u32>) -> bool {
        &&& self.parent == parent
        &&& self.process.id == pid
        &&& self.process.parent_id == (match parent {
            Some(parent) => parent,
            None => 0,
        })
        &&& self.process.cmdline@.len() == 0
        &&& self.process.name@.len() == 0
        &&& self.process.cgroup@.len() == 0
        &&& self.process.forked_name@.len() == 0
        &&& self.process.parent is None
        &&& self.process.assigned_priority is NotAssignable
        &&& self.process.pipewire_ancestor is None
    }

    /// A process that is found when dead ones are looked for: only its IDs are recorded. One without a command line is
    /// a kernel thread, which is not looked at.
    pub fn from_ids(pid: u32, parent: Option<u32>, has_cmdline: bool) -> (r: Option<Self>)
        ensures
            r is Some <==> has_cmdline,
            r matches Some(scanned) ==> scanned.is_bare(pid, parent),
    {
        if has_cmdline {
            Some(Scanned::new(pid, parent, String::new(), String::new(), None))
        } else {
            None
        }
    }

    /// A process with what was read of it. One without a command line is a kernel thread, which is not looked at.
    pub fn from_readings(
        pid: u32,
        parent: Option<u32>,
        cmdline: Option<String>,
        name: String,
        cgroup: Option<String>,
    ) -> (r: Option<Self>)
        ensures
            r is None <==> cmdline is None,
            r matches Some(scanned) ==> scanned.is_scan_of(pid, parent, cmdline->0, name, cgroup),
    {
        match cmdline {
            Some(cmdline) => Some(Scanned::new(pid, parent, cmdline, name, cgroup)),
            None => None,
        }
    }
}

/// The processes that were found.
pub open spec fn processes_of(scanned: Seq<Scanned>) -> Seq<Process> {
    scanned.map_values(|s: Scanned| s.process)
}

/// The processes that were found, each with the one that started it, where that could be read.
pub open spec fn parents_of(scanned: Seq<Scanned>) -> Seq<(u32, u32)>
    decreases scanned.len(),
{
    if scanned.len() == 0 {
        Seq::empty()
    } else {
        let before = parents_of(scanned.drop_last());
        match scanned.last().parent {
            Some(parent) => before.push((scanned.last().process.id, parent)),
            None => before,
        }
    }
}

/// The process that started another, by the last pair that says so.
pub open spec fn last_parent(parents: Seq<(u32, u32)>, pid: u32) -> Option<u32>
    decreases parents.len(),
{
    if parents.len() == 0 {
        None
    } else if parents.last().0 == pid {
        Some(parents.last().1)
    } else {
        last_parent(parents.drop_last(), pid)
    }
}

/// The processes with links to those that started them, as far as those are known.
pub open spec fn with_parents(list: Seq<Process>, parents: Seq<(u32, u32)>) -> Seq<Process> {
    list.map_values(
        |p: Process|
            match last_parent(parents, p.id) {
                Some(parent) if process::known(list, parent) => Process { parent: Some(parent), ..p },
                _ => p,
            },
    )
}

/// The known processes, and those of them that are to be dropped, after processes were found to be alive. Each of
/// those is added if it is not known. It is kept, with those that it descends from.
pub open spec fn scanned_in(
    list: Seq<Process>,
    stale: Seq<u32>,
    found: Seq<Process>,
) -> (Seq<Process>, Seq<u32>)
    decreases found.len(),
{
    if found.len() == 0 {
        (list, stale)
    } else {
        let (before, left) = scanned_in(list, stale, found.drop_last());
        let alive = found.last();
        (
            if process::known(before, alive.id) {
                before
            } else {
                before.push(alive)
            },
            left.filter(|pid: u32| !process::in_tree(before, alive.id, pid)),
        )
    }
}

/// The processes that are known after some were found to be alive and all others were dropped.
pub open spec fn cleaned(list: Seq<Process>, scanned: Seq<Scanned>) -> Seq<Process> {
    let (found, stale) = scanned_in(list, list.map_values(|p: Process| p.id), processes_of(scanned));
    process::survivors(found, stale)
}

/// The processes that are known after some were found to be alive, links were brought up to date and all others
/// were dropped.
pub open spec fn refreshed(list: Seq<Process>, scanned: Seq<Scanned>) -> Seq<Process> {
    let (found, stale) = scanned_in(list, list.map_values(|p: Process| p.id), processes_of(scanned));
    process::survivors(with_parents(found, parents_of(scanned)), stale)
}

/// The processes that were found, each with the one that started it.
fn collect_parents(scanned: &Vec<Scanned>) -> (r: Vec<(u32, u32)>)
    ensures
        r@ == parents_of(scanned@),
{
    let mut parents: Vec<(u32, u32)> = Vec::new();
    let mut i: usize = 0;
    while i < scanned.len()
        invariant
            i <= scanned@.len(),
            parents@ == parents_of(scanned@.take(i as int)),
        decreases scanned@.len() - i,
    {
        proof {
            let part = scanned@.take(i + 1);
            assert(part.drop_last() =~= scanned@.take(i as int));
            assert(part.last() == scanned@[i as int]);
        }
        if let Some(parent) = scanned[i].parent {
            parents.push((scanned[i].process.id, parent));
        }
        i += 1;
    }
    proof {
        assert(scanned@.take(i as int) =~= scanned@);
    }
    parents
}

/// The process that started another.
fn find_parent(parents: &Vec<(u32, u32)>, pid: u32) -> (r: Option<u32>)
    ensures
        r == last_parent(parents@, pid),
{
    let mut i: usize = parents.len();
    proof {
        assert(parents@.take(i as int) =~= parents@);
    }
    while i > 0
        invariant
            i <= parents@.len(),
            last_parent(parents@, pid) == last_parent(parents@.take(i as int), pid),
        decreases i,
    {
        proof {
            let part = parents@.take(i as int);
            assert(part.drop_last() =~= parents@.take(i - 1));
            assert(part.last() == parents@[i - 1]);
        }
        if parents[i - 1].0 == pid {
            return Some(parents[i - 1].1);
        }
        i -= 1;
    }
    None
}

impl ProcessMap {
    /// Takes in processes that were found to be alive.
    fn scan(&mut self, scanned: Vec<Scanned>)
        requires
            old(self).wf(),
            forall|i: int| 0 <= i < scanned@.len() ==> (#[trigger] scanned@[i]).process.parent is None,
        ensures
            final(self).wf(),
            (final(self).processes@, final(self).stale@) == scanned_in(
                old(self).processes@,
                old(self).stale@,
                processes_of(scanned@),
            ),
    {
        let ghost list = self.processes@;
        let ghost stale = self.stale@;
        let ghost all = scanned@;
        let ghost found = processes_of(all);
        let ghost mut n: int = 0;
        let mut left: Vec<Scanned> = scanned;
        proof {
            assert(found.take(0) =~= Seq::empty());
            assert(all.skip(0) =~= all);
        }
        while left.len() > 0
            invariant
                self.wf(),
                0 <= n <= all.len(),
                left@ == all.skip(n),
                found == processes_of(all),
                forall|i: int| 0 <= i < all.len() ==> (#[trigger] all[i]).process.parent is None,
                (self.processes@, self.stale@) == scanned_in(list, stale, found.take(n)),
            decreases left@.len(),
        {
            let next: Scanned = left.remove(0);
            let process: Process = next.process;
            proof {
                assert(next == all[n]);
                assert(found.take(n + 1).drop_last() =~= found.take(n));
                assert(found.take(n + 1).last() == process);
                assert(all.skip(n + 1) =~= left@);
                n = n + 1;
            }
            self.retain_process_tree(&process);
            let _ = self.insert(process);
        }
        proof {
            assert(found.take(n) =~= found);
        }
    }

    /// Links processes to those that started them, as far as those are known.
    fn link_parents(&mut self, parents: &Vec<(u32, u32)>)
        requires
            old(self).wf(),
        ensures
            final(self).wf(),
            final(self).stale@ == old(self).stale@,
            final(self).processes@ == with_parents(old(self).processes@, parents@),
    {
        let ghost list = self.processes@;
        let ghost after = with_parents(list, parents@);
        let mut i: usize = 0;
        while i < self.processes.len()
            invariant
                self.wf(),
                process::distinct(list),
                self.stale@ == old(self).stale@,
                after == with_parents(list, parents@),
                self.processes@.len() == list.len(),
                i <= list.len(),
                forall|j: int| 0 <= j < i ==> (#[trigger] self.processes@[j]) == after[j],
                forall|j: int| i <= j < list.len() ==> (#[trigger] self.processes@[j]) == list[j],
            decreases list.len() - i,
        {
            let ghost current = self.processes@;
            proof {
                assert forall|pid: u32| #[trigger] process::known(current, pid) == process::known(list, pid) by {
                    lemma_known_same_ids(current, list, pid);
                }
            }
            if let Some(parent) = find_parent(parents, self.processes[i].id) {
                if self.position(parent).is_some() {
                    self.processes[i].parent = Some(parent);
                    proof {
                        let updated = self.processes@;
                        assert forall|pid: u32| #[trigger]
                            process::known(updated, pid) == process::known(current, pid) by {
                            lemma_known_same_ids(updated, current, pid);
                        }
                        assert forall|a: int, b: int| 0 <= a < b < updated.len() implies (#[trigger] updated[a]).id != (
                        #[trigger] updated[b]).id by {
                            assert(current[a].id != current[b].id);
                        }
                        assert forall|a: int| 0 <= a < updated.len() implies ((#[trigger] updated[a]).parent matches Some(
                            p,
                        ) ==> process::known(updated, p)) by {
                            assert(current[a].parent matches Some(p) ==> process::known(current, p));
                        }
                    }
                }
            }
            i += 1;
        }
        proof {
            assert(self.processes@ =~= after);
        }
    }
}

/// Which processes are known depends on their IDs alone.
proof fn lemma_known_same_ids(a: Seq<Process>, b: Seq<Process>, pid: u32)
    requires
        a.len() == b.len(),
        forall|i: int| 0 <= i < a.len() ==> (#[trigger] a[i]).id == (#[trigger] b[i]).id,
    ensures
        process::known(a, pid) == process::known(b, pid),
{
    if process::known(a, pid) {
        let i = choose|i: int| process::is_at(a, pid, i);
        assert(a[i].id == b[i].id);
        assert(process::is_at(b, pid, i));
    }
    if process::known(b, pid) {
        let i = choose|i: int| process::is_at(b, pid, i);
        assert(a[i].id == b[i].id);
        assert(process::is_at(a, pid, i));
    }
}

/// How often dead processes are not looked for between two times that they are.
pub const GARBAGE_INTERVAL: usize = 2048;

/// Whether it is time to look for dead processes, by the counter of the times that they were not looked for.
pub open spec fn is_due(counter: int) -> bool {
    counter >= GARBAGE_INTERVAL
}

/// The counter after the next time.
pub open spec fn next_counter(counter: int) -> int {
    if is_due(counter) {
        0
    } else {
        counter + 1
    }
}

impl<M: TextMatcher> Service<M> {
    /// Adds a new process to the process map, if it is not known, and gives its position.
    pub fn process_map_insert(&mut self, process: Process) -> (r: usize)
        requires
            old(self).wf(),
            process.parent matches Some(parent) ==> process::known(old(self).process_map.processes@, parent),
        ensures
            final(self).wf(),
            *final(self) == (Service { process_map: final(self).process_map, ..*old(self) }),
            final(self).process_map.stale@ == old(self).process_map.stale@,
            final(self).process_map.processes@ == (if process::known(
                old(self).process_map.processes@,
                process.id,
            ) {
                old(self).process_map.processes@
            } else {
                old(self).process_map.processes@.push(process)
            }),
            process::is_at(final(self).process_map.processes@, process.id, r as int),
    {
        self.process_map.insert(process)
    }

    /// Whether it is time to look for dead processes.
    pub fn garbage_due(&mut self) -> (r: bool)
        ensures
            *final(self) == (Service { gc_counter: final(self).gc_counter, ..*old(self) }),
            r == is_due(old(self).gc_counter as int),
            final(self).gc_counter == next_counter(old(self).gc_counter as int),
    {
        if self.gc_counter < GARBAGE_INTERVAL {
            self.gc_counter += 1;
            return false;
        }
        self.gc_counter = 0;
        true
    }

    /// Removes dead processes to keep total memory consumption low. `scanned` are the processes that are alive.
    pub fn garbage_clean(&mut self, scanned: Vec<Scanned>)
        requires
            old(self).wf(),
            forall|i: int| 0 <= i < scanned@.len() ==> (#[trigger] scanned@[i]).process.parent is None,
        ensures
            final(self).wf(),
            *final(self) == (Service { process_map: final(self).process_map, ..*old(self) }),
            final(self).process_map.stale@.len() == 0,
            final(self).process_map.processes@ == cleaned(old(self).process_map.processes@, scanned@),
    {
        self.process_map.drain_filter_prepare();
        self.process_map.scan(scanned);
        self.process_map.drain_filter();
    }

    /// Assigns every process a priority that has none, and says which profile each gets.
    fn assign_all(&mut self) -> (r: Vec<PrioritySetting>)
        requires
            old(self).wf(),
        ensures
            final(self).wf(),
            *final(self) == (Service { process_map: final(self).process_map, ..*old(self) }),
            final(self).process_map.stale@ == old(self).process_map.stale@,
            final(self).process_map.processes@ == old(self).process_map.processes@.map_values(
                |p: Process|
                    assignment::assigned(
                        old(self).process_map.processes@,
                        p,
                        old(self).config.process_scheduler.assignments,
                    ),
            ),
            service::setting_views(r@) == service::settings_for(
                final(self).process_map.processes@,
                |p: Process| final(self).wanted(p),
            ),
    {
        let ghost before = *self;
        let ghost list = self.process_map.processes@;
        let ghost assignments = self.config.process_scheduler.assignments;
        let ghost after = list.map_values(|p: Process| assignment::assigned(list, p, assignments));
        let ghost profile = |p: Process| before.wanted(p);
        let mut settings: Vec<PrioritySetting> = Vec::new();
        let mut i: usize = 0;
        proof {
            assert(service::setting_views(settings@) =~= service::settings_for(after.take(0), profile));
        }
        while i < self.process_map.processes.len()
            invariant
                before.wf(),
                self.wf(),
                list == before.process_map.processes@,
                assignments == before.config.process_scheduler.assignments,
                after == list.map_values(|p: Process| assignment::assigned(list, p, assignments)),
                profile == (|p: Process| before.wanted(p)),
                *self == (Service { process_map: self.process_map, ..before }),
                self.process_map.stale@ == before.process_map.stale@,
                self.process_map.processes@.len() == list.len(),
                i <= list.len(),
                forall|j: int| 0 <= j < i ==> (#[trigger] self.process_map.processes@[j]) == after[j],
                forall|j: int| i <= j < list.len() ==> (#[trigger] self.process_map.processes@[j]) == list[j],
                service::setting_views(settings@) == service::settings_for(after.take(i as int), profile),
            decreases list.len() - i,
        {
            let ghost current = self.process_map.processes@;
            let ghost part = after.take(i + 1);
            let ghost done = service::setting_views(settings@);
            proof {
                assert(part.drop_last() =~= after.take(i as int));
                assert(part.last() == after[i as int]);
                assert forall|j: int| 0 <= j < list.len() implies process::alike(
                    #[trigger] list[j],
                    #[trigger] current[j],
                ) by {}
                assignment::lemma_priority_alike(list, current, list[i as int], list[i as int], assignments);
            }
            self.assign_at(i);
            proof {
                let updated = self.process_map.processes@;
                assert(updated[i as int] == after[i as int]);
                assert forall|j: int| 0 <= j < list.len() implies process::alike(
                    #[trigger] list[j],
                    #[trigger] updated[j],
                ) by {
                    if j != i {
                        assert(updated[j] == current[j]);
                    }
                }
                self.lemma_wanted_alike(before, after[i as int]);
            }
            if let Some(setting) = self.apply_process_priority(&self.process_map.processes[i]) {
                settings.push(setting);
                proof {
                    assert(service::setting_views(settings@) =~= done.push(setting@));
                }
            }
            i += 1;
        }
        proof {
            assert(after.take(i as int) =~= after);
            assert(self.process_map.processes@ =~= after);
            let last = *self;
            let stated = |p: Process| last.wanted(p);
            assert forall|j: int| 0 <= j < list.len() implies process::alike(
                #[trigger] list[j],
                #[trigger] last.process_map.processes@[j],
            ) by {}
            assert forall|p: Process| #[trigger] profile(p) == stated(p) by {
                last.lemma_wanted_alike(before, p);
            }
            assert(profile =~= stated);
        }
        settings
    }

    /// Whether a later state is this one after its processes were refreshed, and the effects are those of that.
    pub open spec fn refreshed_by(&self, after: Service<M>, scanned: Seq<Scanned>, effects: Effects) -> bool {
        let table = refreshed(self.process_map.processes@, scanned);
        let list = after.process_map.processes@;
        let apart = self.config.process_scheduler.foreground is Some;
        let assigned = Service { foreground_processes: self.foreground_processes, ..after };
        &&& effects.reconcile
        &&& after == (Service {
            process_map: after.process_map,
            foreground_processes: after.foreground_processes,
            ..*self
        })
        &&& after.process_map.stale@.len() == 0
        &&& list == table.map_values(
            |p: Process| assignment::assigned(table, p, self.config.process_scheduler.assignments),
        )
        &&& after.foreground_processes@ == (if apart {
            service::ids_of(list, |p: Process| after.in_front(p))
        } else {
            self.foreground_processes@
        })
        &&& service::setting_views(effects.settings@) == service::settings_for(list, |p: Process| assigned.wanted(p)) + (
        if apart {
            service::settings_for(list, |p: Process| after.foreground_profile(p))
        } else {
            Seq::empty()
        })
    }

    /// Refreshes the process map and what was decided on its processes. `scanned` are the processes that are alive.
    pub fn process_map_refresh(&mut self, scanned: Vec<Scanned>) -> (r: Effects)
        requires
            old(self).wf(),
            forall|i: int| 0 <= i < scanned@.len() ==> (#[trigger] scanned@[i]).process.parent is None,
        ensures
            final(self).wf(),
            old(self).refreshed_by(*final(self), scanned@, r),
    {
        let parents: Vec<(u32, u32)> = collect_parents(&scanned);
        self.process_map.drain_filter_prepare();
        self.process_map.scan(scanned);
        self.process_map.link_parents(&parents);
        self.process_map.drain_filter();
        let mut settings: Vec<PrioritySetting> = self.assign_all();
        let ghost assigned = *self;
        let ghost first = settings@;
        // Reassign foreground processes in case they were overridden.
        let mut again: Vec<PrioritySetting> = self.reapply_foreground();
        let ghost second = again@;
        settings.append(&mut again);
        proof {
            let last = *self;
            assert((|p: Process| assigned.in_front(p)) =~= (|p: Process| last.in_front(p)));
            assert((|p: Process| assigned.foreground_profile(p)) =~= (|p: Process| last.foreground_profile(p)));
            assert(service::setting_views(settings@) =~= service::setting_views(first) + service::setting_views(
                second,
            ));
            assert(assigned == (Service { foreground_processes: assigned.foreground_processes, ..last }));
        }
        Effects { settings, reconcile: true }
    }
}

/// After processes were found to be alive they are known and not to be dropped, and no ID is known twice.
proof fn lemma_scanned_in(list: Seq<Process>, stale: Seq<u32>, found: Seq<Process>)
    requires
        process::distinct(list),
    ensures
        process::distinct(scanned_in(list, stale, found).0),
        forall|pid: u32| #[trigger]
            process::known(scanned_in(list, stale, found).0, pid) <==> process::known(list, pid) || is_found(found, pid),
        forall|pid: u32| #[trigger]
            scanned_in(list, stale, found).1.contains(pid) ==> stale.contains(pid) && !is_found(found, pid),
    decreases found.len(),
{
    let (after, left) = scanned_in(list, stale, found);
    if found.len() > 0 {
        let head = found.drop_last();
        let alive = found.last();
        let (before, rest) = scanned_in(list, stale, head);
        lemma_scanned_in(list, stale, head);
        assert forall|pid: u32| #[trigger] is_found(found, pid) == (is_found(head, pid) || pid == alive.id) by {
            if is_found(found, pid) {
                let i = choose|i: int| 0 <= i < found.len() && (#[trigger] found[i]).id == pid;
                if i < head.len() {
                    assert(head[i].id == pid);
                }
            }
            if is_found(head, pid) {
                let i = choose|i: int| 0 <= i < head.len() && (#[trigger] head[i]).id == pid;
                assert(found[i].id == pid);
            }
            assert(found[found.len() - 1].id == alive.id);
        }
        assert forall|pid: u32| #[trigger] process::known(after, pid) == (process::known(before, pid) || pid
            == alive.id) by {
            if process::known(before, alive.id) {
            } else {
                if process::known(after, pid) {
                    let i = choose|i: int| process::is_at(after, pid, i);
                    if i < before.len() {
                        assert(process::is_at(before, pid, i));
                    }
                }
                if process::known(before, pid) {
                    let i = choose|i: int| process::is_at(before, pid, i);
                    assert(process::is_at(after, pid, i));
                }
                assert(process::is_at(after, alive.id, before.len() as int));
            }
        }
        if !process::known(before, alive.id) {
            assert forall|i: int, j: int| 0 <= i < j < after.len() implies (#[trigger] after[i]).id != (
            #[trigger] after[j]).id by {
                if j == before.len() {
                    assert(!process::is_at(before, alive.id, i));
                }
            }
        }
        assert forall|pid: u32| #[trigger] left.contains(pid) implies stale.contains(pid) && !is_found(found, pid) by {
            broadcast use vstd::seq_lib::group_filter_ensures;

            let kept = |pid: u32| !process::in_tree(before, alive.id, pid);
            rest.lemma_filter_contains_rev(kept, pid);
            let i = choose|i: int| 0 <= i < left.len() && left[i] == pid;
            assert(kept(left[i]));
            assert(rest.contains(pid));
        }
    } else {
        assert forall|pid: u32| !#[trigger] is_found(found, pid) by {}
    }
}

/// Whether a process is among those that were found to be alive.
pub open spec fn is_found(found: Seq<Process>, pid: u32) -> bool {
    exists|i: int| 0 <= i < found.len() && (#[trigger] found[i]).id == pid
}

/// A process that is alive is known after the processes were refreshed, and after dead ones were dropped. One that
/// is known then was known before or is alive.
pub proof fn lemma_alive_known(list: Seq<Process>, scanned: Seq<Scanned>, pid: u32)
    requires
        process::distinct(list),
    ensures
        is_found(processes_of(scanned), pid) ==> process::known(refreshed(list, scanned), pid) && process::known(
            cleaned(list, scanned),
            pid,
        ),
        process::known(refreshed(list, scanned), pid) || process::known(cleaned(list, scanned), pid)
            ==> process::known(list, pid) || is_found(processes_of(scanned), pid),
        process::distinct(refreshed(list, scanned)),
        process::distinct(cleaned(list, scanned)),
{
    let all = list.map_values(|p: Process| p.id);
    let (found, stale) = scanned_in(list, all, processes_of(scanned));
    lemma_scanned_in(list, all, processes_of(scanned));
    process::lemma_survivors(found, stale);
    let relinked = with_parents(found, parents_of(scanned));
    assert forall|i: int, j: int| 0 <= i < j < relinked.len() implies (#[trigger] relinked[i]).id != (
    #[trigger] relinked[j]).id by {
        assert(found[i].id != found[j].id);
    }
    lemma_known_same_ids(relinked, found, pid);
    process::lemma_survivors(relinked, stale);
    assert(process::known(process::survivors(relinked, stale), pid) <==> process::known(relinked, pid)
        && !stale.contains(pid));
    assert(process::known(process::survivors(found, stale), pid) <==> process::known(found, pid) && !stale.contains(
        pid,
    ));
}

/// Whether a table is another with processes added to it, of which none is linked.
spec fn extends(table: Seq<Process>, list: Seq<Process>) -> bool {
    &&& process::distinct(table)
    &&& list.len() <= table.len()
    &&& forall|i: int| 0 <= i < list.len() ==> #[trigger] table[i] == list[i]
    &&& forall|i: int| list.len() <= i < table.len() ==> (#[trigger] table[i]).parent is None
}

/// A process that is known stays the one that is found when others are added.
proof fn lemma_lookup_extended(table: Seq<Process>, list: Seq<Process>, pid: u32)
    requires
        extends(table, list),
        process::distinct(list),
        process::known(list, pid),
    ensures
        process::lookup(table, pid) == process::lookup(list, pid),
        process::lookup(list, pid) matches Some(p) && list.contains(p),
{
    let i = choose|i: int| process::is_at(list, pid, i);
    process::lemma_position(list, i);
    assert(table[i] == list[i]);
    process::lemma_position(table, i);
}

/// The ancestors of a process stay what they are when others are added.
proof fn lemma_ancestors_extended(table: Seq<Process>, list: Seq<Process>, process: Process, n: nat)
    requires
        extends(table, list),
        process::distinct(list),
        process::linked(list),
        list.contains(process),
    ensures
        process::nth_ancestor(table, process, n) == process::nth_ancestor(list, process, n),
        process::nth_ancestor(list, process, n) matches Some(ancestor) ==> list.contains(ancestor),
    decreases n,
{
    let from = if n == 0 {
        Some(process)
    } else {
        lemma_ancestors_extended(table, list, process, (n - 1) as nat);
        process::nth_ancestor(list, process, (n - 1) as nat)
    };
    if let Some(p) = from {
        let i = choose|i: int| 0 <= i < list.len() && list[i] == p;
        assert(list[i].parent == p.parent);
        if let Some(parent) = p.parent {
            lemma_lookup_extended(table, list, parent);
        }
    }
}

/// Who belongs to the tree of a process stays the same when others are added.
proof fn lemma_tree_extended(table: Seq<Process>, list: Seq<Process>, process: u32, pid: u32)
    requires
        extends(table, list),
        process::distinct(list),
        process::linked(list),
    ensures
        process::in_tree(table, process, pid) == process::in_tree(list, process, pid),
{
    let kind = |a: Process| a.id == pid;
    if process::known(list, process) {
        lemma_lookup_extended(table, list, process);
        let entry = process::lookup(list, process)->0;
        assert forall|n: nat| #[trigger]
            process::nth_ancestor(table, entry, n) == process::nth_ancestor(list, entry, n) by {
            lemma_ancestors_extended(table, list, entry, n);
        }
        if process::has_ancestor(table, entry, kind) {
            let n = choose|n: nat| (#[trigger] process::nth_ancestor(table, entry, n)) matches Some(a) && kind(a);
            assert(process::nth_ancestor(list, entry, n) is Some && kind(process::nth_ancestor(list, entry, n)->0));
        }
        if process::has_ancestor(list, entry, kind) {
            let n = choose|n: nat| (#[trigger] process::nth_ancestor(list, entry, n)) matches Some(a) && kind(a);
            assert(process::nth_ancestor(table, entry, n) is Some && kind(process::nth_ancestor(table, entry, n)->0));
        }
    } else if process::known(table, process) {
        let i = choose|i: int| process::is_at(table, process, i);
        process::lemma_position(table, i);
        if i < list.len() {
            assert(process::is_at(list, process, i));
        }
        assert(table[i].parent is None);
        lemma_no_ancestors(table, table[i]);
    }
}

/// A process without a link has no ancestors.
proof fn lemma_no_ancestors(list: Seq<Process>, process: Process)
    requires
        process.parent is None,
    ensures
        forall|n: nat| (#[trigger] process::nth_ancestor(list, process, n)) is None,
{
    assert forall|n: nat| (#[trigger] process::nth_ancestor(list, process, n)) is None by {
        lemma_no_ancestor(list, process, n);
    }
}

proof fn lemma_no_ancestor(list: Seq<Process>, process: Process, n: nat)
    requires
        process.parent is None,
    ensures
        process::nth_ancestor(list, process, n) is None,
    decreases n,
{
    if n > 0 {
        lemma_no_ancestor(list, process, (n - 1) as nat);
    }
}

/// Whether a process is alive, or one that a process that is alive descends from.
pub open spec fn kept_alive(list: Seq<Process>, found: Seq<Process>, pid: u32) -> bool {
    exists|i: int| 0 <= i < found.len() && process::in_tree(list, (#[trigger] found[i]).id, pid)
}

/// What is to be dropped after processes were found to be alive is what none of them keeps.
proof fn lemma_left_stale(list: Seq<Process>, stale: Seq<u32>, found: Seq<Process>, pid: u32)
    requires
        process::distinct(list),
        process::linked(list),
        forall|i: int| 0 <= i < found.len() ==> (#[trigger] found[i]).parent is None,
    ensures
        extends(scanned_in(list, stale, found).0, list),
        scanned_in(list, stale, found).1.contains(pid) <==> stale.contains(pid) && !kept_alive(list, found, pid),
    decreases found.len(),
{
    lemma_scanned_in(list, stale, found);
    if found.len() > 0 {
        let head = found.drop_last();
        let alive = found.last();
        let (before, rest) = scanned_in(list, stale, head);
        let left = scanned_in(list, stale, found).1;
        assert forall|i: int| 0 <= i < head.len() implies (#[trigger] head[i]).parent is None by {
            assert(head[i] == found[i]);
        }
        lemma_left_stale(list, stale, head, pid);
        lemma_tree_extended(before, list, alive.id, pid);
        assert(alive == found[found.len() - 1]);
        let kept = |pid: u32| !process::in_tree(before, alive.id, pid);
        if left.contains(pid) {
            rest.lemma_filter_contains_rev(kept, pid);
            let i = choose|i: int| 0 <= i < left.len() && left[i] == pid;
            broadcast use vstd::seq_lib::group_filter_ensures;

            assert(kept(left[i]));
        }
        if rest.contains(pid) && kept(pid) {
            let i = choose|i: int| 0 <= i < rest.len() && rest[i] == pid;
            rest.lemma_filter_contains(kept, i);
        }
        if kept_alive(list, head, pid) {
            let i = choose|i: int| 0 <= i < head.len() && process::in_tree(list, (#[trigger] head[i]).id, pid);
            assert(process::in_tree(list, found[i].id, pid));
        }
        if kept_alive(list, found, pid) {
            let i = choose|i: int| 0 <= i < found.len() && process::in_tree(list, (#[trigger] found[i]).id, pid);
            if i < head.len() {
                assert(process::in_tree(list, head[i].id, pid));
            }
        }
    }
}

/// After dead processes were dropped, and after the processes were refreshed, those are known that are alive, and
/// those of the known ones that a process that is alive descended from. Every other is gone.
pub proof fn lemma_dead_gone(list: Seq<Process>, scanned: Seq<Scanned>, pid: u32)
    requires
        process::distinct(list),
        process::linked(list),
        forall|i: int| 0 <= i < scanned.len() ==> (#[trigger] scanned[i]).process.parent is None,
    ensures
        process::known(cleaned(list, scanned), pid) <==> is_found(processes_of(scanned), pid) || (process::known(
            list,
            pid,
        ) && kept_alive(list, processes_of(scanned), pid)),
        process::known(refreshed(list, scanned), pid) <==> process::known(cleaned(list, scanned), pid),
{
    let all = list.map_values(|p: Process| p.id);
    let processes = processes_of(scanned);
    let (found, stale) = scanned_in(list, all, processes);
    assert forall|i: int| 0 <= i < processes.len() implies (#[trigger] processes[i]).parent is None by {
        assert(processes[i] == scanned[i].process);
    }
    lemma_scanned_in(list, all, processes);
    lemma_left_stale(list, all, processes, pid);
    process::lemma_survivors(found, stale);
    let relinked = with_parents(found, parents_of(scanned));
    assert forall|i: int, j: int| 0 <= i < j < relinked.len() implies (#[trigger] relinked[i]).id != (
    #[trigger] relinked[j]).id by {
        assert(found[i].id != found[j].id);
    }
    lemma_known_same_ids(relinked, found, pid);
    process::lemma_survivors(relinked, stale);
    assert(process::known(process::survivors(relinked, stale), pid) <==> process::known(relinked, pid)
        && !stale.contains(pid));
    assert(process::known(process::survivors(found, stale), pid) <==> process::known(found, pid) && !stale.contains(
        pid,
    ));
    if process::known(list, pid) {
        let i = choose|i: int| process::is_at(list, pid, i);
        assert(all[i] == pid);
    }
    if is_found(processes, pid) {
        let i = choose|i: int| 0 <= i < processes.len() && (#[trigger] processes[i]).id == pid;
        assert(process::in_tree(list, processes[i].id, pid));
    }
}

/// The counter after so many calls, when it began at zero.
pub open spec fn counter_after(calls: nat) -> int
    decreases calls,
{
    if calls == 0 {
        0
    } else {
        next_counter(counter_after((calls - 1) as nat))
    }
}

/// Dead processes are looked for at regular intervals: at each call whose number is a multiple of the interval and
/// one.
pub proof fn lemma_garbage_rhythm(calls: nat)
    ensures
        counter_after(calls) == calls as int % 2049,
        counter_after(calls) == calls as int % (GARBAGE_INTERVAL + 1),
        calls > 0 ==> (is_due(counter_after((calls - 1) as nat)) <==> calls as int % (GARBAGE_INTERVAL + 1)
            == 0),
    decreases calls,
{
    assert(GARBAGE_INTERVAL + 1 == 2049);
    if calls > 0 {
        lemma_garbage_rhythm((calls - 1) as nat);
        assert((calls - 1) % 2049 < 2048 ==> calls as int % 2049 == (calls - 1) % 2049 + 1);
        assert((calls - 1) % 2049 == 2048 ==> calls as int % 2049 == 0);
    }
}

/// The known processes after so many calls that look for dead ones when it is time to. `scans` are the processes that
/// each call, counted from one, would find alive, where they can be read.
pub open spec fn table_after(
    list: Seq<Process>,
    scans: spec_fn(nat) -> Option<Seq<Scanned>>,
    calls: nat,
) -> Seq<Process>
    decreases calls,
{
    if calls == 0 {
        list
    } else {
        let before = table_after(list, scans, (calls - 1) as nat);
        match scans(calls) {
            Some(scanned) if is_due(counter_after((calls - 1) as nat)) => cleaned(before, scanned),
            _ => before,
        }
    }
}

/// No call before the interval is over changes which processes are known. The call after it drops the dead ones, and
/// so does each call after another interval.
pub proof fn lemma_cleaned_at_intervals(
    list: Seq<Process>,
    scans: spec_fn(nat) -> Option<Seq<Scanned>>,
    calls: nat,
)
    ensures
        calls <= GARBAGE_INTERVAL ==> table_after(list, scans, calls) == list,
        calls > 0 && calls as int % (GARBAGE_INTERVAL + 1) != 0 ==> table_after(list, scans, calls) == table_after(
            list,
            scans,
            (calls - 1) as nat,
        ),
        calls > 0 && calls as int % (GARBAGE_INTERVAL + 1) == 0 ==> table_after(list, scans, calls) == (match scans(
            calls,
        ) {
            Some(scanned) => cleaned(table_after(list, scans, (calls - 1) as nat), scanned),
            None => table_after(list, scans, (calls - 1) as nat),
        }),
    decreases calls,
{
    assert(GARBAGE_INTERVAL + 1 == 2049);
    if calls > 0 {
        lemma_cleaned_at_intervals(list, scans, (calls - 1) as nat);
        lemma_garbage_rhythm(calls);
    }
}

} // verus!

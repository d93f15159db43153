//! What happens when a process is started.

use vstd::prelude::*;

use crate::assignment;
use crate::process;
use crate::process::Process;
use crate::scheduler;
use crate::scheduler::TextMatcher;
use crate::service;
use crate::service::{Effects, PrioritySetting, Service};
use crate::text;

verus! {

/// What was read of a process that exists.
pub struct ProcessReading {
    /// Its command line.
    pub cmdline: Option<String>,
    /// Path of its cgroup.
    pub cgroup: Option<String>,
}

/// The text, or none where there is no text.
pub open spec fn text_or_empty(text: Option<String>) -> Seq<char> {
    match text {
        Some(text) => text@,
        None => Seq::empty(),
    }
}

/// Whether a process is what was made known of a new process. The command line that was read counts only where
/// none was given.
pub open spec fn is_arrival(
    process: Process,
    list: Seq<Process>,
    pid: u32,
    parent_pid: u32,
    name: Seq<char>,
    cmdline: Seq<char>,
    reading: Option<ProcessReading>,
) -> bool {
    &&& process.id == pid
    &&& process.parent_id == parent_pid
    &&& process.name@ == name
    &&& process.forked_name@.len() == 0
    &&& process.cmdline@ == (match reading {
        Some(reading) if cmdline.len() == 0 => text_or_empty(reading.cmdline),
        _ => cmdline,
    })
    &&& process.cgroup@ == (match reading {
        Some(reading) => text_or_empty(reading.cgroup),
        None => Seq::empty(),
    })
    &&& process.parent == (if process::known(list, parent_pid) {
        Some(parent_pid)
    } else {
        None
    })
    &&& process.assigned_priority is NotAssignable
    &&& process.pipewire_ancestor is None
}

/// Whether a process, or the one that started it, is among others.
pub open spec fn carries(process: Process, managed: Seq<u32>) -> bool {
    managed.contains(process.id) || managed.contains(process.parent_id)
}

/// The first of some processes that is a process or has started it.
pub open spec fn carrier(process: Process, managed: Seq<u32>) -> Option<u32>
    decreases managed.len(),
{
    if managed.len() == 0 {
        None
    } else if managed[0] == process.id || managed[0] == process.parent_id {
        Some(managed[0])
    } else {
        carrier(process, managed.skip(1))
    }
}

/// The process by which a process takes part in streams: the nearest ancestor decides. Those that capture come
/// before those that play.
pub open spec fn stream_ancestor(list: Seq<Process>, process: Process, managed: Seq<u32>) -> Option<u32> {
    match process::nearest_ancestor(list, process, |ancestor: Process| carries(ancestor, managed)) {
        Some(ancestor) => carrier(ancestor, managed),
        None => None,
    }
}

/// A process with the process by which it takes part in streams, if there is one.
pub open spec fn carried(list: Seq<Process>, process: Process, managed: Seq<u32>) -> Process {
    match stream_ancestor(list, process, managed) {
        Some(ancestor) => Process { pipewire_ancestor: Some(ancestor), ..process },
        None => process,
    }
}

/// There is a first process that is a process or has started it where there is any.
proof fn lemma_carrier(process: Process, managed: Seq<u32>)
    ensures
        carrier(process, managed) is Some <==> carries(process, managed),
    decreases managed.len(),
{
    if managed.len() > 0 {
        let rest = managed.skip(1);
        lemma_carrier(process, rest);
        if carries(process, managed) && managed[0] != process.id && managed[0] != process.parent_id {
            let i = choose|i: int|
                0 <= i < managed.len() && (managed[i] == process.id || managed[i] == process.parent_id);
            assert(rest[i - 1] == managed[i]);
        }
        if carries(process, rest) {
            let i = choose|i: int| 0 <= i < rest.len() && (rest[i] == process.id || rest[i] == process.parent_id);
            assert(managed[i + 1] == rest[i]);
        }
    }
}

/// Looking in one list and then in another is looking in both.
proof fn lemma_carrier_joined(process: Process, a: Seq<u32>, b: Seq<u32>)
    ensures
        carrier(process, a + b) == (match carrier(process, a) {
            Some(pid) => Some(pid),
            None => carrier(process, b),
        }),
    decreases a.len(),
{
    if a.len() == 0 {
        assert(a + b =~= b);
    } else {
        lemma_carrier_joined(process, a.skip(1), b);
        assert((a + b).skip(1) =~= a.skip(1) + b);
    }
}

/// The first of some processes that is a process or has started it.
fn find_carrier(process: &Process, managed: &Vec<u32>) -> (r: Option<u32>)
    ensures
        r == carrier(*process, managed@),
{
    let mut i: usize = 0;
    proof {
        assert(managed@.skip(0) =~= managed@);
    }
    while i < managed.len()
        invariant
            i <= managed@.len(),
            carrier(*process, managed@) == carrier(*process, managed@.skip(i as int)),
        decreases managed@.len() - i,
    {
        if managed[i] == process.id || managed[i] == process.parent_id {
            return Some(managed[i]);
        }
        proof {
            assert(managed@.skip(i as int).skip(1) =~= managed@.skip(i + 1));
        }
        i += 1;
    }
    None
}

impl<M: TextMatcher> Service<M> {
    /// The processes that take part in streams: first those that capture.
    pub open spec fn managed(&self) -> Seq<u32> {
        self.pipewire_capture_processes@ + self.pipewire_playback_processes@
    }

    /// Whether a later state is this one after a process was made known, and the effects are those of that.
    pub open spec fn arrived(&self, after: Service<M>, process: Process, effects: Effects) -> bool {
        let list = self.process_map.processes@;
        let table = if process::known(list, process.id) {
            list
        } else {
            list.push(process)
        };
        &&& after == (Service { process_map: after.process_map, ..*self })
        &&& after.process_map.stale@ == self.process_map.stale@
        &&& after.process_map.processes@ == table.map_values(
            |p: Process|
                if p.id == process.id {
                    assignment::assigned(
                        table,
                        carried(table, p, self.managed()),
                        self.config.process_scheduler.assignments,
                    )
                } else {
                    p
                },
        )
        &&& effects.reconcile
        &&& service::setting_views(effects.settings@) == service::settings_for(
            after.process_map.processes@,
            |p: Process|
                if p.id == process.id {
                    after.wanted(p)
                } else {
                    None
                },
        )
    }

    /// The process by which a process takes part in streams.
    fn find_stream_ancestor(&self, process: &Process) -> (r: Option<u32>)
        requires
            self.wf(),
        ensures
            r == stream_ancestor(self.process_map.processes@, *process, self.managed()),
    {
        let ghost list = self.process_map.processes@;
        let ghost managed = self.managed();
        let ghost kind = |ancestor: Process| carries(ancestor, managed);
        let up: Vec<usize> = self.process_map.ancestors(process);
        let mut i: usize = 0;
        while i < up.len()
            invariant
                i <= up@.len(),
                list == self.process_map.processes@,
                managed == self.managed(),
                process::walks(list, *process, up@),
                kind == (|ancestor: Process| carries(ancestor, managed)),
                forall|j: int| 0 <= j < i ==> !kind(list[(#[trigger] up@[j]) as int]),
            decreases up@.len() - i,
        {
            let ancestor: &Process = &self.process_map.processes[up[i]];
            let found: Option<u32> = match find_carrier(ancestor, &self.pipewire_capture_processes) {
                Some(pid) => Some(pid),
                None => find_carrier(ancestor, &self.pipewire_playback_processes),
            };
            proof {
                lemma_carrier_joined(
                    *ancestor,
                    self.pipewire_capture_processes@,
                    self.pipewire_playback_processes@,
                );
                lemma_carrier(*ancestor, managed);
            }
            if found.is_some() {
                proof {
                    process::lemma_nearest_on_walk(list, *process, up@, kind, i as int);
                }
                return found;
            }
            i += 1;
        }
        proof {
            process::lemma_nearest_on_walk(list, *process, up@, kind, i as int);
        }
        None
    }

    /// Assign a priority to a newly-created process, and record that process in the map. `reading` is what was read
    /// of it, if it still exists.
    pub fn assign_new_process(
        &mut self,
        pid: u32,
        parent_pid: u32,
        name: String,
        cmdline: String,
        reading: Option<ProcessReading>,
    ) -> (r: Effects)
        requires
            old(self).wf(),
        ensures
            final(self).wf(),
            exists|process: Process| #[trigger]
                is_arrival(
                    process,
                    old(self).process_map.processes@,
                    pid,
                    parent_pid,
                    name@,
                    cmdline@,
                    reading,
                ) && old(self).arrived(*final(self), process, r),
    {
        let ghost before = *self;
        let ghost list = self.process_map.processes@;
        let mut process: Process = Process::new(pid, parent_pid);
        process.name = name;
        process.cmdline = cmdline;
        if self.process_map.position(parent_pid).is_some() {
            process.parent = Some(parent_pid);
        }
        if let Some(reading) = reading {
            if text::chars(process.cmdline.as_str()).len() == 0 {
                process.cmdline = match reading.cmdline {
                    Some(cmdline) => cmdline,
                    None => String::new(),
                };
            }
            if let Some(cgroup) = reading.cgroup {
                process.cgroup = cgroup;
            }
        }
        let ghost arrival = process;
        proof {
            if process.cgroup@.len() == 0 {
                assert(process.cgroup@ =~= Seq::empty());
            }
            if process.cmdline@.len() == 0 {
                assert(process.cmdline@ =~= Seq::empty());
            }
            assert(is_arrival(arrival, list, pid, parent_pid, name@, cmdline@, reading));
        }
        // Add the process to the map, if it does not already exist.
        let at: usize = self.process_map.insert(process);
        let ghost table = self.process_map.processes@;
        let ghost entry = table[at as int];
        let ancestor: Option<u32> = self.find_stream_ancestor(&self.process_map.processes[at]);
        if ancestor.is_some() {
            self.process_map.processes[at].pipewire_ancestor = ancestor;
        }
        let ghost joined = self.process_map.processes@;
        proof {
            assert(joined[at as int] == carried(table, entry, before.managed()));
            assert forall|j: int| 0 <= j < table.len() implies process::alike(
                #[trigger] table[j],
                #[trigger] joined[j],
            ) by {}
            process::lemma_wf_alike(table, joined);
            assignment::lemma_priority_alike(
                table,
                joined,
                joined[at as int],
                joined[at as int],
                self.config.process_scheduler.assignments,
            );
        }
        self.assign_at(at);
        let mut settings: Vec<PrioritySetting> = Vec::new();
        let applied: Option<PrioritySetting> = self.apply_process_priority(&self.process_map.processes[at]);
        let ghost last = *self;
        if let Some(setting) = applied {
            settings.push(setting);
        }
        proof {
            let assignments = before.config.process_scheduler.assignments;
            let after = self.process_map.processes@;
            let stated = table.map_values(
                |p: Process|
                    if p.id == pid {
                        assignment::assigned(table, carried(table, p, before.managed()), assignments)
                    } else {
                        p
                    },
            );
            assert forall|j: int| 0 <= j < table.len() implies after[j] == #[trigger] stated[j] by {
                if j < at {
                    assert(table[j].id != table[at as int].id);
                } else if j > at {
                    assert(table[at as int].id != table[j].id);
                }
            }
            assert(after =~= stated);
            let profile = |p: Process|
                if p.id == pid {
                    last.wanted(p)
                } else {
                    None
                };
            lemma_one_setting(after, profile, at as int);
            assert(service::setting_views(settings@) =~= service::settings_for(after, profile));
            let effects = Effects { settings, reconcile: true };
            assert(before.arrived(*self, arrival, effects));
        }
        Effects { settings, reconcile: true }
    }
}

/// Where one process at most gets a profile, its setting is the only one.
proof fn lemma_one_setting(list: Seq<Process>, profile: spec_fn(Process) -> Option<scheduler::ProfileView>, at: int)
    requires
        0 <= at < list.len(),
        forall|i: int| 0 <= i < list.len() && i != at ==> profile(#[trigger] list[i]) is None,
    ensures
        service::settings_for(list, profile) == (match profile(list[at]) {
            Some(name) => seq![(list[at].id, name)],
            None => Seq::empty(),
        }),
    decreases list.len(),
{
    let head = list.drop_last();
    assert forall|i: int| 0 <= i < head.len() && i != at implies profile(#[trigger] head[i]) is None by {
        assert(head[i] == list[i]);
    }
    if at < head.len() {
        lemma_one_setting(head, profile, at);
    } else {
        lemma_no_setting(head, profile);
        assert(service::settings_for(list, profile) =~= (match profile(list[at]) {
            Some(name) => seq![(list[at].id, name)],
            None => Seq::empty(),
        }));
    }
}

proof fn lemma_no_setting(list: Seq<Process>, profile: spec_fn(Process) -> Option<scheduler::ProfileView>)
    requires
        forall|i: int| 0 <= i < list.len() ==> profile(#[trigger] list[i]) is None,
    ensures
        service::settings_for(list, profile).len() == 0,
    decreases list.len(),
{
    if list.len() > 0 {
        let head = list.drop_last();
        assert forall|i: int| 0 <= i < head.len() implies profile(#[trigger] head[i]) is None by {
            assert(head[i] == list[i]);
        }
        lemma_no_setting(head, profile);
    }
}

/// A process that was started by one that takes part in streams takes part by that one, or by the one that has
/// started it.
pub proof fn lemma_started_by_stream(list: Seq<Process>, process: Process, parent: Process, managed: Seq<u32>)
    requires
        process::parent_of(list, process) == Some(parent),
        managed.contains(parent.id),
    ensures
        stream_ancestor(list, process, managed) is Some,
        managed.contains(stream_ancestor(list, process, managed)->0),
        stream_ancestor(list, process, managed)->0 == parent.id || stream_ancestor(list, process, managed)->0
            == parent.parent_id,
{
    let kind = |ancestor: Process| carries(ancestor, managed);
    assert(kind(parent));
    assert(process::nth_ancestor(list, process, 0) == Some(parent));
    assert(process::is_nearest(list, process, kind, 0));
    process::lemma_nearest(list, process, kind, 0);
    lemma_carrier(parent, managed);
    lemma_carrier_is_listed(parent, managed);
}

/// The first of some processes that is a process or has started it is one of them.
proof fn lemma_carrier_is_listed(process: Process, managed: Seq<u32>)
    ensures
        carrier(process, managed) matches Some(pid) ==> managed.contains(pid) && (pid == process.id || pid
            == process.parent_id),
    decreases managed.len(),
{
    if managed.len() > 0 {
        let rest = managed.skip(1);
        lemma_carrier_is_listed(process, rest);
        if let Some(pid) = carrier(process, rest) {
            let i = choose|i: int| 0 <= i < rest.len() && rest[i] == pid;
            assert(managed[i + 1] == pid);
        }
    }
}

impl<M: TextMatcher> Service<M> {
    /// A process that was made known is known, and so is every one that was known before.
    pub proof fn lemma_arrived_known(&self, after: Service<M>, process: Process, effects: Effects, pid: u32)
        requires
            self.arrived(after, process, effects),
        ensures
            process::known(after.process_map.processes@, pid) <==> pid == process.id || process::known(
                self.process_map.processes@,
                pid,
            ),
    {
        let list = self.process_map.processes@;
        let table = if process::known(list, process.id) {
            list
        } else {
            list.push(process)
        };
        let last = after.process_map.processes@;
        assert(last.len() == table.len());
        assert forall|i: int| 0 <= i < table.len() implies last[i].id == table[i].id by {}
        if process::known(last, pid) {
            let i = choose|i: int| process::is_at(last, pid, i);
            assert(table[i].id == pid);
            if i < list.len() {
                assert(process::is_at(list, pid, i));
            }
        }
        if process::known(list, pid) {
            let i = choose|i: int| process::is_at(list, pid, i);
            assert(process::is_at(last, pid, i));
        }
        if pid == process.id && !process::known(list, pid) {
            assert(process::is_at(last, pid, list.len() as int));
        }
    }
}

} // verus!

//! What is recorded of a process that is started, and what it is given.

use vstd::prelude::*;

use crate::arrivals;
use crate::arrivals::ProcessReading;
use crate::assignment;
use crate::laws::assigning;
use crate::laws::processes;
use crate::laws::settings;
use crate::process;
use crate::process::Process;
use crate::scheduler::TextMatcher;
use crate::service;
use crate::service::{Effects, Service};

verus! {

/// Of a new process the cgroup is the one that was read, whatever command line was given. The command line is the one
/// that was given, and the one that was read only where none was given. It is linked to the process that started it if
/// that one is known.
pub proof fn lemma_recorded(
    process: Process,
    list: Seq<Process>,
    pid: u32,
    parent_pid: u32,
    name: Seq<char>,
    cmdline: Seq<char>,
    reading: Option<ProcessReading>,
)
    requires
        arrivals::is_arrival(process, list, pid, parent_pid, name, cmdline, reading),
    ensures
        process.id == pid,
        process.parent_id == parent_pid,
        process.name@ == name,
        process.forked_name@ =~= Seq::empty(),
        process.assigned_priority is NotAssignable,
        process.pipewire_ancestor is None,
        reading is Some && reading->0.cgroup is Some ==> process.cgroup@ == reading->0.cgroup->0@,
        reading is Some && reading->0.cgroup is None ==> process.cgroup@ =~= Seq::empty(),
        reading is None ==> process.cgroup@ =~= Seq::empty(),
        cmdline.len() > 0 ==> process.cmdline@ == cmdline,
        cmdline.len() == 0 && reading is Some && reading->0.cmdline is Some ==> process.cmdline@
            == reading->0.cmdline->0@,
        cmdline.len() == 0 && (reading is None || reading->0.cmdline is None) ==> process.cmdline@ =~= Seq::empty(),
        (exists|i: int| 0 <= i < list.len() && (#[trigger] list[i]).id == parent_pid) ==> process.parent == Some(
            parent_pid,
        ),
        (forall|i: int| 0 <= i < list.len() ==> (#[trigger] list[i]).id != parent_pid) ==> process.parent is None,
{
    if exists|i: int| 0 <= i < list.len() && (#[trigger] list[i]).id == parent_pid {
        let i = choose|i: int| 0 <= i < list.len() && (#[trigger] list[i]).id == parent_pid;
        assert(process::is_at(list, parent_pid, i));
    }
    if process::known(list, parent_pid) {
        let i = choose|i: int| process::is_at(list, parent_pid, i);
        assert(list[i].id == parent_pid);
    }
}

/// The first of some listed processes that is a process or has started it.
pub proof fn lemma_carrier(process: Process, managed: Seq<u32>, m: int)
    requires
        0 <= m <= managed.len(),
        forall|j: int| 0 <= j < m ==> #[trigger] managed[j] != process.id && managed[j] != process.parent_id,
        m < managed.len() ==> managed[m] == process.id || managed[m] == process.parent_id,
    ensures
        m < managed.len() ==> arrivals::carrier(process, managed) == Some(managed[m]),
        m == managed.len() ==> arrivals::carrier(process, managed) is None,
    decreases m,
{
    if m > 0 {
        let rest = managed.skip(1);
        assert(managed[0] != process.id && managed[0] != process.parent_id);
        assert forall|j: int| 0 <= j < m - 1 implies #[trigger] rest[j] != process.id && rest[j] != process.parent_id by {
            assert(rest[j] == managed[j + 1]);
        }
        lemma_carrier(process, rest, m - 1);
    }
}

/// A process joins the streams of the nearest of those that links lead up to which is listed, or was started by one
/// that is: it is attached to the one that is listed first, those that capture before those that play. Where links lead
/// up to none, it joins none.
pub proof fn lemma_joins(
    list: Seq<Process>,
    process: Process,
    capture: Seq<u32>,
    playback: Seq<u32>,
    chain: Seq<Process>,
    k: int,
    m: int,
)
    requires
        process::distinct(list),
        processes::leads_up(list, process, chain),
        0 <= k <= chain.len(),
        k == chain.len() ==> processes::leads_to_top(list, process, chain),
        forall|j: int|
            0 <= j < k ==> !capture.contains((#[trigger] chain[j]).id) && !capture.contains(chain[j].parent_id)
                && !playback.contains(chain[j].id) && !playback.contains(chain[j].parent_id),
        k < chain.len() ==> 0 <= m < (capture + playback).len() && ((capture + playback)[m] == chain[k].id || (capture
            + playback)[m] == chain[k].parent_id) && forall|j: int|
            0 <= j < m ==> #[trigger] (capture + playback)[j] != chain[k].id && (capture + playback)[j]
                != chain[k].parent_id,
    ensures
        k < chain.len() ==> arrivals::stream_ancestor(list, process, capture + playback) == Some(
            (capture + playback)[m],
        ),
        k < chain.len() ==> arrivals::carried(list, process, capture + playback) == (Process {
            pipewire_ancestor: Some((capture + playback)[m]),
            ..process
        }),
        k == chain.len() ==> arrivals::carried(list, process, capture + playback) == process,
{
    let managed = capture + playback;
    let kind = |ancestor: Process| arrivals::carries(ancestor, managed);
    assert forall|j: int| 0 <= j < k implies !kind(#[trigger] chain[j]) by {
        assert(!capture.contains(chain[j].id));
        if managed.contains(chain[j].id) {
            let n = choose|n: int| 0 <= n < managed.len() && managed[n] == chain[j].id;
            assert(n < capture.len() ==> capture[n] == chain[j].id);
            assert(n >= capture.len() ==> playback[n - capture.len()] == chain[j].id);
        }
        if managed.contains(chain[j].parent_id) {
            let n = choose|n: int| 0 <= n < managed.len() && managed[n] == chain[j].parent_id;
            assert(n < capture.len() ==> capture[n] == chain[j].parent_id);
            assert(n >= capture.len() ==> playback[n - capture.len()] == chain[j].parent_id);
        }
    }
    if k < chain.len() {
        assert(managed.contains(managed[m]));
        assert(kind(chain[k]));
        processes::lemma_nearest(list, process, chain, kind, k);
        lemma_carrier(chain[k], managed, m);
    } else {
        processes::lemma_none_near(list, process, chain, kind);
    }
}

impl<M: TextMatcher> Service<M> {
    /// Who is started and was not known is recorded behind the others, which stay as they are. Of it only the priority
    /// and the process by which it takes part in streams are decided on.
    pub proof fn lemma_arrival_recorded(&self, after: Service<M>, process: Process, effects: Effects)
        requires
            self.wf(),
            self.arrived(after, process, effects),
            forall|i: int|
                0 <= i < self.process_map.processes@.len() ==> (#[trigger] self.process_map.processes@[i]).id
                    != process.id,
        ensures
            effects.reconcile,
            after.process_map.processes@.len() == self.process_map.processes@.len() + 1,
            after.process_map.processes@.drop_last() == self.process_map.processes@,
            ({
                let list = self.process_map.processes@;
                let joined = arrivals::carried(
                    list.push(process),
                    process,
                    self.pipewire_capture_processes@ + self.pipewire_playback_processes@,
                );
                &&& joined == (Process { pipewire_ancestor: joined.pipewire_ancestor, ..process })
                &&& after.process_map.processes@.last() == assignment::assigned(
                    list.push(process),
                    joined,
                    self.config.process_scheduler.assignments,
                )
            }),
            after.config == self.config,
            after.cgroup_weights == self.cgroup_weights,
            after.foreground == self.foreground,
            after.foreground_processes == self.foreground_processes,
            after.pipewire_capture_processes == self.pipewire_capture_processes,
            after.pipewire_playback_processes == self.pipewire_playback_processes,
            after.gc_counter == self.gc_counter,
            after.eevdf_paths == self.eevdf_paths,
            after.process_map.stale@ == self.process_map.stale@,
    {
        let list = self.process_map.processes@;
        processes::lemma_known(list, process.id);
        assert(!process::known(list, process.id));
        let last = after.process_map.processes@;
        assert forall|i: int| 0 <= i < list.len() implies last[i] == list[i] by {
            assert(list[i].id != process.id);
            assert(list.push(process)[i] == list[i]);
        }
        assert(last.drop_last() =~= list);
    }

    /// Who is started has exactly one setting if it is to be given a profile, with that profile, and else none. Nobody
    /// else has a setting.
    pub proof fn lemma_arrival_settings(&self, after: Service<M>, process: Process, effects: Effects, i: int)
        requires
            self.wf(),
            after.wf(),
            self.arrived(after, process, effects),
            0 <= i < after.process_map.processes@.len(),
        ensures
            ({
                let now = after.process_map.processes@[i];
                let shown = service::setting_views(effects.settings@);
                &&& now.id == process.id ==> (match after.wanted(now) {
                    Some(wanted) => settings::one_setting(shown, process.id, wanted),
                    None => settings::no_setting(shown, process.id),
                })
                &&& now.id != process.id ==> settings::no_setting(shown, now.id)
            }),
    {
        settings::lemma_setting_of(
            after.process_map.processes@,
            |p: Process|
                if p.id == process.id {
                    after.wanted(p)
                } else {
                    None
                },
            i,
        );
    }

    /// A process that was not known, for which a cgroup was read, and which no rule, no exception and no condition
    /// names, is recorded with that cgroup, is assignable and has exactly one setting, whatever command line was given.
    pub proof fn lemma_arrival_assignable(
        &self,
        after: Service<M>,
        process: Process,
        effects: Effects,
        pid: u32,
        parent_pid: u32,
        name: Seq<char>,
        cmdline: Seq<char>,
        reading: ProcessReading,
    )
        requires
            self.wf(),
            after.wf(),
            arrivals::is_arrival(
                process,
                self.process_map.processes@,
                pid,
                parent_pid,
                name,
                cmdline,
                Some(reading),
            ),
            self.arrived(after, process, effects),
            forall|i: int|
                0 <= i < self.process_map.processes@.len() ==> (#[trigger] self.process_map.processes@[i]).id != pid,
            reading.cgroup matches Some(cgroup) && cgroup@.len() > 0,
            ({
                let table = self.process_map.processes@.push(process);
                let joined = arrivals::carried(
                    table,
                    process,
                    self.pipewire_capture_processes@ + self.pipewire_playback_processes@,
                );
                let assignments = self.config.process_scheduler.assignments;
                &&& !assignment::is_exception(table, joined, assignments)
                &&& forall|j: int|
                    0 <= j < assignments.cmdlines@.len() ==> !(#[trigger] assignments.cmdlines@[j]).0.accepts(
                        process.cmdline@,
                    )
                &&& forall|j: int|
                    0 <= j < assignments.names@.len() ==> !(#[trigger] assignments.names@[j]).0.accepts(name)
                &&& forall|j: int|
                    0 <= j < assignments.conditions.entries@.len() ==> !assignment::rules_apply(
                        table,
                        joined,
                        (#[trigger] assignments.conditions.entries@[j]).1,
                    )
            }),
        ensures
            after.process_map.processes@.last().id == pid,
            after.process_map.processes@.last().cgroup@ == reading.cgroup->0@,
            after.process_map.processes@.last().assigned_priority is Assignable,
            after.wanted(after.process_map.processes@.last()) is Some,
            settings::one_setting(
                service::setting_views(effects.settings@),
                pid,
                after.wanted(after.process_map.processes@.last())->0,
            ),
    {
        let list = self.process_map.processes@;
        let table = list.push(process);
        let assignments = self.config.process_scheduler.assignments;
        lemma_recorded(process, list, pid, parent_pid, name, cmdline, Some(reading));
        self.lemma_arrival_recorded(after, process, effects);
        let joined = arrivals::carried(
            table,
            process,
            self.pipewire_capture_processes@ + self.pipewire_playback_processes@,
        );
        assigning::lemma_decided(
            table,
            joined,
            assignments,
            assignments.cmdlines@.len() as int,
            assignments.names@.len() as int,
            assignments.conditions.entries@.len() as int,
        );
        self.lemma_arrival_settings(after, process, effects, list.len() as int);
        after.lemma_wanted_decided(after.process_map.processes@.last());
    }

    /// Who is started and was known already is not replaced: nothing of it changes but the process by which it takes
    /// part in streams, and what is decided on it if nothing was.
    pub proof fn lemma_arrival_known(&self, after: Service<M>, process: Process, effects: Effects, i: int)
        requires
            self.wf(),
            self.arrived(after, process, effects),
            0 <= i < self.process_map.processes@.len(),
            exists|j: int|
                0 <= j < self.process_map.processes@.len() && (#[trigger] self.process_map.processes@[j]).id
                    == process.id,
        ensures
            after.process_map.processes@.len() == self.process_map.processes@.len(),
            ({
                let before = self.process_map.processes@[i];
                let now = after.process_map.processes@[i];
                &&& before.id != process.id ==> now == before
                &&& now == (Process {
                    pipewire_ancestor: now.pipewire_ancestor,
                    assigned_priority: now.assigned_priority,
                    ..before
                })
                &&& !(before.assigned_priority is NotAssignable) ==> now.assigned_priority == before.assigned_priority
            }),
    {
        let list = self.process_map.processes@;
        let j = choose|j: int| 0 <= j < list.len() && (#[trigger] list[j]).id == process.id;
        assert(process::is_at(list, process.id, j));
    }
}

} // verus!

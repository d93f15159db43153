//! Which profile a process is given in the present state.

use vstd::prelude::*;

use crate::cgroup;
use crate::config::Config;
use crate::laws::processes;
use crate::pipewire::ProcessKind;
use crate::process;
use crate::process::Process;
use crate::scheduler;
use crate::scheduler::{SchedPolicy, TextMatcher};
use crate::service;
use crate::service::{Effects, ForegroundTarget, OwnedPriority, Service};

verus! {

/// What was decided on a process is shown as it is.
pub proof fn lemma_lent(priority: OwnedPriority)
    ensures
        service::lent(priority) is Assignable <==> priority is Assignable,
        service::lent(priority) is Exception <==> priority is Exception,
        service::lent(priority) is NotAssignable <==> priority is NotAssignable,
        service::lent(priority) is Config <==> priority is Config,
        priority is Config ==> *service::lent(priority)->Config_0 == priority->Config_0,
{
}

/// A process descends from the one that it says has started it, from those that links lead up to, and from those that
/// these say have started them.
pub proof fn lemma_descends(list: Seq<Process>, process: Process, chain: Seq<Process>, k: int)
    requires
        process::distinct(list),
        processes::leads_up(list, process, chain),
    ensures
        service::descended_from(list, process, process.parent_id),
        0 <= k < chain.len() ==> service::descended_from(list, process, chain[k].id) && service::descended_from(
            list,
            process,
            chain[k].parent_id,
        ),
{
    if 0 <= k < chain.len() {
        let id = chain[k].id;
        let parent_id = chain[k].parent_id;
        let by_id = |a: Process| a.id == id || a.parent_id == id;
        let by_parent = |a: Process| a.id == parent_id || a.parent_id == parent_id;
        assert(by_id(chain[k]) && by_parent(chain[k]));
        processes::lemma_has_ancestor(list, process, chain, by_id);
        processes::lemma_has_ancestor(list, process, chain, by_parent);
    }
}

/// A process descends from no other.
pub proof fn lemma_descends_no_more(list: Seq<Process>, process: Process, chain: Seq<Process>, ancestor: u32)
    requires
        process::distinct(list),
        processes::leads_to_top(list, process, chain),
        process.parent_id != ancestor,
        forall|k: int|
            0 <= k < chain.len() ==> (#[trigger] chain[k]).id != ancestor && chain[k].parent_id != ancestor,
    ensures
        !service::descended_from(list, process, ancestor),
{
    processes::lemma_has_ancestor(list, process, chain, |a: Process| a.id == ancestor || a.parent_id == ancestor);
}

/// A process takes part in streams by the one that it is attached to, and by itself when it is attached to none. Who
/// captures and plays captures.
pub proof fn lemma_part_in_streams(process: Process, capture: Seq<u32>, playback: Seq<u32>, root: u32)
    requires
        process.pipewire_ancestor == Some(root) || (process.pipewire_ancestor is None && process.id == root),
    ensures
        service::pipewire_kind(process, capture, playback) == Some(ProcessKind::Capture) <==> capture.contains(root),
        service::pipewire_kind(process, capture, playback) == Some(ProcessKind::Playback) <==> !capture.contains(root)
            && playback.contains(root),
        service::pipewire_kind(process, capture, playback) is None <==> !capture.contains(root) && !playback.contains(
            root,
        ),
{
}

/// Who is in the foreground when a process is: that process, those that descend from it and those that are listed.
/// When a cgroup is: those in it. When nothing is: nobody.
pub proof fn lemma_in_foreground(
    list: Seq<Process>,
    process: Process,
    foreground: Option<ForegroundTarget>,
    listed: Seq<u32>,
)
    ensures
        foreground is None ==> !service::in_foreground(list, process, foreground, listed),
        foreground matches Some(ForegroundTarget::Process(pid)) ==> (service::in_foreground(
            list,
            process,
            foreground,
            listed,
        ) <==> process.id == pid || listed.contains(process.id) || service::descended_from(list, process, pid)),
        foreground matches Some(ForegroundTarget::Cgroup(path)) ==> (service::in_foreground(
            list,
            process,
            foreground,
            listed,
        ) <==> cgroup::within(process.cgroup@, path@)),
{
}

/// What a profile that sets nothing is.
pub proof fn lemma_plain_profile(name: Seq<char>)
    ensures
        scheduler::plain_profile(name).name == name,
        scheduler::plain_profile(name).nice is None,
        scheduler::plain_profile(name).sched_policy == SchedPolicy::Other,
{
}

impl<M: TextMatcher> Service<M> {
    /// The priority that is shown for a process is the one that was decided on. For one that is not known there is none.
    pub proof fn lemma_shown(&self, pid: u32, i: int)
        requires
            self.wf(),
            0 <= i <= self.process_map.processes@.len(),
            forall|j: int| 0 <= j < i ==> (#[trigger] self.process_map.processes@[j]).id != pid,
            i < self.process_map.processes@.len() ==> self.process_map.processes@[i].id == pid,
        ensures
            i < self.process_map.processes@.len() ==> self.shown_priority(pid) == service::lent(
                self.process_map.processes@[i].assigned_priority,
            ),
            i == self.process_map.processes@.len() ==> self.shown_priority(pid) is NotAssignable,
    {
        let list = self.process_map.processes@;
        processes::lemma_known(list, pid);
        if i < list.len() {
            assert(list.contains(list[i]));
        }
    }

    /// A configuration that was read anew takes the place of the one before, and the weights of cgroups are to be
    /// reconciled with it. Nothing else changes.
    pub proof fn lemma_reloaded(&self, after: Service<M>, config: Config<M>, effects: Effects)
        requires
            self.reloaded(after, config, effects),
        ensures
            after.config == config,
            after.process_map == self.process_map,
            after.cgroup_weights == self.cgroup_weights,
            after.foreground == self.foreground,
            after.foreground_processes == self.foreground_processes,
            after.pipewire_capture_processes == self.pipewire_capture_processes,
            after.pipewire_playback_processes == self.pipewire_playback_processes,
            effects.reconcile,
            effects.settings@.len() == 0,
    {
    }

    /// A process that the configuration assigns a profile is given that one. One that is left alone, or on which
    /// nothing was decided, is given none.
    pub proof fn lemma_wanted_decided(&self, process: Process)
        ensures
            process.assigned_priority matches OwnedPriority::Config(profile) ==> self.wanted(process) == Some(profile@),
            process.assigned_priority is Exception || process.assigned_priority is NotAssignable ==> self.wanted(process)
                is None,
            process.assigned_priority is Assignable ==> self.wanted(process) is Some,
    {
    }

    /// An assignable process that captures, itself or by another, is given the profile for that, where there is one,
    /// whatever is in the foreground.
    pub proof fn lemma_wanted_capture(&self, process: Process, root: u32)
        requires
            process.assigned_priority is Assignable,
            process.pipewire_ancestor == Some(root) || (process.pipewire_ancestor is None && process.id == root),
            self.pipewire_capture_processes@.contains(root),
            self.config.process_scheduler.pipewire is Some,
        ensures
            self.wanted(process) == Some(self.config.process_scheduler.pipewire->0@),
    {
    }

    /// Any other assignable process in the foreground is given the profile of the foreground.
    pub proof fn lemma_wanted_in_front(&self, process: Process, root: u32)
        requires
            process.assigned_priority is Assignable,
            process.pipewire_ancestor == Some(root) || (process.pipewire_ancestor is None && process.id == root),
            !self.pipewire_capture_processes@.contains(root) || self.config.process_scheduler.pipewire is None,
            self.config.process_scheduler.foreground is Some,
            self.foreground is Some,
            match self.foreground->0 {
                ForegroundTarget::Process(pid) => process.id == pid || self.foreground_processes@.contains(process.id)
                    || service::descended_from(self.process_map.processes@, process, pid),
                ForegroundTarget::Cgroup(path) => cgroup::within(process.cgroup@, path@),
            },
        ensures
            self.wanted(process) == Some(self.config.process_scheduler.foreground->0.foreground@),
    {
    }

    /// An assignable process that is not in the foreground and does not capture is given the profile for playing if it
    /// plays, itself or by another, and there is one. Else it is given that of the background, or the default profile
    /// where the foreground is not set apart.
    pub proof fn lemma_wanted_behind(&self, process: Process, root: u32)
        requires
            process.assigned_priority is Assignable,
            process.pipewire_ancestor == Some(root) || (process.pipewire_ancestor is None && process.id == root),
            !self.pipewire_capture_processes@.contains(root),
            self.config.process_scheduler.foreground is None || match self.foreground {
                Some(ForegroundTarget::Process(pid)) => process.id != pid && !self.foreground_processes@.contains(
                    process.id,
                ) && !service::descended_from(self.process_map.processes@, process, pid),
                Some(ForegroundTarget::Cgroup(path)) => !cgroup::within(process.cgroup@, path@),
                None => true,
            },
        ensures
            self.pipewire_playback_processes@.contains(root) && self.config.process_scheduler.pipewire_playback is Some
                ==> self.wanted(process) == Some(self.config.process_scheduler.pipewire_playback->0@),
            !self.pipewire_playback_processes@.contains(root) || self.config.process_scheduler.pipewire_playback is None
                ==> self.wanted(process) == (match self.config.process_scheduler.foreground {
                Some(assignments) => Some(assignments.background@),
                None => Some(scheduler::plain_profile("default"@)),
            }),
    {
    }

    /// A capturing process without a profile for it is given what a process that takes no part gets.
    pub proof fn lemma_wanted_unset_capture(&self, process: Process, other: Process)
        requires
            process.assigned_priority is Assignable,
            self.config.process_scheduler.pipewire is None,
            other == (Process { pipewire_ancestor: other.pipewire_ancestor, ..process }),
            self.pipewire_capture_processes@.contains(
                match process.pipewire_ancestor {
                    Some(root) => root,
                    None => process.id,
                },
            ),
            other.pipewire_ancestor matches Some(root) && !self.pipewire_capture_processes@.contains(root)
                && !self.pipewire_playback_processes@.contains(root),
            process::distinct(self.process_map.processes@),
        ensures
            self.wanted(process) == self.wanted(other),
    {
        let list = self.process_map.processes@;
        assert forall|i: int| 0 <= i < list.len() implies process::alike(#[trigger] list[i], #[trigger] list[i]) by {}
        if let Some(ForegroundTarget::Process(pid)) = self.foreground {
            service::lemma_descended_alike(list, list, process, other, pid);
        }
    }
}

} // verus!

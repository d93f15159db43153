//! What happens when something comes to the foreground, and when nothing is in it any more.

use vstd::prelude::*;

use crate::cgroup;
use crate::laws::settings;
use crate::process;
use crate::process::Process;
use crate::scheduler::TextMatcher;
use crate::service;
use crate::service::{Effects, ForegroundTarget, Service};

verus! {

impl<M: TextMatcher> Service<M> {
    /// When a process comes to the foreground, and the foreground is set apart, it is in the foreground. Of the
    /// assignable processes it and those that descend from it are listed, and each has exactly one setting, with the
    /// profile that it then gets. A process that is not assignable has none.
    pub proof fn lemma_put_in_front(&self, after: Service<M>, pid: u32, effects: Effects, i: int)
        requires
            self.wf(),
            self.put_in_front(after, pid, effects),
            self.config.process_scheduler.foreground is Some,
            0 <= i < self.process_map.processes@.len(),
        ensures
            effects.reconcile,
            after.foreground == Some(ForegroundTarget::Process(pid)),
            after.process_map == self.process_map,
            after.config == self.config,
            after.cgroup_weights == self.cgroup_weights,
            after.pipewire_capture_processes == self.pipewire_capture_processes,
            after.pipewire_playback_processes == self.pipewire_playback_processes,
            after.gc_counter == self.gc_counter,
            after.foreground_processes@.contains(pid),
            ({
                let list = self.process_map.processes@;
                let process = list[i];
                let shown = service::setting_views(effects.settings@);
                &&& process.assigned_priority is Assignable ==> {
                    &&& after.foreground_processes@.contains(process.id) <==> process.id == pid
                        || service::descended_from(list, process, pid)
                    &&& after.wanted(process) is Some
                    &&& settings::one_setting(shown, process.id, after.wanted(process)->0)
                }
                &&& !(process.assigned_priority is Assignable) ==> settings::no_setting(shown, process.id)
            }),
    {
        let list = self.process_map.processes@;
        let set = self.with_foreground(Some(ForegroundTarget::Process(pid)));
        let front = |p: Process| set.in_front(p);
        let profile = |p: Process| set.foreground_profile(p);
        let ids = service::ids_of(list, front);
        settings::lemma_listed(list, front, i);
        settings::lemma_setting_of(list, profile, i);
        assert((seq![pid] + ids)[0] == pid);
        let listed = after.foreground_processes@;
        if ids.contains(list[i].id) {
            let k = choose|k: int| 0 <= k < ids.len() && ids[k] == list[i].id;
            assert(listed[k + 1] == list[i].id);
        }
        if listed.contains(list[i].id) && list[i].id != pid {
            let k = choose|k: int| 0 <= k < listed.len() && listed[k] == list[i].id;
            assert(ids[k - 1] == list[i].id);
        }
    }

    /// Where the foreground is not set apart, nothing comes to it.
    pub proof fn lemma_not_set_apart(&self, after: Service<M>, pid: u32, cgroup: Seq<char>, effects: Effects)
        requires
            self.config.process_scheduler.foreground is None,
        ensures
            self.put_in_front(after, pid, effects) ==> after == *self && effects.settings@.len() == 0
                && effects.reconcile,
            self.cgroup_put_in_front(after, cgroup, effects) && cgroup::normalized(cgroup).len() > 0 ==> after == *self
                && effects.settings@.len() == 0 && !effects.reconcile,
    {
    }

    /// When a cgroup comes to the foreground, and the foreground is set apart, it is in the foreground. Of the
    /// assignable processes those in it are listed, and each has exactly one setting, with the profile that it then
    /// gets. A process that is not assignable has none.
    pub proof fn lemma_cgroup_put_in_front(&self, after: Service<M>, cgroup: Seq<char>, effects: Effects, i: int)
        requires
            self.wf(),
            self.cgroup_put_in_front(after, cgroup, effects),
            cgroup::normalized(cgroup).len() > 0,
            self.config.process_scheduler.foreground is Some,
            0 <= i < self.process_map.processes@.len(),
        ensures
            effects.reconcile,
            after.foreground matches Some(ForegroundTarget::Cgroup(path)) && path@ == cgroup::normalized(cgroup),
            after.process_map == self.process_map,
            after.config == self.config,
            after.cgroup_weights == self.cgroup_weights,
            after.pipewire_capture_processes == self.pipewire_capture_processes,
            after.pipewire_playback_processes == self.pipewire_playback_processes,
            after.gc_counter == self.gc_counter,
            ({
                let process = self.process_map.processes@[i];
                let shown = service::setting_views(effects.settings@);
                &&& after.foreground_processes@.contains(process.id) <==> process.assigned_priority is Assignable
                    && cgroup::within(process.cgroup@, cgroup::normalized(cgroup))
                &&& process.assigned_priority is Assignable ==> after.wanted(process) is Some && settings::one_setting(
                    shown,
                    process.id,
                    after.wanted(process)->0,
                )
                &&& !(process.assigned_priority is Assignable) ==> settings::no_setting(shown, process.id)
            }),
    {
        let list = self.process_map.processes@;
        let set = self.with_foreground(after.foreground);
        settings::lemma_listed(list, |p: Process| set.in_front(p), i);
        settings::lemma_setting_of(list, |p: Process| set.foreground_profile(p), i);
    }

    /// When the foreground is cleared, nothing is in it and nobody is listed. Each assignable process has exactly one
    /// setting, with the profile that it then gets, where the foreground is set apart. A path that is empty clears it.
    pub proof fn lemma_front_cleared(&self, after: Service<M>, cgroup: Seq<char>, effects: Effects, i: int)
        requires
            self.wf(),
            self.front_cleared(after, effects) || (self.cgroup_put_in_front(after, cgroup, effects)
                && cgroup::normalized(cgroup).len() == 0),
        ensures
            self.foreground is None ==> after == *self && effects.settings@.len() == 0 && !effects.reconcile,
            self.foreground is Some ==> {
                let shown = service::setting_views(effects.settings@);
                &&& effects.reconcile
                &&& after.foreground is None
                &&& after.foreground_processes@.len() == 0
                &&& after.process_map == self.process_map
                &&& after.config == self.config
                &&& after.cgroup_weights == self.cgroup_weights
                &&& after.pipewire_capture_processes == self.pipewire_capture_processes
                &&& after.pipewire_playback_processes == self.pipewire_playback_processes
                &&& after.gc_counter == self.gc_counter
                &&& self.config.process_scheduler.foreground is None ==> effects.settings@.len() == 0
                &&& self.config.process_scheduler.foreground is Some && 0 <= i < self.process_map.processes@.len() ==> {
                    let process = self.process_map.processes@[i];
                    &&& process.assigned_priority is Assignable ==> after.wanted(process) is Some
                        && settings::one_setting(shown, process.id, after.wanted(process)->0)
                    &&& !(process.assigned_priority is Assignable) ==> settings::no_setting(shown, process.id)
                }
            },
    {
        let list = self.process_map.processes@;
        let set = self.with_foreground(None);
        let front = |p: Process| set.in_front(p);
        if self.foreground is Some && self.config.process_scheduler.foreground is Some {
            let at = settings::lemma_ids(list, front);
            if at.len() > 0 {
                assert(0 <= at[0] < list.len());
                let of_kind = |j: int| front(list[j]);
                assert(of_kind(at[0]));
            }
            if 0 <= i < list.len() {
                settings::lemma_setting_of(list, |p: Process| set.foreground_profile(p), i);
            }
        }
    }
}

} // verus!

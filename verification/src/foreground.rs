//! What happens when something comes to the foreground.

use vstd::prelude::*;

use crate::cgroup;
use crate::process;
use crate::process::Process;
use crate::scheduler;
use crate::scheduler::TextMatcher;
use crate::service;
use crate::service::{Effects, ForegroundTarget, Priority, PrioritySetting, Service};
use crate::text;

verus! {

impl<M: TextMatcher> Service<M> {
    /// Whether a process may be given a priority and belongs to what is in the foreground.
    pub open spec fn in_front(&self, process: Process) -> bool {
        process.assigned_priority is Assignable && (self.foreground matches Some(target) && service::belongs_to(
            self.process_map.processes@,
            process,
            target,
        ))
    }

    /// The profile that a process is given when the foreground is set apart anew.
    pub open spec fn foreground_profile(&self, process: Process) -> Option<scheduler::ProfileView> {
        if process.assigned_priority is Assignable {
            Some(
                service::assignable_profile(
                    self.config.process_scheduler,
                    service::pipewire_kind(
                        process,
                        self.pipewire_capture_processes@,
                        self.pipewire_playback_processes@,
                    ),
                    self.in_front(process),
                ),
            )
        } else {
            None
        }
    }

    /// Lists the processes that are in the foreground, and says which profile each assignable process gets.
    fn refill_foreground(&mut self) -> (r: Vec<PrioritySetting>)
        requires
            old(self).wf(),
            forall|i: int|
                0 <= i < old(self).foreground_processes@.len() ==> old(self).foreground == Some(
                    ForegroundTarget::Process(#[trigger] old(self).foreground_processes@[i]),
                ),
        ensures
            final(self).wf(),
            *final(self) == (Service { foreground_processes: final(self).foreground_processes, ..*old(self) }),
            final(self).foreground_processes@ == old(self).foreground_processes@ + service::ids_of(
                old(self).process_map.processes@,
                |p: Process| old(self).in_front(p),
            ),
            service::setting_views(r@) == service::settings_for(
                old(self).process_map.processes@,
                |p: Process| old(self).foreground_profile(p),
            ),
    {
        let ghost before = *self;
        let ghost list = self.process_map.processes@;
        let ghost listed = self.foreground_processes@;
        let ghost kind = |p: Process| before.in_front(p);
        let ghost profile = |p: Process| before.foreground_profile(p);
        let mut settings: Vec<PrioritySetting> = Vec::new();
        let mut i: usize = 0;
        proof {
            assert(listed + service::ids_of(list.take(0), kind) =~= listed);
            assert(service::setting_views(settings@) =~= service::settings_for(list.take(0), profile));
        }
        while i < self.process_map.processes.len()
            invariant
                before.wf(),
                *self == (Service { foreground_processes: self.foreground_processes, ..before }),
                list == before.process_map.processes@,
                listed == before.foreground_processes@,
                i <= list.len(),
                kind == (|p: Process| before.in_front(p)),
                profile == (|p: Process| before.foreground_profile(p)),
                forall|j: int|
                    0 <= j < listed.len() ==> before.foreground == Some(
                        ForegroundTarget::Process(#[trigger] listed[j]),
                    ),
                forall|x: u32|
                    service::ids_of(list.take(i as int), kind).contains(x) ==> exists|j: int|
                        0 <= j < i && #[trigger] list[j].id == x && before.in_front(list[j]),
                self.foreground_processes@ == listed + service::ids_of(list.take(i as int), kind),
                service::setting_views(settings@) == service::settings_for(list.take(i as int), profile),
            decreases list.len() - i,
        {
            let ghost part = list.take(i + 1);
            let ghost front = service::ids_of(list.take(i as int), kind);
            let ghost done = service::setting_views(settings@);
            let current: &Process = &self.process_map.processes[i];
            let ghost now = list[i as int];
            proof {
                assert(part.drop_last() =~= list.take(i as int));
                assert(part.last() == now);
                // The process is not listed yet, unless it is the one in the foreground.
                if self.foreground_processes@.contains(now.id) && !listed.contains(now.id) {
                    let k = choose|k: int|
                        0 <= k < self.foreground_processes@.len() && self.foreground_processes@[k] == now.id;
                    assert(front[k - listed.len()] == now.id);
                    assert(front.contains(now.id));
                    let j = choose|j: int| 0 <= j < i && #[trigger] list[j].id == now.id && before.in_front(list[j]);
                    assert(list[j].id != list[i as int].id);
                }
            }
            if let Priority::Assignable = current.assigned_priority.as_ref() {
                let pid: u32 = current.id;
                let inside: bool = self.process_is_foreground(current);
                if inside {
                    self.foreground_processes.push(pid);
                }
                proof {
                    assert(inside == before.in_front(now));
                    if inside {
                        assert(self.foreground_processes@ =~= listed + front.push(pid));
                        assert(self.foreground_processes@.contains(pid)) by {
                            assert(self.foreground_processes@[self.foreground_processes@.len() - 1] == pid);
                        }
                    }
                    assert(service::ids_of(part, kind) == (if inside {
                        front.push(pid)
                    } else {
                        front
                    }));
                    assert forall|x: u32| service::ids_of(part, kind).contains(x) implies exists|j: int|
                        0 <= j < i + 1 && #[trigger] list[j].id == x && before.in_front(list[j]) by {
                        if x == pid && inside {
                            assert(list[i as int].id == x);
                        } else {
                            let k = choose|k: int|
                                0 <= k < service::ids_of(part, kind).len() && service::ids_of(part, kind)[k] == x;
                            assert(front[k] == x);
                            assert(front.contains(x));
                        }
                    }
                }
                if let Some(setting) = self.apply_process_priority(&self.process_map.processes[i]) {
                    settings.push(setting);
                    proof {
                        assert(service::setting_views(settings@) =~= done.push(setting@));
                    }
                }
            }
            i += 1;
        }
        proof {
            assert(list.take(i as int) =~= list);
        }
        settings
    }

    /// Says anew which processes are in the foreground and which profile each assignable process gets.
    pub fn reapply_foreground(&mut self) -> (r: Vec<PrioritySetting>)
        requires
            old(self).wf(),
        ensures
            final(self).wf(),
            *final(self) == (Service { foreground_processes: final(self).foreground_processes, ..*old(self) }),
            old(self).config.process_scheduler.foreground is None ==> r@.len() == 0
                && final(self).foreground_processes@ == old(self).foreground_processes@,
            old(self).config.process_scheduler.foreground is Some ==> {
                &&& final(self).foreground_processes@ == service::ids_of(
                    old(self).process_map.processes@,
                    |p: Process| old(self).in_front(p),
                )
                &&& service::setting_views(r@) == service::settings_for(
                    old(self).process_map.processes@,
                    |p: Process| old(self).foreground_profile(p),
                )
            },
    {
        if self.config.process_scheduler.foreground.is_none() {
            return Vec::new();
        }
        let ghost before = *self;
        self.foreground_processes = Vec::new();
        let ghost cleared = *self;
        let settings = self.refill_foreground();
        proof {
            assert((|p: Process| cleared.in_front(p)) =~= (|p: Process| before.in_front(p)));
            assert((|p: Process| cleared.foreground_profile(p)) =~= (|p: Process| before.foreground_profile(p)));
            assert(cleared.foreground_processes@ + self.foreground_processes@ =~= self.foreground_processes@);
        }
        settings
    }

    /// The state with something in the foreground.
    pub open spec fn with_foreground(&self, foreground: Option<ForegroundTarget>) -> Service<M> {
        Service { foreground, ..*self }
    }

    /// Whether a later state is this one with a process in the foreground, and the effects are those of that.
    pub open spec fn put_in_front(&self, after: Service<M>, pid: u32, effects: Effects) -> bool {
        let set = self.with_foreground(Some(ForegroundTarget::Process(pid)));
        &&& effects.reconcile
        &&& self.config.process_scheduler.foreground is None ==> after == *self && effects.settings@.len() == 0
        &&& self.config.process_scheduler.foreground is Some ==> {
            &&& after == (Service { foreground_processes: after.foreground_processes, ..set })
            &&& after.foreground_processes@ == seq![pid] + service::ids_of(
                set.process_map.processes@,
                |p: Process| set.in_front(p),
            )
            &&& service::setting_views(effects.settings@) == service::settings_for(
                set.process_map.processes@,
                |p: Process| set.foreground_profile(p),
            )
        }
    }

    /// Whether a later state is this one with a cgroup in the foreground, or with nothing in it where the path is
    /// empty, and the effects are those of that.
    pub open spec fn cgroup_put_in_front(&self, after: Service<M>, cgroup: Seq<char>, effects: Effects) -> bool {
        let path = cgroup::normalized(cgroup);
        if path.len() == 0 {
            self.front_cleared(after, effects)
        } else if self.config.process_scheduler.foreground is None {
            after == *self && effects.settings@.len() == 0 && !effects.reconcile
        } else {
            &&& after.foreground matches Some(ForegroundTarget::Cgroup(name)) && name@ == path
            &&& self.with_foreground(after.foreground).reapplied(after, effects)
        }
    }

    /// Whether a later state is this one with nothing in the foreground, and the effects are those of that.
    pub open spec fn front_cleared(&self, after: Service<M>, effects: Effects) -> bool {
        &&& self.foreground is None ==> after == *self && effects.settings@.len() == 0 && !effects.reconcile
        &&& self.foreground is Some ==> self.with_foreground(None).reapplied(after, effects)
    }

    /// Sets a process as the foreground. Its children are to be assigned first.
    pub fn set_foreground_process(&mut self, pid: u32) -> (r: Effects)
        requires
            old(self).wf(),
        ensures
            final(self).wf(),
            old(self).put_in_front(*final(self), pid, r),
    {
        if self.config.process_scheduler.foreground.is_none() {
            return Effects { settings: Vec::new(), reconcile: true };
        }
        let ghost after = self.with_foreground(Some(ForegroundTarget::Process(pid)));
        self.foreground = Some(ForegroundTarget::Process(pid));
        self.foreground_processes = Vec::new();
        self.foreground_processes.push(pid);
        let ghost started = *self;
        proof {
            assert(started.foreground_processes@ =~= seq![pid]);
        }
        let settings = self.refill_foreground();
        proof {
            assert((|p: Process| started.in_front(p)) =~= (|p: Process| after.in_front(p)));
            assert((|p: Process| started.foreground_profile(p)) =~= (|p: Process| after.foreground_profile(p)));
        }
        Effects { settings, reconcile: true }
    }

    /// Sets a cgroup subtree as the foreground. An empty path clears it.
    pub fn set_foreground_cgroup(&mut self, cgroup: &str) -> (r: Effects)
        requires
            old(self).wf(),
        ensures
            final(self).wf(),
            old(self).cgroup_put_in_front(*final(self), cgroup@, r),
    {
        let path: String = cgroup::normalize_foreground_cgroup(cgroup);
        if text::chars(path.as_str()).len() == 0 {
            return self.clear_foreground();
        }
        if self.config.process_scheduler.foreground.is_none() {
            return Effects { settings: Vec::new(), reconcile: false };
        }
        let ghost before = *self;
        self.foreground = Some(ForegroundTarget::Cgroup(path));
        self.foreground_processes = Vec::new();
        let ghost started = *self;
        let settings = self.reapply_foreground();
        proof {
            let after = before.with_foreground(started.foreground);
            assert((|p: Process| started.in_front(p)) =~= (|p: Process| after.in_front(p)));
            assert((|p: Process| started.foreground_profile(p)) =~= (|p: Process| after.foreground_profile(p)));
        }
        Effects { settings, reconcile: true }
    }

    /// Whether a later state is this one with the foreground set apart anew, and the effects are those of that.
    pub open spec fn reapplied(&self, after: Service<M>, effects: Effects) -> bool {
        &&& effects.reconcile
        &&& after == (Service { foreground_processes: after.foreground_processes, ..*self })
        &&& if self.config.process_scheduler.foreground is Some {
            &&& after.foreground_processes@ == service::ids_of(
                self.process_map.processes@,
                |p: Process| self.in_front(p),
            )
            &&& service::setting_views(effects.settings@) == service::settings_for(
                self.process_map.processes@,
                |p: Process| self.foreground_profile(p),
            )
        } else {
            &&& after.foreground_processes@.len() == 0
            &&& effects.settings@.len() == 0
        }
    }

    /// Clears the active foreground process or cgroup target.
    pub fn clear_foreground(&mut self) -> (r: Effects)
        requires
            old(self).wf(),
        ensures
            final(self).wf(),
            old(self).front_cleared(*final(self), r),
    {
        if self.foreground.is_none() {
            return Effects { settings: Vec::new(), reconcile: false };
        }
        let ghost after = self.with_foreground(None);
        self.foreground = None;
        self.foreground_processes = Vec::new();
        let ghost started = *self;
        let settings = self.reapply_foreground();
        proof {
            assert((|p: Process| started.in_front(p)) =~= (|p: Process| after.in_front(p)));
            assert((|p: Process| started.foreground_profile(p)) =~= (|p: Process| after.foreground_profile(p)));
        }
        Effects { settings, reconcile: true }
    }
}

impl<M: TextMatcher> Service<M> {
    /// With nothing in the foreground no process is.
    pub proof fn lemma_cleared(&self, process: Process)
        ensures
            !self.with_foreground(None).in_front(process),
    {
    }

    /// Of the processes that may be given a priority, those in the foreground are the one that is set as the
    /// foreground and those that descend from it.
    pub proof fn lemma_process_in_front(&self, process: Process, pid: u32)
        requires
            process.assigned_priority is Assignable,
        ensures
            self.with_foreground(Some(ForegroundTarget::Process(pid))).in_front(process) <==> process.id == pid
                || service::descended_from(self.process_map.processes@, process, pid),
    {
    }

    /// Setting the foreground apart anew a second time gives the same.
    pub proof fn lemma_reapplied_again(&self, after: Service<M>, effects: Effects)
        requires
            self.reapplied(after, effects),
        ensures
            after.reapplied(after, effects),
    {
        let before = *self;
        assert((|p: Process| before.in_front(p)) =~= (|p: Process| after.in_front(p)));
        assert((|p: Process| before.foreground_profile(p)) =~= (|p: Process| after.foreground_profile(p)));
    }
}

} // verus!

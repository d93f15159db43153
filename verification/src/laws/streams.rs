//! What happens when a process begins to take part in streams, and when it ceases to.

use vstd::prelude::*;

use crate::cgroup;
use crate::laws::processes;
use crate::laws::settings;
use crate::pipewire::ProcessKind;
use crate::process;
use crate::process::Process;
use crate::scheduler;
use crate::scheduler::TextMatcher;
use crate::service;
use crate::service::{Effects, ForegroundTarget, Service};
use crate::streams;

verus! {

impl<M: TextMatcher> Service<M> {
    /// When a process ceases to capture or to play, it leaves the list of those that do and stays in the other list.
    /// When it was not in the list, nothing happens. Nothing else of the state changes but the links to it.
    pub proof fn lemma_stream_ends_lists(&self, after: Service<M>, kind: ProcessKind, root: u32, effects: Effects)
        requires
            self.ended(after, kind, root, effects),
        ensures
            kind == ProcessKind::Capture ==> after.pipewire_playback_processes@ == self.pipewire_playback_processes@
                && after.pipewire_capture_processes@ == self.pipewire_capture_processes@.remove_value(root),
            kind == ProcessKind::Playback ==> after.pipewire_capture_processes@ == self.pipewire_capture_processes@
                && after.pipewire_playback_processes@ == self.pipewire_playback_processes@.remove_value(root),
            kind == ProcessKind::Capture && !self.pipewire_capture_processes@.contains(root) ==> after == *self
                && effects.settings@.len() == 0 && !effects.reconcile,
            kind == ProcessKind::Playback && !self.pipewire_playback_processes@.contains(root) ==> after == *self
                && effects.settings@.len() == 0 && !effects.reconcile,
            after.config == self.config,
            after.cgroup_weights == self.cgroup_weights,
            after.foreground == self.foreground,
            after.foreground_processes == self.foreground_processes,
            after.gc_counter == self.gc_counter,
            after.eevdf_paths == self.eevdf_paths,
    {
        self.pipewire_capture_processes@.index_of_first_ensures(root);
        self.pipewire_playback_processes@.index_of_first_ensures(root);
    }

    /// When a listed process ceases to take part, for either kind, its own link is cleared, and it has exactly one
    /// setting if it is assignable, with the profile that it then gets. When it ceases to capture, the same holds of each
    /// process that is attached to it. Every other process stays as it is and has no setting.
    pub proof fn lemma_stream_ends(&self, after: Service<M>, kind: ProcessKind, root: u32, effects: Effects, i: int)
        requires
            self.wf(),
            self.ended(after, kind, root, effects),
            kind == ProcessKind::Capture ==> self.pipewire_capture_processes@.contains(root),
            kind == ProcessKind::Playback ==> self.pipewire_playback_processes@.contains(root),
            0 <= i < self.process_map.processes@.len(),
        ensures
            effects.reconcile,
            after.process_map.processes@.len() == self.process_map.processes@.len(),
            ({
                let process = self.process_map.processes@[i];
                let now = after.process_map.processes@[i];
                let shown = service::setting_views(effects.settings@);
                if process.id == root || (kind == ProcessKind::Capture && process.pipewire_ancestor == Some(root)) {
                    &&& now == (Process { pipewire_ancestor: None, ..process })
                    &&& process.assigned_priority is Assignable ==> after.wanted(now) is Some && settings::one_setting(
                        shown,
                        process.id,
                        after.wanted(now)->0,
                    )
                    &&& !(process.assigned_priority is Assignable) ==> settings::no_setting(shown, process.id)
                } else {
                    now == process && settings::no_setting(shown, process.id)
                }
            }),
    {
        let list = self.process_map.processes@;
        let profile = |p: Process|
            if streams::held_by(p, kind, root) && p.assigned_priority is Assignable {
                after.wanted(streams::detached(p, kind, root))
            } else {
                None
            };
        settings::lemma_setting_of(list, profile, i);
        after.lemma_wanted_decided(streams::detached(list[i], kind, root));
    }

    /// An assignable process that ceases to take part in streams, in which it takes no part otherwise, with nothing in
    /// the foreground, is given the profile of the background, or the default profile where the foreground is not set
    /// apart.
    pub proof fn lemma_stream_ends_behind(
        &self,
        after: Service<M>,
        kind: ProcessKind,
        root: u32,
        effects: Effects,
        i: int,
    )
        requires
            self.wf(),
            self.ended(after, kind, root, effects),
            kind == ProcessKind::Capture ==> self.pipewire_capture_processes@.contains(root)
                && !self.pipewire_playback_processes@.contains(root),
            kind == ProcessKind::Playback ==> self.pipewire_playback_processes@.contains(root)
                && !self.pipewire_capture_processes@.contains(root),
            self.pipewire_capture_processes@.no_duplicates(),
            self.pipewire_playback_processes@.no_duplicates(),
            self.foreground is None,
            0 <= i < self.process_map.processes@.len(),
            self.process_map.processes@[i].id == root,
            self.process_map.processes@[i].assigned_priority is Assignable,
        ensures
            settings::one_setting(
                service::setting_views(effects.settings@),
                root,
                match self.config.process_scheduler.foreground {
                    Some(assignments) => assignments.background@,
                    None => scheduler::plain_profile("default"@),
                },
            ),
    {
        self.lemma_stream_ends(after, kind, root, effects, i);
        self.lemma_stream_ends_lists(after, kind, root, effects);
        streams::lemma_listed_once(self.pipewire_capture_processes@, root);
        streams::lemma_listed_once(self.pipewire_playback_processes@, root);
        after.lemma_wanted_behind(after.process_map.processes@[i], root);
    }

    /// When a process begins to capture or to play, it is in the list of those that do, once more than before only if it
    /// was not in it. Nothing else of the state changes but the links to it.
    pub proof fn lemma_stream_begins_lists(&self, after: Service<M>, kind: ProcessKind, root: u32, effects: Effects)
        requires
            self.begun(after, kind, root, effects),
        ensures
            effects.reconcile,
            kind == ProcessKind::Capture ==> after.pipewire_playback_processes@ == self.pipewire_playback_processes@
                && after.pipewire_capture_processes@ == (if self.pipewire_capture_processes@.contains(root) {
                self.pipewire_capture_processes@
            } else {
                self.pipewire_capture_processes@ + seq![root]
            }),
            kind == ProcessKind::Playback ==> after.pipewire_capture_processes@ == self.pipewire_capture_processes@
                && after.pipewire_playback_processes@ == (if self.pipewire_playback_processes@.contains(root) {
                self.pipewire_playback_processes@
            } else {
                self.pipewire_playback_processes@ + seq![root]
            }),
            after.config == self.config,
            after.cgroup_weights == self.cgroup_weights,
            after.foreground == self.foreground,
            after.foreground_processes == self.foreground_processes,
            after.gc_counter == self.gc_counter,
            after.eevdf_paths == self.eevdf_paths,
    {
        assert(self.pipewire_capture_processes@.push(root) =~= self.pipewire_capture_processes@ + seq![root]);
        assert(self.pipewire_playback_processes@.push(root) =~= self.pipewire_playback_processes@ + seq![root]);
    }

    /// When a process begins to take part that is known and may not be given a priority, and was not in the list, no
    /// process changes and there is no setting.
    pub proof fn lemma_stream_begins_apart(
        &self,
        after: Service<M>,
        kind: ProcessKind,
        root: u32,
        effects: Effects,
        at: int,
    )
        requires
            self.wf(),
            self.begun(after, kind, root, effects),
            kind == ProcessKind::Capture ==> !self.pipewire_capture_processes@.contains(root),
            kind == ProcessKind::Playback ==> !self.pipewire_playback_processes@.contains(root),
            0 <= at < self.process_map.processes@.len(),
            self.process_map.processes@[at].id == root,
            !(self.process_map.processes@[at].assigned_priority is Assignable),
        ensures
            after.process_map.processes@ == self.process_map.processes@,
            effects.settings@.len() == 0,
    {
        process::lemma_position(self.process_map.processes@, at);
    }

    /// Else an assignable process has exactly one setting, with the profile that it then gets, if it is the one that
    /// begins to take part, or if that one captures and descends from it or it descends from that one. It is then
    /// attached to that one, unless it is that one itself. Every other process stays as it is and has no setting.
    pub proof fn lemma_stream_begins(
        &self,
        after: Service<M>,
        kind: ProcessKind,
        root: u32,
        effects: Effects,
        i: int,
    )
        requires
            self.wf(),
            self.begun(after, kind, root, effects),
            ({
                ||| kind == ProcessKind::Capture && self.pipewire_capture_processes@.contains(root)
                ||| kind == ProcessKind::Playback && self.pipewire_playback_processes@.contains(root)
                ||| forall|j: int|
                    0 <= j < self.process_map.processes@.len() && (#[trigger] self.process_map.processes@[j]).id == root
                        ==> self.process_map.processes@[j].assigned_priority is Assignable
            }),
            0 <= i < self.process_map.processes@.len(),
        ensures
            after.process_map.processes@.len() == self.process_map.processes@.len(),
            ({
                let list = self.process_map.processes@;
                let process = list[i];
                let now = after.process_map.processes@[i];
                let shown = service::setting_views(effects.settings@);
                let belongs = service::descended_from(list, process, root) || exists|j: int|
                    0 <= j < list.len() && (#[trigger] list[j]).id == root && service::descended_from(
                        list,
                        list[j],
                        process.id,
                    );
                if process.assigned_priority is Assignable && process.id == root {
                    &&& now == process
                    &&& after.wanted(now) is Some
                    &&& settings::one_setting(shown, process.id, after.wanted(now)->0)
                } else if process.assigned_priority is Assignable && kind == ProcessKind::Capture && belongs {
                    &&& now == (Process { pipewire_ancestor: Some(root), ..process })
                    &&& after.wanted(now) is Some
                    &&& settings::one_setting(shown, process.id, after.wanted(now)->0)
                } else {
                    now == process && settings::no_setting(shown, process.id)
                }
            }),
    {
        let list = self.process_map.processes@;
        let profile = |p: Process|
            if streams::touched(list, p, kind, root) {
                after.wanted(streams::attached(list, p, kind, root))
            } else {
                None
            };
        processes::lemma_known(list, root);
        if let Some(entry) = process::lookup(list, root) {
            let j = choose|j: int| 0 <= j < list.len() && list[j] == entry;
            assert(list[j].id == root);
            assert(self.settled_elsewhere(kind, root) ==> !(list[j].assigned_priority is Assignable));
            assert forall|n: int|
                0 <= n < list.len() && (#[trigger] list[n]).id == root && service::descended_from(
                    list,
                    list[n],
                    list[i].id,
                ) implies service::descended_from(list, entry, list[i].id) by {
                process::lemma_position(list, n);
            }
        }
        settings::lemma_setting_of(list, profile, i);
        after.lemma_wanted_decided(streams::attached(list, list[i], kind, root));
    }

    /// An assignable process that begins to capture is given the profile for that, where there is one, and so is each
    /// assignable process that it belongs with.
    pub proof fn lemma_capture_begins(&self, after: Service<M>, root: u32, effects: Effects, i: int)
        requires
            self.wf(),
            self.begun(after, ProcessKind::Capture, root, effects),
            self.config.process_scheduler.pipewire is Some,
            forall|j: int|
                0 <= j < self.process_map.processes@.len() && (#[trigger] self.process_map.processes@[j]).id == root
                    ==> self.process_map.processes@[j].assigned_priority is Assignable
                    && self.process_map.processes@[j].pipewire_ancestor is None,
            0 <= i < self.process_map.processes@.len(),
            self.process_map.processes@[i].assigned_priority is Assignable,
            self.process_map.processes@[i].id == root || service::descended_from(
                self.process_map.processes@,
                self.process_map.processes@[i],
                root,
            ),
        ensures
            settings::one_setting(
                service::setting_views(effects.settings@),
                self.process_map.processes@[i].id,
                self.config.process_scheduler.pipewire->0@,
            ),
    {
        self.lemma_stream_begins(after, ProcessKind::Capture, root, effects, i);
        self.lemma_stream_begins_lists(after, ProcessKind::Capture, root, effects);
        let capture = self.pipewire_capture_processes@;
        if !capture.contains(root) {
            assert((capture + seq![root])[capture.len() as int] == root);
        }
        after.lemma_wanted_capture(after.process_map.processes@[i], root);
    }

    /// An assignable process that begins to play, and does not capture, is given the profile for that, where there is
    /// one and the process is not in the foreground.
    pub proof fn lemma_playback_begins(&self, after: Service<M>, root: u32, effects: Effects, i: int)
        requires
            self.wf(),
            self.begun(after, ProcessKind::Playback, root, effects),
            self.config.process_scheduler.pipewire_playback is Some,
            !self.pipewire_capture_processes@.contains(root),
            0 <= i < self.process_map.processes@.len(),
            self.process_map.processes@[i].id == root,
            self.process_map.processes@[i].assigned_priority is Assignable,
            self.process_map.processes@[i].pipewire_ancestor is None,
            match self.foreground {
                Some(ForegroundTarget::Process(_)) => self.config.process_scheduler.foreground is None,
                Some(ForegroundTarget::Cgroup(path)) => !cgroup::within(
                    self.process_map.processes@[i].cgroup@,
                    path@,
                ),
                None => true,
            },
        ensures
            settings::one_setting(
                service::setting_views(effects.settings@),
                root,
                self.config.process_scheduler.pipewire_playback->0@,
            ),
    {
        let list = self.process_map.processes@;
        assert forall|j: int| 0 <= j < list.len() && (#[trigger] list[j]).id == root implies list[j].assigned_priority is Assignable by {
            process::lemma_position(list, i);
            process::lemma_position(list, j);
        }
        self.lemma_stream_begins(after, ProcessKind::Playback, root, effects, i);
        self.lemma_stream_begins_lists(after, ProcessKind::Playback, root, effects);
        let playback = self.pipewire_playback_processes@;
        if !playback.contains(root) {
            assert((playback + seq![root])[playback.len() as int] == root);
        }
        after.lemma_wanted_behind(after.process_map.processes@[i], root);
    }
}

} // verus!

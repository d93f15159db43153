//! What happens when a process begins or ceases to take part in PipeWire streams.

use vstd::prelude::*;

use crate::pipewire::ProcessKind;
use crate::process;
use crate::process::Process;
use crate::scheduler::TextMatcher;
use crate::service;
use crate::service::{Effects, Priority, PrioritySetting, Service};

verus! {

/// Whether a process belongs to one that captures: it descends from it or that one descends from it.
pub open spec fn related(list: Seq<Process>, process: Process, root: u32) -> bool {
    ||| service::descended_from(list, process, root)
    ||| process::lookup(list, root) matches Some(entry) && service::descended_from(list, entry, process.id)
}

/// Whether the profile of a process depends on a process that begins to take part in streams.
pub open spec fn touched(list: Seq<Process>, process: Process, kind: ProcessKind, root: u32) -> bool {
    process.assigned_priority is Assignable && (process.id == root || (kind == ProcessKind::Capture && related(
        list,
        process,
        root,
    )))
}

/// A process after another has begun to take part in streams.
pub open spec fn attached(list: Seq<Process>, process: Process, kind: ProcessKind, root: u32) -> Process {
    if touched(list, process, kind, root) && process.id != root {
        Process { pipewire_ancestor: Some(root), ..process }
    } else {
        process
    }
}

/// Whether a process takes part in streams by one that ceases to, or is that one.
pub open spec fn held_by(process: Process, kind: ProcessKind, root: u32) -> bool {
    process.id == root || (kind == ProcessKind::Capture && process.pipewire_ancestor == Some(root))
}

/// A process after another has ceased to take part in streams.
pub open spec fn detached(process: Process, kind: ProcessKind, root: u32) -> Process {
    if held_by(process, kind, root) {
        Process { pipewire_ancestor: None, ..process }
    } else {
        process
    }
}

/// A list of processes with one added, if it is not in it.
pub open spec fn with_process(list: Seq<u32>, pid: u32) -> Seq<u32> {
    if list.contains(pid) {
        list
    } else {
        list.push(pid)
    }
}

impl<M: TextMatcher> Service<M> {
    /// The processes that take part in streams in the given way.
    pub open spec fn streaming(&self, kind: ProcessKind) -> Seq<u32> {
        match kind {
            ProcessKind::Capture => self.pipewire_capture_processes@,
            ProcessKind::Playback => self.pipewire_playback_processes@,
        }
    }

    /// Whether a later state differs at most in the processes and in those that take part in streams in the given
    /// way.
    pub open spec fn streams_changed(&self, after: Service<M>, kind: ProcessKind) -> bool {
        &&& after == (Service {
            pipewire_capture_processes: after.pipewire_capture_processes,
            pipewire_playback_processes: after.pipewire_playback_processes,
            process_map: after.process_map,
            ..*self
        })
        &&& after.process_map.stale@ == self.process_map.stale@
        &&& kind == ProcessKind::Capture ==> after.streaming(ProcessKind::Playback) == self.streaming(
            ProcessKind::Playback,
        )
        &&& kind == ProcessKind::Playback ==> after.streaming(ProcessKind::Capture) == self.streaming(
            ProcessKind::Capture,
        )
    }

    /// Whether the profile of no other process is looked at when a process begins to take part in streams: it is
    /// new among them and may not be given a priority.
    pub open spec fn settled_elsewhere(&self, kind: ProcessKind, root: u32) -> bool {
        &&& !self.streaming(kind).contains(root)
        &&& process::lookup(self.process_map.processes@, root) matches Some(entry)
            && !(entry.assigned_priority is Assignable)
    }

    /// Whether a later state is this one after a process has begun to take part in streams, and the effects are those
    /// of that.
    pub open spec fn begun(&self, after: Service<M>, kind: ProcessKind, process: u32, effects: Effects) -> bool {
        let list = self.process_map.processes@;
        &&& effects.reconcile
        &&& self.streams_changed(after, kind)
        &&& after.streaming(kind) == with_process(self.streaming(kind), process)
        &&& self.settled_elsewhere(kind, process) ==> after.process_map.processes@ == list
            && effects.settings@.len() == 0
        &&& !self.settled_elsewhere(kind, process) ==> {
            &&& after.process_map.processes@ == list.map_values(|p: Process| attached(list, p, kind, process))
            &&& service::setting_views(effects.settings@) == service::settings_for(
                list,
                |p: Process|
                    if touched(list, p, kind, process) {
                        after.wanted(attached(list, p, kind, process))
                    } else {
                        None
                    },
            )
        }
    }

    /// Whether a later state is this one after a process has ceased to take part in streams, and the effects are those
    /// of that.
    pub open spec fn ended(&self, after: Service<M>, kind: ProcessKind, process: u32, effects: Effects) -> bool {
        let list = self.process_map.processes@;
        &&& !self.streaming(kind).contains(process) ==> after == *self && effects.settings@.len() == 0
            && !effects.reconcile
        &&& self.streaming(kind).contains(process) ==> {
            &&& effects.reconcile
            &&& self.streams_changed(after, kind)
            &&& after.streaming(kind) == self.streaming(kind).remove_value(process)
            &&& after.process_map.processes@ == list.map_values(|p: Process| detached(p, kind, process))
            &&& service::setting_views(effects.settings@) == service::settings_for(
                list,
                |p: Process|
                    if held_by(p, kind, process) && p.assigned_priority is Assignable {
                        after.wanted(detached(p, kind, process))
                    } else {
                        None
                    },
            )
        }
    }

    /// Assigns a process to the pipewire profile if it does not already have an assignment. Its children are to be
    /// assigned first.
    pub fn set_pipewire_process(&mut self, kind: ProcessKind, process: u32) -> (r: Effects)
        requires
            old(self).wf(),
        ensures
            final(self).wf(),
            old(self).begun(*final(self), kind, process, r),
    {
        let ghost list = self.process_map.processes@;
        let managed: bool = match kind {
            ProcessKind::Capture => process::contains_pid(&self.pipewire_capture_processes, process),
            ProcessKind::Playback => process::contains_pid(&self.pipewire_playback_processes, process),
        };
        let mut assignable = true;
        if !managed {
            if let Some(entry) = self.process_map.get_pid(process) {
                assignable = match entry.assigned_priority.as_ref() {
                    Priority::Assignable => true,
                    _ => false,
                };
            }
            match kind {
                ProcessKind::Capture => self.pipewire_capture_processes.push(process),
                ProcessKind::Playback => self.pipewire_playback_processes.push(process),
            }
        }
        if !assignable {
            return Effects { settings: Vec::new(), reconcile: true };
        }
        let ghost started = *self;
        let ghost attach = |p: Process| attached(list, p, kind, process);
        let mut settings: Vec<PrioritySetting> = Vec::new();
        let mut i: usize = 0;
        let ghost profile = |p: Process|
            if touched(list, p, kind, process) {
                started.wanted(attached(list, p, kind, process))
            } else {
                None
            };
        proof {
            assert(service::setting_views(settings@) =~= service::settings_for(list.take(0), profile));
        }
        while i < self.process_map.processes.len()
            invariant
                started.wf(),
                self.wf(),
                list == started.process_map.processes@,
                *self == (Service { process_map: self.process_map, ..started }),
                self.process_map.stale@ == started.process_map.stale@,
                self.process_map.processes@.len() == list.len(),
                i <= list.len(),
                forall|j: int|
                    0 <= j < i ==> (#[trigger] self.process_map.processes@[j]) == attached(
                        list,
                        list[j],
                        kind,
                        process,
                    ),
                forall|j: int| i <= j < list.len() ==> (#[trigger] self.process_map.processes@[j]) == list[j],
                profile == (|p: Process|
                    if touched(list, p, kind, process) {
                        started.wanted(attached(list, p, kind, process))
                    } else {
                        None
                    }),
                service::setting_views(settings@) == service::settings_for(list.take(i as int), profile),
            decreases list.len() - i,
        {
            let ghost now = list[i as int];
            let ghost current = self.process_map.processes@;
            let ghost part = list.take(i + 1);
            let ghost done = service::setting_views(settings@);
            proof {
                assert(part.drop_last() =~= list.take(i as int));
                assert(part.last() == now);
                assert(current[i as int] == now);
                assert forall|j: int| 0 <= j < list.len() implies process::alike(
                    #[trigger] list[j],
                    #[trigger] current[j],
                ) by {}
                assert(process::lists_alike(list, current));
                service::lemma_descended_alike(list, current, now, now, process);
                lemma_related_alike(list, current, now, process);
            }
            let pid: u32 = self.process_map.processes[i].id;
            let descended: bool = self.process_descended_from(&self.process_map.processes[i], process);
            let ascended: bool = if kind == ProcessKind::Capture {
                match self.process_map.get_pid(process) {
                    Some(root) => self.process_descended_from(root, pid),
                    None => false,
                }
            } else {
                false
            };
            if let Priority::Assignable = self.process_map.processes[i].assigned_priority.as_ref() {
                let mut changed = pid == process;
                if pid != process && ((descended && kind == ProcessKind::Capture) || ascended) {
                    self.process_map.processes[i].pipewire_ancestor = Some(process);
                    changed = true;
                }
                proof {
                    assert(changed == touched(list, now, kind, process));
                    assert(self.process_map.processes@[i as int] == attached(list, now, kind, process));
                    let updated = self.process_map.processes@;
                    assert forall|j: int| 0 <= j < list.len() implies process::alike(
                        #[trigger] list[j],
                        #[trigger] updated[j],
                    ) by {
                        if j != i {
                            assert(updated[j] == current[j]);
                        }
                    }
                    process::lemma_wf_alike(list, updated);
                    self.lemma_wanted_alike(started, attached(list, now, kind, process));
                }
                if changed {
                    if let Some(setting) = self.apply_process_priority(&self.process_map.processes[i]) {
                        settings.push(setting);
                        proof {
                            assert(service::setting_views(settings@) =~= done.push(setting@));
                        }
                    }
                }
            }
            i += 1;
        }
        proof {
            assert(list.take(i as int) =~= list);
            assert(self.process_map.processes@ =~= list.map_values(attach));
            let last = *self;
            let stated = |p: Process|
                if touched(list, p, kind, process) {
                    last.wanted(attached(list, p, kind, process))
                } else {
                    None
                };
            assert forall|j: int| 0 <= j < list.len() implies process::alike(
                #[trigger] list[j],
                #[trigger] last.process_map.processes@[j],
            ) by {}
            assert forall|p: Process| #[trigger] profile(p) == stated(p) by {
                last.lemma_wanted_alike(started, attached(list, p, kind, process));
            }
            assert(profile =~= stated);
        }
        Effects { settings, reconcile: true }
    }

    /// Removes a process from the pipewire profile.
    ///
    /// Assigns the background or foreground process priority, if that feature is enabled.
    pub fn remove_pipewire_process(&mut self, kind: ProcessKind, process_id: u32) -> (r: Effects)
        requires
            old(self).wf(),
        ensures
            final(self).wf(),
            old(self).ended(*final(self), kind, process_id, r),
    {
        let ghost list = self.process_map.processes@;
        let managed: bool = match kind {
            ProcessKind::Capture => process::remove_pid(&mut self.pipewire_capture_processes, process_id),
            ProcessKind::Playback => process::remove_pid(&mut self.pipewire_playback_processes, process_id),
        };
        if !managed {
            return Effects { settings: Vec::new(), reconcile: false };
        }
        let ghost started = *self;
        let ghost detach = |p: Process| detached(p, kind, process_id);
        let mut settings: Vec<PrioritySetting> = Vec::new();
        let mut i: usize = 0;
        let ghost profile = |p: Process|
            if held_by(p, kind, process_id) && p.assigned_priority is Assignable {
                started.wanted(detached(p, kind, process_id))
            } else {
                None
            };
        proof {
            assert(service::setting_views(settings@) =~= service::settings_for(list.take(0), profile));
        }
        while i < self.process_map.processes.len()
            invariant
                started.wf(),
                self.wf(),
                list == started.process_map.processes@,
                *self == (Service { process_map: self.process_map, ..started }),
                self.process_map.stale@ == started.process_map.stale@,
                self.process_map.processes@.len() == list.len(),
                i <= list.len(),
                forall|j: int|
                    0 <= j < i ==> (#[trigger] self.process_map.processes@[j]) == detached(list[j], kind, process_id),
                forall|j: int| i <= j < list.len() ==> (#[trigger] self.process_map.processes@[j]) == list[j],
                profile == (|p: Process|
                    if held_by(p, kind, process_id) && p.assigned_priority is Assignable {
                        started.wanted(detached(p, kind, process_id))
                    } else {
                        None
                    }),
                service::setting_views(settings@) == service::settings_for(list.take(i as int), profile),
            decreases list.len() - i,
        {
            let ghost now = list[i as int];
            let ghost current = self.process_map.processes@;
            let ghost part = list.take(i + 1);
            let ghost done = service::setting_views(settings@);
            proof {
                assert(part.drop_last() =~= list.take(i as int));
                assert(part.last() == now);
                assert(current[i as int] == now);
            }
            let held: bool = self.process_map.processes[i].id == process_id || (kind == ProcessKind::Capture
                && match self.process_map.processes[i].pipewire_ancestor {
                Some(ancestor) => ancestor == process_id,
                None => false,
            });
            if held {
                self.process_map.processes[i].pipewire_ancestor = None;
                proof {
                    let updated = self.process_map.processes@;
                    assert forall|j: int| 0 <= j < list.len() implies process::alike(
                        #[trigger] list[j],
                        #[trigger] updated[j],
                    ) by {
                        if j != i {
                            assert(updated[j] == current[j]);
                        }
                    }
                    process::lemma_wf_alike(list, updated);
                    self.lemma_wanted_alike(started, detached(now, kind, process_id));
                }
                if let Priority::Assignable = self.process_map.processes[i].assigned_priority.as_ref() {
                    if let Some(setting) = self.apply_process_priority(&self.process_map.processes[i]) {
                        settings.push(setting);
                        proof {
                            assert(service::setting_views(settings@) =~= done.push(setting@));
                        }
                    }
                }
            }
            i += 1;
        }
        proof {
            assert(list.take(i as int) =~= list);
            assert(self.process_map.processes@ =~= list.map_values(detach));
            let last = *self;
            let stated = |p: Process|
                if held_by(p, kind, process_id) && p.assigned_priority is Assignable {
                    last.wanted(detached(p, kind, process_id))
                } else {
                    None
                };
            assert forall|j: int| 0 <= j < list.len() implies process::alike(
                #[trigger] list[j],
                #[trigger] last.process_map.processes@[j],
            ) by {}
            assert forall|p: Process| #[trigger] profile(p) == stated(p) by {
                last.lemma_wanted_alike(started, detached(p, kind, process_id));
            }
            assert(profile =~= stated);
        }
        Effects { settings, reconcile: true }
    }
}

/// What is decided on processes does not change how they are related.
proof fn lemma_related_alike(a: Seq<Process>, b: Seq<Process>, process: Process, root: u32)
    requires
        process::lists_alike(a, b),
        process::distinct(a),
    ensures
        related(a, process, root) == related(b, process, root),
{
    service::lemma_descended_alike(a, b, process, process, root);
    process::lemma_wf_alike(a, b);
    if process::known(a, root) {
        let i = choose|i: int| process::is_at(a, root, i);
        process::lemma_position(a, i);
        assert(process::alike(a[i], b[i]));
        process::lemma_position(b, i);
        service::lemma_descended_alike(a, b, a[i], b[i], process.id);
    }
}

/// A process that begins to take part in streams and ceases to leaves no trace, if it took no part before, and no
/// process took part by another.
pub proof fn lemma_begin_and_end(streaming: Seq<u32>, list: Seq<Process>, process: Process, kind: ProcessKind, root: u32)
    requires
        !streaming.contains(root),
        process.pipewire_ancestor is None,
    ensures
        with_process(streaming, root).contains(root),
        with_process(streaming, root).remove_value(root) == streaming,
        detached(attached(list, process, kind, root), kind, root) == process,
{
    let more = streaming.push(root);
    more.index_of_first_ensures(root);
    assert(more[streaming.len() as int] == root);
    assert(more.contains(root));
    let first = more.index_of_first(root)->0;
    assert(first == streaming.len()) by {
        if first < streaming.len() {
            assert(streaming[first] == root);
        }
    }
    assert(more.remove_value(root) =~= streaming);
}

/// No process is listed twice among those that take part in streams.
pub proof fn lemma_listed_once(streaming: Seq<u32>, pid: u32)
    requires
        streaming.no_duplicates(),
    ensures
        with_process(streaming, pid).no_duplicates(),
        streaming.remove_value(pid).no_duplicates(),
        !streaming.remove_value(pid).contains(pid),
{
    streaming.index_of_first_ensures(pid);
    let more = with_process(streaming, pid);
    assert forall|i: int, j: int| 0 <= i < j < more.len() implies more[i] != more[j] by {
        if j == streaming.len() {
            assert(streaming[i] == more[i]);
        }
    }
    if streaming.contains(pid) {
        let at = streaming.index_of_first(pid)->0;
        let less = streaming.remove(at);
        assert forall|i: int, j: int| 0 <= i < j < less.len() implies less[i] != less[j] by {
            let a = if i < at {
                i
            } else {
                i + 1
            };
            let b = if j < at {
                j
            } else {
                j + 1
            };
            assert(less[i] == streaming[a] && less[j] == streaming[b]);
        }
        if less.contains(pid) {
            let i = choose|i: int| 0 <= i < less.len() && less[i] == pid;
            let a = if i < at {
                i
            } else {
                i + 1
            };
            assert(less[i] == streaming[a]);
            assert(streaming[a] == streaming[at]);
        }
    }
}

/// A process that belongs to one that begins to capture captures by it.
pub proof fn lemma_related_capture(
    list: Seq<Process>,
    process: Process,
    capture: Seq<u32>,
    playback: Seq<u32>,
    root: u32,
)
    requires
        process.assigned_priority is Assignable,
        process.id != root,
        related(list, process, root),
    ensures
        service::pipewire_kind(
            attached(list, process, ProcessKind::Capture, root),
            with_process(capture, root),
            playback,
        ) == Some(ProcessKind::Capture),
{
    if !capture.contains(root) {
        assert(capture.push(root)[capture.len() as int] == root);
    }
}

} // verus!

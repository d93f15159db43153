//! The daemon's state and the decisions that it takes on it.

use vstd::prelude::*;

use crate::assignment;
use crate::cgroup;
use crate::cgroup_weights::{AppliedWeight, State};
use crate::config::Config;
use crate::eevdf;
use crate::eevdf::{FileValue, SchedPaths};
use crate::pipewire::ProcessKind;
use crate::process;
use crate::process::{Process, ProcessMap};
use crate::scheduler;
use crate::scheduler::{Profile, ProcessScheduler, TextMatcher};

verus! {

/// The priority of a process, as lent by its owner.
#[derive(Copy, Clone, Debug)]
pub enum Priority<'a> {
    /// The process may be given a priority.
    Assignable,
    /// The configuration assigns this profile.
    Config(&'a Profile),
    /// The process is left alone.
    Exception,
    /// Nothing was decided on the process.
    NotAssignable,
}

/// The priority of a process.
#[derive(Debug)]
pub enum OwnedPriority {
    /// The process may be given a priority.
    Assignable,
    /// The configuration assigns this profile.
    Config(Profile),
    /// The process is left alone.
    Exception,
    /// Nothing was decided on the process.
    NotAssignable,
}

/// The priority, lent.
pub open spec fn lent<'a>(priority: OwnedPriority) -> Priority<'a> {
    match priority {
        OwnedPriority::Assignable => Priority::Assignable,
        OwnedPriority::Config(profile) => Priority::Config(&profile),
        OwnedPriority::Exception => Priority::Exception,
        OwnedPriority::NotAssignable => Priority::NotAssignable,
    }
}

impl OwnedPriority {
    /// The priority, lent.
    pub fn as_ref(&self) -> (r: Priority<'_>)
        ensures
            r == lent(*self),
    {
        match self {
            OwnedPriority::Assignable => Priority::Assignable,
            OwnedPriority::Config(profile) => Priority::Config(profile),
            OwnedPriority::Exception => Priority::Exception,
            OwnedPriority::NotAssignable => Priority::NotAssignable,
        }
    }
}

/// What is in the foreground.
#[derive(Debug)]
pub enum ForegroundTarget {
    /// A process and those that descend from it.
    Process(u32),
    /// A cgroup and those below it.
    Cgroup(String),
}

/// A profile that a process is to be given.
#[derive(Debug)]
pub struct PrioritySetting {
    /// Process ID.
    pub pid: u32,
    /// The profile.
    pub profile: Profile,
}

impl View for PrioritySetting {
    type V = (u32, scheduler::ProfileView);

    open spec fn view(&self) -> (u32, scheduler::ProfileView) {
        (self.pid, self.profile@)
    }
}

/// What is to be done after a change of the daemon's state.
pub struct Effects {
    /// The profiles that processes are to be given, in order.
    pub settings: Vec<PrioritySetting>,
    /// Whether the weights of cgroups are to be reconciled.
    pub reconcile: bool,
}

/// The settings as process IDs and profiles.
pub open spec fn setting_views(settings: Seq<PrioritySetting>) -> Seq<(u32, scheduler::ProfileView)> {
    settings.map_values(|setting: PrioritySetting| setting@)
}

/// Whether a process descends from another, as far as processes are known.
pub open spec fn descended_from(list: Seq<Process>, process: Process, ancestor: u32) -> bool {
    ||| process.parent_id == ancestor
    ||| process::has_ancestor(list, process, |a: Process| a.id == ancestor || a.parent_id == ancestor)
}

/// The part that a process takes in PipeWire streams, itself or by the process that it belongs to. Capture comes
/// before playback.
pub open spec fn pipewire_kind(process: Process, capture: Seq<u32>, playback: Seq<u32>) -> Option<ProcessKind> {
    let root = match process.pipewire_ancestor {
        Some(ancestor) => ancestor,
        None => process.id,
    };
    if capture.contains(root) {
        Some(ProcessKind::Capture)
    } else if playback.contains(root) {
        Some(ProcessKind::Playback)
    } else {
        None
    }
}

/// Whether a process belongs to what is in the foreground.
pub open spec fn belongs_to(list: Seq<Process>, process: Process, target: ForegroundTarget) -> bool {
    match target {
        ForegroundTarget::Process(pid) => process.id == pid || descended_from(list, process, pid),
        ForegroundTarget::Cgroup(path) => cgroup::within(process.cgroup@, path@),
    }
}

/// Whether a process is in the foreground. `listed` are processes that were found to belong to the process in
/// the foreground before.
pub open spec fn in_foreground(
    list: Seq<Process>,
    process: Process,
    foreground: Option<ForegroundTarget>,
    listed: Seq<u32>,
) -> bool {
    foreground matches Some(target) && (belongs_to(list, process, target) || (target is Process && listed.contains(
        process.id,
    )))
}

/// The profile that an assignable process is given.
pub open spec fn assignable_profile<M>(
    scheduler: ProcessScheduler<M>,
    kind: Option<ProcessKind>,
    foreground: bool,
) -> scheduler::ProfileView {
    let playback = if kind == Some(ProcessKind::Playback) {
        scheduler::profile_view(scheduler.pipewire_playback)
    } else {
        None
    };
    if kind == Some(ProcessKind::Capture) && scheduler.pipewire is Some {
        scheduler.pipewire->0@
    } else {
        match scheduler.foreground {
            Some(assignments) => if foreground {
                assignments.foreground@
            } else {
                match playback {
                    Some(profile) => profile,
                    None => assignments.background@,
                }
            },
            None => match playback {
                Some(profile) => profile,
                None => scheduler::plain_profile("default"@),
            },
        }
    }
}

/// The profile that a process is given. Without one it is left as it is.
pub open spec fn wanted_profile<M>(
    scheduler: ProcessScheduler<M>,
    process: Process,
    kind: Option<ProcessKind>,
    foreground: bool,
) -> Option<scheduler::ProfileView> {
    match process.assigned_priority {
        OwnedPriority::Assignable => Some(assignable_profile(scheduler, kind, foreground)),
        OwnedPriority::Config(profile) => Some(profile@),
        OwnedPriority::Exception => None,
        OwnedPriority::NotAssignable => None,
    }
}

/// The settings for those processes that are to be given a profile, in order.
pub open spec fn settings_for(
    list: Seq<Process>,
    profile: spec_fn(Process) -> Option<scheduler::ProfileView>,
) -> Seq<(u32, scheduler::ProfileView)>
    decreases list.len(),
{
    if list.len() == 0 {
        Seq::empty()
    } else {
        let before = settings_for(list.drop_last(), profile);
        match profile(list.last()) {
            Some(wanted) => before.push((list.last().id, wanted)),
            None => before,
        }
    }
}

/// The IDs of those processes that are of a kind, in order.
pub open spec fn ids_of(list: Seq<Process>, kind: spec_fn(Process) -> bool) -> Seq<u32>
    decreases list.len(),
{
    if list.len() == 0 {
        Seq::empty()
    } else {
        let before = ids_of(list.drop_last(), kind);
        if kind(list.last()) {
            before.push(list.last().id)
        } else {
            before
        }
    }
}

/// What is decided on processes does not change from which a process descends.
pub proof fn lemma_descended_alike(a: Seq<Process>, b: Seq<Process>, p: Process, q: Process, ancestor: u32)
    requires
        process::lists_alike(a, b),
        process::distinct(a),
        process::alike(p, q),
    ensures
        descended_from(a, p, ancestor) == descended_from(b, q, ancestor),
{
    process::lemma_has_ancestor_alike(a, b, p, q, |x: Process| x.id == ancestor || x.parent_id == ancestor);
}

/// The daemon's state.
pub struct Service<M> {
    /// What the daemon was configured with.
    pub config: Config<M>,
    /// The weights that cgroups were given.
    pub cgroup_weights: State,
    /// The files by which the kernel's scheduler is tuned, if it can be.
    pub eevdf_paths: Option<SchedPaths>,
    /// Processes that were found to be in the foreground.
    pub foreground_processes: Vec<u32>,
    /// What is in the foreground.
    pub foreground: Option<ForegroundTarget>,
    /// How often dead processes were not looked for.
    pub gc_counter: usize,
    /// Processes that capture audio or video.
    pub pipewire_capture_processes: Vec<u32>,
    /// Processes that play audio or video.
    pub pipewire_playback_processes: Vec<u32>,
    /// The processes that are known.
    pub process_map: ProcessMap,
}

impl<M: TextMatcher> Service<M> {
    /// The parts are in order.
    pub open spec fn wf(&self) -> bool {
        &&& self.config.wf()
        &&& self.cgroup_weights.wf()
        &&& self.process_map.wf()
    }

    /// The profile that a process is given in the present state.
    pub open spec fn wanted(&self, process: Process) -> Option<scheduler::ProfileView> {
        wanted_profile(
            self.config.process_scheduler,
            process,
            pipewire_kind(process, self.pipewire_capture_processes@, self.pipewire_playback_processes@),
            in_foreground(
                self.process_map.processes@,
                process,
                self.foreground,
                self.foreground_processes@,
            ),
        )
    }

    /// The profile of a process does not depend on what was decided on others.
    pub proof fn lemma_wanted_alike(&self, before: Service<M>, process: Process)
        requires
            before.wf(),
            process::lists_alike(before.process_map.processes@, self.process_map.processes@),
            *self == (Service { process_map: self.process_map, ..before }),
        ensures
            self.wanted(process) == before.wanted(process),
    {
        if let Some(ForegroundTarget::Process(pid)) = self.foreground {
            lemma_descended_alike(
                before.process_map.processes@,
                self.process_map.processes@,
                process,
                process,
                pid,
            );
        }
    }

    /// A daemon that knows of no process yet.
    pub fn new(eevdf_paths: Option<SchedPaths>) -> (r: Self)
        ensures
            r.wf(),
            r.config.is_unset(),
            r.cgroup_weights.applied@ == Map::<Seq<char>, AppliedWeight>::empty(),
            r.eevdf_paths == eevdf_paths,
            r.foreground_processes@.len() == 0,
            r.foreground is None,
            r.gc_counter == 0,
            r.pipewire_capture_processes@.len() == 0,
            r.pipewire_playback_processes@.len() == 0,
            r.process_map.processes@.len() == 0,
    {
        Service {
            config: Config::new(),
            cgroup_weights: State::new(),
            eevdf_paths,
            foreground_processes: Vec::new(),
            foreground: None,
            gc_counter: 0,
            pipewire_capture_processes: Vec::new(),
            pipewire_playback_processes: Vec::new(),
            process_map: ProcessMap::new(),
        }
    }

    /// Whether a process is excepted from process priority changes.
    pub fn process_is_exception(&self, process: &Process) -> (r: bool)
        requires
            self.wf(),
        ensures
            r == assignment::is_exception(
                self.process_map.processes@,
                *process,
                self.config.process_scheduler.assignments,
            ),
    {
        assignment::meets_exceptions(&self.process_map, process, &self.config.process_scheduler.assignments)
    }

    /// Whether `process` has descended from `ancestor`.
    pub fn process_descended_from(&self, process: &Process, ancestor: u32) -> (r: bool)
        requires
            self.wf(),
        ensures
            r == descended_from(self.process_map.processes@, *process, ancestor),
    {
        if process.parent_id == ancestor {
            return true;
        }
        let ghost list = self.process_map.processes@;
        let ghost kind = |a: Process| a.id == ancestor || a.parent_id == ancestor;
        let up: Vec<usize> = self.process_map.ancestors(process);
        let mut found = false;
        let mut i: usize = 0;
        while i < up.len()
            invariant
                i <= up@.len(),
                list == self.process_map.processes@,
                process::walks(list, *process, up@),
                kind == (|a: Process| a.id == ancestor || a.parent_id == ancestor),
                found <==> exists|j: int| 0 <= j < i && kind(list[(#[trigger] up@[j]) as int]),
            decreases up@.len() - i,
        {
            let current: &Process = &self.process_map.processes[up[i]];
            if current.id == ancestor || current.parent_id == ancestor {
                found = true;
                proof {
                    assert(kind(list[up@[i as int] as int]));
                }
            }
            i += 1;
        }
        proof {
            process::lemma_has_ancestor(list, *process, up@, kind);
        }
        found
    }

    /// The part that a process takes in PipeWire streams.
    pub fn process_is_pipewire_kind(&self, process: &Process) -> (r: Option<ProcessKind>)
        ensures
            r == pipewire_kind(*process, self.pipewire_capture_processes@, self.pipewire_playback_processes@),
    {
        let root: u32 = match process.pipewire_ancestor {
            Some(ancestor) => ancestor,
            None => process.id,
        };
        if process::contains_pid(&self.pipewire_capture_processes, root) {
            Some(ProcessKind::Capture)
        } else if process::contains_pid(&self.pipewire_playback_processes, root) {
            Some(ProcessKind::Playback)
        } else {
            None
        }
    }

    /// Whether a process is in the foreground.
    pub fn process_is_foreground(&self, process: &Process) -> (r: bool)
        requires
            self.wf(),
        ensures
            r == in_foreground(
                self.process_map.processes@,
                *process,
                self.foreground,
                self.foreground_processes@,
            ),
    {
        match &self.foreground {
            Some(ForegroundTarget::Process(pid)) => process.id == *pid || process::contains_pid(
                &self.foreground_processes,
                process.id,
            ) || self.process_descended_from(process, *pid),
            Some(ForegroundTarget::Cgroup(path)) => cgroup::process_cgroup_matches(
                process.cgroup.as_str(),
                path.as_str(),
            ),
            None => false,
        }
    }

    /// The profile that a process is to be given, if it is to be given one.
    pub fn apply_process_priority(&self, process: &Process) -> (r: Option<PrioritySetting>)
        requires
            self.wf(),
        ensures
            (match r {
                Some(setting) => Some(setting@),
                None => None,
            }) == (match self.wanted(*process) {
                Some(profile) => Some((process.id, profile)),
                None => None,
            }),
    {
        let scheduler: &ProcessScheduler<M> = &self.config.process_scheduler;
        let profile: Profile = match process.assigned_priority.as_ref() {
            Priority::Assignable => {
                let kind: Option<ProcessKind> = self.process_is_pipewire_kind(process);
                let capture: Option<&Profile> = match (kind, &scheduler.pipewire) {
                    (Some(ProcessKind::Capture), Some(profile)) => Some(profile),
                    _ => None,
                };
                let playback: Option<&Profile> = match (kind, &scheduler.pipewire_playback) {
                    (Some(ProcessKind::Playback), Some(profile)) => Some(profile),
                    _ => None,
                };
                match (capture, &scheduler.foreground, playback) {
                    (Some(profile), _, _) => profile.clone(),
                    (None, Some(assignments), _) if self.process_is_foreground(process) => {
                        assignments.foreground.clone()
                    },
                    (None, _, Some(profile)) => profile.clone(),
                    (None, Some(assignments), None) => assignments.background.clone(),
                    (None, None, None) => Profile::new("default"),
                }
            },
            Priority::Config(profile) => profile.clone(),
            _ => return None,
        };
        Some(PrioritySetting { pid: process.id, profile })
    }

    /// How the service changes when the priority of a process is decided on.
    pub open spec fn priority_assigned(&self, after: Service<M>, pid: u32) -> bool {
        &&& after == (Service { process_map: after.process_map, ..*self })
        &&& after.process_map.stale@ == self.process_map.stale@
        &&& after.process_map.processes@ == self.process_map.processes@.map_values(
            |p: Process|
                if p.id == pid {
                    assignment::assigned(
                        self.process_map.processes@,
                        p,
                        self.config.process_scheduler.assignments,
                    )
                } else {
                    p
                },
        )
    }

    /// Decides on the priority of a process by the configuration, unless one was decided on before.
    pub fn assign_process_priority(&mut self, pid: u32)
        requires
            old(self).wf(),
        ensures
            final(self).wf(),
            old(self).priority_assigned(*final(self), pid),
    {
        let ghost list = self.process_map.processes@;
        match self.process_map.position(pid) {
            Some(at) => {
                self.assign_at(at);
                proof {
                    let assignments = self.config.process_scheduler.assignments;
                    let after = list.map_values(
                        |p: Process|
                            if p.id == pid {
                                assignment::assigned(list, p, assignments)
                            } else {
                                p
                            },
                    );
                    assert forall|i: int| 0 <= i < list.len() implies self.process_map.processes@[i] == #[trigger] after[i] by {
                        if i < at {
                            assert(list[i].id != list[at as int].id);
                        } else if at < i {
                            assert(list[at as int].id != list[i].id);
                        }
                    }
                    assert(self.process_map.processes@ =~= after);
                }
            },
            None => {
                proof {
                    let assignments = self.config.process_scheduler.assignments;
                    let after = list.map_values(
                        |p: Process|
                            if p.id == pid {
                                assignment::assigned(list, p, assignments)
                            } else {
                                p
                            },
                    );
                    assert forall|i: int| 0 <= i < list.len() implies list[i] == #[trigger] after[i] by {
                        assert(!process::is_at(list, pid, i));
                    }
                    assert(list =~= after);
                }
            },
        }
    }

    /// Decides on the priority of the process at a position.
    pub(crate) fn assign_at(&mut self, at: usize)
        requires
            old(self).wf(),
            at < old(self).process_map.processes@.len(),
        ensures
            final(self).wf(),
            *final(self) == (Service { process_map: final(self).process_map, ..*old(self) }),
            final(self).process_map.stale@ == old(self).process_map.stale@,
            final(self).process_map.processes@ == old(self).process_map.processes@.update(
                at as int,
                assignment::assigned(
                    old(self).process_map.processes@,
                    old(self).process_map.processes@[at as int],
                    old(self).config.process_scheduler.assignments,
                ),
            ),
    {
        let undecided: bool = match self.process_map.processes[at].assigned_priority.as_ref() {
            Priority::NotAssignable => true,
            _ => false,
        };
        if !undecided {
            proof {
                let list = self.process_map.processes@;
                assert(list =~= list.update(at as int, list[at as int]));
            }
            return;
        }
        let ghost list = self.process_map.processes@;
        let priority: OwnedPriority = assignment::priority_of(
            &self.process_map,
            &self.process_map.processes[at],
            &self.config.process_scheduler.assignments,
        );
        self.process_map.processes[at].assigned_priority = priority;
        proof {
            process::lemma_wf_alike(list, self.process_map.processes@);
        }
    }

    /// What was decided on a process of an ID, by the table. On one that is not known nothing was.
    pub open spec fn shown_priority<'a>(&self, pid: u32) -> Priority<'a> {
        match process::lookup(self.process_map.processes@, pid) {
            Some(process) => lent(process.assigned_priority),
            None => Priority::NotAssignable,
        }
    }

    /// Gets the config-assigned priority of a process.
    pub fn process_assignment(&self, pid: u32) -> (r: Priority<'_>)
        requires
            self.wf(),
        ensures
            r == self.shown_priority(pid),
    {
        match self.process_map.get_pid(pid) {
            Some(process) => process.assigned_priority.as_ref(),
            None => Priority::NotAssignable,
        }
    }

    /// How the service changes with a configuration that was read anew, and what comes of it.
    pub open spec fn reloaded(&self, after: Service<M>, config: Config<M>, effects: Effects) -> bool {
        &&& after == (Service { config, ..*self })
        &&& effects.settings@.len() == 0
        &&& effects.reconcile
    }

    /// Takes in a configuration that was read anew.
    pub fn reload_configuration(&mut self, config: Config<M>) -> (r: Effects)
        requires
            old(self).wf(),
            config.wf(),
        ensures
            final(self).wf(),
            old(self).reloaded(*final(self), config, r),
    {
        self.config = config;
        Effects { settings: Vec::new(), reconcile: true }
    }

    /// The configured EEVDF profile of a name.
    pub fn eevdf_config(&self, name: &str) -> (r: Option<&eevdf::Profile>)
        requires
            self.wf(),
        ensures
            r is Some <==> self.config.eevdf_profiles.profiles@.contains_key(name@),
            r matches Some(profile) ==> *profile == self.config.eevdf_profiles.profiles@[name@],
    {
        self.config.eevdf_profiles.profiles.get(name)
    }

    /// The EEVDF profile of a name, or another where none is configured.
    pub open spec fn eevdf_profile_or(&self, name: Seq<char>, other: eevdf::Profile) -> eevdf::Profile {
        if self.config.eevdf_profiles.profiles@.contains_key(name) {
            self.config.eevdf_profiles.profiles@[name]
        } else {
            other
        }
    }

    /// The EEVDF profile to use on battery.
    pub fn eevdf_default_config(&self) -> (r: eevdf::Profile)
        requires
            self.wf(),
        ensures
            r == self.eevdf_profile_or("default"@, eevdf::default_profile()),
    {
        match self.eevdf_config("default") {
            Some(profile) => *profile,
            None => eevdf::profile_default(),
        }
    }

    /// The EEVDF profile to use on mains power.
    pub fn eevdf_responsive_config(&self) -> (r: eevdf::Profile)
        requires
            self.wf(),
        ensures
            r == self.eevdf_profile_or("responsive"@, eevdf::responsive_profile()),
    {
        match self.eevdf_config("responsive") {
            Some(profile) => *profile,
            None => eevdf::profile_responsive(),
        }
    }

    /// Whether files apply an EEVDF profile where the kernel's scheduler can be tuned and is to be, and are none
    /// elsewhere.
    pub open spec fn tuned(&self, files: Seq<FileValue>, profile: eevdf::Profile) -> bool {
        match self.eevdf_paths {
            Some(paths) if self.config.eevdf_profiles.enable => eevdf::applies(files, paths, profile),
            _ => files.len() == 0,
        }
    }

    /// What is written to which file to apply an EEVDF profile: nothing where the kernel's scheduler cannot be tuned
    /// or is not to be.
    pub fn eevdf_apply(&self, config: &eevdf::Profile) -> (r: Vec<FileValue>)
        ensures
            self.tuned(r@, *config),
    {
        match &self.eevdf_paths {
            Some(paths) if self.config.eevdf_profiles.enable => eevdf::tweak(paths, config),
            _ => Vec::new(),
        }
    }

    /// The EEVDF profile by the source of power.
    pub open spec fn power_profile(&self, on_battery: bool) -> eevdf::Profile {
        if on_battery {
            self.eevdf_profile_or("default"@, eevdf::default_profile())
        } else {
            self.eevdf_profile_or("responsive"@, eevdf::responsive_profile())
        }
    }

    /// What is written to which file when the machine goes on battery or off it.
    pub fn eevdf_on_battery(&self, on_battery: bool) -> (r: Vec<FileValue>)
        requires
            self.wf(),
        ensures
            self.tuned(r@, self.power_profile(on_battery)),
    {
        let profile: eevdf::Profile = if on_battery {
            self.eevdf_default_config()
        } else {
            self.eevdf_responsive_config()
        };
        self.eevdf_apply(&profile)
    }
}

/// A process that is left alone, or on which nothing was decided, is given no profile. Every other is given one.
pub proof fn lemma_left_alone<M>(
    scheduler: ProcessScheduler<M>,
    process: Process,
    kind: Option<ProcessKind>,
    foreground: bool,
)
    ensures
        wanted_profile(scheduler, process, kind, foreground) is None <==> process.assigned_priority is Exception
            || process.assigned_priority is NotAssignable,
{
}

/// The profile that the configuration assigns stands, whatever is in the foreground or takes part in streams.
pub proof fn lemma_configured_stands<M>(
    scheduler: ProcessScheduler<M>,
    process: Process,
    kind: Option<ProcessKind>,
    foreground: bool,
)
    requires
        process.assigned_priority is Config,
    ensures
        wanted_profile(scheduler, process, kind, foreground) == Some(process.assigned_priority->Config_0@),
{
}

/// Capture comes before the foreground, and the foreground before playback.
pub proof fn lemma_profile_order<M>(scheduler: ProcessScheduler<M>, foreground: bool)
    ensures
        scheduler.pipewire is Some ==> assignable_profile(scheduler, Some(ProcessKind::Capture), foreground)
            == scheduler.pipewire->0@,
        scheduler.foreground is Some ==> assignable_profile(scheduler, Some(ProcessKind::Playback), true)
            == scheduler.foreground->0.foreground@,
        scheduler.pipewire_playback is Some ==> assignable_profile(scheduler, Some(ProcessKind::Playback), false)
            == scheduler.pipewire_playback->0@,
{
}

/// An assignable process that takes no part in streams is given the profile of the foreground or the background,
/// where these are set apart, else the default profile.
pub proof fn lemma_plain_profile<M>(scheduler: ProcessScheduler<M>, foreground: bool)
    ensures
        assignable_profile(scheduler, None, foreground) == (match scheduler.foreground {
            Some(assignments) => if foreground {
                assignments.foreground@
            } else {
                assignments.background@
            },
            None => scheduler::plain_profile("default"@),
        }),
{
}

} // verus!

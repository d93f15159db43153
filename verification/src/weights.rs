//! Which cgroups are weighted in the present state.

use vstd::prelude::*;

use crate::cgroup;
use crate::cgroup_weights;
use crate::cgroup_weights::WeightAction;
use crate::process;
use crate::process::Process;
use crate::scheduler::{CgroupWeight, CgroupWeights, TextMatcher};
use crate::service::{ForegroundTarget, Service};
use crate::text;
use crate::text_map::TextMap;

verus! {

/// The cgroup that was read for a process.
pub open spec fn reading_of(readings: Seq<(u32, String)>, pid: u32) -> Option<Seq<char>>
    decreases readings.len(),
{
    if readings.len() == 0 {
        None
    } else if readings[0].0 == pid {
        Some(readings[0].1@)
    } else {
        reading_of(readings.skip(1), pid)
    }
}

/// The cgroup of a process: the one that is known, else the one that was read.
pub open spec fn cgroup_of(list: Seq<Process>, readings: Seq<(u32, String)>, pid: u32) -> Option<Seq<char>> {
    match process::lookup(list, pid) {
        Some(entry) if entry.cgroup@.len() > 0 => Some(entry.cgroup@),
        _ => reading_of(readings, pid),
    }
}

/// Whether the application of one of the processes is in a cgroup.
pub open spec fn scope_among(
    list: Seq<Process>,
    readings: Seq<(u32, String)>,
    pids: Seq<u32>,
    scope: Seq<char>,
) -> bool {
    exists|i: int|
        0 <= i < pids.len() && (cgroup_of(list, readings, #[trigger] pids[i]) matches Some(path) && cgroup::app_scope(path)
            == scope)
}

/// The text that an optional string holds.
pub open spec fn optional_text(text: Option<String>) -> Option<Seq<char>> {
    match text {
        Some(text) => Some(text@),
        None => None,
    }
}

impl<M: TextMatcher> Service<M> {
    /// The cgroup that is in the foreground.
    pub open spec fn front_cgroup(&self, readings: Seq<(u32, String)>) -> Option<Seq<char>> {
        match self.foreground {
            Some(ForegroundTarget::Cgroup(path)) => Some(path@),
            Some(ForegroundTarget::Process(pid)) => cgroup_of(self.process_map.processes@, readings, pid),
            None => None,
        }
    }

    /// The weight that a cgroup is wanted to have. The foreground comes before capture, and capture before
    /// playback.
    pub open spec fn desired_weight(
        &self,
        readings: Seq<(u32, String)>,
        config: CgroupWeights,
        scope: Seq<char>,
    ) -> Option<CgroupWeight> {
        let list = self.process_map.processes@;
        if self.front_cgroup(readings) matches Some(path) && cgroup::app_scope(path) == scope {
            Some(config.foreground)
        } else if scope_among(list, readings, self.pipewire_capture_processes@, scope) {
            Some(config.pipewire_capture)
        } else if scope_among(list, readings, self.pipewire_playback_processes@, scope) {
            Some(config.pipewire_playback)
        } else {
            None
        }
    }

    /// The weights that cgroups are wanted to have.
    pub open spec fn desired_weights(
        &self,
        readings: Seq<(u32, String)>,
        config: CgroupWeights,
    ) -> Map<Seq<char>, CgroupWeight> {
        Map::new(
            |scope: Seq<char>| self.desired_weight(readings, config, scope) is Some,
            |scope: Seq<char>| self.desired_weight(readings, config, scope)->0,
        )
    }

    /// The cgroup of a process.
    pub fn cgroup_for_pid(&self, readings: &Vec<(u32, String)>, pid: u32) -> (r: Option<String>)
        requires
            self.wf(),
        ensures
            optional_text(r) == cgroup_of(self.process_map.processes@, readings@, pid),
    {
        if let Some(entry) = self.process_map.get_pid(pid) {
            if text::chars(entry.cgroup.as_str()).len() > 0 {
                return Some(entry.cgroup.clone());
            }
        }
        let mut i: usize = 0;
        proof {
            assert(readings@.skip(0) =~= readings@);
        }
        while i < readings.len()
            invariant
                i <= readings@.len(),
                reading_of(readings@, pid) == reading_of(readings@.skip(i as int), pid),
                cgroup_of(self.process_map.processes@, readings@, pid) == reading_of(readings@, pid),
            decreases readings@.len() - i,
        {
            if readings[i].0 == pid {
                return Some(readings[i].1.clone());
            }
            proof {
                assert(readings@.skip(i as int).skip(1) =~= readings@.skip(i + 1));
            }
            i += 1;
        }
        None
    }

    /// The cgroup that is in the foreground.
    pub fn foreground_cgroup(&self, readings: &Vec<(u32, String)>) -> (r: Option<String>)
        requires
            self.wf(),
        ensures
            optional_text(r) == self.front_cgroup(readings@),
    {
        match &self.foreground {
            Some(ForegroundTarget::Cgroup(path)) => Some(path.clone()),
            Some(ForegroundTarget::Process(pid)) => self.cgroup_for_pid(readings, *pid),
            None => None,
        }
    }

    /// Wants a weight for the applications of processes.
    fn insert_scopes(
        &self,
        desired: &mut TextMap<CgroupWeight>,
        readings: &Vec<(u32, String)>,
        pids: &Vec<u32>,
        weight: CgroupWeight,
    )
        requires
            self.wf(),
            old(desired).wf(),
        ensures
            final(desired).wf(),
            forall|scope: Seq<char>| #[trigger]
                final(desired)@.contains_key(scope) <==> old(desired)@.contains_key(scope) || scope_among(
                    self.process_map.processes@,
                    readings@,
                    pids@,
                    scope,
                ),
            forall|scope: Seq<char>| #[trigger]
                final(desired)@.contains_key(scope) ==> final(desired)@[scope] == (if scope_among(
                    self.process_map.processes@,
                    readings@,
                    pids@,
                    scope,
                ) {
                    weight
                } else {
                    old(desired)@[scope]
                }),
    {
        let ghost list = self.process_map.processes@;
        let ghost before = desired@;
        let mut i: usize = 0;
        while i < pids.len()
            invariant
                self.wf(),
                desired.wf(),
                list == self.process_map.processes@,
                i <= pids@.len(),
                forall|scope: Seq<char>| #[trigger]
                    desired@.contains_key(scope) <==> before.contains_key(scope) || scope_among(
                        list,
                        readings@,
                        pids@.take(i as int),
                        scope,
                    ),
                forall|scope: Seq<char>| #[trigger]
                    desired@.contains_key(scope) ==> desired@[scope] == (if scope_among(
                        list,
                        readings@,
                        pids@.take(i as int),
                        scope,
                    ) {
                        weight
                    } else {
                        before[scope]
                    }),
            decreases pids@.len() - i,
        {
            let ghost part = pids@.take(i as int);
            let ghost next = pids@.take(i + 1);
            let path: Option<String> = self.cgroup_for_pid(readings, pids[i]);
            proof {
                assert forall|scope: Seq<char>| #[trigger] scope_among(list, readings@, next, scope) == (scope_among(
                    list,
                    readings@,
                    part,
                    scope,
                ) || (optional_text(path) matches Some(p) && cgroup::app_scope(p) == scope)) by {
                    if scope_among(list, readings@, next, scope) {
                        let j = choose|j: int|
                            0 <= j < next.len() && (cgroup_of(list, readings@, #[trigger] next[j]) matches Some(p)
                                && cgroup::app_scope(p) == scope);
                        if j < i {
                            assert(part[j] == next[j]);
                        }
                    }
                    if scope_among(list, readings@, part, scope) {
                        let j = choose|j: int|
                            0 <= j < part.len() && (cgroup_of(list, readings@, #[trigger] part[j]) matches Some(p)
                                && cgroup::app_scope(p) == scope);
                        assert(part[j] == next[j]);
                    }
                    assert(next[i as int] == pids@[i as int]);
                }
            }
            if let Some(path) = path {
                desired.insert(cgroup::app_scope_cgroup(path.as_str()), weight);
            }
            i += 1;
        }
        proof {
            assert(pids@.take(i as int) =~= pids@);
        }
    }

    /// The weights that cgroups are wanted to have.
    pub fn desired_cgroup_weights(&self, readings: &Vec<(u32, String)>, config: &CgroupWeights) -> (r: TextMap<
        CgroupWeight,
    >)
        requires
            self.wf(),
        ensures
            r.wf(),
            r@ == self.desired_weights(readings@, *config),
    {
        let mut desired: TextMap<CgroupWeight> = TextMap::new();
        self.insert_scopes(&mut desired, readings, &self.pipewire_playback_processes, config.pipewire_playback);
        self.insert_scopes(&mut desired, readings, &self.pipewire_capture_processes, config.pipewire_capture);
        let ghost streams = desired@;
        if let Some(path) = self.foreground_cgroup(readings) {
            desired.insert(cgroup::app_scope_cgroup(path.as_str()), config.foreground);
        }
        proof {
            let wanted = self.desired_weights(readings@, *config);
            assert forall|scope: Seq<char>| #[trigger] desired@.contains_key(scope) == wanted.contains_key(scope) by {
                assert(desired@.contains_key(scope) ==> streams.contains_key(scope) || (self.front_cgroup(
                    readings@,
                ) matches Some(path) && cgroup::app_scope(path) == scope));
            }
            assert forall|scope: Seq<char>| desired@.contains_key(scope) implies desired@[scope]
                == #[trigger] wanted[scope] by {
                assert(streams.contains_key(scope) ==> desired@.contains_key(scope));
            }
            assert(desired@ =~= wanted);
        }
        desired
    }

    /// Whether the actions are those that bring the weights of cgroups to what is wanted, and a later state is the
    /// one in which they are taken.
    pub open spec fn weights_reconciled(
        &self,
        after: Service<M>,
        readings: Seq<(u32, String)>,
        actions: Seq<WeightAction>,
    ) -> bool {
        &&& after == (Service { cgroup_weights: after.cgroup_weights, ..*self })
        &&& exists|desired: TextMap<CgroupWeight>|
            {
                &&& #[trigger] desired.wf()
                &&& match self.config.process_scheduler.cgroup_weights {
                    Some(config) if config.enable => desired@ == self.desired_weights(readings, config),
                    _ => desired@ == Map::<Seq<char>, CgroupWeight>::empty(),
                }
                &&& cgroup_weights::reconciled(
                    self.cgroup_weights,
                    after.cgroup_weights,
                    self.config.process_scheduler.cgroup_weights,
                    desired,
                    cgroup_weights::steps(actions),
                )
            }
    }

    /// Says what is to be done so that cgroups have the weights that are wanted. `readings` are the cgroups of the
    /// processes of [`Self::unread_cgroups`] that have one.
    pub fn reconcile_cgroup_weights(&mut self, readings: &Vec<(u32, String)>) -> (r: Vec<WeightAction>)
        requires
            old(self).wf(),
        ensures
            final(self).wf(),
            old(self).weights_reconciled(*final(self), readings@, r@),
    {
        let config: Option<CgroupWeights> = self.config.process_scheduler.cgroup_weights;
        let desired: TextMap<CgroupWeight> = match config {
            Some(config) if config.enable => self.desired_cgroup_weights(readings, &config),
            _ => TextMap::new(),
        };
        let actions = self.cgroup_weights.reconcile(config, &desired);
        proof {
            assert(desired.wf());
        }
        actions
    }

    /// Whether the cgroup of a process has to be read.
    pub open spec fn unread(&self, pid: u32) -> bool {
        !(process::lookup(self.process_map.processes@, pid) matches Some(entry) && entry.cgroup@.len() > 0)
    }

    /// The processes whose cgroup decides on weights.
    pub open spec fn weighted(&self) -> Seq<u32> {
        match self.config.process_scheduler.cgroup_weights {
            Some(config) if config.enable => self.pipewire_playback_processes@ + self.pipewire_capture_processes@ + (
            match self.foreground {
                Some(ForegroundTarget::Process(pid)) => seq![pid],
                _ => Seq::empty(),
            }),
            _ => Seq::empty(),
        }
    }

    /// The processes whose cgroup has to be read before weights are reconciled.
    pub fn unread_cgroups(&self) -> (r: Vec<u32>)
        requires
            self.wf(),
        ensures
            r@ == self.weighted().filter(|pid: u32| self.unread(pid)),
    {
        let enabled: bool = match &self.config.process_scheduler.cgroup_weights {
            Some(config) => config.enable,
            None => false,
        };
        let mut unread: Vec<u32> = Vec::new();
        let ghost kept = |pid: u32| self.unread(pid);
        if !enabled {
            proof {
                assert(self.weighted().filter(kept) =~= Seq::empty()) by {
                    reveal(Seq::filter);
                }
            }
            return unread;
        }
        self.add_unread(&mut unread, &self.pipewire_playback_processes);
        self.add_unread(&mut unread, &self.pipewire_capture_processes);
        let ghost streams = self.pipewire_playback_processes@ + self.pipewire_capture_processes@;
        proof {
            Seq::filter_distributes_over_add(
                self.pipewire_playback_processes@,
                self.pipewire_capture_processes@,
                kept,
            );
        }
        if let Some(ForegroundTarget::Process(pid)) = &self.foreground {
            let mut front: Vec<u32> = Vec::new();
            front.push(*pid);
            self.add_unread(&mut unread, &front);
            proof {
                assert(front@ =~= seq![*pid]);
                Seq::filter_distributes_over_add(streams, front@, kept);
            }
        } else {
            proof {
                assert(streams + Seq::<u32>::empty() =~= streams);
            }
        }
        unread
    }

    fn add_unread(&self, unread: &mut Vec<u32>, pids: &Vec<u32>)
        requires
            self.wf(),
        ensures
            final(unread)@ == old(unread)@ + pids@.filter(|pid: u32| self.unread(pid)),
    {
        let ghost before = unread@;
        let ghost kept = |pid: u32| self.unread(pid);
        let mut i: usize = 0;
        proof {
            assert(pids@.take(0).filter(kept) =~= Seq::empty()) by {
                reveal(Seq::filter);
            }
            assert(unread@ =~= before + pids@.take(0).filter(kept));
        }
        while i < pids.len()
            invariant
                self.wf(),
                i <= pids@.len(),
                kept == (|pid: u32| self.unread(pid)),
                unread@ == before + pids@.take(i as int).filter(kept),
            decreases pids@.len() - i,
        {
            let pid: u32 = pids[i];
            let ghost part = pids@.take(i as int);
            proof {
                assert(pids@.take(i + 1) =~= part.push(pid));
                part.lemma_filter_push(pid, kept);
            }
            let read: bool = match self.process_map.get_pid(pid) {
                Some(entry) => text::chars(entry.cgroup.as_str()).len() > 0,
                None => false,
            };
            if !read {
                unread.push(pid);
                proof {
                    assert(unread@ =~= before + part.filter(kept).push(pid));
                }
            }
            i += 1;
        }
        proof {
            assert(pids@.take(i as int) =~= pids@);
        }
    }
}

impl<M: TextMatcher> Service<M> {
    /// The application in the foreground has the weight of the foreground.
    pub proof fn lemma_front_weight(&self, readings: Seq<(u32, String)>, config: CgroupWeights)
        requires
            self.front_cgroup(readings) is Some,
        ensures
            self.desired_weights(readings, config).contains_key(cgroup::app_scope(self.front_cgroup(readings)->0)),
            self.desired_weights(readings, config)[cgroup::app_scope(self.front_cgroup(readings)->0)]
                == config.foreground,
    {
    }

    /// The application of every process that captures has a weight: that of capture, unless it is in the foreground.
    pub proof fn lemma_weight_order(
        &self,
        readings: Seq<(u32, String)>,
        config: CgroupWeights,
        i: int,
        path: Seq<char>,
    )
        requires
            0 <= i < self.pipewire_capture_processes@.len(),
            cgroup_of(self.process_map.processes@, readings, self.pipewire_capture_processes@[i]) == Some(path),
        ensures
            self.desired_weights(readings, config).contains_key(cgroup::app_scope(path)),
            self.desired_weights(readings, config)[cgroup::app_scope(path)] == (if self.front_cgroup(readings) matches Some(
                front,
            ) && cgroup::app_scope(front) == cgroup::app_scope(path) {
                config.foreground
            } else {
                config.pipewire_capture
            }),
    {
        assert(scope_among(
            self.process_map.processes@,
            readings,
            self.pipewire_capture_processes@,
            cgroup::app_scope(path),
        ));
    }

    /// Weights are wanted for whole applications: a cgroup that is wanted to have one is that of its application.
    pub proof fn lemma_weighted_scopes(&self, readings: Seq<(u32, String)>, config: CgroupWeights, scope: Seq<char>)
        requires
            self.desired_weights(readings, config).contains_key(scope),
        ensures
            cgroup::app_scope(scope) == scope,
    {
        let list = self.process_map.processes@;
        let capture = self.pipewire_capture_processes@;
        let playback = self.pipewire_playback_processes@;
        if self.front_cgroup(readings) matches Some(path) && cgroup::app_scope(path) == scope {
            cgroup::lemma_app_scope_stands(self.front_cgroup(readings)->0);
        } else if scope_among(list, readings, capture, scope) {
            let i = choose|i: int|
                0 <= i < capture.len() && (cgroup_of(list, readings, #[trigger] capture[i]) matches Some(path)
                    && cgroup::app_scope(path) == scope);
            cgroup::lemma_app_scope_stands(cgroup_of(list, readings, capture[i])->0);
        } else {
            let i = choose|i: int|
                0 <= i < playback.len() && (cgroup_of(list, readings, #[trigger] playback[i]) matches Some(path)
                    && cgroup::app_scope(path) == scope);
            cgroup::lemma_app_scope_stands(cgroup_of(list, readings, playback[i])->0);
        }
    }
}

} // verus!

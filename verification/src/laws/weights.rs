//! Which cgroups are weighted, and what is done to get there.

use vstd::prelude::*;

use crate::cgroup;
use crate::cgroup_weights;
use crate::cgroup_weights::{AppliedWeight, State, WeightFiles, WeightStep};
use crate::laws::paths;
use crate::laws::processes;
use crate::number;
use crate::process;
use crate::process::Process;
use crate::scheduler::{CgroupWeight, CgroupWeights, TextMatcher};
use crate::service::{ForegroundTarget, Service};
use crate::text;
use crate::text_map::TextMap;
use crate::weights;

verus! {

/// What was read for a process is the first reading of its ID.
pub proof fn lemma_reading(readings: Seq<(u32, String)>, pid: u32, i: int)
    requires
        0 <= i <= readings.len(),
        forall|j: int| 0 <= j < i ==> (#[trigger] readings[j]).0 != pid,
        i < readings.len() ==> readings[i].0 == pid,
    ensures
        i < readings.len() ==> weights::reading_of(readings, pid) == Some(readings[i].1@),
        i == readings.len() ==> weights::reading_of(readings, pid) is None,
    decreases i,
{
    if i > 0 {
        let rest = readings.skip(1);
        assert(readings[0].0 != pid);
        assert forall|j: int| 0 <= j < i - 1 implies (#[trigger] rest[j]).0 != pid by {
            assert(rest[j] == readings[j + 1]);
        }
        lemma_reading(rest, pid, i - 1);
    }
}

/// The cgroup of a process is the one that is known of it. It is the one that was read where the process is not known,
/// or no cgroup is known of it.
pub proof fn lemma_cgroup_of(list: Seq<Process>, readings: Seq<(u32, String)>, pid: u32, process: Process)
    requires
        process::distinct(list),
    ensures
        list.contains(process) && process.id == pid && process.cgroup@.len() > 0 ==> weights::cgroup_of(
            list,
            readings,
            pid,
        ) == Some(process.cgroup@),
        list.contains(process) && process.id == pid && process.cgroup@.len() == 0 ==> weights::cgroup_of(
            list,
            readings,
            pid,
        ) == weights::reading_of(readings, pid),
        (forall|i: int| 0 <= i < list.len() ==> (#[trigger] list[i]).id != pid) ==> weights::cgroup_of(
            list,
            readings,
            pid,
        ) == weights::reading_of(readings, pid),
{
    processes::lemma_known(list, pid);
}

impl<M: TextMatcher> Service<M> {
    /// The cgroup in the foreground is the one that was put there, or that of the process that was.
    pub proof fn lemma_front_cgroup(&self, readings: Seq<(u32, String)>)
        ensures
            self.foreground is None ==> self.front_cgroup(readings) is None,
            self.foreground matches Some(ForegroundTarget::Cgroup(path)) ==> self.front_cgroup(readings) == Some(path@),
            self.foreground matches Some(ForegroundTarget::Process(pid)) ==> self.front_cgroup(readings)
                == weights::cgroup_of(self.process_map.processes@, readings, pid),
    {
    }

    /// The application scope of every process that plays and has a cgroup is weighted, whatever is in the foreground:
    /// with the foreground weight if it is the scope in the foreground, else with the capture weight if a capturing
    /// process is in it, else with the playback weight.
    pub proof fn lemma_playback_weighted(
        &self,
        readings: Seq<(u32, String)>,
        config: CgroupWeights,
        i: int,
        path: Seq<char>,
    )
        requires
            0 <= i < self.pipewire_playback_processes@.len(),
            weights::cgroup_of(self.process_map.processes@, readings, self.pipewire_playback_processes@[i]) == Some(path),
        ensures
            ({
                let desired = self.desired_weights(readings, config);
                let scope = cgroup::app_scope(path);
                let front = self.front_cgroup(readings);
                let captured = exists|j: int|
                    {
                        let other = weights::cgroup_of(
                            self.process_map.processes@,
                            readings,
                            #[trigger] self.pipewire_capture_processes@[j],
                        );
                        0 <= j < self.pipewire_capture_processes@.len() && other is Some && cgroup::app_scope(other->0)
                            == scope
                    };
                &&& desired.contains_key(scope)
                &&& front is Some && cgroup::app_scope(front->0) == scope ==> desired[scope] == config.foreground
                &&& !(front is Some && cgroup::app_scope(front->0) == scope) && captured ==> desired[scope]
                    == config.pipewire_capture
                &&& !(front is Some && cgroup::app_scope(front->0) == scope) && !captured ==> desired[scope]
                    == config.pipewire_playback
            }),
    {
        let list = self.process_map.processes@;
        let scope = cgroup::app_scope(path);
        assert(weights::scope_among(list, readings, self.pipewire_playback_processes@, scope));
        if weights::scope_among(list, readings, self.pipewire_capture_processes@, scope) {
            let capture = self.pipewire_capture_processes@;
            let j = choose|j: int|
                0 <= j < capture.len() && (weights::cgroup_of(list, readings, #[trigger] capture[j]) matches Some(other)
                    && cgroup::app_scope(other) == scope);
            assert(0 <= j < capture.len() && weights::cgroup_of(list, readings, capture[j]) is Some);
        }
    }

    /// No other scope is weighted than that in the foreground and those of processes that capture or play.
    pub proof fn lemma_nothing_else_weighted(&self, readings: Seq<(u32, String)>, config: CgroupWeights, scope: Seq<char>)
        requires
            self.front_cgroup(readings) matches Some(path) ==> cgroup::app_scope(path) != scope,
            forall|j: int|
                0 <= j < self.pipewire_capture_processes@.len() ==> (weights::cgroup_of(
                    self.process_map.processes@,
                    readings,
                    #[trigger] self.pipewire_capture_processes@[j],
                ) matches Some(path) ==> cgroup::app_scope(path) != scope),
            forall|j: int|
                0 <= j < self.pipewire_playback_processes@.len() ==> (weights::cgroup_of(
                    self.process_map.processes@,
                    readings,
                    #[trigger] self.pipewire_playback_processes@[j],
                ) matches Some(path) ==> cgroup::app_scope(path) != scope),
        ensures
            !self.desired_weights(readings, config).contains_key(scope),
    {
    }

    /// The processes whose cgroups are to be read are those that take part in streams and that in the foreground, as far
    /// as no cgroup is known of them, while cgroups are weighted.
    pub proof fn lemma_to_be_read(&self, pid: u32)
        requires
            self.wf(),
        ensures
            ({
                let asked = self.weighted().filter(|pid: u32| self.unread(pid));
                let weighs = self.config.process_scheduler.cgroup_weights matches Some(config) && config.enable;
                let concerned = self.pipewire_playback_processes@.contains(pid)
                    || self.pipewire_capture_processes@.contains(pid) || self.foreground == Some(
                    ForegroundTarget::Process(pid),
                );
                let cgroup_known = exists|i: int|
                    0 <= i < self.process_map.processes@.len() && (#[trigger] self.process_map.processes@[i]).id == pid
                        && self.process_map.processes@[i].cgroup@.len() > 0;
                asked.contains(pid) <==> weighs && concerned && !cgroup_known
            }),
    {
        let list = self.process_map.processes@;
        let kind = |pid: u32| self.unread(pid);
        let weighted = self.weighted();
        let asked = weighted.filter(kind);
        processes::lemma_known(list, pid);
        if exists|i: int| 0 <= i < list.len() && (#[trigger] list[i]).id == pid && list[i].cgroup@.len() > 0 {
            let i = choose|i: int| 0 <= i < list.len() && (#[trigger] list[i]).id == pid && list[i].cgroup@.len() > 0;
            process::lemma_position(list, i);
        }
        if let Some(entry) = process::lookup(list, pid) {
            let i = choose|i: int| 0 <= i < list.len() && list[i] == entry;
            assert(list[i].id == pid);
        }
        let playback = self.pipewire_playback_processes@;
        let capture = self.pipewire_capture_processes@;
        if self.config.process_scheduler.cgroup_weights matches Some(config) && config.enable {
            if playback.contains(pid) {
                let i = choose|i: int| 0 <= i < playback.len() && playback[i] == pid;
                assert(weighted[i] == pid);
            }
            if capture.contains(pid) {
                let i = choose|i: int| 0 <= i < capture.len() && capture[i] == pid;
                assert(weighted[playback.len() + i] == pid);
            }
            if self.foreground == Some(ForegroundTarget::Process(pid)) {
                assert(weighted[(playback.len() + capture.len()) as int] == pid);
            }
            if weighted.contains(pid) {
                let i = choose|i: int| 0 <= i < weighted.len() && weighted[i] == pid;
                if i < playback.len() {
                    assert(playback[i] == pid);
                } else if i < playback.len() + capture.len() {
                    assert(capture[i - playback.len()] == pid);
                }
            }
        }
        if asked.contains(pid) {
            broadcast use vstd::seq_lib::group_filter_ensures;

            weighted.lemma_filter_contains_rev(kind, pid);
            let i = choose|i: int| 0 <= i < asked.len() && asked[i] == pid;
            assert(kind(asked[i]));
        }
        if weighted.contains(pid) && kind(pid) {
            let i = choose|i: int| 0 <= i < weighted.len() && weighted[i] == pid;
            weighted.lemma_filter_contains(kind, i);
        }
    }
}

/// A cgroup that is no longer wanted is given back the weight that it had, once, and is forgotten. One that is wanted
/// is not given back.
pub proof fn lemma_given_back(
    before: State,
    after: State,
    config: CgroupWeights,
    desired: TextMap<CgroupWeight>,
    taken: Seq<WeightStep>,
    i: int,
)
    requires
        before.wf(),
        desired.wf(),
        cgroup_weights::reconciled(before, after, Some(config), desired, taken),
        0 <= i < before.applied.entries@.len(),
    ensures
        ({
            let cgroup = before.applied.key_at(i);
            let weights = before.applied.entries@[i].1;
            let wanted = config.enable && desired@.contains_key(cgroup);
            &&& !wanted ==> taken.contains(WeightStep::Restore { cgroup, weight: weights.previous })
                && !after.applied@.contains_key(cgroup)
            &&& wanted ==> !restored(taken, cgroup) && after.applied@.contains_key(cgroup) && after.applied@[cgroup]
                == weights
        }),
{
    let applied = before.applied.entries@;
    let cgroup = before.applied.key_at(i);
    before.applied.lemma_at(i);
    let wanted = if config.enable {
        desired@
    } else {
        Map::empty()
    };
    let first = cgroup_weights::restores(applied, wanted);
    lemma_restores(applied, wanted, cgroup);
    if !wanted.contains_key(cgroup) {
        assert(applied[i].0@ == cgroup);
        let step = WeightStep::Restore { cgroup, weight: applied[i].1.previous };
        lemma_restores_holds(applied, wanted, i);
        let k = choose|k: int| 0 <= k < first.len() && first[k] == step;
        assert(taken[k] == step);
    } else {
        lemma_changes_no_restore(desired.entries@, before.applied@, config.default, cgroup);
        let second = cgroup_weights::changes(desired.entries@, before.applied@, config.default);
        assert forall|k: int| 0 <= k < taken.len() implies !(#[trigger] taken[k] is Restore && taken[k]->Restore_cgroup
            == cgroup) by {
            if k < first.len() {
                assert(taken[k] == first[k]);
            } else {
                assert(taken[k] == second[k - first.len()]);
            }
        }
    }
}

/// Whether a cgroup is given back its weight.
pub open spec fn restored(taken: Seq<WeightStep>, cgroup: Seq<char>) -> bool {
    exists|k: int| 0 <= k < taken.len() && #[trigger] taken[k] is Restore && taken[k]->Restore_cgroup == cgroup
}

proof fn lemma_restores(applied: Seq<(String, AppliedWeight)>, wanted: Map<Seq<char>, CgroupWeight>, cgroup: Seq<char>)
    ensures
        wanted.contains_key(cgroup) ==> forall|k: int|
            0 <= k < cgroup_weights::restores(applied, wanted).len() ==> !(#[trigger] cgroup_weights::restores(
                applied,
                wanted,
            )[k] is Restore && cgroup_weights::restores(applied, wanted)[k]->Restore_cgroup == cgroup),
    decreases applied.len(),
{
    if applied.len() > 0 {
        lemma_restores(applied.drop_last(), wanted, cgroup);
    }
}

proof fn lemma_restores_holds(applied: Seq<(String, AppliedWeight)>, wanted: Map<Seq<char>, CgroupWeight>, i: int)
    requires
        0 <= i < applied.len(),
        !wanted.contains_key(applied[i].0@),
    ensures
        cgroup_weights::restores(applied, wanted).contains(
            WeightStep::Restore { cgroup: applied[i].0@, weight: applied[i].1.previous },
        ),
    decreases applied.len(),
{
    let step = WeightStep::Restore { cgroup: applied[i].0@, weight: applied[i].1.previous };
    let all = cgroup_weights::restores(applied, wanted);
    let before = cgroup_weights::restores(applied.drop_last(), wanted);
    if i < applied.len() - 1 {
        assert(applied.drop_last()[i] == applied[i]);
        lemma_restores_holds(applied.drop_last(), wanted, i);
        let k = choose|k: int| 0 <= k < before.len() && before[k] == step;
        assert(all[k] == step);
    } else {
        assert(all[before.len() as int] == step);
    }
}

proof fn lemma_changes_no_restore(
    wanted: Seq<(String, CgroupWeight)>,
    applied: Map<Seq<char>, AppliedWeight>,
    default: CgroupWeight,
    cgroup: Seq<char>,
)
    ensures
        forall|k: int|
            0 <= k < cgroup_weights::changes(wanted, applied, default).len() ==> !(#[trigger] cgroup_weights::changes(
                wanted,
                applied,
                default,
            )[k] is Restore),
    decreases wanted.len(),
{
    if wanted.len() > 0 {
        lemma_changes_no_restore(wanted.drop_last(), applied, default, cgroup);
    }
}

/// A wanted cgroup is taken with the wanted weight if it was not weighted, and adjusted to it if it had another. If it
/// has it already, nothing is done to it.
pub proof fn lemma_weight_set(
    before: State,
    after: State,
    config: CgroupWeights,
    desired: TextMap<CgroupWeight>,
    taken: Seq<WeightStep>,
    i: int,
)
    requires
        before.wf(),
        desired.wf(),
        config.enable,
        cgroup_weights::reconciled(before, after, Some(config), desired, taken),
        0 <= i < desired.entries@.len(),
    ensures
        ({
            let cgroup = desired.key_at(i);
            let weight = desired.entries@[i].1;
            &&& !before.applied@.contains_key(cgroup) ==> taken.contains(
                WeightStep::Take { cgroup, weight, default: config.default },
            )
            &&& before.applied@.contains_key(cgroup) && before.applied@[cgroup].current != weight ==> taken.contains(
                WeightStep::Adjust { cgroup, weight },
            )
            &&& before.applied@.contains_key(cgroup) && before.applied@[cgroup].current == weight ==> forall|k: int|
                0 <= k < taken.len() ==> cgroup_weights::step_cgroup(#[trigger] taken[k]) != cgroup
        }),
{
    let cgroup = desired.key_at(i);
    let weight = desired.entries@[i].1;
    let wanted = desired.entries@;
    let first = cgroup_weights::restores(before.applied.entries@, desired@);
    let second = cgroup_weights::changes(wanted, before.applied@, config.default);
    desired.lemma_at(i);
    lemma_changes_hold(wanted, before.applied@, config.default, i);
    if !before.applied@.contains_key(cgroup) {
        let step = WeightStep::Take { cgroup, weight, default: config.default };
        let k = choose|k: int| 0 <= k < second.len() && second[k] == step;
        assert(taken[first.len() + k] == step);
    } else if before.applied@[cgroup].current != weight {
        let step = WeightStep::Adjust { cgroup, weight };
        let k = choose|k: int| 0 <= k < second.len() && second[k] == step;
        assert(taken[first.len() + k] == step);
    } else {
        lemma_restores_only(before.applied.entries@, desired@);
        lemma_changes_sources(wanted, before.applied@, config.default);
        assert forall|k: int| 0 <= k < taken.len() implies cgroup_weights::step_cgroup(#[trigger] taken[k]) != cgroup by {
            if k < first.len() {
                assert(taken[k] == first[k]);
                assert(!desired@.contains_key(cgroup_weights::step_cgroup(first[k])));
            } else {
                let n = k - first.len();
                assert(taken[k] == second[n]);
                let j = choose|j: int|
                    0 <= j < wanted.len() && (#[trigger] wanted[j]).0@ == cgroup_weights::step_cgroup(second[n]) && (
                    !before.applied@.contains_key(wanted[j].0@) || before.applied@[wanted[j].0@].current != wanted[j].1);
                if cgroup_weights::step_cgroup(second[n]) == cgroup {
                    assert(desired.key_at(j) == desired.key_at(i));
                    desired.lemma_unique(i, j);
                }
            }
        }
    }
}

proof fn lemma_restores_only(applied: Seq<(String, AppliedWeight)>, wanted: Map<Seq<char>, CgroupWeight>)
    ensures
        forall|k: int|
            0 <= k < cgroup_weights::restores(applied, wanted).len() ==> !wanted.contains_key(
                cgroup_weights::step_cgroup(#[trigger] cgroup_weights::restores(applied, wanted)[k]),
            ),
    decreases applied.len(),
{
    let all = cgroup_weights::restores(applied, wanted);
    if applied.len() > 0 {
        let before = cgroup_weights::restores(applied.drop_last(), wanted);
        lemma_restores_only(applied.drop_last(), wanted);
        assert forall|k: int| 0 <= k < all.len() implies !wanted.contains_key(
            cgroup_weights::step_cgroup(#[trigger] all[k]),
        ) by {
            if k < before.len() {
                assert(all[k] == before[k]);
            }
        }
    }
}

proof fn lemma_changes_hold(
    wanted: Seq<(String, CgroupWeight)>,
    applied: Map<Seq<char>, AppliedWeight>,
    default: CgroupWeight,
    i: int,
)
    requires
        0 <= i < wanted.len(),
    ensures
        !applied.contains_key(wanted[i].0@) ==> cgroup_weights::changes(wanted, applied, default).contains(
            WeightStep::Take { cgroup: wanted[i].0@, weight: wanted[i].1, default },
        ),
        applied.contains_key(wanted[i].0@) && applied[wanted[i].0@].current != wanted[i].1 ==> cgroup_weights::changes(
            wanted,
            applied,
            default,
        ).contains(WeightStep::Adjust { cgroup: wanted[i].0@, weight: wanted[i].1 }),
    decreases wanted.len(),
{
    let all = cgroup_weights::changes(wanted, applied, default);
    let before = cgroup_weights::changes(wanted.drop_last(), applied, default);
    let step = if !applied.contains_key(wanted[i].0@) {
        WeightStep::Take { cgroup: wanted[i].0@, weight: wanted[i].1, default }
    } else {
        WeightStep::Adjust { cgroup: wanted[i].0@, weight: wanted[i].1 }
    };
    if !applied.contains_key(wanted[i].0@) || applied[wanted[i].0@].current != wanted[i].1 {
        if i < wanted.len() - 1 {
            assert(wanted.drop_last()[i] == wanted[i]);
            lemma_changes_hold(wanted.drop_last(), applied, default, i);
            let k = choose|k: int| 0 <= k < before.len() && before[k] == step;
            assert(all[k] == step);
        } else {
            assert(all[before.len() as int] == step);
        }
    }
}

proof fn lemma_changes_sources(
    wanted: Seq<(String, CgroupWeight)>,
    applied: Map<Seq<char>, AppliedWeight>,
    default: CgroupWeight,
)
    ensures
        forall|k: int|
            0 <= k < cgroup_weights::changes(wanted, applied, default).len() ==> exists|j: int|
                0 <= j < wanted.len() && (#[trigger] wanted[j]).0@ == cgroup_weights::step_cgroup(
                    #[trigger] cgroup_weights::changes(wanted, applied, default)[k],
                ) && (!applied.contains_key(wanted[j].0@) || applied[wanted[j].0@].current != wanted[j].1),
    decreases wanted.len(),
{
    let all = cgroup_weights::changes(wanted, applied, default);
    if wanted.len() > 0 {
        let head = wanted.drop_last();
        let before = cgroup_weights::changes(head, applied, default);
        lemma_changes_sources(head, applied, default);
        assert forall|k: int| 0 <= k < all.len() implies exists|j: int|
            0 <= j < wanted.len() && (#[trigger] wanted[j]).0@ == cgroup_weights::step_cgroup(#[trigger] all[k]) && (
            !applied.contains_key(wanted[j].0@) || applied[wanted[j].0@].current != wanted[j].1) by {
            if k < before.len() {
                assert(all[k] == before[k]);
                let j = choose|j: int|
                    0 <= j < head.len() && (#[trigger] head[j]).0@ == cgroup_weights::step_cgroup(before[k]) && (
                    !applied.contains_key(head[j].0@) || applied[head[j].0@].current != head[j].1);
                assert(wanted[j] == head[j]);
            } else {
                assert(wanted[wanted.len() - 1].0@ == cgroup_weights::step_cgroup(all[k]));
            }
        }
    }
}

/// While cgroups are not weighted nothing is wanted: every weighted cgroup is given back its weight and forgotten, and
/// nothing else is done.
pub proof fn lemma_not_weighted(
    before: State,
    after: State,
    config: Option<CgroupWeights>,
    desired: TextMap<CgroupWeight>,
    taken: Seq<WeightStep>,
)
    requires
        cgroup_weights::reconciled(before, after, config, desired, taken),
        config is None || !config->0.enable,
    ensures
        after.applied@ == Map::<Seq<char>, AppliedWeight>::empty(),
        taken.len() == before.applied.entries@.len(),
        forall|i: int|
            0 <= i < taken.len() ==> #[trigger] taken[i] == (WeightStep::Restore {
                cgroup: before.applied.entries@[i].0@,
                weight: before.applied.entries@[i].1.previous,
            }),
{
    cgroup_weights::lemma_all_restored(before.applied.entries@);
}

/// A cgroup that was taken is remembered with the weight that it was read to have had, or the default weight where it
/// could not be read. One that was adjusted is remembered with the weight that it had at first. Others stay.
pub proof fn lemma_remembered(
    applied: Map<Seq<char>, AppliedWeight>,
    cgroup: Seq<char>,
    weight: CgroupWeight,
    default: CgroupWeight,
    read: Option<CgroupWeight>,
    other: Seq<char>,
)
    ensures
        ({
            let taken = cgroup_weights::confirmed(applied, WeightStep::Take { cgroup, weight, default }, read);
            &&& taken.contains_key(cgroup)
            &&& taken[cgroup].current == weight
            &&& read is Some ==> taken[cgroup].previous == read->0
            &&& read is None ==> taken[cgroup].previous == default
            &&& other != cgroup ==> (taken.contains_key(other) <==> applied.contains_key(other)) && (
            applied.contains_key(other) ==> taken[other] == applied[other])
        }),
        ({
            let adjusted = cgroup_weights::confirmed(applied, WeightStep::Adjust { cgroup, weight }, read);
            &&& applied.contains_key(cgroup) ==> adjusted.contains_key(cgroup) && adjusted[cgroup].current == weight
                && adjusted[cgroup].previous == applied[cgroup].previous
            &&& !applied.contains_key(cgroup) ==> adjusted == applied
            &&& other != cgroup ==> (adjusted.contains_key(other) <==> applied.contains_key(other)) && (
            applied.contains_key(other) ==> adjusted[other] == applied[other])
        }),
        cgroup_weights::confirmed(applied, WeightStep::Restore { cgroup, weight }, read) == applied,
{
}

impl<M: TextMatcher> Service<M> {
    /// When the weights are reconciled, each scope that is to be weighted and was not is taken with its weight, and each
    /// that has another weight is adjusted to it. Each that was weighted and is not to be any more is given back the
    /// weight that it had. While cgroups are not weighted, none is to be.
    pub proof fn lemma_weights_reconciled(
        &self,
        after: Service<M>,
        readings: Seq<(u32, String)>,
        actions: Seq<cgroup_weights::WeightAction>,
        scope: Seq<char>,
    )
        requires
            self.wf(),
            self.weights_reconciled(after, readings, actions),
        ensures
            after == (Service { cgroup_weights: after.cgroup_weights, ..*self }),
            ({
                let taken = cgroup_weights::steps(actions);
                let applied = self.cgroup_weights.applied@;
                let config = self.config.process_scheduler.cgroup_weights;
                let weighs = config is Some && config->0.enable;
                let wanted = self.desired_weights(readings, config->0);
                &&& weighs && wanted.contains_key(scope) && !applied.contains_key(scope) ==> taken.contains(
                    WeightStep::Take { cgroup: scope, weight: wanted[scope], default: config->0.default },
                )
                &&& weighs && wanted.contains_key(scope) && applied.contains_key(scope) && applied[scope].current
                    != wanted[scope] ==> taken.contains(WeightStep::Adjust { cgroup: scope, weight: wanted[scope] })
                &&& applied.contains_key(scope) && !(weighs && wanted.contains_key(scope)) ==> taken.contains(
                    WeightStep::Restore { cgroup: scope, weight: applied[scope].previous },
                ) && !after.cgroup_weights.applied@.contains_key(scope)
                &&& applied.contains_key(scope) && weighs && wanted.contains_key(scope)
                    ==> after.cgroup_weights.applied@.contains_key(scope) && after.cgroup_weights.applied@[scope]
                    == applied[scope]
            }),
    {
        let taken = cgroup_weights::steps(actions);
        let applied = self.cgroup_weights.applied;
        let config = self.config.process_scheduler.cgroup_weights;
        let desired = choose|desired: TextMap<CgroupWeight>|
            {
                &&& #[trigger] desired.wf()
                &&& match config {
                    Some(config) if config.enable => desired@ == self.desired_weights(readings, config),
                    _ => desired@ == Map::<Seq<char>, CgroupWeight>::empty(),
                }
                &&& cgroup_weights::reconciled(
                    self.cgroup_weights,
                    after.cgroup_weights,
                    config,
                    desired,
                    taken,
                )
            };
        let weighs = config is Some && config->0.enable;
        if weighs && desired@.contains_key(scope) {
            assert(desired.has(scope));
            let i = choose|i: int| desired.holds_at(scope, i);
            desired.lemma_at(i);
            lemma_weight_set(self.cgroup_weights, after.cgroup_weights, config->0, desired, taken, i);
        }
        if applied@.contains_key(scope) {
            assert(applied.has(scope));
            let i = choose|i: int| applied.holds_at(scope, i);
            applied.lemma_at(i);
            if config is Some {
                lemma_given_back(self.cgroup_weights, after.cgroup_weights, config->0, desired, taken, i);
            } else {
                lemma_not_weighted(self.cgroup_weights, after.cgroup_weights, config, desired, taken);
                assert(taken[i] == (WeightStep::Restore { cgroup: scope, weight: applied@[scope].previous }));
            }
        }
    }
}

/// The weight of a cgroup stands in two files, that of processor time and that of disk time, and goes there in decimal
/// digits.
pub proof fn lemma_weight_files(files: WeightFiles, cgroup: Seq<char>, weight: CgroupWeight)
    requires
        cgroup_weights::gives_weight(files, cgroup, weight),
    ensures
        cgroup::file_path(cgroup, "cpu.weight"@) == Some(files.cpu_path@),
        cgroup::file_path(cgroup, "io.weight"@) == Some(files.io_path@),
        number::ascii_value(files.cpu@) == weight.cpu,
        number::ascii_value(files.io@) == weight.io,
        forall|i: int| 0 <= i < files.cpu@.len() ==> '0' as u8 <= #[trigger] files.cpu@[i] <= '9' as u8,
        forall|i: int| 0 <= i < files.io@.len() ==> '0' as u8 <= #[trigger] files.io@[i] <= '9' as u8,
        cgroup_weights::are_weight_paths(cgroup, files.cpu_path@, files.io_path@),
        !cgroup_weights::has_no_weights(cgroup),
{
    number::lemma_decimal(weight.cpu as int);
    number::lemma_decimal(weight.io as int);
    assert forall|i: int| 0 <= i < files.cpu@.len() implies '0' as u8 <= #[trigger] files.cpu@[i] <= '9' as u8 by {
        assert(number::is_ascii_digit(number::decimal(weight.cpu as int)[i]));
    }
    assert forall|i: int| 0 <= i < files.io@.len() implies '0' as u8 <= #[trigger] files.io@[i] <= '9' as u8 by {
        assert(number::is_ascii_digit(number::decimal(weight.io as int)[i]));
    }
}

/// A path that is absolute, holds no NUL and does not lead upwards has files of weights, and no other has.
pub proof fn lemma_has_weights(cgroup: Seq<char>)
    ensures
        cgroup_weights::has_no_weights(cgroup) <==> cgroup.len() == 0 || cgroup[0] != '/' || cgroup.contains('\0')
            || text::pieces(cgroup, '/').contains(".."@),
{
    paths::lemma_no_file(cgroup, "cpu.weight"@);
    paths::lemma_no_file(cgroup, "io.weight"@);
}

/// What the two files hold is a weight if both hold a number, with white space around it or not: the first that of
/// processor time, the second that of disk time.
pub proof fn lemma_weight_read(cpu: Seq<char>, io: Seq<char>)
    ensures
        ({
            let first = number::parsed(text::trimmed(cpu), 0xffff_ffff);
            let second = number::parsed(text::trimmed(io), 0xffff_ffff);
            &&& first is None ==> cgroup_weights::weight_in(cpu, io) is None
            &&& second is None ==> cgroup_weights::weight_in(cpu, io) is None
            &&& first is Some && second is Some ==> cgroup_weights::weight_in(cpu, io) is Some
                && cgroup_weights::weight_in(cpu, io)->0.cpu == first->0 as u32 && cgroup_weights::weight_in(cpu, io)->0.io
                == second->0 as u32
        }),
{
}

/// A weight counts as written if one of the two files was.
pub proof fn lemma_written(other: bool)
    ensures
        cgroup_weights::is_written(true, other),
        cgroup_weights::is_written(other, true),
        !cgroup_weights::is_written(false, false),
{
}

} // verus!

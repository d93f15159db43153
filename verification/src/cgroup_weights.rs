//! The weights that cgroups were given, and how they are brought to what is wanted.

use vstd::prelude::*;

use crate::cgroup;
use crate::number;
use crate::scheduler::{CgroupWeight, CgroupWeights};
use crate::text;
use crate::text_map::TextMap;

verus! {

/// The weight that a cgroup had and the one that it was given.
#[derive(Clone, Copy, Debug, PartialEq, Eq, Structural)]
pub struct AppliedWeight {
    /// The weight before the first change.
    pub previous: CgroupWeight,
    /// The weight now.
    pub current: CgroupWeight,
}

/// What is to be done about the weight of a cgroup.
pub enum WeightAction {
    /// Write the weight that the cgroup had at first. Nothing depends on the outcome.
    Restore { cgroup: String, weight: CgroupWeight },
    /// Write another weight, and confirm it when that worked.
    Adjust { cgroup: String, weight: CgroupWeight },
    /// Read the weight that the cgroup has, write this one, and confirm it when that worked.
    Take { cgroup: String, weight: CgroupWeight, default: CgroupWeight },
}

/// What is to be done about the weight of a cgroup.
pub ghost enum WeightStep {
    Restore { cgroup: Seq<char>, weight: CgroupWeight },
    Adjust { cgroup: Seq<char>, weight: CgroupWeight },
    Take { cgroup: Seq<char>, weight: CgroupWeight, default: CgroupWeight },
}

impl View for WeightAction {
    type V = WeightStep;

    open spec fn view(&self) -> WeightStep {
        match *self {
            WeightAction::Restore { cgroup, weight } => WeightStep::Restore { cgroup: cgroup@, weight },
            WeightAction::Adjust { cgroup, weight } => WeightStep::Adjust { cgroup: cgroup@, weight },
            WeightAction::Take { cgroup, weight, default } => WeightStep::Take { cgroup: cgroup@, weight, default },
        }
    }
}

/// The steps that actions stand for.
pub open spec fn steps(actions: Seq<WeightAction>) -> Seq<WeightStep> {
    actions.map_values(|action: WeightAction| action@)
}

/// The steps that give cgroups their first weight back: those that are no longer wanted to have another.
pub open spec fn restores(
    applied: Seq<(String, AppliedWeight)>,
    wanted: Map<Seq<char>, CgroupWeight>,
) -> Seq<WeightStep>
    decreases applied.len(),
{
    if applied.len() == 0 {
        Seq::empty()
    } else {
        let before = restores(applied.drop_last(), wanted);
        let (cgroup, weights) = applied.last();
        if wanted.contains_key(cgroup@) {
            before
        } else {
            before.push(WeightStep::Restore { cgroup: cgroup@, weight: weights.previous })
        }
    }
}

/// The steps that give cgroups the wanted weight: those that do not have it.
pub open spec fn changes(
    wanted: Seq<(String, CgroupWeight)>,
    applied: Map<Seq<char>, AppliedWeight>,
    default: CgroupWeight,
) -> Seq<WeightStep>
    decreases wanted.len(),
{
    if wanted.len() == 0 {
        Seq::empty()
    } else {
        let before = changes(wanted.drop_last(), applied, default);
        let (cgroup, weight) = wanted.last();
        if !applied.contains_key(cgroup@) {
            before.push(WeightStep::Take { cgroup: cgroup@, weight, default })
        } else if applied[cgroup@].current != weight {
            before.push(WeightStep::Adjust { cgroup: cgroup@, weight })
        } else {
            before
        }
    }
}

/// What is known of the cgroups when a step has worked. `previous` is what was read before the step.
pub open spec fn confirmed(
    applied: Map<Seq<char>, AppliedWeight>,
    step: WeightStep,
    previous: Option<CgroupWeight>,
) -> Map<Seq<char>, AppliedWeight> {
    match step {
        WeightStep::Restore { .. } => applied,
        WeightStep::Adjust { cgroup, weight } => if applied.contains_key(cgroup) {
            applied.insert(cgroup, AppliedWeight { previous: applied[cgroup].previous, current: weight })
        } else {
            applied
        },
        WeightStep::Take { cgroup, weight, default } => applied.insert(
            cgroup,
            AppliedWeight {
                previous: match previous {
                    Some(weight) => weight,
                    None => default,
                },
                current: weight,
            },
        ),
    }
}

/// The files that hold the weight of a cgroup, and what is written to them.
pub struct WeightFiles {
    /// Path of `cpu.weight`.
    pub cpu_path: String,
    /// What is written to it.
    pub cpu: Vec<u8>,
    /// Path of `io.weight`.
    pub io_path: String,
    /// What is written to it.
    pub io: Vec<u8>,
}

/// Whether paths are those of the files of processor and disk time of a cgroup.
pub open spec fn are_weight_paths(cgroup: Seq<char>, cpu: Seq<char>, io: Seq<char>) -> bool {
    &&& cgroup::file_path(cgroup, "cpu.weight"@) == Some(cpu)
    &&& cgroup::file_path(cgroup, "io.weight"@) == Some(io)
}

/// Whether a path is not one of a cgroup, so that it has no files of weights.
pub open spec fn has_no_weights(cgroup: Seq<char>) -> bool {
    cgroup::file_path(cgroup, "cpu.weight"@) is None || cgroup::file_path(cgroup, "io.weight"@) is None
}

/// The files that the weight of a cgroup is read from: those of processor and disk time, in this order. A path
/// that is not one of a cgroup has none.
pub fn weight_paths(cgroup: &str) -> (r: Option<(String, String)>)
    ensures
        match r {
            Some((cpu, io)) => are_weight_paths(cgroup@, cpu@, io@),
            None => has_no_weights(cgroup@),
        },
{
    match (cgroup::cgroup_file(cgroup, "cpu.weight"), cgroup::cgroup_file(cgroup, "io.weight")) {
        (Some(cpu), Some(io)) => Some((cpu, io)),
        _ => None,
    }
}

/// The weight in the contents of the two files. Both have to hold a number.
pub open spec fn weight_in(cpu: Seq<char>, io: Seq<char>) -> Option<CgroupWeight> {
    match (
        number::parsed(text::trimmed(cpu), u32::MAX as int),
        number::parsed(text::trimmed(io), u32::MAX as int),
    ) {
        (Some(cpu), Some(io)) => Some(CgroupWeight { cpu: cpu as u32, io: io as u32 }),
        _ => None,
    }
}

/// Reads the weight of a cgroup out of the contents of its files.
pub fn read_weight(cpu: &str, io: &str) -> (r: Option<CgroupWeight>)
    ensures
        r == weight_in(cpu@, io@),
{
    let cpu: Option<u64> = number::parse(text::trim(cpu).as_str(), u32::MAX as u64);
    let io: Option<u64> = number::parse(text::trim(io).as_str(), u32::MAX as u64);
    match (cpu, io) {
        (Some(cpu), Some(io)) => Some(CgroupWeight::new(cpu as u32, io as u32)),
        _ => None,
    }
}

/// Whether files give a cgroup a weight.
pub open spec fn gives_weight(files: WeightFiles, cgroup: Seq<char>, weight: CgroupWeight) -> bool {
    &&& are_weight_paths(cgroup, files.cpu_path@, files.io_path@)
    &&& files.cpu@ == number::decimal(weight.cpu as int)
    &&& files.io@ == number::decimal(weight.io as int)
}

/// What is written to which file to give a cgroup a weight. A path that is not one of a cgroup gets none.
pub fn write_weight(cgroup: &str, weight: CgroupWeight) -> (r: Option<WeightFiles>)
    ensures
        match r {
            Some(files) => gives_weight(files, cgroup@, weight),
            None => has_no_weights(cgroup@),
        },
{
    match weight_paths(cgroup) {
        Some((cpu_path, io_path)) => Some(
            WeightFiles {
                cpu_path,
                cpu: number::format_decimal(weight.cpu as u64),
                io_path,
                io: number::format_decimal(weight.io as u64),
            },
        ),
        None => None,
    }
}

/// Whether a weight counts as written, given which of the two files were.
pub open spec fn is_written(cpu: bool, io: bool) -> bool {
    cpu || io
}

/// Whether a weight counts as written: one of the two files is enough.
pub fn weight_written(cpu: bool, io: bool) -> (r: bool)
    ensures
        r == is_written(cpu, io),
{
    cpu || io
}

/// The weights that cgroups were given.
pub struct State {
    /// Weights by cgroup.
    pub applied: TextMap<AppliedWeight>,
}

/// Whether the steps are those that lead from what cgroups were given to what is wanted, and a later state is the
/// one in which they are taken.
pub open spec fn reconciled(
    before: State,
    after: State,
    config: Option<CgroupWeights>,
    desired: TextMap<CgroupWeight>,
    taken: Seq<WeightStep>,
) -> bool {
    match config {
        Some(config) if config.enable => {
            &&& after.applied@ == before.applied@.restrict(desired@.dom())
            &&& taken == restores(before.applied.entries@, desired@) + changes(
                desired.entries@,
                before.applied@,
                config.default,
            )
        },
        _ => {
            &&& after.applied@ == Map::<Seq<char>, AppliedWeight>::empty()
            &&& taken == restores(before.applied.entries@, Map::empty())
        },
    }
}

impl State {
    /// The weights are in order.
    pub open spec fn wf(&self) -> bool {
        self.applied.wf()
    }

    /// No cgroup was given a weight.
    pub fn new() -> (r: Self)
        ensures
            r.wf(),
            r.applied.entries@.len() == 0,
            r.applied@ == Map::<Seq<char>, AppliedWeight>::empty(),
    {
        State { applied: TextMap::new() }
    }

    /// Says what is to be done so that the wanted cgroups have the wanted weights, and all others the weight that
    /// they had. When cgroups are not weighted, none is wanted.
    pub fn reconcile(&mut self, config: Option<CgroupWeights>, desired: &TextMap<CgroupWeight>) -> (r: Vec<
        WeightAction,
    >)
        requires
            old(self).wf(),
            desired.wf(),
        ensures
            final(self).wf(),
            reconciled(*old(self), *final(self), config, *desired, steps(r@)),
    {
        let ghost before = self.applied@;
        let config: CgroupWeights = match config {
            Some(config) if config.enable => config,
            _ => {
                let none: TextMap<CgroupWeight> = TextMap::new();
                let actions = self.restore_stale(&none);
                proof {
                    assert(before.restrict(none@.dom()) =~= Map::empty());
                }
                return actions;
            },
        };
        let mut actions: Vec<WeightAction> = self.restore_stale(desired);
        let ghost restored = steps(actions@);
        let ghost kept = self.applied@;
        let mut i: usize = 0;
        proof {
            assert(changes(desired.entries@.take(0), before, config.default) =~= Seq::empty());
            assert(steps(actions@) =~= restored + changes(desired.entries@.take(0), before, config.default));
        }
        while i < desired.entries.len()
            invariant
                self.wf(),
                desired.wf(),
                self.applied@ == kept,
                kept == before.restrict(desired@.dom()),
                i <= desired.entries@.len(),
                steps(actions@) == restored + changes(desired.entries@.take(i as int), before, config.default),
            decreases desired.entries@.len() - i,
        {
            let ghost done = steps(actions@);
            let ghost part = desired.entries@.take(i + 1);
            let weight: CgroupWeight = desired.entries[i].1;
            let name: &String = &desired.entries[i].0;
            proof {
                assert(part.drop_last() =~= desired.entries@.take(i as int));
                assert(part.last() == desired.entries@[i as int]);
                desired.lemma_at(i as int);
                assert(before.contains_key(name@) == kept.contains_key(name@));
            }
            match self.applied.get(name.as_str()) {
                Some(applied) => {
                    if applied.current != weight {
                        actions.push(WeightAction::Adjust { cgroup: name.clone(), weight });
                        proof {
                            assert(steps(actions@) =~= done.push(WeightStep::Adjust { cgroup: name@, weight }));
                        }
                    }
                },
                None => {
                    actions.push(WeightAction::Take { cgroup: name.clone(), weight, default: config.default });
                    proof {
                        assert(steps(actions@) =~= done.push(
                            WeightStep::Take { cgroup: name@, weight, default: config.default },
                        ));
                    }
                },
            }
            proof {
                assert(steps(actions@) =~= restored + changes(part, before, config.default));
            }
            i += 1;
        }
        proof {
            assert(desired.entries@.take(i as int) =~= desired.entries@);
        }
        actions
    }

    /// Forgets the cgroups that are not wanted, and says how they get their first weight back.
    fn restore_stale(&mut self, desired: &TextMap<CgroupWeight>) -> (r: Vec<WeightAction>)
        requires
            old(self).wf(),
            desired.wf(),
        ensures
            final(self).wf(),
            final(self).applied@ == old(self).applied@.restrict(desired@.dom()),
            steps(r@) == restores(old(self).applied.entries@, desired@),
    {
        let ghost before = *self;
        let ghost entries = self.applied.entries@;
        let mut actions: Vec<WeightAction> = Vec::new();
        let mut stale: Vec<String> = Vec::new();
        let mut i: usize = 0;
        proof {
            assert(steps(actions@) =~= restores(entries.take(0), desired@));
        }
        while i < self.applied.entries.len()
            invariant
                *self == before,
                before.wf(),
                desired.wf(),
                entries == before.applied.entries@,
                i <= entries.len(),
                steps(actions@) == restores(entries.take(i as int), desired@),
                forall|j: int| 0 <= j < stale@.len() ==> !desired@.contains_key(#[trigger] stale@[j]@),
                forall|k: int|
                    0 <= k < i && !desired@.contains_key(#[trigger] before.applied.key_at(k)) ==> text::texts(
                        stale@,
                    ).contains(before.applied.key_at(k)),
            decreases entries.len() - i,
        {
            let ghost done = steps(actions@);
            let ghost part = entries.take(i + 1);
            let ghost listed = stale@;
            let name: &String = &self.applied.entries[i].0;
            proof {
                assert(part.drop_last() =~= entries.take(i as int));
                assert(part.last() == entries[i as int]);
            }
            if !desired.contains_key(name.as_str()) {
                let weight: CgroupWeight = self.applied.entries[i].1.previous;
                actions.push(WeightAction::Restore { cgroup: name.clone(), weight });
                stale.push(name.clone());
                proof {
                    assert(steps(actions@) =~= done.push(WeightStep::Restore { cgroup: name@, weight }));
                    assert(text::texts(stale@) =~= text::texts(listed).push(name@));
                    assert(text::texts(stale@)[listed.len() as int] == name@);
                    assert forall|k: int|
                        0 <= k < i && !desired@.contains_key(#[trigger] before.applied.key_at(k)) implies text::texts(
                        stale@,
                    ).contains(before.applied.key_at(k)) by {
                        let t = text::texts(listed);
                        let j = choose|j: int| 0 <= j < t.len() && t[j] == before.applied.key_at(k);
                        assert(text::texts(stale@)[j] == t[j]);
                    }
                }
            }
            i += 1;
        }
        proof {
            assert(entries.take(i as int) =~= entries);
        }
        let mut n: usize = 0;
        while n < stale.len()
            invariant
                self.wf(),
                before.wf(),
                n <= stale@.len(),
                forall|key: Seq<char>| #[trigger]
                    self.applied@.contains_key(key) ==> before.applied@.contains_key(key) && self.applied@[key]
                        == before.applied@[key],
                forall|key: Seq<char>|
                    before.applied@.contains_key(key) && !#[trigger] self.applied@.contains_key(key)
                        ==> !desired@.contains_key(key),
                forall|j: int| 0 <= j < n ==> !self.applied@.contains_key(#[trigger] stale@[j]@),
                forall|j: int| 0 <= j < stale@.len() ==> !desired@.contains_key(#[trigger] stale@[j]@),
            decreases stale@.len() - n,
        {
            let _ = self.applied.remove(stale[n].as_str());
            n += 1;
        }
        proof {
            assert forall|key: Seq<char>| self.applied@.contains_key(key) implies desired@.contains_key(key) by {
                assert(before.applied@.contains_key(key));
                let k = choose|k: int| before.applied.holds_at(key, k);
                assert(before.applied.key_at(k) == key);
                if !desired@.contains_key(key) {
                    let t = text::texts(stale@);
                    let j = choose|j: int| 0 <= j < t.len() && t[j] == key;
                    assert(stale@[j]@ == key);
                }
            }
            assert(self.applied@ =~= before.applied@.restrict(desired@.dom()));
        }
        actions
    }

    /// Takes note of an action that worked. `previous` is the weight that was read before it.
    pub fn confirm(&mut self, action: WeightAction, previous: Option<CgroupWeight>)
        requires
            old(self).wf(),
        ensures
            final(self).wf(),
            final(self).applied@ == confirmed(old(self).applied@, action@, previous),
    {
        match action {
            WeightAction::Restore { .. } => {},
            WeightAction::Adjust { cgroup, weight } => {
                let held: Option<CgroupWeight> = match self.applied.get(cgroup.as_str()) {
                    Some(applied) => Some(applied.previous),
                    None => None,
                };
                if let Some(previous) = held {
                    self.applied.insert(cgroup, AppliedWeight { previous, current: weight });
                }
            },
            WeightAction::Take { cgroup, weight, default } => {
                let previous: CgroupWeight = match previous {
                    Some(previous) => previous,
                    None => default,
                };
                self.applied.insert(cgroup, AppliedWeight { previous, current: weight });
            },
        }
    }
}

/// The cgroup that a step is about.
pub open spec fn step_cgroup(step: WeightStep) -> Seq<char> {
    match step {
        WeightStep::Restore { cgroup, .. } => cgroup,
        WeightStep::Adjust { cgroup, .. } => cgroup,
        WeightStep::Take { cgroup, .. } => cgroup,
    }
}

/// What is known of the cgroups when steps have worked one after the other. `previous` is what was read of a cgroup.
pub open spec fn all_confirmed(
    applied: Map<Seq<char>, AppliedWeight>,
    taken: Seq<WeightStep>,
    previous: spec_fn(Seq<char>) -> Option<CgroupWeight>,
) -> Map<Seq<char>, AppliedWeight>
    decreases taken.len(),
{
    if taken.len() == 0 {
        applied
    } else {
        confirmed(
            all_confirmed(applied, taken.drop_last(), previous),
            taken.last(),
            previous(step_cgroup(taken.last())),
        )
    }
}

/// The weights of a cgroup that is wanted to have a weight, when the steps towards it have worked: it has the wanted
/// weight, and what it had at first is what was known, else what was read, else the default.
pub open spec fn settled_weights(
    applied: Map<Seq<char>, AppliedWeight>,
    weight: CgroupWeight,
    read: Option<CgroupWeight>,
    default: CgroupWeight,
    cgroup: Seq<char>,
) -> AppliedWeight {
    AppliedWeight {
        previous: if applied.contains_key(cgroup) {
            applied[cgroup].previous
        } else {
            match read {
                Some(weight) => weight,
                None => default,
            }
        },
        current: weight,
    }
}

/// When the steps towards the wanted weights have worked, the cgroups that are known are those that are wanted, with
/// the wanted weights, and what a cgroup had at first is not forgotten.
pub proof fn lemma_reconcile_settles(
    desired: TextMap<CgroupWeight>,
    applied: Map<Seq<char>, AppliedWeight>,
    default: CgroupWeight,
    previous: spec_fn(Seq<char>) -> Option<CgroupWeight>,
)
    requires
        desired.wf(),
    ensures
        all_confirmed(applied.restrict(desired@.dom()), changes(desired.entries@, applied, default), previous)
            == Map::new(
            |cgroup: Seq<char>| desired@.contains_key(cgroup),
            |cgroup: Seq<char>| settled_weights(applied, desired@[cgroup], previous(cgroup), default, cgroup),
        ),
{
    let kept = applied.restrict(desired@.dom());
    let n = desired.entries@.len() as int;
    let after = all_confirmed(kept, changes(desired.entries@, applied, default), previous);
    lemma_settles_up_to(desired, applied, default, previous, n);
    assert(desired.entries@.take(n) =~= desired.entries@);
    let stated = Map::new(
        |cgroup: Seq<char>| desired@.contains_key(cgroup),
        |cgroup: Seq<char>| settled_weights(applied, desired@[cgroup], previous(cgroup), default, cgroup),
    );
    assert forall|cgroup: Seq<char>| #[trigger] after.contains_key(cgroup) == stated.contains_key(cgroup) by {
        if desired.has(cgroup) {
            let i = choose|i: int| desired.holds_at(cgroup, i);
            assert(among(desired, n, cgroup));
        }
    }
    assert forall|cgroup: Seq<char>| #[trigger] after.contains_key(cgroup) implies after[cgroup] == stated[cgroup] by {
        let i = choose|i: int| desired.holds_at(cgroup, i);
        assert(among(desired, n, cgroup));
    }
    assert(after =~= stated);
}

/// Whether a cgroup is among the first wanted ones.
spec fn among(desired: TextMap<CgroupWeight>, n: int, cgroup: Seq<char>) -> bool {
    exists|i: int| i < n && desired.holds_at(cgroup, i)
}

proof fn lemma_settles_up_to(
    desired: TextMap<CgroupWeight>,
    applied: Map<Seq<char>, AppliedWeight>,
    default: CgroupWeight,
    previous: spec_fn(Seq<char>) -> Option<CgroupWeight>,
    n: int,
)
    requires
        desired.wf(),
        0 <= n <= desired.entries@.len(),
    ensures
        ({
            let kept = applied.restrict(desired@.dom());
            let after = all_confirmed(kept, changes(desired.entries@.take(n), applied, default), previous);
            &&& forall|cgroup: Seq<char>| #[trigger]
                after.contains_key(cgroup) <==> among(desired, n, cgroup) || kept.contains_key(cgroup)
            &&& forall|cgroup: Seq<char>| #[trigger]
                after.contains_key(cgroup) ==> after[cgroup] == (if among(desired, n, cgroup) {
                    settled_weights(applied, desired@[cgroup], previous(cgroup), default, cgroup)
                } else {
                    applied[cgroup]
                })
        }),
    decreases n,
{
    let kept = applied.restrict(desired@.dom());
    if n > 0 {
        let part = desired.entries@.take(n);
        let name = desired.key_at(n - 1);
        assert(part.drop_last() =~= desired.entries@.take(n - 1));
        lemma_settles_up_to(desired, applied, default, previous, n - 1);
        let before_steps = changes(part.drop_last(), applied, default);
        let steps_now = changes(part, applied, default);
        let before = all_confirmed(kept, before_steps, previous);
        let after = all_confirmed(kept, steps_now, previous);
        desired.lemma_at(n - 1);
        assert(!among(desired, n - 1, name)) by {
            if among(desired, n - 1, name) {
                let i = choose|i: int| i < n - 1 && desired.holds_at(name, i);
                desired.lemma_unique(i, n - 1);
            }
        }
        assert forall|cgroup: Seq<char>| #[trigger]
            among(desired, n, cgroup) == (among(desired, n - 1, cgroup) || cgroup == name) by {
            if among(desired, n, cgroup) {
                let i = choose|i: int| i < n && desired.holds_at(cgroup, i);
                if i < n - 1 {
                    assert(among(desired, n - 1, cgroup));
                }
            }
            if among(desired, n - 1, cgroup) {
                let i = choose|i: int| i < n - 1 && desired.holds_at(cgroup, i);
                assert(i < n && desired.holds_at(cgroup, i));
            }
            assert(desired.holds_at(name, n - 1));
        }
        assert(before.contains_key(name) == applied.contains_key(name));
        if steps_now.len() > before_steps.len() {
            assert(steps_now.drop_last() =~= before_steps);
            assert(after == confirmed(before, steps_now.last(), previous(name)));
        }
    } else {
        assert(desired.entries@.take(0) =~= Seq::empty());
        assert(changes(desired.entries@.take(0), applied, default) =~= Seq::empty());
    }
}

/// When cgroups have the wanted weights there is nothing to be done.
pub proof fn lemma_settled_stays(state: State, desired: TextMap<CgroupWeight>, default: CgroupWeight)
    requires
        state.wf(),
        desired.wf(),
        state.applied@.dom() == desired@.dom(),
        forall|cgroup: Seq<char>| #[trigger]
            desired@.contains_key(cgroup) ==> state.applied@[cgroup].current == desired@[cgroup],
    ensures
        restores(state.applied.entries@, desired@).len() == 0,
        changes(desired.entries@, state.applied@, default).len() == 0,
{
    assert forall|i: int| 0 <= i < state.applied.entries@.len() implies desired@.contains_key(
        (#[trigger] state.applied.entries@[i]).0@,
    ) by {
        state.applied.lemma_at(i);
        assert(state.applied@.dom().contains(state.applied.key_at(i)));
    }
    lemma_no_restores(state.applied.entries@, desired@);
    assert forall|i: int| 0 <= i < desired.entries@.len() implies state.applied@.contains_key(
        (#[trigger] desired.entries@[i]).0@,
    ) && state.applied@[desired.entries@[i].0@].current == desired.entries@[i].1 by {
        desired.lemma_at(i);
        assert(desired@.dom().contains(desired.key_at(i)));
        assert(state.applied@.dom().contains(desired.key_at(i)));
    }
    lemma_no_changes(desired.entries@, state.applied@, default);
}

proof fn lemma_no_restores(applied: Seq<(String, AppliedWeight)>, wanted: Map<Seq<char>, CgroupWeight>)
    requires
        forall|i: int| 0 <= i < applied.len() ==> wanted.contains_key((#[trigger] applied[i]).0@),
    ensures
        restores(applied, wanted).len() == 0,
    decreases applied.len(),
{
    if applied.len() > 0 {
        let head = applied.drop_last();
        assert forall|i: int| 0 <= i < head.len() implies wanted.contains_key((#[trigger] head[i]).0@) by {
            assert(head[i] == applied[i]);
        }
        lemma_no_restores(head, wanted);
        assert(wanted.contains_key(applied[applied.len() - 1].0@));
    }
}

proof fn lemma_no_changes(
    wanted: Seq<(String, CgroupWeight)>,
    applied: Map<Seq<char>, AppliedWeight>,
    default: CgroupWeight,
)
    requires
        forall|i: int|
            0 <= i < wanted.len() ==> applied.contains_key((#[trigger] wanted[i]).0@) && applied[wanted[i].0@].current
                == wanted[i].1,
    ensures
        changes(wanted, applied, default).len() == 0,
    decreases wanted.len(),
{
    if wanted.len() > 0 {
        let head = wanted.drop_last();
        assert forall|i: int| 0 <= i < head.len() implies applied.contains_key((#[trigger] head[i]).0@)
            && applied[head[i].0@].current == head[i].1 by {
            assert(head[i] == wanted[i]);
        }
        lemma_no_changes(head, applied, default);
        assert(applied.contains_key(wanted[wanted.len() - 1].0@));
    }
}

/// When cgroups are no longer weighted, each gets the weight back that it had at first.
pub proof fn lemma_all_restored(applied: Seq<(String, AppliedWeight)>)
    ensures
        restores(applied, Map::empty()) == applied.map_values(
            |entry: (String, AppliedWeight)| WeightStep::Restore { cgroup: entry.0@, weight: entry.1.previous },
        ),
    decreases applied.len(),
{
    let to_step = |entry: (String, AppliedWeight)|
        WeightStep::Restore { cgroup: entry.0@, weight: entry.1.previous };
    if applied.len() > 0 {
        lemma_all_restored(applied.drop_last());
    }
    assert(restores(applied, Map::empty()) =~= applied.map_values(to_step));
}

/// The steps that are taken depend on the wanted weights alone.
pub proof fn lemma_steps_determined(
    before: State,
    config: Option<CgroupWeights>,
    a: TextMap<CgroupWeight>,
    b: TextMap<CgroupWeight>,
    after_a: State,
    after_b: State,
    taken_a: Seq<WeightStep>,
    taken_b: Seq<WeightStep>,
)
    requires
        a.wf(),
        b.wf(),
        a@ == b@,
        reconciled(before, after_a, config, a, taken_a),
        reconciled(before, after_b, config, b, taken_b),
    ensures
        taken_a == taken_b,
        after_a.applied@ == after_b.applied@,
{
    TextMap::lemma_same_entries(a, b);
    if let Some(config) = config {
        lemma_changes_up_to(a, b, before.applied@, config.default, a.entries@.len() as int);
        assert(a.entries@.take(a.entries@.len() as int) =~= a.entries@);
        assert(b.entries@.take(b.entries@.len() as int) =~= b.entries@);
    }
}

proof fn lemma_changes_up_to(
    a: TextMap<CgroupWeight>,
    b: TextMap<CgroupWeight>,
    applied: Map<Seq<char>, AppliedWeight>,
    default: CgroupWeight,
    n: int,
)
    requires
        0 <= n <= a.entries@.len(),
        a.entries@.len() == b.entries@.len(),
        forall|i: int|
            0 <= i < a.entries@.len() ==> #[trigger] a.key_at(i) == b.key_at(i) && a.entries@[i].1 == b.entries@[i].1,
    ensures
        changes(a.entries@.take(n), applied, default) == changes(b.entries@.take(n), applied, default),
    decreases n,
{
    if n > 0 {
        lemma_changes_up_to(a, b, applied, default, n - 1);
        assert(a.entries@.take(n).drop_last() =~= a.entries@.take(n - 1));
        assert(b.entries@.take(n).drop_last() =~= b.entries@.take(n - 1));
        assert(a.key_at(n - 1) == b.key_at(n - 1));
    }
}

/// A number as the text that its decimal notation is.
pub open spec fn digits_text(n: u32) -> Seq<char> {
    number::decimal(n as int).map_values(|b: u8| b as char)
}

/// A weight is read back from what is written to the files, with a line break behind it or without.
pub proof fn lemma_weight_read_back(weight: CgroupWeight)
    ensures
        weight_in(digits_text(weight.cpu), digits_text(weight.io)) == Some(weight),
        weight_in(digits_text(weight.cpu).push('\n'), digits_text(weight.io).push('\n')) == Some(weight),
{
    lemma_digits_text(weight.cpu);
    lemma_digits_text(weight.io);
}

proof fn lemma_digits_text(n: u32)
    ensures
        number::parsed(text::trimmed(digits_text(n)), u32::MAX as int) == Some(n as int),
        number::parsed(text::trimmed(digits_text(n).push('\n')), u32::MAX as int) == Some(n as int),
{
    let ascii = number::decimal(n as int);
    let digits = digits_text(n);
    number::lemma_decimal(n as int);
    assert forall|i: int| 0 <= i < digits.len() implies number::is_digit(#[trigger] digits[i]) by {
        assert(number::is_ascii_digit(ascii[i]));
    }
    assert(number::is_digit(digits[0]));
    assert(number::is_digit(digits[digits.len() - 1]));
    text::lemma_trimmed_plain(digits);
    number::lemma_value_of_ascii(ascii);
}

} // verus!

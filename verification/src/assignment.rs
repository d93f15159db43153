//! Which profile the configuration assigns to a process.

use vstd::prelude::*;

use crate::process;
use crate::process::{Process, ProcessMap};
use crate::scheduler;
use crate::scheduler::{Assignments, Condition, Profile, ProfileRules, TextMatcher};
use crate::service::OwnedPriority;
use crate::text;

verus! {

/// Whether a process has an ancestor whose name a rule accepts.
pub open spec fn descends_from<M: TextMatcher>(list: Seq<Process>, process: Process, rule: M) -> bool {
    process::has_ancestor(list, process, |ancestor: Process| rule.accepts(ancestor.name@))
}

/// Whether a process meets all demands of a condition.
pub open spec fn condition_met<M: TextMatcher>(list: Seq<Process>, process: Process, condition: Condition<M>) -> bool {
    &&& condition.cgroup matches Some(rule) ==> rule.accepts(process.cgroup@)
    &&& condition.name matches Some(rule) ==> rule.accepts(process.name@)
    &&& condition.parent@.len() > 0 ==> (process::parent_of(list, process) matches Some(parent)
        && scheduler::any_accepts(condition.parent@, parent.name@))
    &&& condition.descends matches Some(rule) ==> descends_from(list, process, rule)
}

/// Whether a process meets a condition by which it gets a profile, and none that keeps it from the profile.
pub open spec fn rules_apply<M: TextMatcher>(list: Seq<Process>, process: Process, rules: ProfileRules<M>) -> bool {
    &&& exists|i: int|
        0 <= i < rules.conditions@.len() && (#[trigger] rules.conditions@[i]).1 && condition_met(
            list,
            process,
            rules.conditions@[i].0,
        )
    &&& forall|i: int|
        0 <= i < rules.conditions@.len() && !(#[trigger] rules.conditions@[i]).1 ==> !condition_met(
            list,
            process,
            rules.conditions@[i].0,
        )
}

/// The first profile whose rules apply to a process.
pub open spec fn first_applying<M: TextMatcher>(
    list: Seq<Process>,
    process: Process,
    rules: Seq<(String, ProfileRules<M>)>,
) -> Option<Profile>
    decreases rules.len(),
{
    if rules.len() == 0 {
        None
    } else if rules_apply(list, process, rules[0].1) {
        Some(rules[0].1.profile)
    } else {
        first_applying(list, process, rules.skip(1))
    }
}

/// Whether a rule accepts the name of a process, or the one that it had before.
pub open spec fn names_accepted<M: TextMatcher>(rule: M, process: Process) -> bool {
    rule.accepts(process.name@) || rule.accepts(process.forked_name@)
}

/// Whether a process is left alone by a condition. What the condition demands of its cgroup and name is not
/// looked at.
pub open spec fn excepted_by<M: TextMatcher>(list: Seq<Process>, process: Process, condition: Condition<M>) -> bool {
    &&& condition.descends matches Some(rule) ==> {
        ||| rule.accepts(process.forked_name@)
        ||| process::has_ancestor(list, process, |ancestor: Process| names_accepted(rule, ancestor))
    }
    &&& condition.parent@.len() > 0 ==> exists|i: int|
        0 <= i < condition.parent@.len() && (process::parent_of(list, process) matches Some(parent) && names_accepted(
            #[trigger] condition.parent@[i],
            parent,
        ))
}

/// Whether a process is left alone.
pub open spec fn is_exception<M: TextMatcher>(
    list: Seq<Process>,
    process: Process,
    assignments: Assignments<M>,
) -> bool {
    ||| scheduler::any_accepts(assignments.exceptions_cmdlines@, process.cmdline@)
    ||| scheduler::any_accepts(assignments.exceptions_names@, process.name@)
    ||| exists|i: int|
        0 <= i < assignments.exceptions_conditions@.len() && excepted_by(
            list,
            process,
            #[trigger] assignments.exceptions_conditions@[i],
        )
}

/// The priority that the configuration gives to a process.
pub open spec fn configured_priority<M: TextMatcher>(
    list: Seq<Process>,
    process: Process,
    assignments: Assignments<M>,
) -> OwnedPriority {
    if is_exception(list, process, assignments) {
        OwnedPriority::Exception
    } else if let Some(profile) = scheduler::first_profile(assignments.cmdlines@, process.cmdline@) {
        OwnedPriority::Config(profile)
    } else if let Some(profile) = scheduler::first_profile(assignments.names@, process.name@) {
        OwnedPriority::Config(profile)
    } else if process.cgroup@.len() == 0 {
        OwnedPriority::NotAssignable
    } else if let Some(profile) = first_applying(list, process, assignments.conditions.entries@) {
        OwnedPriority::Config(profile)
    } else {
        OwnedPriority::Assignable
    }
}

/// A process with the priority that the configuration gives it, unless one was decided on before.
pub open spec fn assigned<M: TextMatcher>(
    list: Seq<Process>,
    process: Process,
    assignments: Assignments<M>,
) -> Process {
    if process.assigned_priority is NotAssignable {
        Process { assigned_priority: configured_priority(list, process, assignments), ..process }
    } else {
        process
    }
}

/// Whether a process meets a condition does not depend on what was decided on processes.
proof fn lemma_condition_alike<M: TextMatcher>(
    a: Seq<Process>,
    b: Seq<Process>,
    p: Process,
    q: Process,
    condition: Condition<M>,
)
    requires
        process::lists_alike(a, b),
        process::distinct(a),
        process::alike(p, q),
    ensures
        condition_met(a, p, condition) == condition_met(b, q, condition),
        excepted_by(a, p, condition) == excepted_by(b, q, condition),
{
    process::lemma_parent_alike(a, b, p, q);
    if let Some(rule) = condition.descends {
        process::lemma_has_ancestor_alike(a, b, p, q, |ancestor: Process| rule.accepts(ancestor.name@));
        process::lemma_has_ancestor_alike(a, b, p, q, |ancestor: Process| names_accepted(rule, ancestor));
    }
    if excepted_by(a, p, condition) && condition.parent@.len() > 0 {
        let i = choose|i: int|
            0 <= i < condition.parent@.len() && (process::parent_of(a, p) matches Some(parent) && names_accepted(
                #[trigger] condition.parent@[i],
                parent,
            ));
        assert(names_accepted(condition.parent@[i], process::parent_of(b, q)->0));
    }
    if excepted_by(b, q, condition) && condition.parent@.len() > 0 {
        let i = choose|i: int|
            0 <= i < condition.parent@.len() && (process::parent_of(b, q) matches Some(parent) && names_accepted(
                #[trigger] condition.parent@[i],
                parent,
            ));
        assert(names_accepted(condition.parent@[i], process::parent_of(a, p)->0));
    }
}

proof fn lemma_applying_alike<M: TextMatcher>(
    a: Seq<Process>,
    b: Seq<Process>,
    p: Process,
    q: Process,
    rules: Seq<(String, ProfileRules<M>)>,
)
    requires
        process::lists_alike(a, b),
        process::distinct(a),
        process::alike(p, q),
    ensures
        first_applying(a, p, rules) == first_applying(b, q, rules),
    decreases rules.len(),
{
    if rules.len() > 0 {
        let conditions = rules[0].1.conditions@;
        assert forall|i: int| 0 <= i < conditions.len() implies condition_met(a, p, (#[trigger] conditions[i]).0)
            == condition_met(b, q, conditions[i].0) by {
            lemma_condition_alike(a, b, p, q, conditions[i].0);
        }
        lemma_applying_alike(a, b, p, q, rules.skip(1));
    }
}

/// The priority that the configuration gives to a process does not depend on what was decided on processes.
pub proof fn lemma_priority_alike<M: TextMatcher>(
    a: Seq<Process>,
    b: Seq<Process>,
    p: Process,
    q: Process,
    assignments: Assignments<M>,
)
    requires
        process::lists_alike(a, b),
        process::distinct(a),
        process::alike(p, q),
    ensures
        configured_priority(a, p, assignments) == configured_priority(b, q, assignments),
{
    let conditions = assignments.exceptions_conditions@;
    assert forall|i: int| 0 <= i < conditions.len() implies excepted_by(a, p, #[trigger] conditions[i])
        == excepted_by(b, q, conditions[i]) by {
        lemma_condition_alike(a, b, p, q, conditions[i]);
    }
    assert(is_exception(a, p, assignments) == is_exception(b, q, assignments)) by {
        if is_exception(a, p, assignments) != is_exception(b, q, assignments) {
            if exists|i: int| 0 <= i < conditions.len() && excepted_by(a, p, #[trigger] conditions[i]) {
                let i = choose|i: int| 0 <= i < conditions.len() && excepted_by(a, p, #[trigger] conditions[i]);
                assert(excepted_by(b, q, conditions[i]));
            }
            if exists|i: int| 0 <= i < conditions.len() && excepted_by(b, q, #[trigger] conditions[i]) {
                let i = choose|i: int| 0 <= i < conditions.len() && excepted_by(b, q, #[trigger] conditions[i]);
                assert(excepted_by(a, p, conditions[i]));
            }
        }
    }
    lemma_applying_alike(a, b, p, q, assignments.conditions.entries@);
}

/// Whether a process has an ancestor whose name a rule accepts.
fn has_named_ancestor<M: TextMatcher>(map: &ProcessMap, process: &Process, rule: &M) -> (r: bool)
    requires
        map.wf(),
    ensures
        r == descends_from(map.processes@, *process, *rule),
{
    let ghost list = map.processes@;
    let ghost kind = |ancestor: Process| rule.accepts(ancestor.name@);
    let up: Vec<usize> = map.ancestors(process);
    proof {
        process::lemma_has_ancestor(list, *process, up@, kind);
    }
    let mut i: usize = 0;
    while i < up.len()
        invariant
            i <= up@.len(),
            list == map.processes@,
            process::walks(list, *process, up@),
            kind == (|ancestor: Process| rule.accepts(ancestor.name@)),
            forall|j: int| 0 <= j < i ==> !kind(list[(#[trigger] up@[j]) as int]),
        decreases up@.len() - i,
    {
        if rule.matches(map.processes[up[i]].name.as_str()) {
            proof {
                process::lemma_has_ancestor(list, *process, up@, kind);
                assert(kind(list[up@[i as int] as int]));
            }
            return true;
        }
        i += 1;
    }
    false
}

/// Whether a process meets all demands of a condition.
pub fn meets_condition<M: TextMatcher>(map: &ProcessMap, process: &Process, condition: &Condition<M>) -> (r: bool)
    requires
        map.wf(),
    ensures
        r == condition_met(map.processes@, *process, *condition),
{
    if let Some(cgroup) = &condition.cgroup {
        if !cgroup.matches(process.cgroup.as_str()) {
            return false;
        }
    }
    if let Some(name) = &condition.name {
        if !name.matches(process.name.as_str()) {
            return false;
        }
    }
    if condition.parent.len() > 0 {
        let has_parent: bool = match map.parent(process) {
            Some(parent) => scheduler::any_matches(&condition.parent, parent.name.as_str()),
            None => false,
        };
        if !has_parent {
            return false;
        }
    }
    if let Some(descends) = &condition.descends {
        if !has_named_ancestor(map, process, descends) {
            return false;
        }
    }
    true
}

/// Whether the rules of a profile apply to a process.
fn meets_rules<M: TextMatcher>(map: &ProcessMap, process: &Process, rules: &ProfileRules<M>) -> (r: bool)
    requires
        map.wf(),
    ensures
        r == rules_apply(map.processes@, *process, *rules),
{
    let ghost list = map.processes@;
    let ghost conditions = rules.conditions@;
    let mut found = false;
    let mut i: usize = 0;
    while i < rules.conditions.len()
        invariant
            map.wf(),
            list == map.processes@,
            conditions == rules.conditions@,
            i <= conditions.len(),
            found <==> exists|j: int|
                0 <= j < i && (#[trigger] conditions[j]).1 && condition_met(list, *process, conditions[j].0),
            forall|j: int|
                0 <= j < i && !(#[trigger] conditions[j]).1 ==> !condition_met(list, *process, conditions[j].0),
        decreases conditions.len() - i,
    {
        let met: bool = meets_condition(map, process, &rules.conditions[i].0);
        match (met, rules.conditions[i].1) {
            (true, true) => {
                found = true;
                proof {
                    assert(conditions[i as int].1 && condition_met(list, *process, conditions[i as int].0));
                }
            },
            (true, false) => {
                proof {
                    assert(!conditions[i as int].1 && condition_met(list, *process, conditions[i as int].0));
                }
                return false;
            },
            _ => {},
        }
        i += 1;
    }
    found
}

/// The first profile whose rules apply to a process.
fn find_applying<'a, M: TextMatcher>(
    map: &ProcessMap,
    process: &Process,
    rules: &'a Vec<(String, ProfileRules<M>)>,
) -> (r: Option<&'a Profile>)
    requires
        map.wf(),
    ensures
        r is Some <==> first_applying(map.processes@, *process, rules@) is Some,
        r matches Some(profile) ==> first_applying(map.processes@, *process, rules@) == Some(*profile),
{
    let ghost list = map.processes@;
    let mut i: usize = 0;
    proof {
        assert(rules@.skip(0) =~= rules@);
    }
    while i < rules.len()
        invariant
            map.wf(),
            list == map.processes@,
            i <= rules@.len(),
            first_applying(list, *process, rules@) == first_applying(list, *process, rules@.skip(i as int)),
        decreases rules@.len() - i,
    {
        if meets_rules(map, process, &rules[i].1) {
            return Some(&rules[i].1.profile);
        }
        proof {
            assert(rules@.skip(i as int).skip(1) =~= rules@.skip(i + 1));
        }
        i += 1;
    }
    None
}

/// Whether a rule accepts one of the names of a process.
fn matches_names<M: TextMatcher>(rule: &M, process: &Process) -> (r: bool)
    ensures
        r == names_accepted(*rule, *process),
{
    rule.matches(process.name.as_str()) || rule.matches(process.forked_name.as_str())
}

/// Whether a process is left alone by a condition.
fn meets_exception<M: TextMatcher>(map: &ProcessMap, process: &Process, condition: &Condition<M>) -> (r: bool)
    requires
        map.wf(),
    ensures
        r == excepted_by(map.processes@, *process, *condition),
{
    let ghost list = map.processes@;
    if let Some(rule) = &condition.descends {
        if !rule.matches(process.forked_name.as_str()) {
            let ghost kind = |ancestor: Process| names_accepted(*rule, ancestor);
            let up: Vec<usize> = map.ancestors(process);
            let mut found = false;
            let mut i: usize = 0;
            while i < up.len()
                invariant
                    i <= up@.len(),
                    list == map.processes@,
                    process::walks(list, *process, up@),
                    kind == (|ancestor: Process| names_accepted(*rule, ancestor)),
                    found <==> exists|j: int| 0 <= j < i && kind(list[(#[trigger] up@[j]) as int]),
                decreases up@.len() - i,
            {
                if matches_names(rule, &map.processes[up[i]]) {
                    found = true;
                    proof {
                        assert(kind(list[up@[i as int] as int]));
                    }
                }
                i += 1;
            }
            proof {
                process::lemma_has_ancestor(list, *process, up@, kind);
            }
            if !found {
                return false;
            }
        }
    }
    if condition.parent.len() > 0 {
        let parent: &Process = match map.parent(process) {
            Some(parent) => parent,
            None => return false,
        };
        let mut found = false;
        let mut i: usize = 0;
        while i < condition.parent.len()
            invariant
                i <= condition.parent@.len(),
                found <==> exists|j: int| 0 <= j < i && names_accepted(#[trigger] condition.parent@[j], *parent),
            decreases condition.parent@.len() - i,
        {
            if matches_names(&condition.parent[i], parent) {
                found = true;
                proof {
                    assert(names_accepted(condition.parent@[i as int], *parent));
                }
            }
            i += 1;
        }
        if !found {
            return false;
        }
    }
    true
}

/// Whether a process is left alone.
pub fn meets_exceptions<M: TextMatcher>(map: &ProcessMap, process: &Process, assignments: &Assignments<M>) -> (r: bool)
    requires
        map.wf(),
    ensures
        r == is_exception(map.processes@, *process, *assignments),
{
    if assignments.is_exception_by_cmdline(process.cmdline.as_str()) {
        return true;
    }
    if assignments.is_exception_by_name(process.name.as_str()) {
        return true;
    }
    let ghost list = map.processes@;
    let mut i: usize = 0;
    while i < assignments.exceptions_conditions.len()
        invariant
            map.wf(),
            list == map.processes@,
            i <= assignments.exceptions_conditions@.len(),
            forall|j: int|
                0 <= j < i ==> !excepted_by(list, *process, #[trigger] assignments.exceptions_conditions@[j]),
        decreases assignments.exceptions_conditions@.len() - i,
    {
        if meets_exception(map, process, &assignments.exceptions_conditions[i]) {
            proof {
                assert(excepted_by(list, *process, assignments.exceptions_conditions@[i as int]));
            }
            return true;
        }
        i += 1;
    }
    false
}

/// The priority that the configuration gives to a process.
pub fn priority_of<M: TextMatcher>(map: &ProcessMap, process: &Process, assignments: &Assignments<M>) -> (r:
    OwnedPriority)
    requires
        map.wf(),
    ensures
        r == configured_priority(map.processes@, *process, *assignments),
{
    if meets_exceptions(map, process, assignments) {
        return OwnedPriority::Exception;
    }
    if let Some(profile) = assignments.get_by_cmdline(process.cmdline.as_str()) {
        return OwnedPriority::Config(profile.clone());
    }
    if let Some(profile) = assignments.get_by_name(process.name.as_str()) {
        return OwnedPriority::Config(profile.clone());
    }
    if text::chars(process.cgroup.as_str()).len() == 0 {
        return OwnedPriority::NotAssignable;
    }
    match find_applying(map, process, &assignments.conditions.entries) {
        Some(profile) => OwnedPriority::Config(profile.clone()),
        None => OwnedPriority::Assignable,
    }
}

/// What was decided on a process stays, and deciding again on one changes nothing.
pub proof fn lemma_assigned_once<M: TextMatcher>(list: Seq<Process>, process: Process, assignments: Assignments<M>)
    requires
        process::distinct(list),
    ensures
        !(process.assigned_priority is NotAssignable) ==> assigned(list, process, assignments) == process,
        assigned(list, assigned(list, process, assignments), assignments) == assigned(list, process, assignments),
{
    let once = assigned(list, process, assignments);
    assert forall|i: int| 0 <= i < list.len() implies process::alike(#[trigger] list[i], #[trigger] list[i]) by {}
    lemma_priority_alike(list, list, process, once, assignments);
}

/// A process that is to be left alone is left alone, whatever else the configuration assigns to it.
pub proof fn lemma_exception_first<M: TextMatcher>(list: Seq<Process>, process: Process, assignments: Assignments<M>)
    requires
        is_exception(list, process, assignments),
        process.assigned_priority is NotAssignable,
    ensures
        assigned(list, process, assignments).assigned_priority is Exception,
{
}

/// A condition that keeps a process from a profile comes before all that give it the profile.
pub proof fn lemma_exclusion_first<M: TextMatcher>(
    list: Seq<Process>,
    process: Process,
    rules: ProfileRules<M>,
    i: int,
)
    requires
        0 <= i < rules.conditions@.len(),
        !rules.conditions@[i].1,
        condition_met(list, process, rules.conditions@[i].0),
    ensures
        !rules_apply(list, process, rules),
{
}

} // verus!

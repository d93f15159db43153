//! Which priority the configuration gives to a process.

use vstd::prelude::*;

use crate::assignment;
use crate::laws::processes;
use crate::process;
use crate::process::Process;
use crate::scheduler;
use crate::scheduler::{Assignments, Condition, Profile, ProfileRules, TextMatcher};
use crate::service::{OwnedPriority, Service};

verus! {

/// A text as a rule accepts itself and no other text.
pub proof fn lemma_text_rule(rule: String, text: Seq<char>)
    ensures
        rule.accepts(text) <==> rule@ == text,
{
}

/// One of some rules accepts a text when there is one that does.
pub proof fn lemma_any_accepts<M: TextMatcher>(rules: Seq<M>, text: Seq<char>, i: int)
    ensures
        0 <= i < rules.len() && rules[i].accepts(text) ==> scheduler::any_accepts(rules, text),
        (forall|j: int| 0 <= j < rules.len() ==> !(#[trigger] rules[j]).accepts(text)) ==> !scheduler::any_accepts(
            rules,
            text,
        ),
{
}

/// The first rule that accepts a text gives its profile. Where none accepts it there is no profile.
pub proof fn lemma_first_profile<M: TextMatcher>(rules: Seq<(M, Profile)>, text: Seq<char>, i: int)
    requires
        0 <= i <= rules.len(),
        forall|j: int| 0 <= j < i ==> !(#[trigger] rules[j]).0.accepts(text),
        i < rules.len() ==> rules[i].0.accepts(text),
    ensures
        i < rules.len() ==> scheduler::first_profile(rules, text) == Some(rules[i].1),
        i == rules.len() ==> scheduler::first_profile(rules, text) is None,
    decreases i,
{
    if i > 0 {
        let rest = rules.skip(1);
        assert(!rules[0].0.accepts(text));
        assert forall|j: int| 0 <= j < i - 1 implies !(#[trigger] rest[j]).0.accepts(text) by {
            assert(rest[j] == rules[j + 1]);
        }
        lemma_first_profile(rest, text, i - 1);
    }
}

/// A process does not meet a condition whose rule on cgroups does not accept its cgroup, or whose rule on names does
/// not accept its name, whatever else is demanded.
pub proof fn lemma_cgroup_and_name_refused<M: TextMatcher>(list: Seq<Process>, process: Process, condition: Condition<M>)
    ensures
        condition.cgroup matches Some(rule) && !rule.accepts(process.cgroup@) ==> !assignment::condition_met(
            list,
            process,
            condition,
        ),
        condition.name matches Some(rule) && !rule.accepts(process.name@) ==> !assignment::condition_met(
            list,
            process,
            condition,
        ),
{
}

/// A process does not meet a condition that names parents when it has none, or when no rule accepts the name of its
/// parent, whatever else is demanded.
pub proof fn lemma_parent_refused<M: TextMatcher>(
    list: Seq<Process>,
    process: Process,
    condition: Condition<M>,
    parent: Process,
)
    requires
        process::distinct(list),
        condition.parent@.len() > 0,
        process.parent is None || (list.contains(parent) && process.parent == Some(parent.id) && forall|i: int|
            0 <= i < condition.parent@.len() ==> !(#[trigger] condition.parent@[i]).accepts(parent.name@)),
    ensures
        !assignment::condition_met(list, process, condition),
{
    processes::lemma_parent(list, process, parent);
    if process.parent is Some {
        lemma_any_accepts(condition.parent@, parent.name@, 0);
    }
}

/// A process does not meet a condition that names an ancestor when the rule accepts the name of none of those that
/// links lead up to, whatever else is demanded.
pub proof fn lemma_descent_refused<M: TextMatcher>(
    list: Seq<Process>,
    process: Process,
    condition: Condition<M>,
    chain: Seq<Process>,
)
    requires
        process::distinct(list),
        processes::leads_to_top(list, process, chain),
        condition.descends matches Some(rule) && forall|k: int|
            0 <= k < chain.len() ==> !rule.accepts((#[trigger] chain[k]).name@),
    ensures
        !assignment::condition_met(list, process, condition),
{
    let rule = condition.descends->0;
    processes::lemma_has_ancestor(list, process, chain, |ancestor: Process| rule.accepts(ancestor.name@));
}

/// A process meets a condition when each part of it that is there is met: the cgroup, the name, one of the parents and
/// one of the ancestors.
pub proof fn lemma_condition_satisfied<M: TextMatcher>(
    list: Seq<Process>,
    process: Process,
    condition: Condition<M>,
    parent: Process,
    i: int,
    chain: Seq<Process>,
    k: int,
)
    requires
        process::distinct(list),
        condition.cgroup matches Some(rule) ==> rule.accepts(process.cgroup@),
        condition.name matches Some(rule) ==> rule.accepts(process.name@),
        condition.parent@.len() > 0 ==> list.contains(parent) && process.parent == Some(parent.id) && 0 <= i
            < condition.parent@.len() && condition.parent@[i].accepts(parent.name@),
        condition.descends matches Some(rule) ==> processes::leads_up(list, process, chain) && 0 <= k < chain.len()
            && rule.accepts(chain[k].name@),
    ensures
        assignment::condition_met(list, process, condition),
{
    if condition.parent@.len() > 0 {
        processes::lemma_parent(list, process, parent);
        lemma_any_accepts(condition.parent@, parent.name@, i);
    }
    if let Some(rule) = condition.descends {
        let kind = |ancestor: Process| rule.accepts(ancestor.name@);
        assert(kind(chain[k]));
        processes::lemma_has_ancestor(list, process, chain, kind);
    }
}

/// The rules of a profile apply when one that includes is met and none that excludes is.
pub proof fn lemma_rules<M: TextMatcher>(list: Seq<Process>, process: Process, rules: ProfileRules<M>, i: int)
    requires
        forall|j: int|
            0 <= j < rules.conditions@.len() && !(#[trigger] rules.conditions@[j]).1 ==> !assignment::condition_met(
                list,
                process,
                rules.conditions@[j].0,
            ),
    ensures
        0 <= i < rules.conditions@.len() && rules.conditions@[i].1 && assignment::condition_met(
            list,
            process,
            rules.conditions@[i].0,
        ) ==> assignment::rules_apply(list, process, rules),
        (forall|j: int|
            0 <= j < rules.conditions@.len() && (#[trigger] rules.conditions@[j]).1 ==> !assignment::condition_met(
                list,
                process,
                rules.conditions@[j].0,
            )) ==> !assignment::rules_apply(list, process, rules),
{
}

/// A condition that excludes keeps the rules of a profile from applying when it is met, wherever it stands among them.
pub proof fn lemma_excluded<M: TextMatcher>(list: Seq<Process>, process: Process, rules: ProfileRules<M>, i: int)
    requires
        0 <= i < rules.conditions@.len(),
        !rules.conditions@[i].1,
        assignment::condition_met(list, process, rules.conditions@[i].0),
    ensures
        !assignment::rules_apply(list, process, rules),
{
}

/// The first profile whose rules apply is given. Where none apply there is none.
pub proof fn lemma_first_applying<M: TextMatcher>(
    list: Seq<Process>,
    process: Process,
    rules: Seq<(String, ProfileRules<M>)>,
    i: int,
)
    requires
        0 <= i <= rules.len(),
        forall|j: int| 0 <= j < i ==> !assignment::rules_apply(list, process, (#[trigger] rules[j]).1),
        i < rules.len() ==> assignment::rules_apply(list, process, rules[i].1),
    ensures
        i < rules.len() ==> assignment::first_applying(list, process, rules) == Some(rules[i].1.profile),
        i == rules.len() ==> assignment::first_applying(list, process, rules) is None,
    decreases i,
{
    if i > 0 {
        let rest = rules.skip(1);
        assert(!assignment::rules_apply(list, process, rules[0].1));
        assert forall|j: int| 0 <= j < i - 1 implies !assignment::rules_apply(list, process, (#[trigger] rest[j]).1) by {
            assert(rest[j] == rules[j + 1]);
        }
        lemma_first_applying(list, process, rest, i - 1);
    }
}

/// A condition leaves a process alone when the rule on ancestors accepts its former name, or a name of an ancestor, now
/// or before, and a rule on parents accepts a name of its parent, now or before. A part that is not there demands
/// nothing, and its own cgroup and name do not count.
pub proof fn lemma_excepted<M: TextMatcher>(
    list: Seq<Process>,
    process: Process,
    condition: Condition<M>,
    parent: Process,
    i: int,
    chain: Seq<Process>,
    k: int,
)
    requires
        process::distinct(list),
        condition.parent@.len() > 0 ==> list.contains(parent) && process.parent == Some(parent.id) && 0 <= i
            < condition.parent@.len() && (condition.parent@[i].accepts(parent.name@) || condition.parent@[i].accepts(
            parent.forked_name@,
        )),
        condition.descends matches Some(rule) ==> rule.accepts(process.forked_name@) || (processes::leads_up(
            list,
            process,
            chain,
        ) && 0 <= k < chain.len() && (rule.accepts(chain[k].name@) || rule.accepts(chain[k].forked_name@))),
    ensures
        assignment::excepted_by(list, process, condition),
{
    if condition.parent@.len() > 0 {
        processes::lemma_parent(list, process, parent);
        assert(assignment::names_accepted(condition.parent@[i], parent));
    }
    if let Some(rule) = condition.descends {
        if !rule.accepts(process.forked_name@) {
            let kind = |ancestor: Process| assignment::names_accepted(rule, ancestor);
            assert(kind(chain[k]));
            processes::lemma_has_ancestor(list, process, chain, kind);
        }
    }
}

/// A condition does not leave a process alone when the rule on ancestors accepts neither its former name nor a name of
/// an ancestor, or when no rule on parents accepts a name of its parent.
pub proof fn lemma_not_excepted<M: TextMatcher>(
    list: Seq<Process>,
    process: Process,
    condition: Condition<M>,
    parent: Process,
    chain: Seq<Process>,
)
    requires
        process::distinct(list),
        ({
            ||| condition.descends matches Some(rule) && !rule.accepts(process.forked_name@) && processes::leads_to_top(
                list,
                process,
                chain,
            ) && forall|k: int|
                0 <= k < chain.len() ==> !rule.accepts((#[trigger] chain[k]).name@) && !rule.accepts(
                    chain[k].forked_name@,
                )
            ||| condition.parent@.len() > 0 && process.parent is None
            ||| condition.parent@.len() > 0 && list.contains(parent) && process.parent == Some(parent.id) && forall|i: int|
                0 <= i < condition.parent@.len() ==> !(#[trigger] condition.parent@[i]).accepts(parent.name@)
                    && !condition.parent@[i].accepts(parent.forked_name@)
        }),
    ensures
        !assignment::excepted_by(list, process, condition),
{
    processes::lemma_parent(list, process, parent);
    if let Some(rule) = condition.descends {
        let kind = |ancestor: Process| assignment::names_accepted(rule, ancestor);
        if processes::leads_to_top(list, process, chain) {
            processes::lemma_has_ancestor(list, process, chain, kind);
        }
    }
}

/// A process is left alone when a rule names its command line or its name, or a condition leaves it alone.
pub proof fn lemma_exception<M: TextMatcher>(list: Seq<Process>, process: Process, assignments: Assignments<M>, i: int)
    ensures
        0 <= i < assignments.exceptions_cmdlines@.len() && assignments.exceptions_cmdlines@[i].accepts(process.cmdline@)
            ==> assignment::is_exception(list, process, assignments),
        0 <= i < assignments.exceptions_names@.len() && assignments.exceptions_names@[i].accepts(process.name@)
            ==> assignment::is_exception(list, process, assignments),
        0 <= i < assignments.exceptions_conditions@.len() && assignment::excepted_by(
            list,
            process,
            assignments.exceptions_conditions@[i],
        ) ==> assignment::is_exception(list, process, assignments),
        ({
            &&& forall|j: int|
                0 <= j < assignments.exceptions_cmdlines@.len() ==> !(
                #[trigger] assignments.exceptions_cmdlines@[j]).accepts(process.cmdline@)
            &&& forall|j: int|
                0 <= j < assignments.exceptions_names@.len() ==> !(#[trigger] assignments.exceptions_names@[j]).accepts(
                    process.name@,
                )
            &&& forall|j: int|
                0 <= j < assignments.exceptions_conditions@.len() ==> !assignment::excepted_by(
                    list,
                    process,
                    #[trigger] assignments.exceptions_conditions@[j],
                )
        }) ==> !assignment::is_exception(list, process, assignments),
{
}

/// What is decided on a process on which nothing was decided, and which is not left alone: the first rule on its
/// command line counts, else the first on its name. Without one, and without a cgroup, nothing is decided. With a
/// cgroup the first profile whose conditions apply counts, and where there is none the process is assignable.
pub proof fn lemma_decided<M: TextMatcher>(
    list: Seq<Process>,
    process: Process,
    assignments: Assignments<M>,
    cmdline: int,
    name: int,
    conditions: int,
)
    requires
        process.assigned_priority is NotAssignable,
        !assignment::is_exception(list, process, assignments),
        0 <= cmdline <= assignments.cmdlines@.len(),
        forall|j: int| 0 <= j < cmdline ==> !(#[trigger] assignments.cmdlines@[j]).0.accepts(process.cmdline@),
        cmdline < assignments.cmdlines@.len() ==> assignments.cmdlines@[cmdline].0.accepts(process.cmdline@),
        0 <= name <= assignments.names@.len(),
        forall|j: int| 0 <= j < name ==> !(#[trigger] assignments.names@[j]).0.accepts(process.name@),
        name < assignments.names@.len() ==> assignments.names@[name].0.accepts(process.name@),
        0 <= conditions <= assignments.conditions.entries@.len(),
        forall|j: int|
            0 <= j < conditions ==> !assignment::rules_apply(
                list,
                process,
                (#[trigger] assignments.conditions.entries@[j]).1,
            ),
        conditions < assignments.conditions.entries@.len() ==> assignment::rules_apply(
            list,
            process,
            assignments.conditions.entries@[conditions].1,
        ),
    ensures
        assignment::assigned(list, process, assignments) == (Process {
            assigned_priority: if cmdline < assignments.cmdlines@.len() {
                OwnedPriority::Config(assignments.cmdlines@[cmdline].1)
            } else if name < assignments.names@.len() {
                OwnedPriority::Config(assignments.names@[name].1)
            } else if process.cgroup@.len() == 0 {
                OwnedPriority::NotAssignable
            } else if conditions < assignments.conditions.entries@.len() {
                OwnedPriority::Config(assignments.conditions.entries@[conditions].1.profile)
            } else {
                OwnedPriority::Assignable
            },
            ..process
        }),
{
    lemma_first_profile(assignments.cmdlines@, process.cmdline@, cmdline);
    lemma_first_profile(assignments.names@, process.name@, name);
    lemma_first_applying(list, process, assignments.conditions.entries@, conditions);
}

/// A process that is left alone is excepted, and one on which something was decided stays as it is.
pub proof fn lemma_decided_before<M: TextMatcher>(list: Seq<Process>, process: Process, assignments: Assignments<M>)
    ensures
        assignment::is_exception(list, process, assignments) && process.assigned_priority is NotAssignable
            ==> assignment::assigned(list, process, assignments) == (Process {
            assigned_priority: OwnedPriority::Exception,
            ..process
        }),
        !(process.assigned_priority is NotAssignable) ==> assignment::assigned(list, process, assignments) == process,
{
}

impl<M: TextMatcher> Service<M> {
    /// When the priority of a process is decided on, nothing of any other process changes, and of the process nothing
    /// but its priority.
    pub proof fn lemma_priority_assigned(&self, after: Service<M>, pid: u32, i: int)
        requires
            self.priority_assigned(after, pid),
            0 <= i < self.process_map.processes@.len(),
        ensures
            after == (Service { process_map: after.process_map, ..*self }),
            after.process_map.stale@ == self.process_map.stale@,
            after.process_map.processes@.len() == self.process_map.processes@.len(),
            ({
                let list = self.process_map.processes@;
                let before = list[i];
                let now = after.process_map.processes@[i];
                &&& before.id != pid ==> now == before
                &&& before.id == pid && before.assigned_priority is NotAssignable ==> now == (Process {
                    assigned_priority: assignment::configured_priority(
                        list,
                        before,
                        self.config.process_scheduler.assignments,
                    ),
                    ..before
                })
                &&& !(before.assigned_priority is NotAssignable) ==> now == before
            }),
    {
    }
}

} // verus!

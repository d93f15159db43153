//! What is taken from configuration files.

use vstd::prelude::*;

use crate::bytes;
use crate::config;
use crate::config::{Config, ConfigSource, SectionView};
use crate::document::{EntryView, NodeView};
use crate::scheduler::{Profile, TextMatcher};

verus! {

/// The file of the system goes before that of the distribution. Without either there is none.
pub proof fn lemma_source(distribution_exists: bool)
    ensures
        config::source_among(true, distribution_exists) == Some(ConfigSource::System),
        config::source_among(false, true) == Some(ConfigSource::Distribution),
        config::source_among(false, false) is None,
{
}

/// The first line is one, and every line feed before an offset makes it one more.
pub proof fn lemma_line(text: Seq<char>, offset: int)
    requires
        0 <= offset < vstd::utf8::encode_utf8(text).len(),
    ensures
        config::line_of(text, 0) == 1,
        config::line_of(text, offset + 1) == config::line_of(text, offset) + (if vstd::utf8::encode_utf8(text)[offset]
            == 10 {
            1int
        } else {
            0
        }),
{
    let all = vstd::utf8::encode_utf8(text);
    assert(all.take(offset + 1).drop_last() =~= all.take(offset));
    assert(all.take(0) =~= Seq::empty());
    assert(bytes::count(all.take(0), 10) == 0);
}

/// The first argument of a node, which is the first entry without a name, is what counts.
pub proof fn lemma_first_flag(entries: Seq<EntryView>, i: int)
    requires
        0 <= i <= entries.len(),
        forall|j: int| 0 <= j < i ==> (#[trigger] entries[j]).name is Some,
        i < entries.len() ==> entries[i].name is None,
    ensures
        i < entries.len() ==> config::first_flag(entries) == entries[i].flag,
        i == entries.len() ==> config::first_flag(entries) is None,
    decreases i,
{
    if i > 0 {
        let rest = entries.skip(1);
        assert(entries[0].name is Some);
        assert forall|j: int| 0 <= j < i - 1 implies (#[trigger] rest[j]).name is Some by {
            assert(rest[j] == entries[j + 1]);
        }
        lemma_first_flag(rest, i - 1);
    }
}

/// The last node that is about autogroups says whether they are enabled: if its first argument is true, they are, and
/// else they are not. Without such a node nothing changes.
pub proof fn lemma_autogroup(nodes: Seq<NodeView>, default: bool, i: int, j: int)
    requires
        -1 <= i < nodes.len(),
        forall|k: int| i < k < nodes.len() ==> (#[trigger] nodes[k]).name != "autogroup-enabled"@,
        i >= 0 ==> {
            let entries = nodes[i].entries;
            &&& nodes[i].name == "autogroup-enabled"@
            &&& 0 <= j <= entries.len()
            &&& forall|k: int| 0 <= k < j ==> (#[trigger] entries[k]).name is Some
            &&& j < entries.len() ==> entries[j].name is None
        },
    ensures
        i >= 0 ==> config::autogroup_in(nodes, default) == (j < nodes[i].entries.len() && nodes[i].entries[j].flag
            == Some(true)),
        i < 0 ==> config::autogroup_in(nodes, default) == default,
    decreases nodes.len(),
{
    if nodes.len() > 0 {
        if i == nodes.len() - 1 {
            lemma_first_flag(nodes[i].entries, j);
        } else {
            let less = nodes.drop_last();
            assert(nodes[nodes.len() - 1].name != "autogroup-enabled"@);
            assert forall|k: int| i < k < less.len() implies (#[trigger] less[k]).name != "autogroup-enabled"@ by {
                assert(less[k] == nodes[k]);
            }
            lemma_autogroup(less, default, i, j);
        }
    }
}

/// A node of the main file behind others is one that is read further, by what it is named, or is not. What was found
/// before it stays.
pub proof fn lemma_main_sections(nodes: Seq<NodeView>, node: NodeView)
    ensures
        config::main_sections(Seq::empty()).len() == 0,
        node.name == "autogroup-enabled"@ || node.name == "version"@ ==> config::main_sections(nodes.push(node))
            == config::main_sections(nodes),
        node.name == "eevdf-profiles"@ ==> config::main_sections(nodes.push(node)) == config::main_sections(nodes).push(
            SectionView::EevdfProfiles(nodes.len() as int),
        ),
        node.name == "process-scheduler"@ ==> config::main_sections(nodes.push(node)) == config::main_sections(
            nodes,
        ).push(SectionView::ProcessScheduler(nodes.len() as int)),
        node.name != "autogroup-enabled"@ && node.name != "version"@ && node.name != "eevdf-profiles"@ && node.name
            != "process-scheduler"@ ==> config::main_sections(nodes.push(node)) == config::main_sections(nodes).push(
            SectionView::Unknown(node.name),
        ),
{
    reveal_strlit("autogroup-enabled");
    reveal_strlit("version");
    reveal_strlit("eevdf-profiles");
    reveal_strlit("process-scheduler");
    assert("autogroup-enabled"@[0] != "process-scheduler"@[0]);
    assert("eevdf-profiles"@.len() < "autogroup-enabled"@.len());
    assert("version"@.len() < "eevdf-profiles"@.len() < "process-scheduler"@.len());
    assert(nodes.push(node).drop_last() =~= nodes);
}

/// Each node of a file of assignments is looked at, by what it is named.
pub proof fn lemma_assignment_sections(nodes: Seq<NodeView>, i: int)
    requires
        0 <= i < nodes.len(),
    ensures
        config::assignment_sections(nodes).len() == nodes.len(),
        nodes[i].name == "assignments"@ ==> config::assignment_sections(nodes)[i] == SectionView::Assignments(i),
        nodes[i].name == "exceptions"@ ==> config::assignment_sections(nodes)[i] == SectionView::Exceptions(i),
        nodes[i].name != "assignments"@ && nodes[i].name != "exceptions"@ ==> config::assignment_sections(nodes)[i]
            == SectionView::Unknown(nodes[i].name),
{
    reveal_strlit("assignments");
    reveal_strlit("exceptions");
    assert("assignments"@[0] != "exceptions"@[0]);
}

/// The profile under a name, if there is one.
pub open spec fn held(profiles: Map<Seq<char>, Profile>, name: Seq<char>, profile: Option<Profile>) -> bool {
    match profile {
        Some(profile) => profiles.contains_key(name) && profiles[name] == profile,
        None => !profiles.contains_key(name),
    }
}

/// The profiles with names of their own are taken out: those of the foreground if there are both, and those of
/// streams. All other profiles, and all else, stay.
pub proof fn lemma_profiles_taken<M: TextMatcher>(before: Config<M>, after: Config<M>, name: Seq<char>)
    requires
        config::profiles_taken(before, after),
    ensures
        ({
            let old_profiles = before.process_scheduler.assignments.profiles@;
            let new_profiles = after.process_scheduler.assignments.profiles@;
            let a = before.process_scheduler;
            let b = after.process_scheduler;
            let own = name == "background"@ || name == "foreground"@ || name == "pipewire"@ || name
                == "pipewire-playback"@;
            &&& own ==> !new_profiles.contains_key(name)
            &&& !own ==> (new_profiles.contains_key(name) <==> old_profiles.contains_key(name))
            &&& !own && old_profiles.contains_key(name) ==> new_profiles[name] == old_profiles[name]
            &&& held(old_profiles, "pipewire"@, b.pipewire)
            &&& held(old_profiles, "pipewire-playback"@, b.pipewire_playback)
            &&& old_profiles.contains_key("background"@) && old_profiles.contains_key("foreground"@) ==> b.foreground
                is Some && b.foreground->0.background == old_profiles["background"@] && b.foreground->0.foreground
                == old_profiles["foreground"@]
            &&& !old_profiles.contains_key("background"@) || !old_profiles.contains_key("foreground"@) ==> b.foreground
                == a.foreground
            &&& b.cgroup_weights == a.cgroup_weights
            &&& b.assignments.conditions == a.assignments.conditions
            &&& b.assignments.cmdlines == a.assignments.cmdlines
            &&& b.assignments.names == a.assignments.names
            &&& b.assignments.exceptions_cmdlines == a.assignments.exceptions_cmdlines
            &&& b.assignments.exceptions_names == a.assignments.exceptions_names
            &&& b.assignments.exceptions_conditions == a.assignments.exceptions_conditions
            &&& after.autogroup_enabled == before.autogroup_enabled
            &&& after.eevdf_profiles == before.eevdf_profiles
        }),
{
}

/// A configuration of which nothing was read: nothing is enabled, there are no profiles, no rules and no weights.
pub proof fn lemma_unset<M: TextMatcher>(config: Config<M>, name: Seq<char>)
    requires
        config.is_unset(),
    ensures
        !config.autogroup_enabled,
        !config.eevdf_profiles.enable,
        config.process_scheduler.cgroup_weights is None,
        config.process_scheduler.foreground is None,
        config.process_scheduler.pipewire is None,
        config.process_scheduler.pipewire_playback is None,
        !config.process_scheduler.assignments.profiles@.contains_key(name),
        !config.process_scheduler.assignments.conditions@.contains_key(name),
        config.process_scheduler.assignments.cmdlines@ == Seq::<(M, Profile)>::empty(),
        config.process_scheduler.assignments.names@ == Seq::<(M, Profile)>::empty(),
        config.process_scheduler.assignments.exceptions_cmdlines@ == Seq::<M>::empty(),
        config.process_scheduler.assignments.exceptions_names@ == Seq::<M>::empty(),
        config.process_scheduler.assignments.exceptions_conditions@.len() == 0,
        config.eevdf_profiles.profiles@.contains_key(name) <==> name == "default"@ || name == "responsive"@,
{
}

} // verus!

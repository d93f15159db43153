//! What the daemon was configured with: profiles, the rules that assign them and cgroup weights.

use vstd::prelude::*;

use crate::text;
use crate::text_map::TextMap;

verus! {

/// How nice a process is to others.
#[derive(Clone, Copy, Debug, PartialEq, Eq, Structural)]
pub struct Niceness {
    /// The value that the kernel is given.
    pub value: i8,
}

impl Niceness {
    /// The niceness of a value.
    pub fn new(value: i8) -> (r: Self)
        ensures
            r == (Niceness { value }),
    {
        Niceness { value }
    }

    /// The value that the kernel is given.
    pub fn get(&self) -> (r: i8)
        ensures
            r == self.value,
    {
        self.value
    }
}

/// How the kernel shares out processor time to a process.
#[derive(Clone, Copy, Debug, PartialEq, Eq, Structural)]
pub enum SchedPolicy {
    /// As work that nobody waits for.
    Batch,
    /// Only when nothing else is to be done.
    Idle,
    /// In the ordinary way.
    Other,
}

/// A scheduling profile.
#[derive(Debug)]
pub struct Profile {
    /// Name of the profile.
    pub name: String,
    /// How nice a process with the profile is. Without it, it stays as nice as it is.
    pub nice: Option<Niceness>,
    /// How processor time is shared out to a process with the profile.
    pub sched_policy: SchedPolicy,
}

/// A scheduling profile.
pub ghost struct ProfileView {
    pub name: Seq<char>,
    pub nice: Option<Niceness>,
    pub sched_policy: SchedPolicy,
}

impl View for Profile {
    type V = ProfileView;

    open spec fn view(&self) -> ProfileView {
        ProfileView { name: self.name@, nice: self.nice, sched_policy: self.sched_policy }
    }
}

/// The profile of a name that sets nothing.
pub open spec fn plain_profile(name: Seq<char>) -> ProfileView {
    ProfileView { name, nice: None, sched_policy: SchedPolicy::Other }
}

impl Profile {
    /// The profile of a name that sets nothing.
    pub fn new(name: &str) -> (r: Self)
        ensures
            r@ == plain_profile(name@),
    {
        Profile { name: name.to_owned(), nice: None, sched_policy: SchedPolicy::Other }
    }
}

impl Clone for Profile {
    fn clone(&self) -> (r: Self)
        ensures
            r == *self,
    {
        Profile { name: self.name.clone(), nice: self.nice, sched_policy: self.sched_policy }
    }
}

/// An optional profile.
pub open spec fn profile_view(profile: Option<Profile>) -> Option<ProfileView> {
    match profile {
        Some(p) => Some(p@),
        None => None,
    }
}

/// A rule that a text may meet, such as a process name or a cgroup path.
pub trait TextMatcher {
    /// Whether the rule accepts a text.
    spec fn accepts(&self, text: Seq<char>) -> bool;

    /// Whether the rule accepts a text.
    fn matches(&self, text: &str) -> (r: bool)
        ensures
            r == self.accepts(text@),
    ;
}

/// A text as a rule accepts that text alone.
impl TextMatcher for String {
    open spec fn accepts(&self, text: Seq<char>) -> bool {
        self@ == text
    }

    fn matches(&self, text: &str) -> (r: bool) {
        text::same(self.as_str(), text)
    }
}

/// Whether one of the rules accepts a text.
pub open spec fn any_accepts<M: TextMatcher>(rules: Seq<M>, text: Seq<char>) -> bool {
    exists|i: int| 0 <= i < rules.len() && (#[trigger] rules[i]).accepts(text)
}

/// Whether one of the rules accepts a text.
pub fn any_matches<M: TextMatcher>(rules: &Vec<M>, text: &str) -> (r: bool)
    ensures
        r == any_accepts(rules@, text@),
{
    let mut i: usize = 0;
    while i < rules.len()
        invariant
            i <= rules.len(),
            forall|j: int| 0 <= j < i ==> !(#[trigger] rules@[j]).accepts(text@),
        decreases rules.len() - i,
    {
        if rules[i].matches(text) {
            return true;
        }
        i += 1;
    }
    false
}

/// Demands on a process. A part that is left out demands nothing.
pub struct Condition<M> {
    /// The cgroup that the process is in.
    pub cgroup: Option<M>,
    /// A process that it descends from.
    pub descends: Option<M>,
    /// Its name.
    pub name: Option<M>,
    /// The process that started it: one of these.
    pub parent: Vec<M>,
}

/// A profile with the conditions under which a process gets it (`true`) or is kept from it (`false`).
pub struct ProfileRules<M> {
    /// The profile.
    pub profile: Profile,
    /// Its conditions.
    pub conditions: Vec<(Condition<M>, bool)>,
}

/// The profile of the first rule that accepts a text.
pub open spec fn first_profile<M: TextMatcher>(rules: Seq<(M, Profile)>, text: Seq<char>) -> Option<Profile>
    decreases rules.len(),
{
    if rules.len() == 0 {
        None
    } else if rules[0].0.accepts(text) {
        Some(rules[0].1)
    } else {
        first_profile(rules.skip(1), text)
    }
}

fn find_profile<'a, M: TextMatcher>(rules: &'a Vec<(M, Profile)>, text: &str) -> (r: Option<&'a Profile>)
    ensures
        r is Some <==> first_profile(rules@, text@) is Some,
        r matches Some(profile) ==> first_profile(rules@, text@) == Some(*profile),
{
    let mut i: usize = 0;
    proof {
        assert(rules@.skip(0) =~= rules@);
    }
    while i < rules.len()
        invariant
            i <= rules.len(),
            first_profile(rules@, text@) == first_profile(rules@.skip(i as int), text@),
        decreases rules.len() - i,
    {
        if rules[i].0.matches(text) {
            return Some(&rules[i].1);
        }
        proof {
            assert(rules@.skip(i as int).skip(1) =~= rules@.skip(i + 1));
        }
        i += 1;
    }
    None
}

/// Which profile a process is assigned, and which processes are left alone.
pub struct Assignments<M> {
    /// The profiles by name.
    pub profiles: TextMap<Profile>,
    /// The profiles that are assigned by conditions, by name.
    pub conditions: TextMap<ProfileRules<M>>,
    /// Profiles that are assigned by command line.
    pub cmdlines: Vec<(M, Profile)>,
    /// Profiles that are assigned by process name.
    pub names: Vec<(M, Profile)>,
    /// Command lines of processes that are left alone.
    pub exceptions_cmdlines: Vec<M>,
    /// Names of processes that are left alone.
    pub exceptions_names: Vec<M>,
    /// Conditions under which a process is left alone.
    pub exceptions_conditions: Vec<Condition<M>>,
}

impl<M: TextMatcher> Assignments<M> {
    /// The maps in it are in order.
    pub open spec fn wf(&self) -> bool {
        &&& self.profiles.wf()
        &&& self.conditions.wf()
    }

    /// Nothing is assigned.
    pub open spec fn is_unset(&self) -> bool {
        &&& self.profiles@ == Map::<Seq<char>, Profile>::empty()
        &&& self.conditions@ == Map::<Seq<char>, ProfileRules<M>>::empty()
        &&& self.cmdlines@.len() == 0
        &&& self.names@.len() == 0
        &&& self.exceptions_cmdlines@.len() == 0
        &&& self.exceptions_names@.len() == 0
        &&& self.exceptions_conditions@.len() == 0
    }

    /// No assignments.
    pub fn new() -> (r: Self)
        ensures
            r.wf(),
            r.is_unset(),
    {
        Assignments {
            profiles: TextMap::new(),
            conditions: TextMap::new(),
            cmdlines: Vec::new(),
            names: Vec::new(),
            exceptions_cmdlines: Vec::new(),
            exceptions_names: Vec::new(),
            exceptions_conditions: Vec::new(),
        }
    }

    /// The profile that is assigned to a command line.
    pub fn get_by_cmdline(&self, cmdline: &str) -> (r: Option<&Profile>)
        ensures
            r is Some <==> first_profile(self.cmdlines@, cmdline@) is Some,
            r matches Some(profile) ==> first_profile(self.cmdlines@, cmdline@) == Some(*profile),
    {
        find_profile(&self.cmdlines, cmdline)
    }

    /// The profile that is assigned to a process name.
    pub fn get_by_name(&self, name: &str) -> (r: Option<&Profile>)
        ensures
            r is Some <==> first_profile(self.names@, name@) is Some,
            r matches Some(profile) ==> first_profile(self.names@, name@) == Some(*profile),
    {
        find_profile(&self.names, name)
    }

    /// Whether processes of a command line are left alone.
    pub fn is_exception_by_cmdline(&self, cmdline: &str) -> (r: bool)
        ensures
            r == any_accepts(self.exceptions_cmdlines@, cmdline@),
    {
        any_matches(&self.exceptions_cmdlines, cmdline)
    }

    /// Whether processes of a name are left alone.
    pub fn is_exception_by_name(&self, name: &str) -> (r: bool)
        ensures
            r == any_accepts(self.exceptions_names@, name@),
    {
        any_matches(&self.exceptions_names, name)
    }
}

/// Profiles of processes in the foreground and of the others.
pub struct ForegroundAssignments {
    /// Profile of processes that are not in the foreground.
    pub background: Profile,
    /// Profile of processes in the foreground.
    pub foreground: Profile,
}

/// Share of processor and disk time of a cgroup.
#[derive(Clone, Copy, Debug, PartialEq, Eq, Structural)]
pub struct CgroupWeight {
    /// Value of `cpu.weight`.
    pub cpu: u32,
    /// Value of `io.weight`.
    pub io: u32,
}

impl CgroupWeight {
    /// The weight with the given shares.
    pub fn new(cpu: u32, io: u32) -> (r: Self)
        ensures
            r == (CgroupWeight { cpu, io }),
    {
        CgroupWeight { cpu, io }
    }
}

/// Which weights cgroups are given.
#[derive(Clone, Copy, Debug)]
pub struct CgroupWeights {
    /// Whether cgroups are weighted at all.
    pub enable: bool,
    /// What a cgroup is taken to have had when that cannot be read.
    pub default: CgroupWeight,
    /// Weight of applications that capture audio or video.
    pub pipewire_capture: CgroupWeight,
    /// Weight of applications that play audio or video.
    pub pipewire_playback: CgroupWeight,
    /// Weight of the application in the foreground.
    pub foreground: CgroupWeight,
}

/// Configuration of the process scheduler.
pub struct ProcessScheduler<M> {
    /// Which profile a process is assigned.
    pub assignments: Assignments<M>,
    /// Weights of cgroups.
    pub cgroup_weights: Option<CgroupWeights>,
    /// Profiles by which the foreground is set apart.
    pub foreground: Option<ForegroundAssignments>,
    /// Profile of processes that capture audio or video.
    pub pipewire: Option<Profile>,
    /// Profile of processes that play audio or video.
    pub pipewire_playback: Option<Profile>,
}

} // verus!

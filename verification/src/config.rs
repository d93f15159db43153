//! The configuration as a whole.

use vstd::prelude::*;

use crate::bytes;
use crate::document;
use crate::document::{Document, Node};
use crate::eevdf;
use crate::scheduler::{Assignments, ForegroundAssignments, ProcessScheduler, Profile, TextMatcher};
use crate::text;

verus! {

/// The configuration of the daemon.
pub struct Config<M> {
    /// Whether the kernel's grouping of processes by session is left on.
    pub autogroup_enabled: bool,
    /// EEVDF scheduler configurations.
    pub eevdf_profiles: eevdf::Config,
    /// Configuration of the process scheduler.
    pub process_scheduler: ProcessScheduler<M>,
}

impl<M: TextMatcher> Config<M> {
    /// The maps in it are in order.
    pub open spec fn wf(&self) -> bool {
        &&& self.eevdf_profiles.wf()
        &&& self.process_scheduler.assignments.wf()
    }

    /// Nothing is configured.
    pub open spec fn is_unset(&self) -> bool {
        self.is_unset_but(false)
    }

    /// Nothing is configured but whether processes are grouped by session.
    pub open spec fn is_unset_but(&self, autogroup_enabled: bool) -> bool {
        &&& self.autogroup_enabled == autogroup_enabled
        &&& self.eevdf_profiles.is_unset()
        &&& self.process_scheduler.assignments.is_unset()
        &&& self.process_scheduler.cgroup_weights is None
        &&& self.process_scheduler.foreground is None
        &&& self.process_scheduler.pipewire is None
        &&& self.process_scheduler.pipewire_playback is None
    }

    /// Whether the maps in it are in order.
    pub fn is_valid(&self) -> (r: bool)
        ensures
            r == self.wf(),
    {
        self.eevdf_profiles.profiles.is_valid() && self.process_scheduler.assignments.profiles.is_valid()
            && self.process_scheduler.assignments.conditions.is_valid()
    }

    /// The configuration when nothing is configured.
    pub fn new() -> (r: Self)
        ensures
            r.wf(),
            r.is_unset(),
    {
        Config {
            autogroup_enabled: false,
            eevdf_profiles: eevdf::Config::default(),
            process_scheduler: ProcessScheduler {
                assignments: Assignments::new(),
                cgroup_weights: None,
                foreground: None,
                pipewire: None,
                pipewire_playback: None,
            },
        }
    }
}

/// Where the main configuration file is.
#[derive(Clone, Copy, Debug, PartialEq, Eq, Structural)]
pub enum ConfigSource {
    /// Among the files of the system's administrator.
    System,
    /// Among the files of the distribution.
    Distribution,
}

/// Which main configuration file is read, given which of them exist.
pub open spec fn source_among(system_exists: bool, distribution_exists: bool) -> Option<ConfigSource> {
    if system_exists {
        Some(ConfigSource::System)
    } else if distribution_exists {
        Some(ConfigSource::Distribution)
    } else {
        None
    }
}

/// Which main configuration file is read: the system's, else that of the distribution.
pub fn main_source(system_exists: bool, distribution_exists: bool) -> (r: Option<ConfigSource>)
    ensures
        r == source_among(system_exists, distribution_exists),
{
    if system_exists {
        Some(ConfigSource::System)
    } else if distribution_exists {
        Some(ConfigSource::Distribution)
    } else {
        None
    }
}

/// A part of a configuration file, with the position of its node.
#[derive(Debug)]
pub enum Section {
    /// EEVDF profiles.
    EevdfProfiles(usize),
    /// Settings of the process scheduler.
    ProcessScheduler(usize),
    /// Assignments of profiles.
    Assignments(usize),
    /// Processes that are left alone.
    Exceptions(usize),
    /// A name that is not known.
    Unknown(String),
}

/// A part of a configuration file.
pub ghost enum SectionView {
    EevdfProfiles(int),
    ProcessScheduler(int),
    Assignments(int),
    Exceptions(int),
    Unknown(Seq<char>),
}

impl View for Section {
    type V = SectionView;

    open spec fn view(&self) -> SectionView {
        match *self {
            Section::EevdfProfiles(at) => SectionView::EevdfProfiles(at as int),
            Section::ProcessScheduler(at) => SectionView::ProcessScheduler(at as int),
            Section::Assignments(at) => SectionView::Assignments(at as int),
            Section::Exceptions(at) => SectionView::Exceptions(at as int),
            Section::Unknown(name) => SectionView::Unknown(name@),
        }
    }
}

/// The parts of a configuration file.
pub open spec fn section_views(sections: Seq<Section>) -> Seq<SectionView> {
    sections.map_values(|section: Section| section@)
}

/// The boolean that is the first argument of a node.
pub open spec fn first_flag(entries: Seq<document::EntryView>) -> Option<bool>
    decreases entries.len(),
{
    if entries.len() == 0 {
        None
    } else if entries[0].name is None {
        entries[0].flag
    } else {
        first_flag(entries.skip(1))
    }
}

/// What the main configuration file says on the grouping of processes: the last node on it counts. A node without a
/// boolean turns it off.
pub open spec fn autogroup_in(nodes: Seq<document::NodeView>, default: bool) -> bool
    decreases nodes.len(),
{
    if nodes.len() == 0 {
        default
    } else if nodes.last().name == "autogroup-enabled"@ {
        first_flag(nodes.last().entries) == Some(true)
    } else {
        autogroup_in(nodes.drop_last(), default)
    }
}

/// The part that a node of the main configuration file stands for. The grouping of processes and the version are
/// none.
pub open spec fn main_section(name: Seq<char>, at: int) -> Option<SectionView> {
    if name == "autogroup-enabled"@ || name == "version"@ {
        None
    } else if name == "eevdf-profiles"@ {
        Some(SectionView::EevdfProfiles(at))
    } else if name == "process-scheduler"@ {
        Some(SectionView::ProcessScheduler(at))
    } else {
        Some(SectionView::Unknown(name))
    }
}

/// The parts of the main configuration file, in order.
pub open spec fn main_sections(nodes: Seq<document::NodeView>) -> Seq<SectionView>
    decreases nodes.len(),
{
    if nodes.len() == 0 {
        Seq::empty()
    } else {
        let before = main_sections(nodes.drop_last());
        match main_section(nodes.last().name, nodes.len() - 1) {
            Some(section) => before.push(section),
            None => before,
        }
    }
}

/// The part that a node of a file of assignments stands for.
pub open spec fn assignment_section(name: Seq<char>, at: int) -> SectionView {
    if name == "assignments"@ {
        SectionView::Assignments(at)
    } else if name == "exceptions"@ {
        SectionView::Exceptions(at)
    } else {
        SectionView::Unknown(name)
    }
}

/// The parts of a file of assignments, in order.
pub open spec fn assignment_sections(nodes: Seq<document::NodeView>) -> Seq<SectionView> {
    Seq::new(nodes.len(), |i: int| assignment_section(nodes[i].name, i))
}

/// The boolean that is the first argument of a node.
fn find_flag(node: &Node) -> (r: Option<bool>)
    ensures
        r == first_flag(node@.entries),
{
    let ghost all = node@.entries;
    let mut i: usize = 0;
    proof {
        assert(all.skip(0) =~= all);
    }
    while i < node.entries.len()
        invariant
            i <= node.entries@.len(),
            all == node@.entries,
            first_flag(all) == first_flag(all.skip(i as int)),
        decreases node.entries@.len() - i,
    {
        proof {
            assert(all.skip(i as int)[0] == node.entries@[i as int]@);
            assert(all.skip(i as int).skip(1) =~= all.skip(i + 1));
        }
        if node.entries[i].name.is_none() {
            return node.entries[i].flag;
        }
        i += 1;
    }
    None
}

/// The line of an offset in a text, counted from one.
pub open spec fn line_of(text: Seq<char>, offset: int) -> int {
    1 + bytes::count(vstd::utf8::encode_utf8(text).take(offset), 10)
}

/// The line of an offset in a text, counted from one.
pub fn line_number(text: &str, offset: usize) -> (r: usize)
    requires
        offset <= vstd::utf8::encode_utf8(text@).len() < usize::MAX,
    ensures
        r == line_of(text@, offset as int),
{
    let before: &[u8] = vstd::slice::slice_subrange(text.as_bytes(), 0, offset);
    proof {
        assert(before@ =~= vstd::utf8::encode_utf8(text@).take(offset as int));
    }
    bytes::count_byte(before, 10) + 1
}

/// Takes in the nodes of the main configuration file, and says which of them are to be read further.
pub fn read_main_nodes<M: TextMatcher>(config: &mut Config<M>, nodes: &Vec<Node>) -> (r: Vec<Section>)
    ensures
        *final(config) == (Config {
            autogroup_enabled: autogroup_in(document::node_views(nodes@), old(config).autogroup_enabled),
            ..*old(config)
        }),
        section_views(r@) == main_sections(document::node_views(nodes@)),
{
    let ghost all = document::node_views(nodes@);
    let ghost before = *config;
    let mut sections: Vec<Section> = Vec::new();
    let mut i: usize = 0;
    proof {
        assert(section_views(sections@) =~= main_sections(all.take(0)));
    }
    while i < nodes.len()
        invariant
            i <= nodes@.len(),
            all == document::node_views(nodes@),
            *config == (Config {
                autogroup_enabled: autogroup_in(all.take(i as int), before.autogroup_enabled),
                ..before
            }),
            section_views(sections@) == main_sections(all.take(i as int)),
        decreases nodes@.len() - i,
    {
        let ghost done = section_views(sections@);
        let name: &String = &nodes[i].name;
        proof {
            let part = all.take(i + 1);
            assert(part.drop_last() =~= all.take(i as int));
            assert(part.last() == nodes@[i as int]@);
        }
        let section: Option<Section> = if text::same(name.as_str(), "autogroup-enabled") {
            config.autogroup_enabled = match find_flag(&nodes[i]) {
                Some(flag) => flag,
                None => false,
            };
            None
        } else if text::same(name.as_str(), "eevdf-profiles") {
            proof {
                lemma_names_apart();
            }
            Some(Section::EevdfProfiles(i))
        } else if text::same(name.as_str(), "process-scheduler") {
            proof {
                lemma_names_apart();
            }
            Some(Section::ProcessScheduler(i))
        } else if text::same(name.as_str(), "version") {
            None
        } else {
            Some(Section::Unknown(name.clone()))
        };
        if let Some(section) = section {
            sections.push(section);
            proof {
                assert(section_views(sections@) =~= done.push(section@));
            }
        }
        i += 1;
    }
    proof {
        assert(all.take(i as int) =~= all);
    }
    sections
}

/// The names of the nodes of the main configuration file differ.
proof fn lemma_names_apart()
    ensures
        "eevdf-profiles"@ != "version"@,
        "process-scheduler"@ != "version"@,
{
    reveal_strlit("eevdf-profiles");
    reveal_strlit("process-scheduler");
    reveal_strlit("version");
    assert("eevdf-profiles"@.len() != "version"@.len());
    assert("process-scheduler"@.len() != "version"@.len());
}

/// The parts of a configuration file, with its document.
#[derive(Debug)]
pub struct Sections {
    /// The document that the positions are of.
    pub document: Document,
    /// The parts, in order.
    pub list: Vec<Section>,
}

/// Why a main configuration file sets nothing.
#[derive(Clone, Copy, Debug, PartialEq, Eq, Structural)]
pub enum MainError {
    /// There is none, or it cannot be read.
    Missing,
    /// There is an error on this line of it, counted from one.
    Line(usize),
    /// The parser does not get through it.
    Unreadable,
}

/// What a main configuration file gives.
pub struct MainFile<M> {
    /// The configuration, before its parts are read further.
    pub config: Config<M>,
    /// The parts that are to be read further.
    pub sections: Result<Sections, MainError>,
}

/// Reads the text of the main configuration file, if there is one, and says which of its nodes are to be read further.
/// Nothing is configured by a file that is missing or has an error.
pub fn read_main<M: TextMatcher>(text: Option<&str>) -> (r: MainFile<M>)
    requires
        text matches Some(text) ==> vstd::utf8::encode_utf8(text@).len() < usize::MAX,
    ensures
        r.config.wf(),
        match text {
            None => r.config.is_unset() && r.sections matches Err(MainError::Missing),
            Some(text) => if !document::is_readable(text@) {
                r.config.is_unset() && r.sections matches Err(MainError::Unreadable)
            } else {
                match document::kdl_document(text@) {
                    Ok(nodes) => {
                        &&& r.config.is_unset_but(autogroup_in(nodes, false))
                        &&& r.sections matches Ok(sections)
                        &&& sections.document.wf()
                        &&& sections.document@ == nodes
                        &&& section_views(sections.list@) == main_sections(nodes)
                    },
                    Err(offset) => {
                        &&& r.config.is_unset()
                        &&& r.sections matches Err(MainError::Line(line))
                        &&& line == line_of(text@, offset)
                    },
                }
            },
        },
{
    let mut config: Config<M> = Config::new();
    let sections: Result<Sections, MainError> = match text {
        None => Err(MainError::Missing),
        Some(text) => match document::parse_document(text) {
            None => Err(MainError::Unreadable),
            Some(Err(offset)) => Err(MainError::Line(line_number(text, offset))),
            Some(Ok(document)) => {
                let list: Vec<Section> = read_main_nodes(&mut config, &document.nodes);
                Ok(Sections { document, list })
            },
        },
    };
    MainFile { config, sections }
}

/// The parts of a file of assignments.
pub fn read_assignment_nodes(nodes: &Vec<Node>) -> (r: Vec<Section>)
    ensures
        section_views(r@) == assignment_sections(document::node_views(nodes@)),
{
    let ghost all = document::node_views(nodes@);
    let mut sections: Vec<Section> = Vec::new();
    let mut i: usize = 0;
    while i < nodes.len()
        invariant
            i <= nodes@.len(),
            all == document::node_views(nodes@),
            sections@.len() == i,
            forall|j: int| 0 <= j < i ==> (#[trigger] sections@[j])@ == assignment_section(all[j].name, j),
        decreases nodes@.len() - i,
    {
        let name: &String = &nodes[i].name;
        let section: Section = if text::same(name.as_str(), "assignments") {
            Section::Assignments(i)
        } else if text::same(name.as_str(), "exceptions") {
            Section::Exceptions(i)
        } else {
            Section::Unknown(name.clone())
        };
        sections.push(section);
        i += 1;
    }
    proof {
        assert(section_views(sections@) =~= assignment_sections(all));
    }
    sections
}

/// The parts of a file of assignments. A text with an error gives none.
pub fn read_assignments(text: &str) -> (r: Option<Sections>)
    ensures
        match document::kdl_document(text@) {
            Ok(nodes) if document::is_readable(text@) => {
                &&& r matches Some(sections)
                &&& sections.document.wf()
                &&& sections.document@ == nodes
                &&& section_views(sections.list@) == assignment_sections(nodes)
            },
            _ => r is None,
        },
{
    match document::parse_document(text) {
        Some(Ok(document)) => {
            let list: Vec<Section> = read_assignment_nodes(&document.nodes);
            Some(Sections { document, list })
        },
        _ => None,
    }
}

/// The profile under a name.
pub open spec fn profile_under(profiles: Map<Seq<char>, Profile>, name: Seq<char>) -> Option<Profile> {
    if profiles.contains_key(name) {
        Some(profiles[name])
    } else {
        None
    }
}

/// Whether a configuration is another with the profiles that have a part of their own taken out.
pub open spec fn profiles_taken<M: TextMatcher>(config: Config<M>, r: Config<M>) -> bool {
    let scheduler = config.process_scheduler;
    let profiles = scheduler.assignments.profiles@;
    let background = profile_under(profiles, "background"@);
    let foreground = profile_under(profiles, "foreground"@);
    &&& r.autogroup_enabled == config.autogroup_enabled
    &&& r.eevdf_profiles == config.eevdf_profiles
    &&& r.process_scheduler == (ProcessScheduler {
        assignments: Assignments {
            profiles: r.process_scheduler.assignments.profiles,
            ..scheduler.assignments
        },
        foreground: if background is Some && foreground is Some {
            Some(ForegroundAssignments { background: background->0, foreground: foreground->0 })
        } else {
            scheduler.foreground
        },
        pipewire: profile_under(profiles, "pipewire"@),
        pipewire_playback: profile_under(profiles, "pipewire-playback"@),
        ..scheduler
    })
    &&& r.process_scheduler.assignments.profiles@ == profiles.remove("background"@).remove("foreground"@).remove(
        "pipewire"@,
    ).remove("pipewire-playback"@)
}

/// Takes the profiles that have a part of their own out of a configuration whose files were read: those of the
/// foreground and the background, which count only together, and those of processes that take part in streams.
pub fn read_config<M: TextMatcher>(config: Config<M>) -> (r: Config<M>)
    requires
        config.wf(),
    ensures
        r.wf(),
        profiles_taken(config, r),
{
    proof {
        reveal_strlit("background");
        reveal_strlit("foreground");
        reveal_strlit("pipewire");
        reveal_strlit("pipewire-playback");
        assert("background"@[0] != "foreground"@[0]);
        assert("pipewire"@.len() != "pipewire-playback"@.len());
        assert("pipewire"@[0] != "foreground"@[0]);
        assert("pipewire"@[0] != "background"@[0]);
        assert("pipewire-playback"@[0] != "foreground"@[0]);
        assert("pipewire-playback"@[0] != "background"@[0]);
    }
    let mut config: Config<M> = config;
    let background: Option<Profile> = config.process_scheduler.assignments.profiles.remove("background");
    let foreground: Option<Profile> = config.process_scheduler.assignments.profiles.remove("foreground");
    if let (Some(background), Some(foreground)) = (background, foreground) {
        config.process_scheduler.foreground = Some(ForegroundAssignments { background, foreground });
    }
    config.process_scheduler.pipewire = config.process_scheduler.assignments.profiles.remove("pipewire");
    config.process_scheduler.pipewire_playback = config.process_scheduler.assignments.profiles.remove(
        "pipewire-playback",
    );
    config
}

} // verus!

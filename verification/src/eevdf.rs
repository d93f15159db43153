//! Tuning of the kernel's EEVDF scheduler.

use vstd::prelude::*;

use crate::document;
use crate::document::Node;
use crate::number;
use crate::text;
use crate::text_map::TextMap;

verus! {

/// EEVDF profile.
#[derive(Clone, Copy, Debug, Eq, PartialEq)]
pub struct Profile {
    /// Central EEVDF scheduling slice tunable in nanoseconds.
    pub base_slice_ns: u64,
    /// The kernel preemption mode to use, when supported by the kernel.
    pub preempt: &'static str,
}

/// Default EEVDF profile.
pub open spec fn default_profile() -> Profile {
    Profile { base_slice_ns: 3_000_000, preempt: "voluntary" }
}

/// Responsive EEVDF profile.
pub open spec fn responsive_profile() -> Profile {
    Profile { base_slice_ns: 700_000, preempt: "full" }
}

/// Default EEVDF profile.
pub fn profile_default() -> (r: Profile)
    ensures
        r == default_profile(),
{
    Profile { base_slice_ns: 3_000_000, preempt: "voluntary" }
}

/// Responsive EEVDF profile.
pub fn profile_responsive() -> (r: Profile)
    ensures
        r == responsive_profile(),
{
    Profile { base_slice_ns: 700_000, preempt: "full" }
}

/// EEVDF scheduler configurations.
pub struct Config {
    /// Enables EEVDF scheduler configuration.
    pub enable: bool,
    /// EEVDF profiles.
    pub profiles: TextMap<Profile>,
}

impl Config {
    /// The profiles are in order.
    pub open spec fn wf(&self) -> bool {
        self.profiles.wf()
    }

    /// Nothing is configured: the scheduler is not tuned, and there are the default and the responsive profile.
    pub open spec fn is_unset(&self) -> bool {
        &&& !self.enable
        &&& self.profiles@ == Map::<Seq<char>, Profile>::empty().insert("default"@, default_profile()).insert(
            "responsive"@,
            responsive_profile(),
        )
    }
}

impl Default for Config {
    fn default() -> (r: Self)
        ensures
            r.wf(),
            r.is_unset(),
    {
        let mut profiles: TextMap<Profile> = TextMap::new();
        profiles.insert("default".to_owned(), profile_default());
        profiles.insert("responsive".to_owned(), profile_responsive());
        Config { enable: false, profiles }
    }
}

/// A slice after a property was read. A number that is not negative counts.
pub open spec fn slice_after(base_slice_ns: u64, entry: document::EntryView) -> u64 {
    if entry.name == Some("base-slice-ns"@) && entry.integer is Some && entry.integer->0 >= 0 {
        entry.integer->0 as u64
    } else {
        base_slice_ns
    }
}

/// A preemption mode after a property was read. The known modes count.
pub open spec fn preempt_after(preempt: Seq<char>, entry: document::EntryView) -> Seq<char> {
    if entry.name == Some("preempt"@) && (entry.text == Some("voluntary"@) || entry.text == Some("full"@)) {
        entry.text->0
    } else {
        preempt
    }
}

/// The slice in properties: the last that counts, else that of the default profile.
pub open spec fn slice_in(entries: Seq<document::EntryView>) -> u64
    decreases entries.len(),
{
    if entries.len() == 0 {
        default_profile().base_slice_ns
    } else {
        slice_after(slice_in(entries.drop_last()), entries.last())
    }
}

/// The preemption mode in properties: the last that counts, else that of the default profile.
pub open spec fn preempt_in(entries: Seq<document::EntryView>) -> Seq<char>
    decreases entries.len(),
{
    if entries.len() == 0 {
        default_profile().preempt@
    } else {
        preempt_after(preempt_in(entries.drop_last()), entries.last())
    }
}

/// The profile that a node describes.
fn parse_profile(node: &Node) -> (r: Profile)
    ensures
        r.base_slice_ns == slice_in(node@.entries),
        r.preempt@ == preempt_in(node@.entries),
{
    let ghost all = node@.entries;
    let mut config: Profile = profile_default();
    let mut i: usize = 0;
    while i < node.entries.len()
        invariant
            i <= node.entries@.len(),
            all == node@.entries,
            config.base_slice_ns == slice_in(all.take(i as int)),
            config.preempt@ == preempt_in(all.take(i as int)),
        decreases node.entries@.len() - i,
    {
        let entry: &document::Entry = &node.entries[i];
        proof {
            let part = all.take(i + 1);
            assert(part.drop_last() =~= all.take(i as int));
            assert(part.last() == entry@);
            lemma_names_apart();
        }
        if let Some(name) = &entry.name {
            if text::same(name.as_str(), "base-slice-ns") {
                if let Some(value) = entry.integer {
                    if value >= 0 {
                        config.base_slice_ns = value as u64;
                    }
                }
            } else if text::same(name.as_str(), "preempt") {
                if let Some(value) = &entry.text {
                    if text::same(value.as_str(), "voluntary") {
                        config.preempt = "voluntary";
                    } else if text::same(value.as_str(), "full") {
                        config.preempt = "full";
                    }
                }
            }
        }
        i += 1;
    }
    proof {
        assert(all.take(i as int) =~= all);
    }
    config
}

/// The names of the properties differ.
proof fn lemma_names_apart()
    ensures
        "base-slice-ns"@ != "preempt"@,
{
    reveal_strlit("base-slice-ns");
    reveal_strlit("preempt");
    assert("base-slice-ns"@.len() != "preempt"@.len());
}

/// Parses EEVDF profiles from the nodes of a document.
pub fn parse(nodes: &Vec<Node>) -> (r: Vec<(String, Profile)>)
    ensures
        r@.len() == nodes@.len(),
        forall|i: int|
            0 <= i < nodes@.len() ==> {
                &&& (#[trigger] r@[i]).0@ == nodes@[i].name@
                &&& r@[i].1.base_slice_ns == slice_in(nodes@[i]@.entries)
                &&& r@[i].1.preempt@ == preempt_in(nodes@[i]@.entries)
            },
{
    let mut profiles: Vec<(String, Profile)> = Vec::new();
    let mut i: usize = 0;
    while i < nodes.len()
        invariant
            i <= nodes@.len(),
            profiles@.len() == i,
            forall|j: int|
                0 <= j < i ==> {
                    &&& (#[trigger] profiles@[j]).0@ == nodes@[j].name@
                    &&& profiles@[j].1.base_slice_ns == slice_in(nodes@[j]@.entries)
                    &&& profiles@[j].1.preempt@ == preempt_in(nodes@[j]@.entries)
                },
        decreases nodes@.len() - i,
    {
        profiles.push((nodes[i].name.clone(), parse_profile(&nodes[i])));
        i += 1;
    }
    profiles
}

/// A profile is always tuned in a way that the kernel knows: its mode is one of the two.
pub proof fn lemma_preempt_known(entries: Seq<document::EntryView>)
    ensures
        preempt_in(entries) == "voluntary"@ || preempt_in(entries) == "full"@,
    decreases entries.len(),
{
    if entries.len() > 0 {
        lemma_preempt_known(entries.drop_last());
    }
}

/// Where the kernel takes the scheduling slice.
pub const BASE_SLICE_NS_PATH: &'static str = "/sys/kernel/debug/sched/base_slice_ns";

/// Where the kernel takes the preemption mode.
pub const PREEMPT_PATH: &'static str = "/sys/kernel/debug/sched/preempt";

/// Why the scheduler cannot be tuned.
#[derive(Debug, Clone, Copy, PartialEq, Eq, Structural)]
pub enum SchedPathsError {
    /// The kernel does not support EEVDF scheduler tuning.
    NotSupported,
}

impl SchedPathsError {
    /// The error in words.
    pub fn message(&self) -> (r: &'static str)
        ensures
            r@ == "kernel does not support EEVDF scheduler tuning"@,
    {
        "kernel does not support EEVDF scheduler tuning"
    }
}

/// The files by which the scheduler is tuned.
pub struct SchedPaths {
    /// Where the scheduling slice is written.
    pub base_slice_ns: &'static str,
    /// Where the preemption mode is written, if the kernel takes one.
    pub preempt: Option<&'static str>,
}

/// The files by which the scheduler is tuned, given which of them exist.
pub open spec fn paths_among(base_slice_ns_exists: bool, preempt_exists: bool) -> Result<SchedPaths, SchedPathsError> {
    if base_slice_ns_exists {
        Ok(
            SchedPaths {
                base_slice_ns: BASE_SLICE_NS_PATH,
                preempt: if preempt_exists {
                    Some(PREEMPT_PATH)
                } else {
                    None
                },
            },
        )
    } else {
        Err(SchedPathsError::NotSupported)
    }
}

impl SchedPaths {
    /// The files by which the scheduler is tuned, given which of them exist: [`BASE_SLICE_NS_PATH`] and
    /// [`PREEMPT_PATH`].
    pub fn new(base_slice_ns_exists: bool, preempt_exists: bool) -> (r: Result<Self, SchedPathsError>)
        ensures
            r == paths_among(base_slice_ns_exists, preempt_exists),
    {
        if !base_slice_ns_exists {
            return Err(SchedPathsError::NotSupported);
        }
        Ok(
            SchedPaths {
                base_slice_ns: BASE_SLICE_NS_PATH,
                preempt: if preempt_exists {
                    Some(PREEMPT_PATH)
                } else {
                    None
                },
            },
        )
    }
}

/// A file, and what is written to it.
pub struct FileValue {
    /// Path of the file.
    pub path: &'static str,
    /// What is written.
    pub value: Vec<u8>,
}

/// Whether files are those that are written to apply an EEVDF scheduler profile, in order.
pub open spec fn applies(files: Seq<FileValue>, paths: SchedPaths, conf: Profile) -> bool {
    &&& files.len() == (if paths.preempt is Some {
        2int
    } else {
        1int
    })
    &&& files[0].path == paths.base_slice_ns
    &&& files[0].value@ == number::decimal(conf.base_slice_ns as int)
    &&& paths.preempt matches Some(path) ==> files[1].path == path && files[1].value@ == vstd::utf8::encode_utf8(
        conf.preempt@,
    )
}

/// What is written to which file, in order, to apply an EEVDF scheduler profile.
pub fn tweak(paths: &SchedPaths, conf: &Profile) -> (r: Vec<FileValue>)
    ensures
        applies(r@, *paths, *conf),
{
    let mut files: Vec<FileValue> = Vec::new();
    files.push(FileValue { path: paths.base_slice_ns, value: number::format_decimal(conf.base_slice_ns) });
    if let Some(path) = paths.preempt {
        files.push(FileValue { path, value: conf.preempt.as_bytes_vec() });
    }
    files
}

} // verus!

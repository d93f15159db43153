//! Which processes take part in PipeWire streams.

use std::collections::BTreeMap;

use vstd::prelude::*;

use crate::bytes;
use crate::number;
use crate::text;

verus! {

/// PipeWire process kind.
#[derive(Copy, Clone, Debug, Eq, PartialEq, Structural)]
pub enum ProcessKind {
    /// Audio, MIDI, or video capture.
    Capture,
    /// Audio or video playback.
    Playback,
}

/// Process event.
#[derive(Copy, Clone, Debug, Eq, PartialEq, Structural)]
pub enum ProcessEvent {
    /// Process add
    Add(ProcessKind, u32),
    /// Process remove
    Remove(ProcessKind, u32),
}

/// Whether a node of a media class does capture or MIDI work.
pub open spec fn captures(media_class: Seq<char>) -> bool {
    ||| media_class == "Audio/Source"@
    ||| media_class == "Audio/Source/Virtual"@
    ||| media_class == "Midi/Source"@
    ||| media_class == "Midi/Source/Virtual"@
    ||| media_class == "Video/Source"@
    ||| media_class == "Video/Source/Virtual"@
    ||| "Stream/Input/Audio"@.is_prefix_of(media_class)
    ||| "Stream/Input/Midi"@.is_prefix_of(media_class)
    ||| "Stream/Input/Video"@.is_prefix_of(media_class)
}

/// Whether a node of a media class plays audio or video.
pub open spec fn plays(media_class: Seq<char>) -> bool {
    ||| media_class == "Audio/Sink"@
    ||| media_class == "Audio/Sink/Virtual"@
    ||| media_class == "Video/Sink"@
    ||| media_class == "Video/Sink/Virtual"@
    ||| "Stream/Output/Audio"@.is_prefix_of(media_class)
    ||| "Stream/Output/Video"@.is_prefix_of(media_class)
}

/// Returns true when a PipeWire node should receive the capture profile.
///
/// We only boost nodes that are doing capture or MIDI work. Output-only clients
/// such as browsers and games are left alone.
pub fn should_boost_capture_media_class(media_class: &str) -> (r: bool)
    ensures
        r == captures(media_class@),
{
    text::same(media_class, "Audio/Source") || text::same(media_class, "Audio/Source/Virtual") || text::same(
        media_class,
        "Midi/Source",
    ) || text::same(media_class, "Midi/Source/Virtual") || text::same(media_class, "Video/Source") || text::same(
        media_class,
        "Video/Source/Virtual",
    ) || text::starts_with(media_class, "Stream/Input/Audio") || text::starts_with(media_class, "Stream/Input/Midi")
        || text::starts_with(media_class, "Stream/Input/Video")
}

/// Returns true when a PipeWire node should receive the playback profile.
pub fn should_boost_playback_media_class(media_class: &str) -> (r: bool)
    ensures
        r == plays(media_class@),
{
    text::same(media_class, "Audio/Sink") || text::same(media_class, "Audio/Sink/Virtual") || text::same(
        media_class,
        "Video/Sink",
    ) || text::same(media_class, "Video/Sink/Virtual") || text::starts_with(media_class, "Stream/Output/Audio")
        || text::starts_with(media_class, "Stream/Output/Video")
}

/// The kind of a media class.
pub open spec fn kind_of_class(media_class: Seq<char>) -> Option<ProcessKind> {
    if captures(media_class) {
        Some(ProcessKind::Capture)
    } else if plays(media_class) {
        Some(ProcessKind::Playback)
    } else {
        None
    }
}

/// The name of a kind in an event: `cap` or `play`.
pub open spec fn kind_name(kind: ProcessKind) -> Seq<u8> {
    match kind {
        ProcessKind::Capture => seq![99u8, 97u8, 112u8],
        ProcessKind::Playback => seq![112u8, 108u8, 97u8, 121u8],
    }
}

/// The kind of a name.
pub open spec fn kind_named(name: Seq<u8>) -> Option<ProcessKind> {
    if name == kind_name(ProcessKind::Capture) {
        Some(ProcessKind::Capture)
    } else if name == kind_name(ProcessKind::Playback) {
        Some(ProcessKind::Playback)
    } else {
        None
    }
}

impl ProcessKind {
    /// The kind of a media class.
    pub fn from_media_class(media_class: &str) -> (r: Option<Self>)
        ensures
            r == kind_of_class(media_class@),
    {
        if should_boost_capture_media_class(media_class) {
            return Some(ProcessKind::Capture);
        }
        if should_boost_playback_media_class(media_class) {
            return Some(ProcessKind::Playback);
        }
        None
    }

    /// The name of the kind in an event.
    pub fn as_bytes(self) -> (r: Vec<u8>)
        ensures
            r@ == kind_name(self),
    {
        match self {
            ProcessKind::Capture => vec![99u8, 97u8, 112u8],
            ProcessKind::Playback => vec![112u8, 108u8, 97u8, 121u8],
        }
    }

    /// The kind of a name.
    pub fn from_bytes(bytes: &[u8]) -> (r: Option<Self>)
        ensures
            r == kind_named(bytes@),
    {
        if bytes::same(bytes, ProcessKind::Capture.as_bytes().as_slice()) {
            Some(ProcessKind::Capture)
        } else if bytes::same(bytes, ProcessKind::Playback.as_bytes().as_slice()) {
            Some(ProcessKind::Playback)
        } else {
            None
        }
    }
}

/// The name of an event: `add` or `rem`.
pub open spec fn method_name(event: ProcessEvent) -> Seq<u8> {
    match event {
        ProcessEvent::Add(..) => seq![97u8, 100u8, 100u8],
        ProcessEvent::Remove(..) => seq![114u8, 101u8, 109u8],
    }
}

/// The bytes of an event: its name, the kind and the process ID, with a space between them.
pub open spec fn event_bytes(event: ProcessEvent) -> Seq<u8> {
    let (kind, pid) = match event {
        ProcessEvent::Add(kind, pid) => (kind, pid),
        ProcessEvent::Remove(kind, pid) => (kind, pid),
    };
    method_name(event) + seq![32u8] + (kind_name(kind) + seq![32u8] + number::decimal(pid as int))
}

/// The event in bytes: the first three fields between spaces. What follows the number is not looked at.
pub open spec fn event_in(s: Seq<u8>) -> Option<ProcessEvent> {
    let parts = bytes::fields(s, 32u8);
    if parts.len() < 3 {
        None
    } else {
        match (kind_named(parts[1]), number::leading_number(parts[2])) {
            (Some(kind), Some(pid)) => {
                let add = ProcessEvent::Add(kind, pid as u32);
                let remove = ProcessEvent::Remove(kind, pid as u32);
                if parts[0] == method_name(add) {
                    Some(add)
                } else if parts[0] == method_name(remove) {
                    Some(remove)
                } else {
                    None
                }
            },
            _ => None,
        }
    }
}

impl ProcessEvent {
    /// Parse a process event from bytes
    pub fn from_bytes(bytes: &[u8]) -> (r: Option<Self>)
        ensures
            r == event_in(bytes@),
    {
        let parts: Vec<Vec<u8>> = bytes::split(bytes, 32u8);
        let ghost all = bytes::fields(bytes@, 32u8);
        if parts.len() < 3 {
            return None;
        }
        proof {
            assert(all[0] == parts@[0]@);
            assert(all[1] == parts@[1]@);
            assert(all[2] == parts@[2]@);
        }
        let kind: ProcessKind = match ProcessKind::from_bytes(parts[1].as_slice()) {
            Some(kind) => kind,
            None => return None,
        };
        let pid: u32 = match number::atoi(parts[2].as_slice()) {
            Some(pid) => pid,
            None => return None,
        };
        if bytes::same(parts[0].as_slice(), vec![97u8, 100u8, 100u8].as_slice()) {
            Some(ProcessEvent::Add(kind, pid))
        } else if bytes::same(parts[0].as_slice(), vec![114u8, 101u8, 109u8].as_slice()) {
            Some(ProcessEvent::Remove(kind, pid))
        } else {
            None
        }
    }

    /// The bytes of the event.
    pub fn to_bytes(&self) -> (r: Vec<u8>)
        ensures
            r@ == event_bytes(*self),
    {
        let (mut out, kind, pid): (Vec<u8>, ProcessKind, u32) = match self {
            ProcessEvent::Add(kind, pid) => (vec![97u8, 100u8, 100u8], *kind, *pid),
            ProcessEvent::Remove(kind, pid) => (vec![114u8, 101u8, 109u8], *kind, *pid),
        };
        let mut name: Vec<u8> = kind.as_bytes();
        let mut digits: Vec<u8> = number::format_decimal(pid as u64);
        out.push(32u8);
        out.append(&mut name);
        out.push(32u8);
        out.append(&mut digits);
        proof {
            assert(out@ =~= event_bytes(*self));
        }
        out
    }
}

/// An event is read back from its bytes.
pub proof fn lemma_event_read_back(event: ProcessEvent)
    ensures
        event_in(event_bytes(event)) == Some(event),
{
    let (kind, pid) = match event {
        ProcessEvent::Add(kind, pid) => (kind, pid),
        ProcessEvent::Remove(kind, pid) => (kind, pid),
    };
    let method = method_name(event);
    let name = kind_name(kind);
    let digits = number::decimal(pid as int);
    number::lemma_decimal(pid as int);
    assert(!digits.contains(32u8)) by {
        if digits.contains(32u8) {
            let i = choose|i: int| 0 <= i < digits.len() && digits[i] == 32u8;
            assert(number::is_ascii_digit(digits[i]));
        }
    }
    bytes::lemma_one_field(method, 32u8);
    bytes::lemma_one_field(name, 32u8);
    bytes::lemma_one_field(digits, 32u8);
    bytes::lemma_fields_joined(name, 32u8, digits);
    bytes::lemma_fields_joined(method, 32u8, name + seq![32u8] + digits);
    let parts = bytes::fields(event_bytes(event), 32u8);
    assert(parts =~= seq![method, name, digits]);
    number::lemma_decimal_read_back(pid as int);
    assert(kind_name(ProcessKind::Capture).len() != kind_name(ProcessKind::Playback).len());
    assert(method_name(ProcessEvent::Add(kind, pid))[0] != method_name(ProcessEvent::Remove(kind, pid))[0]);
}

/// No media class stands for both capture and playback.
pub proof fn lemma_kinds_apart(media_class: Seq<char>)
    ensures
        !(captures(media_class) && plays(media_class)),
{
    reveal_strlit("Audio/Source");
    reveal_strlit("Audio/Source/Virtual");
    reveal_strlit("Midi/Source");
    reveal_strlit("Midi/Source/Virtual");
    reveal_strlit("Video/Source");
    reveal_strlit("Video/Source/Virtual");
    reveal_strlit("Stream/Input/Audio");
    reveal_strlit("Stream/Input/Midi");
    reveal_strlit("Stream/Input/Video");
    reveal_strlit("Audio/Sink");
    reveal_strlit("Audio/Sink/Virtual");
    reveal_strlit("Video/Sink");
    reveal_strlit("Video/Sink/Virtual");
    reveal_strlit("Stream/Output/Audio");
    reveal_strlit("Stream/Output/Video");
    // The classes differ in their first character or in the one behind the first letter after the slash.
    assert(captures(media_class) ==> media_class.len() > 7 && (media_class[0] == 'M' || media_class[7] == 'o'
        || media_class[7] == 'I')) by {
        lemma_prefix("Stream/Input/Audio"@, media_class);
        lemma_prefix("Stream/Input/Midi"@, media_class);
        lemma_prefix("Stream/Input/Video"@, media_class);
    }
    assert(plays(media_class) ==> media_class[0] != 'M' && (media_class[7] == 'i' || media_class[7] == 'O')) by {
        lemma_prefix("Stream/Output/Audio"@, media_class);
        lemma_prefix("Stream/Output/Video"@, media_class);
    }
}

/// A text starts with the characters of its prefix.
proof fn lemma_prefix(prefix: Seq<char>, s: Seq<char>)
    ensures
        prefix.is_prefix_of(s) ==> prefix.len() <= s.len() && forall|i: int|
            0 <= i < prefix.len() ==> #[trigger] s[i] == prefix[i],
{
    if prefix.is_prefix_of(s) {
        assert forall|i: int| 0 <= i < prefix.len() implies #[trigger] s[i] == prefix[i] by {
            assert(s.subrange(0, prefix.len() as int)[i] == s[i]);
        }
    }
}

/// Process information.
#[derive(Copy, Clone, Debug, PartialEq, Eq, Structural)]
pub struct Process {
    /// Process ID
    pub id: u32,
}

/// The properties of a PipeWire node that are looked at.
pub struct NodeProps {
    /// The property `media.class`.
    pub media_class: Option<String>,
    /// The property `application.process.binary`.
    pub process_binary: Option<String>,
    /// The property `application.process.id`.
    pub process_id: Option<String>,
}

/// The process behind a node, if it has a media class that counts, a binary and a process ID.
pub open spec fn process_behind(props: NodeProps) -> Option<(ProcessKind, Process)> {
    match (props.media_class, props.process_binary, props.process_id) {
        (Some(class), Some(_), Some(id)) => match (kind_of_class(class@), number::parsed(id@, u32::MAX as int)) {
            (Some(kind), Some(pid)) => Some((kind, Process { id: pid as u32 })),
            _ => None,
        },
        _ => None,
    }
}

impl Process {
    /// Attains process info from the properties of a pipewire info node.
    pub fn from_node(props: &NodeProps) -> (r: Option<(ProcessKind, Self)>)
        ensures
            r == process_behind(*props),
    {
        let class: &String = match &props.media_class {
            Some(class) => class,
            None => return None,
        };
        let kind: ProcessKind = match ProcessKind::from_media_class(class.as_str()) {
            Some(kind) => kind,
            None => return None,
        };
        if props.process_binary.is_none() {
            return None;
        }
        match &props.process_id {
            Some(id) => match number::parse(id.as_str(), u32::MAX as u64) {
                Some(pid) => Some((kind, Process { id: pid as u32 })),
                None => None,
            },
            None => None,
        }
    }
}

/// What is known of nodes after something was made known of one, and the event that this is.
pub open spec fn tracked_info(
    managed: Map<u32, (ProcessKind, Process)>,
    node: u32,
    props: NodeProps,
) -> (Map<u32, (ProcessKind, Process)>, Option<ProcessEvent>) {
    match process_behind(props) {
        Some((kind, process)) => (
            managed.insert(node, (kind, process)),
            if managed.contains_key(node) {
                None
            } else {
                Some(ProcessEvent::Add(kind, process.id))
            },
        ),
        None => (managed, None),
    }
}

/// What is known of nodes after one was removed, and the event that this is.
pub open spec fn tracked_removal(managed: Map<u32, (ProcessKind, Process)>, node: u32) -> (
    Map<u32, (ProcessKind, Process)>,
    Option<ProcessEvent>,
) {
    (
        managed.remove(node),
        if managed.contains_key(node) {
            Some(ProcessEvent::Remove(managed[node].0, managed[node].1.id))
        } else {
            None
        },
    )
}

/// A node that is made known is added once, and removed with what was made known of it last.
pub proof fn lemma_added_once_and_removed(
    managed: Map<u32, (ProcessKind, Process)>,
    node: u32,
    first: NodeProps,
    second: NodeProps,
)
    requires
        !managed.contains_key(node),
        process_behind(first) is Some,
        process_behind(second) is Some,
    ensures
        ({
            let (one, added) = tracked_info(managed, node, first);
            let (two, again) = tracked_info(one, node, second);
            let (three, removed) = tracked_removal(two, node);
            let (kind, process) = process_behind(first)->0;
            let (last_kind, last_process) = process_behind(second)->0;
            &&& added == Some(ProcessEvent::Add(kind, process.id))
            &&& again is None
            &&& removed == Some(ProcessEvent::Remove(last_kind, last_process.id))
            &&& three == managed
            &&& tracked_removal(three, node).1 is None
        }),
{
    let (one, added) = tracked_info(managed, node, first);
    let (two, again) = tracked_info(one, node, second);
    let (three, removed) = tracked_removal(two, node);
    assert(three =~= managed);
}

/// The nodes that stand for processes.
pub struct NodeTracker {
    /// Kind and process by node.
    pub managed: BTreeMap<u32, (ProcessKind, Process)>,
}

impl NodeTracker {
    /// No nodes.
    pub fn new() -> (r: Self)
        ensures
            r.managed@ == Map::<u32, (ProcessKind, Process)>::empty(),
    {
        NodeTracker { managed: BTreeMap::new() }
    }

    /// Takes in what was made known of a node, and says which event that is.
    pub fn info(&mut self, node: u32, props: &NodeProps) -> (r: Option<ProcessEvent>)
        ensures
            (final(self).managed@, r) == tracked_info(old(self).managed@, node, *props),
    {
        broadcast use vstd::std_specs::btree::group_btree_axioms;

        match Process::from_node(props) {
            Some((kind, process)) => match self.managed.insert(node, (kind, process)) {
                Some(_) => None,
                None => Some(ProcessEvent::Add(kind, process.id)),
            },
            None => None,
        }
    }

    /// Forgets a node, and says which event that is.
    pub fn remove(&mut self, node: u32) -> (r: Option<ProcessEvent>)
        ensures
            (final(self).managed@, r) == tracked_removal(old(self).managed@, node),
    {
        broadcast use vstd::std_specs::btree::group_btree_axioms;

        match self.managed.remove(&node) {
            Some((kind, process)) => Some(ProcessEvent::Remove(kind, process.id)),
            None => None,
        }
    }
}

} // verus!

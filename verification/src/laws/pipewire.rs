//! Which nodes of PipeWire concern which process, and how that is told.

use vstd::prelude::*;

use crate::bytes;
use crate::number;
use crate::pipewire;
use crate::pipewire::{NodeProps, Process, ProcessEvent, ProcessKind};

verus! {

/// Sources and inputs of applications capture.
pub proof fn lemma_captures(rest: Seq<char>)
    ensures
        pipewire::kind_of_class("Audio/Source"@) == Some(ProcessKind::Capture),
        pipewire::kind_of_class("Audio/Source/Virtual"@) == Some(ProcessKind::Capture),
        pipewire::kind_of_class("Midi/Source"@) == Some(ProcessKind::Capture),
        pipewire::kind_of_class("Midi/Source/Virtual"@) == Some(ProcessKind::Capture),
        pipewire::kind_of_class("Video/Source"@) == Some(ProcessKind::Capture),
        pipewire::kind_of_class("Video/Source/Virtual"@) == Some(ProcessKind::Capture),
        pipewire::kind_of_class("Stream/Input/Audio"@ + rest) == Some(ProcessKind::Capture),
        pipewire::kind_of_class("Stream/Input/Midi"@ + rest) == Some(ProcessKind::Capture),
        pipewire::kind_of_class("Stream/Input/Video"@ + rest) == Some(ProcessKind::Capture),
{
    lemma_begins("Stream/Input/Audio"@, rest);
    lemma_begins("Stream/Input/Midi"@, rest);
    lemma_begins("Stream/Input/Video"@, rest);
}

proof fn lemma_begins(a: Seq<char>, b: Seq<char>)
    ensures
        a.is_prefix_of(a + b),
{
    assert((a + b).subrange(0, a.len() as int) =~= a);
}

/// Sinks and outputs of applications play.
pub proof fn lemma_plays(rest: Seq<char>)
    ensures
        pipewire::kind_of_class("Audio/Sink"@) == Some(ProcessKind::Playback),
        pipewire::kind_of_class("Audio/Sink/Virtual"@) == Some(ProcessKind::Playback),
        pipewire::kind_of_class("Video/Sink"@) == Some(ProcessKind::Playback),
        pipewire::kind_of_class("Video/Sink/Virtual"@) == Some(ProcessKind::Playback),
        pipewire::kind_of_class("Stream/Output/Audio"@ + rest) == Some(ProcessKind::Playback),
        pipewire::kind_of_class("Stream/Output/Video"@ + rest) == Some(ProcessKind::Playback),
{
    lemma_begins("Stream/Output/Audio"@, rest);
    lemma_begins("Stream/Output/Video"@, rest);
    pipewire::lemma_kinds_apart("Audio/Sink"@);
    pipewire::lemma_kinds_apart("Audio/Sink/Virtual"@);
    pipewire::lemma_kinds_apart("Video/Sink"@);
    pipewire::lemma_kinds_apart("Video/Sink/Virtual"@);
    pipewire::lemma_kinds_apart("Stream/Output/Audio"@ + rest);
    pipewire::lemma_kinds_apart("Stream/Output/Video"@ + rest);
}

/// Whether a class is that of a source, exactly, or of an input of an application, by its beginning.
pub open spec fn is_source(class: Seq<char>) -> bool {
    ||| class == "Audio/Source"@ || class == "Midi/Source"@ || class == "Video/Source"@
    ||| class == "Audio/Source/Virtual"@ || class == "Midi/Source/Virtual"@ || class == "Video/Source/Virtual"@
    ||| class.len() >= 18 && (class.take(18) == "Stream/Input/Audio"@ || class.take(18) == "Stream/Input/Video"@)
    ||| class.len() >= 17 && class.take(17) == "Stream/Input/Midi"@
}

/// Whether a class is that of a sink, exactly, or of an output of an application, by its beginning.
pub open spec fn is_sink(class: Seq<char>) -> bool {
    ||| class == "Audio/Sink"@ || class == "Video/Sink"@ || class == "Audio/Sink/Virtual"@ || class
        == "Video/Sink/Virtual"@
    ||| class.len() >= 19 && (class.take(19) == "Stream/Output/Audio"@ || class.take(19) == "Stream/Output/Video"@)
}

/// Other classes concern nobody.
pub proof fn lemma_no_kind(class: Seq<char>)
    ensures
        !is_source(class) ==> pipewire::kind_of_class(class) != Some(ProcessKind::Capture),
        !is_sink(class) ==> pipewire::kind_of_class(class) != Some(ProcessKind::Playback),
{
    reveal_strlit("Stream/Input/Audio");
    reveal_strlit("Stream/Input/Midi");
    reveal_strlit("Stream/Input/Video");
    reveal_strlit("Stream/Output/Audio");
    reveal_strlit("Stream/Output/Video");
    lemma_taken("Stream/Input/Audio"@, class);
    lemma_taken("Stream/Input/Midi"@, class);
    lemma_taken("Stream/Input/Video"@, class);
    lemma_taken("Stream/Output/Audio"@, class);
    lemma_taken("Stream/Output/Video"@, class);
}

proof fn lemma_taken(a: Seq<char>, s: Seq<char>)
    ensures
        a.is_prefix_of(s) ==> s.len() >= a.len() && s.take(a.len() as int) == a,
{
    if a.is_prefix_of(s) {
        assert(s.take(a.len() as int) =~= s.subrange(0, a.len() as int));
    }
}

/// How an event is written: `add` or `rem`, `cap` or `play` and the process ID, with blanks between.
pub proof fn lemma_written(pid: u32)
    ensures
        pipewire::event_bytes(ProcessEvent::Add(ProcessKind::Capture, pid)) == seq![
            97u8,
            100u8,
            100u8,
            32u8,
            99u8,
            97u8,
            112u8,
            32u8,
        ] + number::decimal(pid as int),
        pipewire::event_bytes(ProcessEvent::Add(ProcessKind::Playback, pid)) == seq![
            97u8,
            100u8,
            100u8,
            32u8,
            112u8,
            108u8,
            97u8,
            121u8,
            32u8,
        ] + number::decimal(pid as int),
        pipewire::event_bytes(ProcessEvent::Remove(ProcessKind::Capture, pid)) == seq![
            114u8,
            101u8,
            109u8,
            32u8,
            99u8,
            97u8,
            112u8,
            32u8,
        ] + number::decimal(pid as int),
        pipewire::event_bytes(ProcessEvent::Remove(ProcessKind::Playback, pid)) == seq![
            114u8,
            101u8,
            109u8,
            32u8,
            112u8,
            108u8,
            97u8,
            121u8,
            32u8,
        ] + number::decimal(pid as int),
{
    let number = number::decimal(pid as int);
    assert(pipewire::event_bytes(ProcessEvent::Add(ProcessKind::Capture, pid)) =~= seq![
        97u8,
        100u8,
        100u8,
        32u8,
        99u8,
        97u8,
        112u8,
        32u8,
    ] + number);
    assert(pipewire::event_bytes(ProcessEvent::Add(ProcessKind::Playback, pid)) =~= seq![
        97u8,
        100u8,
        100u8,
        32u8,
        112u8,
        108u8,
        97u8,
        121u8,
        32u8,
    ] + number);
    assert(pipewire::event_bytes(ProcessEvent::Remove(ProcessKind::Capture, pid)) =~= seq![
        114u8,
        101u8,
        109u8,
        32u8,
        99u8,
        97u8,
        112u8,
        32u8,
    ] + number);
    assert(pipewire::event_bytes(ProcessEvent::Remove(ProcessKind::Playback, pid)) =~= seq![
        114u8,
        101u8,
        109u8,
        32u8,
        112u8,
        108u8,
        97u8,
        121u8,
        32u8,
    ] + number);
}

/// What is no event: too few parts, a part that is no kind, a part that is no number, and another method.
pub proof fn lemma_no_event(s: Seq<u8>)
    ensures
        ({
            let parts = bytes::fields(s, 32u8);
            &&& parts.len() < 3 ==> pipewire::event_in(s) is None
            &&& parts.len() >= 3 && parts[1] != seq![99u8, 97u8, 112u8] && parts[1] != seq![112u8, 108u8, 97u8, 121u8]
                ==> pipewire::event_in(s) is None
            &&& parts.len() >= 3 && number::leading_number(parts[2]) is None ==> pipewire::event_in(s) is None
            &&& parts.len() >= 3 && parts[0] != seq![97u8, 100u8, 100u8] && parts[0] != seq![114u8, 101u8, 109u8]
                ==> pipewire::event_in(s) is None
        }),
{
}

/// What an event says: the method, the kind and the number of its first three parts, whatever follows.
pub proof fn lemma_event_said(s: Seq<u8>)
    requires
        bytes::fields(s, 32u8).len() >= 3,
        number::leading_number(bytes::fields(s, 32u8)[2]) is Some,
    ensures
        ({
            let parts = bytes::fields(s, 32u8);
            let pid = number::leading_number(parts[2])->0 as u32;
            let capture = parts[1] == seq![99u8, 97u8, 112u8];
            let playback = parts[1] == seq![112u8, 108u8, 97u8, 121u8];
            let add = parts[0] == seq![97u8, 100u8, 100u8];
            let remove = parts[0] == seq![114u8, 101u8, 109u8];
            &&& add && capture ==> pipewire::event_in(s) == Some(ProcessEvent::Add(ProcessKind::Capture, pid))
            &&& add && playback ==> pipewire::event_in(s) == Some(ProcessEvent::Add(ProcessKind::Playback, pid))
            &&& remove && capture ==> pipewire::event_in(s) == Some(ProcessEvent::Remove(ProcessKind::Capture, pid))
            &&& remove && playback ==> pipewire::event_in(s) == Some(ProcessEvent::Remove(ProcessKind::Playback, pid))
        }),
{
    let parts = bytes::fields(s, 32u8);
    let cap = seq![99u8, 97u8, 112u8];
    let play = seq![112u8, 108u8, 97u8, 121u8];
    assert(cap.len() != play.len());
    let add = seq![97u8, 100u8, 100u8];
    let rem = seq![114u8, 101u8, 109u8];
    assert(add[0] != rem[0]);
}

/// The process behind a node is the one whose ID the node says, if it says a class that concerns anybody, a binary and
/// an ID that is a number. Else there is none.
pub proof fn lemma_behind(props: NodeProps)
    ensures
        props.media_class is None || props.process_binary is None || props.process_id is None
            ==> pipewire::process_behind(props) is None,
        props.media_class is Some && pipewire::kind_of_class(props.media_class->0@) is None
            ==> pipewire::process_behind(props) is None,
        props.process_id is Some && number::parsed(props.process_id->0@, 0xffff_ffff) is None
            ==> pipewire::process_behind(props) is None,
        props.media_class is Some && props.process_binary is Some && props.process_id is Some
            && pipewire::kind_of_class(props.media_class->0@) is Some && number::parsed(
            props.process_id->0@,
            0xffff_ffff,
        ) is Some ==> (pipewire::process_behind(props) matches Some((kind, process)) && Some(kind)
            == pipewire::kind_of_class(props.media_class->0@) && Some(process.id as int) == number::parsed(
            props.process_id->0@,
            0xffff_ffff,
        )),
{
    if props.process_id is Some {
        let id = props.process_id->0@;
        if let Some(n) = number::parsed(id, 0xffff_ffff) {
            lemma_not_negative(number::unsigned(id));
        }
    }
}

proof fn lemma_not_negative(digits: Seq<char>)
    requires
        number::all_digits(digits),
    ensures
        number::value(digits) >= 0,
    decreases digits.len(),
{
    if digits.len() > 0 {
        assert(number::is_digit(digits[digits.len() - 1]));
        assert forall|i: int| 0 <= i < digits.drop_last().len() implies number::is_digit(
            #[trigger] digits.drop_last()[i],
        ) by {
            assert(digits.drop_last()[i] == digits[i]);
        }
        lemma_not_negative(digits.drop_last());
    }
}

/// A node that says nothing of a process changes nothing. One that was not known and says something is made known as
/// it is. Other nodes stay what they are.
pub proof fn lemma_tracked(managed: Map<u32, (ProcessKind, Process)>, node: u32, props: NodeProps, other: u32)
    ensures
        ({
            let (after, event) = pipewire::tracked_info(managed, node, props);
            let said = pipewire::process_behind(props);
            &&& said is None ==> after == managed && event is None
            &&& said is Some ==> after.contains_key(node) && after[node] == said->0
            &&& said matches Some((kind, process)) ==> !managed.contains_key(node) ==> event == Some(
                ProcessEvent::Add(kind, process.id),
            )
            &&& managed.contains_key(node) ==> event is None
            &&& other != node ==> (after.contains_key(other) <==> managed.contains_key(other)) && (managed.contains_key(
                other,
            ) ==> after[other] == managed[other])
        }),
        ({
            let (after, event) = pipewire::tracked_removal(managed, node);
            &&& !after.contains_key(node)
            &&& managed.contains_key(node) ==> event == Some(
                ProcessEvent::Remove(managed[node].0, managed[node].1.id),
            )
            &&& !managed.contains_key(node) ==> event is None
            &&& other != node ==> (after.contains_key(other) <==> managed.contains_key(other)) && (managed.contains_key(
                other,
            ) ==> after[other] == managed[other])
        }),
{
}

} // verus!

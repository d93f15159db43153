use process_scheduler::pipewire::{
    should_boost_capture_media_class, should_boost_playback_media_class, NodeProps, NodeTracker,
    Process, ProcessEvent, ProcessKind,
};

#[test]
fn parses_process_event_bytes() {
    assert!(matches!(
        ProcessEvent::from_bytes(b"add cap 123"),
        Some(ProcessEvent::Add(_, 123))
    ));
    assert!(matches!(
        ProcessEvent::from_bytes(b"rem play 456"),
        Some(ProcessEvent::Remove(_, 456))
    ));
}

#[test]
fn boosts_capture_audio_midi_and_playback_separately() {
    assert!(should_boost_capture_media_class("Audio/Source"));
    assert!(should_boost_capture_media_class("Audio/Source/Virtual"));
    assert!(should_boost_capture_media_class("Stream/Input/Audio"));
    assert!(should_boost_capture_media_class("Stream/Input/Audio/Monitor"));
    assert!(should_boost_capture_media_class("Midi/Source"));
    assert!(should_boost_capture_media_class("Stream/Input/Midi"));
    assert!(should_boost_capture_media_class("Video/Source"));
    assert!(should_boost_capture_media_class("Stream/Input/Video"));

    assert!(should_boost_playback_media_class("Audio/Sink"));
    assert!(should_boost_playback_media_class("Audio/Sink/Virtual"));
    assert!(should_boost_playback_media_class("Stream/Output/Audio"));
    assert!(should_boost_playback_media_class("Video/Sink"));
    assert!(should_boost_playback_media_class("Stream/Output/Video"));

    assert!(!should_boost_capture_media_class("Audio/Sink"));
    assert!(!should_boost_capture_media_class("Stream/Output/Audio"));
    assert!(!should_boost_playback_media_class("Audio/Source"));
    assert!(!should_boost_playback_media_class("Stream/Input/Audio"));
    assert!(!should_boost_capture_media_class("Music"));
    assert!(!should_boost_playback_media_class("Music"));
}

#[test]
fn events_are_read_back_from_their_bytes() {
    let events = [
        ProcessEvent::Add(ProcessKind::Capture, 0),
        ProcessEvent::Add(ProcessKind::Playback, 4_294_967_295),
        ProcessEvent::Remove(ProcessKind::Capture, 1_000_000),
        ProcessEvent::Remove(ProcessKind::Playback, 9),
    ];
    for event in events {
        assert_eq!(ProcessEvent::from_bytes(&event.to_bytes()), Some(event));
    }
    assert_eq!(events[1].to_bytes(), b"add play 4294967295");
    assert_eq!(events[2].to_bytes(), b"rem cap 1000000");
}

#[test]
fn malformed_events_are_refused() {
    assert_eq!(ProcessEvent::from_bytes(b""), None);
    assert_eq!(ProcessEvent::from_bytes(b"add cap"), None);
    assert_eq!(ProcessEvent::from_bytes(b"add cap "), None);
    assert_eq!(ProcessEvent::from_bytes(b"add  cap 1"), None);
    assert_eq!(ProcessEvent::from_bytes(b"new cap 1"), None);
    assert_eq!(ProcessEvent::from_bytes(b"add mid 1"), None);
    assert_eq!(ProcessEvent::from_bytes(b"add cap x1"), None);
    assert_eq!(ProcessEvent::from_bytes(b"add cap 4294967296"), None);
    assert_eq!(ProcessEvent::from_bytes(b"add cap -1"), None);
}

#[test]
fn what_follows_the_number_is_ignored() {
    let added = Some(ProcessEvent::Add(ProcessKind::Capture, 12));
    assert_eq!(ProcessEvent::from_bytes(b"add cap 12 34"), added);
    assert_eq!(ProcessEvent::from_bytes(b"add cap 12\n"), added);
    assert_eq!(ProcessEvent::from_bytes(b"add cap +012x"), added);
    let zero = Some(ProcessEvent::Add(ProcessKind::Capture, 0));
    assert_eq!(ProcessEvent::from_bytes(b"add cap -0"), zero);
    assert_eq!(ProcessEvent::from_bytes(b"add cap +"), zero);
}

#[test]
fn kinds_have_names() {
    assert_eq!(ProcessKind::Capture.as_bytes(), b"cap");
    assert_eq!(ProcessKind::Playback.as_bytes(), b"play");
    assert_eq!(ProcessKind::from_bytes(b"play"), Some(ProcessKind::Playback));
    assert_eq!(ProcessKind::from_bytes(b"pla"), None);
    assert_eq!(
        ProcessKind::from_media_class("Midi/Source/Virtual"),
        Some(ProcessKind::Capture)
    );
    assert_eq!(
        ProcessKind::from_media_class("Video/Sink/Virtual"),
        Some(ProcessKind::Playback)
    );
    assert_eq!(ProcessKind::from_media_class("Video/Sink/Other"), None);
}

fn props(class: &str, binary: bool, id: Option<&str>) -> NodeProps {
    NodeProps {
        media_class: Some(class.to_owned()),
        process_binary: binary.then_some("player".to_owned()),
        process_id: id.map(str::to_owned),
    }
}

#[test]
fn nodes_stand_for_processes() {
    let (kind, process) = Process::from_node(&props("Audio/Sink", true, Some("12"))).unwrap();
    assert_eq!((kind, process.id), (ProcessKind::Playback, 12));
    assert!(Process::from_node(&props("Music", true, Some("12"))).is_none());
    assert!(Process::from_node(&props("Audio/Sink", false, Some("12"))).is_none());
    assert!(Process::from_node(&props("Audio/Sink", true, None)).is_none());
    assert!(Process::from_node(&props("Audio/Sink", true, Some(" 12"))).is_none());
    let mut classless = props("", true, Some("1"));
    classless.media_class = None;
    assert!(Process::from_node(&classless).is_none());
}

#[test]
fn nodes_are_added_once_and_removed() {
    let mut tracker = NodeTracker::new();
    let sink = props("Audio/Sink", true, Some("12"));
    let source = props("Audio/Source", true, Some("13"));
    assert_eq!(tracker.info(5, &props("Music", true, Some("1"))), None);
    assert_eq!(
        tracker.info(5, &sink),
        Some(ProcessEvent::Add(ProcessKind::Playback, 12))
    );
    assert_eq!(tracker.info(5, &source), None);
    assert_eq!(
        tracker.info(6, &sink),
        Some(ProcessEvent::Add(ProcessKind::Playback, 12))
    );
    assert_eq!(
        tracker.remove(5),
        Some(ProcessEvent::Remove(ProcessKind::Capture, 13))
    );
    assert_eq!(tracker.remove(5), None);
    assert_eq!(tracker.managed.len(), 1);
}

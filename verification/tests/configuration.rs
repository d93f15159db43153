use process_scheduler::config::{
    line_number, main_source, read_assignment_nodes, read_assignments, read_config, read_main,
    read_main_nodes, Config, ConfigSource, MainError, MainFile, Section,
};
use process_scheduler::document::{parse_document, Document, Entry, Node};
use process_scheduler::eevdf::{
    parse, profile_default, profile_responsive, tweak, Profile, SchedPaths, SchedPathsError,
};
use process_scheduler::scheduler::{Niceness, Profile as ProcessProfile, SchedPolicy};

fn profiles(source: &str) -> Vec<(String, Profile)> {
    parse(&parse_document(source).unwrap().unwrap().nodes)
}

#[test]
fn parses_eevdf_profiles() {
    let profiles = profiles("default base-slice-ns=3000000 preempt=\"voluntary\"\nresponsive base-slice-ns=700000 preempt=\"full\"");

    assert_eq!(profiles[0].0, "default");
    assert_eq!(profiles[0].1.base_slice_ns, 3_000_000);
    assert_eq!(profiles[0].1.preempt, "voluntary");
    assert_eq!(profiles[1].0, "responsive");
    assert_eq!(profiles[1].1.base_slice_ns, 700_000);
    assert_eq!(profiles[1].1.preempt, "full");
}

#[test]
fn rejects_negative_base_slice() {
    let profile = profiles("default base-slice-ns=-1 preempt=\"full\"")[0].1;

    assert_eq!(profile.base_slice_ns, profile_default().base_slice_ns);
    assert_eq!(profile.preempt, "full");
}

#[test]
fn ignores_removed_profile_fields() {
    let profile =
        profiles("default latency=4 nr-latency=10 wakeup-granularity=0.5 bandwidth-size=3")[0].1;

    assert_eq!(profile, profile_default());
}

#[test]
fn rejects_unknown_preempt_mode() {
    let profile = profiles("default base-slice-ns=700000 preempt=\"none\"")[0].1;

    assert_eq!(profile.base_slice_ns, 700_000);
    assert_eq!(profile.preempt, profile_default().preempt);
}

#[test]
fn the_last_property_that_counts_wins() {
    let profile =
        profiles("p base-slice-ns=1 base-slice-ns=2 base-slice-ns=\"x\" preempt=\"full\" preempt=1")[0].1;

    assert_eq!(profile.base_slice_ns, 2);
    assert_eq!(profile.preempt, "full");
    assert_eq!(profiles("p 5 \"full\"")[0].1, profile_default());
    assert_eq!(profiles("p base-slice-ns=0x10")[0].1.base_slice_ns, 16);
    assert!(profiles("").is_empty());
}

fn names(text: &str) -> Vec<String> {
    let document = parse_document(text).unwrap().unwrap();
    document.nodes.into_iter().map(|node| node.name).collect()
}

#[test]
fn documents_that_the_parser_does_not_get_through() {
    assert!(parse_document("(true)").is_none());
    assert!(parse_document("node (null)").is_none());
    assert!(parse_document("node (false)1").is_none());
    assert!(parse_document("(true)ab").is_none());
    assert!(parse_document("(true)ab\u{20ac}d").is_none());
    assert!(parse_document("a { b (null)1").is_none());
    assert!(parse_document("a // (true)\n(null)").is_none());
    assert!(parse_document("a \u{20ac}x=(true").is_none());
    assert!(parse_document("a x=(true").is_none());
}

#[test]
fn reserved_words_that_are_no_annotations() {
    assert_eq!(names("a // (true)"), ["a"]);
    assert_eq!(names("a // (true"), ["a"]);
    assert_eq!(names("a /* (false */"), ["a"]);
    assert_eq!(names("a // (true)ab\u{20ac}d"), ["a"]);
    assert_eq!(names("/* (null\u{20ac} */ a\nb // (true) (false) (null)"), ["a", "b"]);
    assert_eq!(names("(truex)a"), ["a"]);
    assert_eq!(names("(null\u{e9})a"), ["a"]);
    assert_eq!(names("a r#\"(true\"#"), ["a"]);
    assert_eq!(names("node true"), ["node"]);
    assert_eq!(names("(u8)x"), ["x"]);
    assert_eq!(names("/* (false */ a 1234"), ["a"]);

    let document = parse_document("a \"(true)\"").unwrap().unwrap();
    assert_eq!(document.nodes[0].entries[0].text.as_deref(), Some("(true)"));
}

#[test]
fn errors_in_documents_with_reserved_words() {
    assert_eq!(parse_document("(true)abc").unwrap().err(), Some(5));
    assert_eq!(parse_document("(true)abcdefgh").unwrap().err(), Some(5));
    assert_eq!(parse_document("node x=(null)a\u{e9}").unwrap().err(), Some(12));
    assert_eq!(parse_document("bad evil // (true)").unwrap().err(), Some(4));
    assert_eq!(parse_document("(true)abcd // (true)").unwrap().err(), Some(5));
    assert_eq!(parse_document("a \"(true").unwrap().err(), Some(8));
}

#[test]
fn errors_at_annotations_that_are_slashed_out() {
    assert_eq!(parse_document("/-(true)x").unwrap().err(), Some(0));
    assert_eq!(parse_document("a\n/- (null)").unwrap().err(), Some(2));
    assert_eq!(parse_document("a /-(false)1").unwrap().err(), Some(2));
    assert_eq!(parse_document("a /-x=(true").unwrap().err(), Some(2));
    assert_eq!(parse_document("/- b { (null)\u{20ac}").unwrap().err(), Some(0));
    assert_eq!(parse_document("a // (null)\u{20ac}\u{20ac}\n/-(true)x").unwrap().err(), Some(18));
    assert_eq!(main_file("a\n/-(true)x").sections.err(), Some(MainError::Line(2)));
    assert!(read_assignments("assignments\n/-(true)x").is_none());
    assert!(parse_document("/-a\n(true)x").is_none());
    assert!(parse_document("/- b\nc /-1 (null)").is_none());
}

#[test]
fn a_document_has_the_nodes_of_its_source() {
    let document = parse_document("a {\n b 1\n c\n}\nd").unwrap().unwrap();
    let children = document.source.nodes()[0].children().unwrap().clone();
    let children = Document::new(children);
    assert_eq!(children.nodes.len(), 2);
    assert_eq!(children.nodes[0].name, "b");
    assert_eq!(children.nodes[0].entries[0].integer, Some(1));
    assert_eq!(children.nodes[1].name, "c");
}

#[test]
fn tuning_writes_the_slice_and_the_mode() {
    let paths = SchedPaths::new(true, true).unwrap();
    let files = tweak(&paths, &profile_responsive());
    assert_eq!(files.len(), 2);
    assert_eq!(files[0].path, "/sys/kernel/debug/sched/base_slice_ns");
    assert_eq!(files[0].value, b"700000");
    assert_eq!(files[1].path, "/sys/kernel/debug/sched/preempt");
    assert_eq!(files[1].value, b"full");

    let paths = SchedPaths::new(true, false).unwrap();
    assert_eq!(tweak(&paths, &profile_default()).len(), 1);
}

#[test]
fn tuning_needs_support_by_the_kernel() {
    let error = SchedPaths::new(false, true).err().unwrap();
    assert_eq!(error, SchedPathsError::NotSupported);
    assert_eq!(
        error.message(),
        "kernel does not support EEVDF scheduler tuning"
    );
}

#[test]
fn the_main_file_of_the_system_comes_first() {
    assert_eq!(main_source(true, true), Some(ConfigSource::System));
    assert_eq!(main_source(false, true), Some(ConfigSource::Distribution));
    assert_eq!(main_source(false, false), None);
}

fn describe(sections: &[Section]) -> Vec<String> {
    sections
        .iter()
        .map(|section| match section {
            Section::EevdfProfiles(at) => format!("eevdf {at}"),
            Section::ProcessScheduler(at) => format!("scheduler {at}"),
            Section::Assignments(at) => format!("assignments {at}"),
            Section::Exceptions(at) => format!("exceptions {at}"),
            Section::Unknown(name) => format!("unknown {name}"),
        })
        .collect()
}

fn main_file(text: &str) -> MainFile<String> {
    read_main(Some(text))
}

#[test]
fn the_main_file_is_split_into_sections() {
    let text = "version \"2.0\"\nautogroup-enabled true\neevdf-profiles {\n a\n}\nprocess-scheduler { }\nother 1\n";
    let file = main_file(text);
    assert!(file.config.autogroup_enabled);
    let sections = file.sections.unwrap();
    assert_eq!(describe(&sections.list), ["eevdf 2", "scheduler 3", "unknown other"]);
    assert_eq!(sections.document.source.nodes()[2].name().value(), "eevdf-profiles");

    let file = main_file("autogroup-enabled x=true");
    assert!(file.sections.unwrap().list.is_empty());
    assert!(!file.config.autogroup_enabled);
    assert!(main_file("autogroup-enabled x=false true 1").config.autogroup_enabled);
    assert!(!main_file("autogroup-enabled 1 true").config.autogroup_enabled);
    assert!(!main_file("autogroup-enabled true\nautogroup-enabled").config.autogroup_enabled);
    assert!(main_file("autogroup-enabled true // (true)").config.autogroup_enabled);
    assert!(main_file("autogroup-enabled true // (null)\u{20ac}\u{20ac}").config.autogroup_enabled);
}

#[test]
fn a_main_file_with_an_error_sets_nothing() {
    let file = main_file("autogroup-enabled true\nnode 1\nbad evil\n");
    assert_eq!(file.sections.err(), Some(MainError::Line(3)));
    assert!(!file.config.autogroup_enabled);

    let file = main_file("autogroup-enabled true\n(true)");
    assert_eq!(file.sections.err(), Some(MainError::Unreadable));
    assert!(!file.config.autogroup_enabled);

    let file: MainFile<String> = read_main(None);
    assert_eq!(file.sections.err(), Some(MainError::Missing));
    assert!(!file.config.autogroup_enabled);

    assert_eq!(line_number("a\nb\nc", 4), 3);
    assert_eq!(line_number("a\nb\nc", 2), 2);
    assert_eq!(line_number("a\nb\nc", 1), 1);
    assert_eq!(line_number("", 0), 1);
}

#[test]
fn sections_of_given_nodes() {
    let node = |name: &str, flag: Option<bool>| Node {
        name: name.to_owned(),
        entries: vec![Entry {
            name: None,
            integer: None,
            text: None,
            flag,
        }],
    };
    let nodes = vec![
        node("autogroup-enabled", Some(true)),
        node("autogroup-enabled", None),
        node("version", None),
        node("process-scheduler", None),
    ];
    let mut config: Config<String> = Config::new();
    config.autogroup_enabled = true;
    assert_eq!(describe(&read_main_nodes(&mut config, &nodes)), ["scheduler 3"]);
    assert!(!config.autogroup_enabled);

    let nodes = vec![node("exceptions", None), node("assignments", None), node("x", None)];
    assert_eq!(
        describe(&read_assignment_nodes(&nodes)),
        ["exceptions 0", "assignments 1", "unknown x"]
    );
}

#[test]
fn a_file_of_assignments_is_split_into_sections() {
    let sections = read_assignments("assignments { }\nexceptions { }\nversion 1").unwrap();
    assert_eq!(
        describe(&sections.list),
        ["assignments 0", "exceptions 1", "unknown version"]
    );
    assert!(read_assignments("bad evil").is_none());
    assert!(read_assignments("assignments (null)").is_none());
    let sections = read_assignments("assignments // see (false)").unwrap();
    assert_eq!(describe(&sections.list), ["assignments 0"]);
}

fn with_profiles(names: &[&str]) -> Config<String> {
    let mut config: Config<String> = Config::new();
    for name in names {
        config
            .process_scheduler
            .assignments
            .profiles
            .insert((*name).to_owned(), ProcessProfile::new(name));
    }
    read_config(config)
}

#[test]
fn profiles_with_a_part_of_their_own_are_taken_out() {
    let scheduler = with_profiles(&[
        "games",
        "pipewire",
        "foreground",
        "background",
        "pipewire-playback",
    ])
    .process_scheduler;
    let foreground = scheduler.foreground.unwrap();
    assert_eq!(foreground.foreground.name, "foreground");
    assert_eq!(foreground.background.name, "background");
    assert_eq!(scheduler.pipewire.unwrap().name, "pipewire");
    assert_eq!(scheduler.pipewire_playback.unwrap().name, "pipewire-playback");
    assert_eq!(scheduler.assignments.profiles.len(), 1);
    assert!(scheduler.assignments.profiles.contains_key("games"));
}

#[test]
fn foreground_and_background_count_only_together() {
    let scheduler = with_profiles(&["foreground", "games"]).process_scheduler;
    assert!(scheduler.foreground.is_none());
    assert!(!scheduler.assignments.profiles.contains_key("foreground"));
    assert!(scheduler.pipewire.is_none());
    assert!(scheduler.pipewire_playback.is_none());
}

#[test]
fn a_profile_keeps_its_settings_when_it_is_taken_out() {
    let mut config: Config<String> = Config::new();
    let mut profile = ProcessProfile::new("pipewire");
    assert!(profile.nice.is_none());
    assert_eq!(profile.sched_policy, SchedPolicy::Other);
    profile.nice = Some(Niceness::new(-6));
    profile.sched_policy = SchedPolicy::Batch;
    config
        .process_scheduler
        .assignments
        .profiles
        .insert("pipewire".to_owned(), profile);
    let pipewire = read_config(config).process_scheduler.pipewire.unwrap();
    assert_eq!(pipewire.nice.unwrap().get(), -6);
    assert_eq!(pipewire.sched_policy, SchedPolicy::Batch);
}

#[test]
fn a_configuration_is_valid_while_its_maps_are_in_order() {
    let mut config: Config<String> = Config::new();
    assert!(config.is_valid());
    let profiles = &mut config.process_scheduler.assignments.profiles;
    for name in ["b", "c", "a"] {
        profiles.insert(name.to_owned(), ProcessProfile::new(name));
    }
    assert!(config.is_valid());
    config.process_scheduler.assignments.profiles.entries.swap(0, 2);
    assert!(!config.is_valid());

    let mut config: Config<String> = Config::new();
    config.eevdf_profiles.profiles.entries.reverse();
    assert!(!config.is_valid());
}

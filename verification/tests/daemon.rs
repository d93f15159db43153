use process_scheduler::arrivals::ProcessReading;
use process_scheduler::cgroup_weights::WeightAction;
use process_scheduler::children::ChildScan;
use process_scheduler::config::Config;
use process_scheduler::eevdf::{profile_default, profile_responsive, Profile as EevdfProfile, SchedPaths};
use process_scheduler::pipewire::ProcessKind;
use process_scheduler::process::Process;
use process_scheduler::refresh::{pid_of_entry, Scanned, GARBAGE_INTERVAL};
use process_scheduler::scheduler::{
    CgroupWeight, CgroupWeights, Condition, ForegroundAssignments, Niceness, Profile, ProfileRules,
    SchedPolicy,
};
use process_scheduler::service::{Effects, ForegroundTarget, OwnedPriority, Priority, Service};

fn service() -> Service<String> {
    let mut service: Service<String> = Service::new(None);
    let scheduler = &mut service.config.process_scheduler;
    scheduler.foreground = Some(ForegroundAssignments {
        background: Profile::new("background"),
        foreground: Profile::new("foreground"),
    });
    scheduler.pipewire = Some(Profile::new("pipewire"));
    scheduler.pipewire_playback = Some(Profile::new("pipewire-playback"));
    service
}

fn alive(pid: u32, parent: Option<u32>, name: &str, cgroup: &str) -> Scanned {
    Scanned::new(
        pid,
        parent,
        format!("/bin/{name}"),
        name.to_owned(),
        Some(cgroup.to_owned()),
    )
}

fn settings(effects: &Effects) -> Vec<(u32, String)> {
    effects
        .settings
        .iter()
        .map(|setting| (setting.pid, setting.profile.name.clone()))
        .collect()
}

fn expected(list: &[(u32, &str)]) -> Vec<(u32, String)> {
    list.iter()
        .map(|(pid, profile)| (*pid, (*profile).to_owned()))
        .collect()
}

/// 1 -> 10 -> 11 -> 12, and 1 -> 20.
fn family() -> Service<String> {
    let mut service = service();
    service.process_map_refresh(vec![
        alive(1, Some(0), "init", "/init.scope"),
        alive(10, Some(1), "shell", "/u/app.slice/a.scope"),
        alive(11, Some(10), "editor", "/u/app.slice/a.scope/x"),
        alive(12, Some(11), "helper", "/u/app.slice/a.scope/x"),
        alive(20, Some(1), "game", "/u/app.slice/b.scope"),
    ]);
    service
}

fn condition() -> Condition<String> {
    Condition {
        cgroup: None,
        descends: None,
        name: None,
        parent: Vec::new(),
    }
}

fn assignment(service: &Service<String>, pid: u32) -> String {
    match service.process_assignment(pid) {
        Priority::Assignable => "assignable".to_owned(),
        Priority::Config(profile) => format!("config {}", profile.name),
        Priority::Exception => "exception".to_owned(),
        Priority::NotAssignable => "not assignable".to_owned(),
    }
}

#[test]
fn processes_are_assignable_by_default() {
    let service = family();
    assert_eq!(assignment(&service, 11), "assignable");
    assert_eq!(assignment(&service, 99), "not assignable");
}

#[test]
fn a_process_without_a_cgroup_is_not_assignable() {
    let mut service = service();
    let effects = service.process_map_refresh(vec![alive(1, None, "kernel", "")]);
    assert_eq!(assignment(&service, 1), "not assignable");
    assert!(effects.settings.is_empty() && effects.reconcile);
}

#[test]
fn command_lines_come_before_names() {
    let mut service = service();
    let assignments = &mut service.config.process_scheduler.assignments;
    assignments
        .cmdlines
        .push(("/bin/a".to_owned(), Profile::new("by-cmdline")));
    assignments
        .names
        .push(("a".to_owned(), Profile::new("by-name")));
    assignments
        .names
        .push(("b".to_owned(), Profile::new("by-name")));
    let effects = service.process_map_refresh(vec![
        alive(1, None, "a", "/x"),
        alive(2, None, "b", ""),
    ]);
    assert_eq!(assignment(&service, 1), "config by-cmdline");
    assert_eq!(assignment(&service, 2), "config by-name");
    assert_eq!(
        settings(&effects),
        expected(&[(1, "by-cmdline"), (2, "by-name")])
    );
}

#[test]
fn exceptions_come_first() {
    let mut service = service();
    let assignments = &mut service.config.process_scheduler.assignments;
    assignments
        .names
        .push(("a".to_owned(), Profile::new("by-name")));
    assignments.exceptions_names.push("a".to_owned());
    assignments.exceptions_cmdlines.push("/bin/b".to_owned());
    let effects = service.process_map_refresh(vec![
        alive(1, None, "a", "/x"),
        alive(2, None, "b", "/x"),
    ]);
    assert_eq!(assignment(&service, 1), "exception");
    assert_eq!(assignment(&service, 2), "exception");
    assert!(effects.settings.is_empty());
}

#[test]
fn exception_conditions_look_at_ancestors_and_parents() {
    let mut service = family();
    let exceptions = &mut service
        .config
        .process_scheduler
        .assignments
        .exceptions_conditions;
    exceptions.push(Condition {
        descends: Some("shell".to_owned()),
        parent: vec!["init".to_owned(), "editor".to_owned()],
        name: Some("not looked at".to_owned()),
        ..condition()
    });
    let of = |pid: u32| {
        let process = service.process_map.get_pid(pid).unwrap();
        service.process_is_exception(process)
    };
    assert!(of(12));
    assert!(!of(11));
    assert!(!of(10));
    assert!(!of(20));
}

#[test]
fn the_name_before_a_fork_counts_for_exceptions() {
    let mut service = family();
    service
        .config
        .process_scheduler
        .assignments
        .exceptions_conditions
        .push(Condition {
            descends: Some("launcher".to_owned()),
            ..condition()
        });
    let mut process = Process::new(30, 20);
    assert!(!service.process_is_exception(&process));
    process.forked_name = "launcher".to_owned();
    assert!(service.process_is_exception(&process));
    service.process_map.processes[1].forked_name = "launcher".to_owned();
    assert!(service.process_is_exception(service.process_map.get_pid(12).unwrap()));
}

fn rules(profile: &str, conditions: Vec<(Condition<String>, bool)>) -> ProfileRules<String> {
    ProfileRules {
        profile: Profile::new(profile),
        conditions,
    }
}

#[test]
fn conditions_assign_profiles() {
    let mut service = service();
    let conditions = &mut service.config.process_scheduler.assignments.conditions;
    conditions.insert(
        "b".to_owned(),
        rules(
            "second",
            vec![(
                Condition {
                    descends: Some("shell".to_owned()),
                    ..condition()
                },
                true,
            )],
        ),
    );
    conditions.insert(
        "a".to_owned(),
        rules(
            "first",
            vec![
                (
                    Condition {
                        parent: vec!["other".to_owned(), "editor".to_owned()],
                        ..condition()
                    },
                    true,
                ),
                (
                    Condition {
                        name: Some("spare".to_owned()),
                        cgroup: Some("/x".to_owned()),
                        ..condition()
                    },
                    false,
                ),
            ],
        ),
    );
    service.process_map_refresh(vec![
        alive(10, None, "shell", "/x"),
        alive(11, Some(10), "editor", "/x"),
        alive(12, Some(11), "helper", "/x"),
        alive(13, Some(11), "spare", "/x"),
        alive(14, Some(11), "spare", "/y"),
    ]);
    assert_eq!(assignment(&service, 10), "assignable");
    assert_eq!(assignment(&service, 11), "config second");
    assert_eq!(assignment(&service, 12), "config first");
    assert_eq!(assignment(&service, 13), "config second");
    assert_eq!(assignment(&service, 14), "config first");
}

#[test]
fn a_priority_is_decided_on_once() {
    let mut service = family();
    service
        .config
        .process_scheduler
        .assignments
        .exceptions_names
        .push("editor".to_owned());
    service.assign_process_priority(11);
    assert_eq!(assignment(&service, 11), "assignable");
    service.process_map.processes[2].assigned_priority = OwnedPriority::NotAssignable;
    service.assign_process_priority(11);
    assert_eq!(assignment(&service, 11), "exception");
    service.assign_process_priority(11);
    assert_eq!(assignment(&service, 11), "exception");
    service.assign_process_priority(77);
}

#[test]
fn a_foreground_process_takes_its_descendants_along() {
    let mut service = family();
    let effects = service.set_foreground_process(10);
    assert!(effects.reconcile);
    assert_eq!(
        settings(&effects),
        expected(&[
            (1, "background"),
            (10, "foreground"),
            (11, "foreground"),
            (12, "foreground"),
            (20, "background")
        ])
    );
    assert_eq!(service.foreground_processes, [10, 10, 11, 12]);
    assert!(service.process_is_foreground(service.process_map.get_pid(12).unwrap()));
    assert!(!service.process_is_foreground(service.process_map.get_pid(20).unwrap()));
}

#[test]
fn without_profiles_there_is_no_foreground() {
    let mut service = family();
    service.config.process_scheduler.foreground = None;
    let effects = service.set_foreground_process(10);
    assert!(effects.settings.is_empty() && effects.reconcile);
    assert!(service.foreground.is_none());
    let effects = service.set_foreground_cgroup("/u");
    assert!(effects.settings.is_empty() && !effects.reconcile);
}

#[test]
fn a_foreground_cgroup_is_cleared_by_an_empty_path() {
    let mut service = family();
    let effects = service.set_foreground_cgroup(" /u/app.slice/a.scope/ ");
    assert!(effects.reconcile);
    assert_eq!(service.foreground_processes, [10, 11, 12]);
    assert_eq!(settings(&effects)[1], (10, "foreground".to_owned()));
    assert_eq!(settings(&effects)[4], (20, "background".to_owned()));
    match &service.foreground {
        Some(ForegroundTarget::Cgroup(path)) => assert_eq!(path, "/u/app.slice/a.scope"),
        other => panic!("{other:?}"),
    }

    let again = service.reapply_foreground();
    assert_eq!(again.len(), 5);
    assert_eq!(service.foreground_processes, [10, 11, 12]);

    let effects = service.set_foreground_cgroup(" / / ");
    assert!(effects.reconcile);
    let effects = service.set_foreground_cgroup("");
    assert!(effects.reconcile && service.foreground.is_none());
    assert!(settings(&effects).iter().all(|(_, profile)| profile == "background"));
    assert!(service.foreground_processes.is_empty());
    let effects = service.clear_foreground();
    assert!(!effects.reconcile && effects.settings.is_empty());
}

#[test]
fn capture_reaches_relatives() {
    let mut service = family();
    let effects = service.set_pipewire_process(ProcessKind::Capture, 11);
    assert!(effects.reconcile);
    assert_eq!(
        settings(&effects),
        expected(&[(1, "pipewire"), (10, "pipewire"), (11, "pipewire"), (12, "pipewire")])
    );
    assert_eq!(service.pipewire_capture_processes, [11]);
    let kind = |pid: u32| {
        service.process_is_pipewire_kind(service.process_map.get_pid(pid).unwrap())
    };
    assert_eq!(kind(12), Some(ProcessKind::Capture));
    assert_eq!(kind(20), None);

    let effects = service.set_foreground_process(11);
    assert_eq!(settings(&effects)[2], (11, "pipewire".to_owned()));

    let effects = service.remove_pipewire_process(ProcessKind::Capture, 11);
    assert!(effects.reconcile);
    assert_eq!(
        settings(&effects),
        expected(&[(1, "background"), (10, "background"), (11, "foreground"), (12, "foreground")])
    );
    assert!(service.pipewire_capture_processes.is_empty());
    assert!(service
        .process_map
        .processes
        .iter()
        .all(|process| process.pipewire_ancestor.is_none()));
    let effects = service.remove_pipewire_process(ProcessKind::Capture, 11);
    assert!(!effects.reconcile && effects.settings.is_empty());
}

#[test]
fn playback_stays_with_the_process() {
    let mut service = family();
    let effects = service.set_pipewire_process(ProcessKind::Playback, 11);
    assert_eq!(settings(&effects), expected(&[(11, "pipewire-playback")]));
    service.set_pipewire_process(ProcessKind::Playback, 11);
    assert_eq!(service.pipewire_playback_processes, [11]);
    let effects = service.set_foreground_process(11);
    assert_eq!(settings(&effects)[2], (11, "foreground".to_owned()));
    let effects = service.clear_foreground();
    assert_eq!(settings(&effects)[2], (11, "pipewire-playback".to_owned()));
    service.config.process_scheduler.foreground = None;
    let process = service.process_map.get_pid(11).unwrap();
    let setting = service.apply_process_priority(process).unwrap();
    assert_eq!(setting.profile.name, "pipewire-playback");
    let process = service.process_map.get_pid(20).unwrap();
    let setting = service.apply_process_priority(process).unwrap();
    assert_eq!((setting.pid, setting.profile.name.as_str()), (20, "default"));
}

#[test]
fn a_configured_process_keeps_its_profile_when_it_captures() {
    let mut service = family();
    service.process_map.processes[2].assigned_priority =
        OwnedPriority::Config(Profile::new("editors"));
    let effects = service.set_pipewire_process(ProcessKind::Capture, 11);
    assert!(effects.settings.is_empty() && effects.reconcile);
    assert_eq!(service.pipewire_capture_processes, [11]);
    let effects = service.set_pipewire_process(ProcessKind::Capture, 11);
    assert_eq!(
        settings(&effects),
        expected(&[(1, "pipewire"), (10, "pipewire"), (12, "pipewire")])
    );
    let editor = service.process_map.get_pid(11).unwrap();
    let setting = service.apply_process_priority(editor).unwrap();
    assert_eq!(setting.profile.name, "editors");
}

#[test]
fn a_new_process_joins_the_streams_of_its_ancestors() {
    let mut service = family();
    service.pipewire_playback_processes = vec![1, 10];
    service.pipewire_capture_processes = vec![1];
    let reading = ProcessReading {
        cmdline: Some("/bin/child --now".to_owned()),
        cgroup: Some("/u/app.slice/a.scope".to_owned()),
    };
    let effects =
        service.assign_new_process(30, 11, "child".to_owned(), String::new(), Some(reading));
    assert!(effects.reconcile);
    let child = service.process_map.get_pid(30).unwrap();
    assert_eq!(child.cmdline, "/bin/child --now");
    assert_eq!(child.parent, Some(11));
    assert_eq!(child.pipewire_ancestor, Some(10));
    assert_eq!(settings(&effects), expected(&[(30, "pipewire-playback")]));

    let effects = service.assign_new_process(31, 10, "x".to_owned(), "/x".to_owned(), None);
    let child = service.process_map.get_pid(31).unwrap();
    assert_eq!(child.cmdline, "/x");
    assert_eq!(child.pipewire_ancestor, Some(1));
    assert_eq!(child.cgroup, "");
    assert!(effects.settings.is_empty());
    assert_eq!(assignment(&service, 31), "not assignable");
}

#[test]
fn a_known_process_is_not_replaced() {
    let mut service = family();
    let effects = service.assign_new_process(20, 10, "new".to_owned(), "/new".to_owned(), None);
    assert_eq!(settings(&effects), expected(&[(20, "background")]));
    let game = service.process_map.get_pid(20).unwrap();
    assert_eq!(game.name, "game");
    assert_eq!(game.parent, Some(1));
    assert_eq!(service.process_map.processes.len(), 5);
}

#[test]
fn unknown_parents_are_not_linked() {
    let mut service = family();
    service.assign_new_process(30, 99, "x".to_owned(), "/x".to_owned(), None);
    let child = service.process_map.get_pid(30).unwrap();
    assert_eq!((child.parent, child.parent_id), (None, 99));
    assert!(service.process_descended_from(child, 99));
    assert!(!service.process_descended_from(child, 1));
}

#[test]
fn descent_goes_by_links_and_parent_ids() {
    let service = family();
    let helper = service.process_map.get_pid(12).unwrap();
    for ancestor in [11, 10, 1, 0] {
        assert!(service.process_descended_from(helper, ancestor));
    }
    assert!(!service.process_descended_from(helper, 12));
    assert!(!service.process_descended_from(helper, 20));
}

#[test]
fn links_in_a_circle_end_the_walk() {
    let mut service = service();
    service.process_map_refresh(vec![
        alive(1, Some(2), "a", "/x"),
        alive(2, Some(1), "b", "/x"),
    ]);
    let process = service.process_map.get_pid(1).unwrap();
    assert!(service.process_descended_from(process, 1));
    assert!(!service.process_descended_from(process, 3));
    assert_eq!(service.process_map.ancestors(process), [1, 0]);
}

#[test]
fn children_are_searched_once_each() {
    let mut scan = ChildScan::new(1);
    let children = |pid: u32| match pid {
        1 => vec![2, 3, 2],
        2 => vec![4, 1],
        3 => vec![4, 2],
        _ => vec![],
    };
    while let Some(pid) = scan.next() {
        scan.found(&children(pid));
    }
    assert_eq!(scan.scanned, [1, 3, 4, 2]);
    assert!(scan.next().is_none());
}

#[test]
fn children_are_assigned_unless_they_are_known() {
    let mut service = family();
    let name = || "x".to_owned();
    assert!(service.assign_child(20, Some(1), name(), Some(name()), None).is_none());
    assert!(service.assign_child(30, None, name(), Some(name()), None).is_none());
    assert!(service.assign_child(30, Some(1), name(), None, None).is_none());
    assert_eq!(service.process_map.processes.len(), 5);
    assert!(service.assign_child(30, Some(1), name(), Some(name()), None).is_some());
    assert_eq!(service.process_map.get_pid(30).unwrap().parent, Some(1));
}

#[test]
fn a_refresh_drops_dead_processes_and_keeps_the_living() {
    let mut service = family();
    let effects = service.process_map_refresh(vec![
        alive(12, Some(1), "renamed", "/y"),
        alive(30, Some(12), "new", "/x"),
    ]);
    let known: Vec<u32> = service.process_map.processes.iter().map(|p| p.id).collect();
    assert_eq!(known, [1, 10, 11, 12, 30]);
    let helper = service.process_map.get_pid(12).unwrap();
    assert_eq!((helper.name.as_str(), helper.parent), ("helper", Some(1)));
    assert_eq!(service.process_map.get_pid(30).unwrap().parent, Some(12));
    assert_eq!(settings(&effects).len(), 10);

    service.process_map_refresh(vec![alive(30, None, "new", "/x")]);
    let known: Vec<u32> = service.process_map.processes.iter().map(|p| p.id).collect();
    assert_eq!(known, [1, 12, 30]);
    service.process_map_refresh(vec![alive(12, None, "helper", "/x")]);
    service.process_map_refresh(vec![alive(1, None, "init", "/x")]);
    assert_eq!(service.process_map.processes.len(), 1);
}

#[test]
fn links_to_dropped_processes_are_dropped() {
    let mut service = family();
    service.process_map.processes[4].parent = None;
    service.process_map.drain_filter_prepare();
    service.process_map.stale = vec![1];
    service.process_map.drain_filter();
    assert_eq!(service.process_map.get_pid(10).unwrap().parent, None);
    assert_eq!(service.process_map.get_pid(11).unwrap().parent, Some(10));
    assert!(service.process_map.stale.is_empty());
}

#[test]
fn garbage_is_looked_for_at_intervals() {
    let mut service = service();
    let due: Vec<usize> = (1..=2 * (GARBAGE_INTERVAL + 1))
        .filter(|_| service.garbage_due())
        .collect();
    assert_eq!(due, [2049, 4098]);
}

#[test]
fn garbage_is_cleaned() {
    let mut service = family();
    service.garbage_clean(vec![
        Scanned::new(20, Some(1), String::new(), String::new(), None),
        Scanned::new(40, None, String::new(), String::new(), None),
    ]);
    let known: Vec<u32> = service.process_map.processes.iter().map(|p| p.id).collect();
    assert_eq!(known, [1, 20, 40]);
    assert_eq!(assignment(&service, 20), "assignable");
    assert_eq!(assignment(&service, 40), "not assignable");
    assert_eq!(service.process_map.get_pid(40).unwrap().parent_id, 0);
}

#[test]
fn kernel_threads_are_not_looked_at() {
    let name = || "x".to_owned();
    assert!(Scanned::from_readings(2, Some(0), None, name(), Some(name())).is_none());
    let found = Scanned::from_readings(2, None, Some(name()), name(), None).unwrap();
    assert_eq!((found.process.id, found.process.parent_id), (2, 0));
    assert_eq!((found.process.cmdline.as_str(), found.process.cgroup.as_str()), ("x", ""));
    assert_eq!(found.parent, None);
}

#[test]
fn entries_of_the_process_directory() {
    assert_eq!(pid_of_entry(b"123"), Some(123));
    assert_eq!(pid_of_entry(b"self"), None);
    assert_eq!(pid_of_entry(b""), None);
    assert_eq!(pid_of_entry(b"4294967296"), None);
}

fn weighted() -> Service<String> {
    let mut service = family();
    service.config.process_scheduler.cgroup_weights = Some(CgroupWeights {
        enable: true,
        default: CgroupWeight::new(100, 100),
        pipewire_capture: CgroupWeight::new(800, 800),
        pipewire_playback: CgroupWeight::new(400, 400),
        foreground: CgroupWeight::new(900, 900),
    });
    service
}

fn weights(service: &mut Service<String>, readings: &[(u32, &str)]) -> Vec<(String, u32)> {
    let readings = readings
        .iter()
        .map(|(pid, path)| (*pid, (*path).to_owned()))
        .collect();
    service
        .reconcile_cgroup_weights(&readings)
        .into_iter()
        .map(|action| match action {
            WeightAction::Take { cgroup, weight, .. } => (cgroup, weight.cpu),
            WeightAction::Adjust { cgroup, weight } => (format!("adjust {cgroup}"), weight.cpu),
            WeightAction::Restore { cgroup, weight } => (format!("restore {cgroup}"), weight.cpu),
        })
        .collect()
}

#[test]
fn foreground_weighs_more_than_capture_and_capture_more_than_playback() {
    let mut service = weighted();
    service.pipewire_playback_processes = vec![12, 20, 50];
    service.pipewire_capture_processes = vec![20, 51];
    service.foreground = Some(ForegroundTarget::Process(52));
    assert_eq!(service.unread_cgroups(), [50, 51, 52]);
    let readings = [(50, "/p"), (51, "/u/app.slice/c.scope/y"), (52, "/p")];
    assert_eq!(
        weights(&mut service, &readings),
        [
            ("/p".to_owned(), 900),
            ("/u/app.slice/a.scope".to_owned(), 400),
            ("/u/app.slice/b.scope".to_owned(), 800),
            ("/u/app.slice/c.scope".to_owned(), 800)
        ]
    );
    service.foreground = Some(ForegroundTarget::Cgroup("/u/app.slice/a.scope".to_owned()));
    assert_eq!(service.unread_cgroups(), [50, 51]);
    assert_eq!(weights(&mut service, &[])[0], ("/u/app.slice/a.scope".to_owned(), 900));
}

#[test]
fn weights_can_be_off() {
    let mut service = weighted();
    service.pipewire_capture_processes = vec![20, 51];
    for action in service.reconcile_cgroup_weights(&Vec::new()) {
        service.cgroup_weights.confirm(action, None);
    }
    service
        .config
        .process_scheduler
        .cgroup_weights
        .as_mut()
        .unwrap()
        .enable = false;
    assert!(service.unread_cgroups().is_empty());
    assert_eq!(
        weights(&mut service, &[]),
        [("restore /u/app.slice/b.scope".to_owned(), 100)]
    );
}

#[test]
fn a_reload_replaces_the_configuration() {
    let mut service = family();
    let effects = service.reload_configuration(Config::new());
    assert!(effects.reconcile && effects.settings.is_empty());
    assert!(service.config.process_scheduler.foreground.is_none());
    assert_eq!(assignment(&service, 10), "assignable");
}

#[test]
fn the_kernel_is_tuned_by_power_source() {
    let mut service: Service<String> = Service::new(SchedPaths::new(true, true).ok());
    assert!(service.eevdf_on_battery(true).is_empty());
    service.config.eevdf_profiles.enable = true;
    assert_eq!(service.eevdf_on_battery(true)[0].value, b"3000000");
    assert_eq!(service.eevdf_on_battery(false)[1].value, b"full");
    assert_eq!(service.eevdf_default_config(), profile_default());
    service.config.eevdf_profiles.profiles.insert(
        "default".to_owned(),
        EevdfProfile {
            base_slice_ns: 5,
            preempt: "full",
        },
    );
    assert_eq!(service.eevdf_config("default").unwrap().base_slice_ns, 5);
    assert_eq!(service.eevdf_on_battery(true)[0].value, b"5");
    service.config.eevdf_profiles.profiles.remove("responsive");
    assert!(service.eevdf_config("responsive").is_none());
    assert_eq!(service.eevdf_responsive_config(), profile_responsive());
    service.eevdf_paths = None;
    assert!(service.eevdf_apply(&profile_default()).is_empty());
}

#[test]
fn a_profile_is_handed_on_with_its_settings() {
    let mut service: Service<String> = Service::new(None);
    let mut configured = Profile::new("default");
    configured.nice = Some(Niceness::new(19));
    configured.sched_policy = SchedPolicy::Idle;
    let names = &mut service.config.process_scheduler.assignments.names;
    names.push(("a".to_owned(), configured));
    let effects = service.process_map_refresh(vec![
        alive(1, None, "a", "/x"),
        alive(2, None, "b", "/x"),
    ]);
    assert_eq!(settings(&effects), expected(&[(1, "default"), (2, "default")]));
    let set = &effects.settings[0].profile;
    assert_eq!(set.nice.unwrap().get(), 19);
    assert_eq!(set.sched_policy, SchedPolicy::Idle);
    let set = &effects.settings[1].profile;
    assert!(set.nice.is_none());
    assert_eq!(set.sched_policy, SchedPolicy::Other);
}

#[test]
fn only_the_living_and_their_ancestors_stay() {
    let known = |service: &Service<String>| -> Vec<u32> {
        service.process_map.processes.iter().map(|process| process.id).collect()
    };
    let mut service = family();
    service.garbage_clean(vec![alive(12, None, "helper", "/x")]);
    assert_eq!(known(&service), [1, 10, 11, 12]);
    let mut service = family();
    service.process_map_refresh(vec![alive(11, Some(10), "editor", "/x"), alive(30, None, "new", "/x")]);
    assert_eq!(known(&service), [1, 10, 11, 30]);
}

#[test]
fn processes_found_by_their_ids() {
    assert!(Scanned::from_ids(5, Some(1), false).is_none());
    let scanned = Scanned::from_ids(5, Some(1), true).unwrap();
    assert_eq!(scanned.parent, Some(1));
    assert_eq!((scanned.process.id, scanned.process.parent_id), (5, 1));
    assert!(scanned.process.name.is_empty() && scanned.process.cmdline.is_empty());
    assert!(scanned.process.cgroup.is_empty() && scanned.process.parent.is_none());
    assert_eq!(Scanned::from_ids(5, None, true).unwrap().process.parent_id, 0);
}

#[test]
fn dead_processes_are_dropped_at_intervals() {
    let mut service = family();
    for call in 1..=2 * (GARBAGE_INTERVAL + 1) {
        if service.garbage_due() {
            let pid = if call == GARBAGE_INTERVAL + 1 { 11 } else { 1 };
            service.garbage_clean(Scanned::from_ids(pid, None, true).into_iter().collect());
        }
        let expected = match call {
            1..=2048 => 5,
            2049..=4097 => 3,
            _ => 1,
        };
        assert_eq!(service.process_map.processes.len(), expected);
    }
}

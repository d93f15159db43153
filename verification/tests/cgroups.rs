use process_scheduler::cgroup::{
    app_scope_cgroup, cgroup_file, normalize_foreground_cgroup, process_cgroup_matches,
};
use process_scheduler::cgroup_weights::{
    read_weight, weight_paths, weight_written, write_weight, State, WeightAction,
};
use process_scheduler::scheduler::{CgroupWeight, CgroupWeights};
use process_scheduler::text_map::TextMap;

#[test]
fn cgroup_file_accepts_absolute_cgroup_paths() {
    assert_eq!(
        cgroup_file(
            "/user.slice/user-1000.slice/app.slice/app.scope",
            "cpu.weight"
        )
        .unwrap(),
        "/sys/fs/cgroup/user.slice/user-1000.slice/app.slice/app.scope/cpu.weight"
    );
}

#[test]
fn cgroup_file_rejects_relative_or_traversing_paths() {
    assert!(cgroup_file("user.slice/app.scope", "cpu.weight").is_none());
    assert!(cgroup_file("/user.slice/../system.slice", "cpu.weight").is_none());
    assert!(cgroup_file("/user.slice/\0/system.slice", "cpu.weight").is_none());
}

#[test]
fn cgroup_file_skips_empty_and_current_steps() {
    assert_eq!(
        cgroup_file("/a//./b/", "io.weight").unwrap(),
        "/sys/fs/cgroup/a/b/io.weight"
    );
    assert_eq!(cgroup_file("/", "f").unwrap(), "/sys/fs/cgroup/f");
    assert_eq!(cgroup_file("/a/..b", "f").unwrap(), "/sys/fs/cgroup/a/..b/f");
    assert_eq!(cgroup_file("/a", "/f").unwrap(), "/f");
    assert!(cgroup_file("", "f").is_none());
    assert!(cgroup_file("/..", "f").is_none());
}

#[test]
fn foreground_cgroup_matches_exact_scope() {
    assert!(process_cgroup_matches(
        "/user.slice/user-1000.slice/app.slice/app-org.test.scope",
        "/user.slice/user-1000.slice/app.slice/app-org.test.scope"
    ));
}

#[test]
fn foreground_cgroup_matches_child_scope() {
    assert!(process_cgroup_matches(
        "/user.slice/user-1000.slice/app.slice/app-org.test.scope/session",
        "/user.slice/user-1000.slice/app.slice/app-org.test.scope"
    ));
}

#[test]
fn foreground_cgroup_does_not_match_prefix_sibling() {
    assert!(!process_cgroup_matches(
        "/user.slice/user-1000.slice/app.slice/app-org.test.scope-extra",
        "/user.slice/user-1000.slice/app.slice/app-org.test.scope"
    ));
}

#[test]
fn foreground_cgroup_of_empty_paths_and_the_root() {
    assert!(!process_cgroup_matches("", "/a"));
    assert!(!process_cgroup_matches("/a", ""));
    assert!(process_cgroup_matches("/a/b", "/"));
    assert!(!process_cgroup_matches("a/b", "/"));
    assert!(!process_cgroup_matches("/", "/a"));
    assert!(process_cgroup_matches("/a/b/c", "/a/b") && process_cgroup_matches("/a/b", "/a"));
    assert!(process_cgroup_matches("/a/b/c", "/a"));
}

#[test]
fn foreground_cgroup_normalization_trims_trailing_slashes() {
    assert_eq!(
        normalize_foreground_cgroup(" /user.slice/app.scope/// "),
        "/user.slice/app.scope"
    );
    assert_eq!(normalize_foreground_cgroup("/"), "/");
}

#[test]
fn foreground_cgroup_normalization_of_blank_paths() {
    assert_eq!(normalize_foreground_cgroup(" \t\n"), "");
    assert_eq!(normalize_foreground_cgroup("//"), "");
    assert_eq!(normalize_foreground_cgroup("\u{a0}/\u{2003}"), "/");
}

#[test]
fn cgroup_weights_target_app_scope() {
    assert_eq!(
        app_scope_cgroup(
            "/user.slice/user-1000.slice/user@1000.service/app.slice/app-org.test.scope/main.scope"
        ),
        "/user.slice/user-1000.slice/user@1000.service/app.slice/app-org.test.scope"
    );
    assert_eq!(
        app_scope_cgroup(
            "/user.slice/user-1000.slice/user@1000.service/app.slice/app-firefox@abc.service"
        ),
        "/user.slice/user-1000.slice/user@1000.service/app.slice/app-firefox@abc.service"
    );
    assert_eq!(
        app_scope_cgroup("/system.slice/dbus-broker.service"),
        "/system.slice/dbus-broker.service"
    );
}

#[test]
fn app_scope_of_an_app_scope_is_itself() {
    let once = app_scope_cgroup("/u/app.slice/a.scope/app.slice/b.scope/c");
    assert_eq!(once, "/u/app.slice/a.scope");
    assert_eq!(app_scope_cgroup(&once), once);
    assert_eq!(app_scope_cgroup("/u/app.slice/"), "/u/app.slice/");
    assert_eq!(app_scope_cgroup("/u/app.slice//a"), "/u/app.slice//a");
}

fn config() -> CgroupWeights {
    CgroupWeights {
        enable: true,
        default: CgroupWeight::new(100, 100),
        pipewire_capture: CgroupWeight::new(800, 700),
        pipewire_playback: CgroupWeight::new(400, 300),
        foreground: CgroupWeight::new(900, 900),
    }
}

fn wanted(entries: &[(&str, u32)]) -> TextMap<CgroupWeight> {
    let mut map = TextMap::new();
    for (name, weight) in entries {
        map.insert((*name).to_owned(), CgroupWeight::new(*weight, *weight));
    }
    map
}

fn describe(actions: &[WeightAction]) -> Vec<String> {
    actions
        .iter()
        .map(|action| match action {
            WeightAction::Restore { cgroup, weight } => format!("restore {cgroup} {}", weight.cpu),
            WeightAction::Adjust { cgroup, weight } => format!("adjust {cgroup} {}", weight.cpu),
            WeightAction::Take {
                cgroup,
                weight,
                default,
            } => format!("take {cgroup} {} {}", weight.cpu, default.cpu),
        })
        .collect()
}

#[test]
fn reconcile_takes_adjusts_and_restores() {
    let mut state = State::new();
    let actions = state.reconcile(Some(config()), &wanted(&[("/b", 400), ("/a", 800)]));
    assert_eq!(describe(&actions), ["take /a 800 100", "take /b 400 100"]);
    for (action, previous) in actions
        .into_iter()
        .zip([Some(CgroupWeight::new(50, 60)), None])
    {
        state.confirm(action, previous);
    }

    assert!(state
        .reconcile(Some(config()), &wanted(&[("/a", 800), ("/b", 400)]))
        .is_empty());

    let actions = state.reconcile(Some(config()), &wanted(&[("/a", 900), ("/c", 1)]));
    assert_eq!(
        describe(&actions),
        ["restore /b 100", "adjust /a 900", "take /c 1 100"]
    );
    for action in actions {
        if !matches!(action, WeightAction::Take { .. }) {
            state.confirm(action, None);
        }
    }
    assert_eq!(state.applied.len(), 1);
    let kept = state.applied.get("/a").unwrap();
    assert_eq!(kept.previous, CgroupWeight::new(50, 60));
    assert_eq!(kept.current, CgroupWeight::new(900, 900));
}

#[test]
fn reconcile_restores_everything_when_weights_are_off() {
    let mut state = State::new();
    for action in state.reconcile(Some(config()), &wanted(&[("/a", 800), ("/b", 400)])) {
        state.confirm(action, Some(CgroupWeight::new(7, 8)));
    }
    let mut off = config();
    off.enable = false;
    let actions = state.reconcile(Some(off), &wanted(&[("/a", 800)]));
    assert_eq!(describe(&actions), ["restore /a 7", "restore /b 7"]);
    assert_eq!(state.applied.len(), 0);
    assert!(state.reconcile(None, &wanted(&[])).is_empty());
}

#[test]
fn a_failed_adjustment_is_tried_again() {
    let mut state = State::new();
    for action in state.reconcile(Some(config()), &wanted(&[("/a", 800)])) {
        state.confirm(action, None);
    }
    let first = state.reconcile(Some(config()), &wanted(&[("/a", 900)]));
    let second = state.reconcile(Some(config()), &wanted(&[("/a", 900)]));
    assert_eq!(describe(&first), ["adjust /a 900"]);
    assert_eq!(describe(&second), ["adjust /a 900"]);
}

#[test]
fn weights_are_written_as_decimal_numbers() {
    let files = write_weight("/a.slice", CgroupWeight::new(800, 4_294_967_295)).unwrap();
    assert_eq!(files.cpu_path, "/sys/fs/cgroup/a.slice/cpu.weight");
    assert_eq!(files.cpu, b"800");
    assert_eq!(files.io_path, "/sys/fs/cgroup/a.slice/io.weight");
    assert_eq!(files.io, b"4294967295");
    assert_eq!(write_weight("/a", CgroupWeight::new(0, 10)).unwrap().cpu, b"0");
    assert!(write_weight("/../a", CgroupWeight::new(1, 1)).is_none());
    assert!(weight_paths("a").is_none());
    assert_eq!(weight_paths("/a").unwrap().1, "/sys/fs/cgroup/a/io.weight");
}

#[test]
fn weights_are_read_back() {
    let weight = CgroupWeight::new(100, 250);
    let files = write_weight("/a", weight).unwrap();
    let cpu = String::from_utf8(files.cpu).unwrap();
    let io = String::from_utf8(files.io).unwrap() + "\n";
    assert_eq!(read_weight(&cpu, &io), Some(weight));
    assert_eq!(read_weight(" +7\n", "8"), Some(CgroupWeight::new(7, 8)));
    assert_eq!(read_weight("default 100", "8"), None);
    assert_eq!(read_weight("8", "default 100"), None);
    assert_eq!(read_weight("", "8"), None);
    assert_eq!(read_weight("4294967296", "8"), None);
    assert_eq!(read_weight("4294967295", "8"), Some(CgroupWeight::new(u32::MAX, 8)));
    assert_eq!(read_weight("-1", "8"), None);
    assert_eq!(read_weight("+", "8"), None);
}

#[test]
fn one_written_file_is_enough() {
    assert!(weight_written(true, true));
    assert!(weight_written(true, false));
    assert!(weight_written(false, true));
    assert!(!weight_written(false, false));
}

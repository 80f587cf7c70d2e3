use cattail::cli::{ColorMode, Config, PrefixMode};
use cattail::follow::StartMode;
use cattail::output::LabelRegistry;
use cattail::watch::{
    glob_anchor, has_glob_magic, normalize_root, parse_specs, watch_root_for_input, Coordinator,
    EventAction, EventPath, KeyedPath, SpecKind, WatchError, WatchSpec,
};

fn config(inputs: Vec<String>, since_now: bool) -> Config {
    Config {
        lines: 50,
        interval_ms: 25,
        prefix: PrefixMode::Basename,
        since_now,
        color: ColorMode::Never,
        inputs,
    }
}

fn keyed(path: &str) -> KeyedPath {
    KeyedPath { path: path.to_string(), key: path.to_string() }
}

#[test]
fn parses_glob_and_literal_specs() {
    let specs = parse_specs(&vec!["logs/*.log".to_string(), "app.log".to_string()], &vec![false, false]).unwrap();
    assert_eq!(specs.len(), 2);
    assert!(matches!(specs[0].kind, SpecKind::Glob(_)));
    assert!(matches!(specs[1].kind, SpecKind::Literal(_)));
}

#[test]
fn glob_overlap_matches_existing_only_once() {
    let a = WatchSpec { kind: SpecKind::Glob("logs/*.log".to_string()), root: "logs".to_string(), recursive: false };
    let b = WatchSpec { kind: SpecKind::Glob("logs/or*.log".to_string()), root: "logs".to_string(), recursive: false };
    let path = "logs/orcas.log";
    assert!(a.matches(path, path, ""));
    assert!(b.matches(path, path, ""));
    let specs = vec![a, b];
    let labels = LabelRegistry::with_paths(&Vec::new(), PrefixMode::Basename, "/");
    let mut coordinator = Coordinator::new(config(vec![], false), specs, labels);
    assert!(coordinator.attach(path, path, StartMode::FromBeginning).is_some());
    assert!(coordinator.attach(path, path, StartMode::FromBeginning).is_none());
}

#[test]
fn watch_root_uses_parent_ancestor() {
    let spec = parse_specs(&vec!["logs/*.log".to_string()], &vec![false]).unwrap().remove(0);
    assert_eq!(spec.root, ".".to_string());
}

#[test]
fn glob_magic_and_anchors() {
    assert!(has_glob_magic("logs/*.log"));
    assert!(has_glob_magic("a?b"));
    assert!(has_glob_magic("x[0-9]"));
    assert!(!has_glob_magic("/var/log/syslog"));
    assert_eq!(glob_anchor("/var/log/*.log"), "/var/log");
    assert_eq!(glob_anchor("logs/**/x.log"), "logs");
    assert_eq!(glob_anchor("*.log"), ".");
    assert_eq!(glob_anchor("./a/*/b"), "./a");
    assert_eq!(normalize_root(String::new()), ".");
    assert_eq!(normalize_root("logs".to_string()), "logs");
}

#[test]
fn watch_roots_by_input_shape() {
    assert_eq!(watch_root_for_input("logs/*.log", true), "logs");
    assert_eq!(watch_root_for_input("logs/*.log", false), ".");
    assert_eq!(watch_root_for_input("/var/log/*.log", true), "/var/log");
    assert_eq!(watch_root_for_input("/var/log/*.log", false), "/var");
    assert_eq!(watch_root_for_input("/tmp/a.log", false), "/tmp");
    assert_eq!(watch_root_for_input("app.log", true), ".");
    assert_eq!(watch_root_for_input("/", false), ".");
    assert_eq!(watch_root_for_input("/*.log", false), "/");
}

#[test]
fn recursive_watching_only_when_needed() {
    let inputs = vec![
        "logs/*.log".to_string(),
        "deep/*/app.log".to_string(),
        "deep/sub/x.log".to_string(),
        "tree/**".to_string(),
        "gone/*.log".to_string(),
        "other.log".to_string(),
    ];
    let specs = parse_specs(&inputs, &vec![true, true, false, true, false, false]).unwrap();
    let flags: Vec<bool> = specs.iter().map(|s| s.recursive).collect();
    assert_eq!(flags, vec![false, true, false, true, true, false]);
    let labels = LabelRegistry::with_paths(&Vec::new(), PrefixMode::Basename, "/");
    let mut c = Coordinator::new(config(inputs, false), specs, labels);
    let roots: Vec<(String, bool)> = c.watch_roots().into_iter().map(|r| (r.path, r.recursive)).collect();
    assert_eq!(roots, vec![(".".to_string(), true)]);
}

#[test]
fn recursive_root_covers_only_its_descendants() {
    let inputs = vec!["/var/log/*/x.log".to_string(), "/var/log/app/a.log".to_string(), "/srv/b.log".to_string(), "rel/c.log".to_string()];
    let specs = parse_specs(&inputs, &vec![true, false, false, false]).unwrap();
    let labels = LabelRegistry::with_paths(&Vec::new(), PrefixMode::Basename, "/");
    let mut c = Coordinator::new(config(inputs, false), specs, labels);
    let roots: Vec<(String, bool)> = c.watch_roots().into_iter().map(|r| (r.path, r.recursive)).collect();
    assert_eq!(roots, vec![
        ("/var/log".to_string(), true),
        ("/srv".to_string(), false),
        ("rel".to_string(), false),
    ]);
}

#[test]
fn invalid_glob_is_refused() {
    let r = parse_specs(&vec!["ok.log".to_string(), "logs/[.log".to_string(), "a/***".to_string()], &vec![false, false, false]);
    match r {
        Err(WatchError::InvalidGlob { input, error }) => {
            assert_eq!(input, "logs/[.log");
            assert_eq!(error.msg, "invalid range pattern");
        }
        Ok(_) => panic!("accepted an invalid pattern"),
    }
}

#[test]
fn literal_spec_matches_by_key() {
    let spec = WatchSpec { kind: SpecKind::Literal("app.log".to_string()), root: ".".to_string(), recursive: false };
    assert!(spec.matches("./app.log", "/w/app.log", "/w//app.log"));
    assert!(!spec.matches("app.log", "/w/app.log", "/w/other.log"));
    let glob = WatchSpec { kind: SpecKind::Glob("logs/*.log".to_string()), root: "logs".to_string(), recursive: false };
    assert!(!glob.matches("logs/a.txt", "logs/a.txt", ""));
    let bad = WatchSpec { kind: SpecKind::Glob("logs/[".to_string()), root: "logs".to_string(), recursive: false };
    assert!(!bad.matches("logs/[", "logs/[", ""));
}

#[test]
fn coordinator_attaches_new_files_once_and_wakes_known_ones() {
    let inputs = vec!["logs/*.log".to_string(), "logs/or*.log".to_string(), "app.log".to_string()];
    let specs = parse_specs(&inputs, &vec![true, true, false]).unwrap();
    let startup = vec!["logs/seed.log".to_string()];
    let labels = LabelRegistry::with_paths(&startup, PrefixMode::Basename, "/w");
    let mut c = Coordinator::new(config(inputs, false), specs, labels);
    let roots = c.watch_roots();
    assert_eq!(roots.len(), 2);
    assert_eq!(roots[0].path, "logs");
    assert!(!roots[0].recursive);
    assert_eq!(roots[1].path, ".");
    assert!(!roots[1].recursive);
    assert!(c.watch_roots().is_empty());
    let started = c.attach_startup_files(&vec![keyed("logs/seed.log")]);
    assert_eq!(started.len(), 1);
    assert_eq!(started[0].start_mode, StartMode::StartupBacklog(50));
    assert_eq!(started[0].label, "seed.log");
    let event = |p: &str| EventPath {
        path: p.to_string(),
        key: p.to_string(),
        literal_keys: vec![String::new(), String::new(), "/w/app.log".to_string()],
    };
    let actions = c.process_event(&vec![event("logs/orcas.log"), event("logs/orcas.log"), event("logs/seed.log"), event("logs/x.txt")]);
    assert_eq!(actions.len(), 3);
    match &actions[0] {
        EventAction::Attach(a) => {
            assert_eq!(a.label, "orcas.log");
            assert_eq!(a.start_mode, StartMode::FromBeginning);
            assert_eq!(a.key, "logs/orcas.log");
        }
        other => panic!("unexpected {other:?}"),
    }
    assert!(matches!(actions[1], EventAction::Wake(1)));
    assert!(matches!(actions[2], EventAction::Wake(0)));
    let lit = EventPath { path: "./app.log".to_string(), key: "/w/app.log".to_string(), literal_keys: vec![String::new(), String::new(), "/w/app.log".to_string()] };
    let actions = c.process_event(&vec![lit]);
    assert!(matches!(&actions[0], EventAction::Attach(a) if a.label == "app.log"));
    let found = c.refresh_from_scan(&vec![keyed("logs/orcas.log"), keyed("logs/new.log"), keyed("logs//new.log")]);
    assert_eq!(found.len(), 1);
    assert_eq!(found[0].path, "logs/new.log");
}

#[test]
fn since_now_starts_startup_files_at_end() {
    let labels = LabelRegistry::with_paths(&Vec::new(), PrefixMode::Basename, "/");
    let mut c = Coordinator::new(config(vec![], true), Vec::new(), labels);
    assert_eq!(c.start_mode_for_startup(), StartMode::FromCurrentEnd);
    assert_eq!(c.start_mode_for_dynamic(), StartMode::FromBeginning);
    let started = c.attach_startup_files(&vec![keyed("a.log"), keyed("a.log/")]);
    assert_eq!(started.len(), 1);
    assert_eq!(started[0].start_mode, StartMode::FromCurrentEnd);
}

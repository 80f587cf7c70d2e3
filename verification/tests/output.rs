use cattail::cli::PrefixMode;
use cattail::output::{format_line, unique_suffix_labels, LabelRegistry, Labeler, OutputLine};

#[test]
fn disambiguates_basenames() {
    let paths = vec!["/var/log/orcas.log".to_string(), "/tmp/orcas.log".to_string()];

    let labels = unique_suffix_labels(&paths);
    assert_ne!(labels[0], labels[1]);
    assert!(labels[0].ends_with("orcas.log"));
    assert!(labels[1].ends_with("orcas.log"));
}

#[test]
fn labels_widen_only_where_they_collide() {
    let paths = vec![
        "/a/x/app.log".to_string(),
        "/b/x/app.log".to_string(),
        "/c/y/app.log".to_string(),
        "/srv/other.log".to_string(),
    ];
    let labels = unique_suffix_labels(&paths);
    assert_eq!(labels, vec![
        "a/x/app.log".to_string(),
        "b/x/app.log".to_string(),
        "y/app.log".to_string(),
        "other.log".to_string(),
    ]);
}

#[test]
fn labels_of_same_path_stay_equal_when_exhausted() {
    let paths = vec!["logs/a.log".to_string(), "logs//a.log".to_string(), "/".to_string()];
    let labels = unique_suffix_labels(&paths);
    assert_eq!(labels, vec!["logs/a.log".to_string(), "logs/a.log".to_string(), "/".to_string()]);
    assert!(unique_suffix_labels(&Vec::new()).is_empty());
}

#[test]
fn labeler_falls_back_to_file_name() {
    let labeler = Labeler::new(&vec!["/var/log/orcas.log".to_string(), "/tmp/orcas.log".to_string()]);
    assert_eq!(labeler.label_for("/var//log/orcas.log"), "log/orcas.log");
    assert_eq!(labeler.label_for("/tmp/orcas.log"), "tmp/orcas.log");
    assert_eq!(labeler.label_for("/srv/worker.log"), "worker.log");
    assert_eq!(labeler.label_for("/"), "?");
    assert_eq!(labeler.label_for("a/.."), "?");
}

#[test]
fn registry_modes_label_paths() {
    let paths = vec!["/home/u/logs/a.log".to_string(), "b.log".to_string()];
    let mut full = LabelRegistry::with_paths(&paths, PrefixMode::Full, "/home/u");
    assert_eq!(full.allocate("b.log"), "/home/u/b.log");
    assert_eq!(full.allocate("c.log"), "/home/u/c.log");
    let mut rel = LabelRegistry::with_paths(&paths, PrefixMode::Relative, "/home/u/");
    assert_eq!(rel.allocate("/home/u/logs/a.log"), "logs/a.log");
    assert_eq!(rel.allocate("b.log"), "b.log");
    assert_eq!(rel.allocate("/elsewhere/d.log"), "/elsewhere/d.log");
    assert_eq!(rel.allocate("/home/u/b.log"), "/home/u/b.log");
    assert_eq!(rel.allocate("/other/b.log"), "/other/b.log");
    let mut base = LabelRegistry::with_paths(&paths, PrefixMode::Basename, "/home/u");
    assert_eq!(base.allocate("/home/u/logs/a.log"), "a.log");
    assert_eq!(base.allocate("/x/worker.log"), "worker.log");
    assert_eq!(base.allocate("/x/worker.log"), "worker.log");
}

#[test]
fn relative_labels_that_collide_become_absolute() {
    let paths = vec!["/w/a.log".to_string(), "a.log".to_string()];
    let mut rel = LabelRegistry::with_paths(&paths, PrefixMode::Relative, "/w");
    assert_eq!(rel.allocate("/w/a.log"), "/w/a.log");
    assert_eq!(rel.allocate("a.log"), "/w/a.log");
}

#[test]
fn formats_plain_and_colored_lines() {
    let item = OutputLine { label: "app.log".to_string(), line: "hello".to_string() };
    assert_eq!(format_line(&item, false), "[app.log] hello");
    assert_eq!(format_line(&item, true), "\x1b[36m[app.log]\x1b[0m hello");
}

#[test]
fn labels_do_not_depend_on_input_order() {
    let paths: Vec<String> = ["/srv/a/app.log", "/srv/b/app.log", "/x/y/b/app.log", "/tmp/other.log"]
        .iter()
        .map(|s| s.to_string())
        .collect();
    let labels = unique_suffix_labels(&paths);
    let order = [2usize, 0, 3, 1];
    let reordered: Vec<String> = order.iter().map(|&i| paths[i].clone()).collect();
    let relabeled = unique_suffix_labels(&reordered);
    for (k, &i) in order.iter().enumerate() {
        assert_eq!(relabeled[k], labels[i]);
    }
    assert_eq!(labels, vec!["a/app.log".to_string(), "srv/b/app.log".to_string(), "y/b/app.log".to_string(), "other.log".to_string()]);
}

#[test]
fn files_attached_later_get_unique_basename_labels() {
    let paths = vec!["/srv/a/app.log".to_string()];
    let mut base = LabelRegistry::with_paths(&paths, PrefixMode::Basename, "/srv");
    assert_eq!(base.allocate("/srv/a/app.log"), "app.log");
    assert_eq!(base.allocate("/srv/b/app.log"), "b/app.log");
    assert_eq!(base.allocate("/srv/c/app.log"), "c/app.log");
    assert_eq!(base.allocate("/x/c/app.log"), "x/c/app.log");
    assert_eq!(base.allocate("/x/c/app.log"), "x/c/app.log");
    assert_eq!(base.allocate("/y/x/c/app.log"), "y/x/c/app.log");
    assert_eq!(base.allocate("/z/worker.log"), "worker.log");
}

use cattail::resolve::resolve_inputs;
use cattail::watch::KeyedPath;

fn kp(path: &str, key: &str) -> KeyedPath {
    KeyedPath { path: path.to_string(), key: key.to_string() }
}

#[test]
fn resolution_dedupes_by_key_and_sorts_by_path() {
    let expanded = vec![
        vec![kp("/d/b.log", "/d/b.log"), kp("/d/a.log", "/d/a.log")],
        vec![kp("/d/a.log", "/d/a.log")],
        vec![kp("/link/a.log", "/d/a.log"), kp("/c/z.log", "/c/z.log")],
    ];
    let files = resolve_inputs(expanded);
    assert_eq!(files, vec!["/c/z.log".to_string(), "/d/a.log".to_string(), "/d/b.log".to_string()]);
}

#[test]
fn resolution_keeps_first_file_of_a_key() {
    let expanded = vec![vec![kp("/x/b.log", "/k"), kp("/x/a.log", "/k")]];
    assert_eq!(resolve_inputs(expanded), vec!["/x/a.log".to_string()]);
    assert!(resolve_inputs(Vec::new()).is_empty());
}

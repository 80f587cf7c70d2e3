use cattail::path::{file_name, parent, path_components, path_less, paths_equal, PathComponent};

#[test]
fn components_follow_std_path_rules() {
    let cs = path_components("/var//log/./a.log/");
    assert_eq!(cs.len(), 4);
    assert!(matches!(cs[0], PathComponent::RootDir));
    assert!(matches!(&cs[1], PathComponent::Normal(n) if n == "var"));
    assert!(matches!(&cs[3], PathComponent::Normal(n) if n == "a.log"));
    let cs = path_components("./../x");
    assert!(matches!(cs[0], PathComponent::CurDir));
    assert!(matches!(cs[1], PathComponent::ParentDir));
    assert_eq!(cs.len(), 3);
    assert!(path_components("").is_empty());
    for p in ["/a/b", "a//b/", "./a", "..", "/", "a/./b/../c"] {
        let ours = path_components(p).len();
        let std = std::path::Path::new(p).components().count();
        assert_eq!(ours, std, "{p}");
    }
}

#[test]
fn parents_and_file_names() {
    assert_eq!(parent("/var/log/a.log"), Some("/var/log".to_string()));
    assert_eq!(parent("a.log"), Some(String::new()));
    assert_eq!(parent("/a"), Some("/".to_string()));
    assert_eq!(parent("/"), None);
    assert_eq!(parent(""), None);
    assert_eq!(file_name("/var/log/a.log"), Some("a.log".to_string()));
    assert_eq!(file_name("a/.."), None);
    assert_eq!(file_name("a/b/."), Some("b".to_string()));
}

#[test]
fn paths_compare_by_components() {
    assert!(paths_equal("/a//b/", "/a/b"));
    assert!(!paths_equal("/a/b", "a/b"));
    assert!(path_less("/a/b", "/a/c"));
    assert!(path_less("/a", "/a/b"));
    assert!(path_less("/z", "a"));
    assert!(!path_less("/a/b", "/a//b"));
    let mut v = vec!["b/c", "/x", "a", "./q", "../r", "a.b", "a/b"];
    let mut expected: Vec<&str> = v.clone();
    expected.sort_by(|x, y| std::path::Path::new(x).cmp(std::path::Path::new(y)));
    v.sort_by(|x, y| {
        if path_less(x, y) {
            std::cmp::Ordering::Less
        } else if path_less(y, x) {
            std::cmp::Ordering::Greater
        } else {
            std::cmp::Ordering::Equal
        }
    });
    assert_eq!(v, expected);
}

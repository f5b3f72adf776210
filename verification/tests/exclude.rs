use authorship::exclude::{is_ignored, is_plain_relative, try_is_ignored};
use ignore::gitignore::{Gitignore, GitignoreBuilder};

fn ignoring(root: &str, lines: &[&str]) -> Gitignore {
    let mut builder = GitignoreBuilder::new(root);
    for line in lines {
        builder.add_line(None, line).unwrap();
    }
    builder.build().unwrap()
}

#[test]
fn plain_paths_are_told_from_others() {
    for path in ["", "f", "src/lib.rs", "a/b/c", ".hidden", "a/./b", "a/", "..", "a b/c"] {
        assert!(is_plain_relative(path), "{path}");
    }
    for path in ["/", "/etc", "./f", "a//b", "//", "a/b//", "./"] {
        assert!(!is_plain_relative(path), "{path}");
    }
}

#[test]
fn a_file_is_ignored_by_itself_or_by_a_directory_above_it() {
    let matcher = ignoring("", &["*.lock", "vendor/", "!vendor/keep.lock", "/top.txt"]);
    assert!(is_ignored(&matcher, "Cargo.lock"));
    assert!(is_ignored(&matcher, "deep/down/x.lock"));
    assert!(is_ignored(&matcher, "vendor/lib/a.rs"));
    assert!(is_ignored(&matcher, "top.txt"));
    assert!(!is_ignored(&matcher, "sub/top.txt"));
    assert!(!is_ignored(&matcher, "src/lib.rs"));
    assert!(!is_ignored(&matcher, "vendor"));
    assert!(!is_ignored(&matcher, ""));
}

#[test]
fn an_empty_matcher_ignores_nothing() {
    let matcher = Gitignore::empty();
    assert!(!is_ignored(&matcher, "Cargo.lock"));
    assert_eq!(try_is_ignored(&matcher, "Cargo.lock"), Some(false));
}

#[test]
fn a_path_that_cannot_be_asked_about_gives_none() {
    let matcher = ignoring("", &["*.lock"]);
    assert_eq!(try_is_ignored(&matcher, "/Cargo.lock"), None);
    assert_eq!(try_is_ignored(&matcher, "a//Cargo.lock"), None);
    assert_eq!(try_is_ignored(&matcher, "./Cargo.lock"), None);
    assert_eq!(try_is_ignored(&matcher, "a/Cargo.lock"), Some(true));
    assert_eq!(try_is_ignored(&matcher, "a/Cargo.toml"), Some(false));
}

#[test]
fn plain_paths_never_leave_the_root_of_a_matcher() {
    for root in ["", ".", "a", "a/", "/a", "src"] {
        let matcher = ignoring(root, &["*.lock", "b/"]);
        for path in ["", "a", "a/", "a/b", "a/b/c.lock", "ab/c", "src/x.lock", "src", "b/x", ".a/b"] {
            assert!(is_plain_relative(path));
            let _ = is_ignored(&matcher, path);
        }
    }
}

use cx::path::{
    absolute_normalize, child_component, display_path, is_test_file, make_relative, normalize,
};

#[test]
fn normalize_drops_current_dir_and_empty_segments() {
    assert_eq!(normalize("a/./b"), "a/b");
    assert_eq!(normalize("./x"), "x");
    assert_eq!(normalize("/a//b/"), "/a/b");
    assert_eq!(normalize("a/b/./"), "a/b");
}

#[test]
fn normalize_of_nothing_is_current_dir() {
    assert_eq!(normalize(""), ".");
    assert_eq!(normalize("."), ".");
    assert_eq!(normalize("a/.."), ".");
    assert_eq!(normalize("./a/../."), ".");
}

#[test]
fn normalize_never_climbs_above_root() {
    assert_eq!(normalize("/.."), "/");
    assert_eq!(normalize("/../../x"), "/x");
    assert_eq!(normalize("/"), "/");
}

#[test]
fn normalize_keeps_leading_parents_of_relative_paths() {
    assert_eq!(normalize("../../x"), "../../x");
    assert_eq!(normalize("a/../../x"), "../x");
    assert_eq!(normalize("../a/../b"), "../b");
}

#[test]
fn normalize_is_idempotent() {
    for p in ["a/./b/../c", "/x/../../y", "../a/b/..", ".", "", "a//b///c/", "./../src"] {
        let once = normalize(p);
        assert_eq!(normalize(&once), once);
    }
}

#[test]
fn absolute_normalize_resolves_against_cwd() {
    assert_eq!(absolute_normalize("../src", "/home/u/proj/src"), "/home/u/proj/src");
    assert_eq!(absolute_normalize("./../src", "/home/u/proj/src"), "/home/u/proj/src");
    assert_eq!(absolute_normalize("lib.rs", "/p/src/"), "/p/src/lib.rs");
    assert_eq!(absolute_normalize("/abs/x/../y", "/cwd"), "/abs/y");
    assert_eq!(absolute_normalize("x/../y", ""), "y");
}

#[test]
fn resolving_a_normalized_argument_changes_nothing() {
    let cwd = "/repo/child/src";
    for p in ["./../src", "a/../../b", "../..", "x/./y/..", "/abs/./q/.."] {
        let n = normalize(p);
        assert_eq!(absolute_normalize(&n, cwd), absolute_normalize(p, cwd));
        assert_eq!(make_relative(&n, "/repo", cwd), make_relative(p, "/repo", cwd));
    }
}

#[test]
fn make_relative_strips_the_root() {
    assert_eq!(make_relative("src/lib.rs", "/p", "/p"), "src/lib.rs");
    assert_eq!(make_relative("/p/src/lib.rs", "/p", "/elsewhere"), "src/lib.rs");
    assert_eq!(make_relative("lib.rs", "/p", "/p/src"), "src/lib.rs");
    assert_eq!(make_relative("../src", "/p", "/p/src"), "src");
    assert_eq!(make_relative(".", "/p", "/p"), "");
}

#[test]
fn make_relative_keeps_paths_outside_the_root_absolute() {
    assert_eq!(make_relative("/other/x.rs", "/p", "/p"), "/other/x.rs");
    assert_eq!(make_relative("..", "/p/child", "/p/child"), "/p");
    assert_eq!(make_relative("../sibling/a.rs", "/p", "/p"), "/sibling/a.rs");
}

#[test]
fn make_relative_normalizes_the_root_too() {
    assert_eq!(make_relative("src/a.rs", "child/..", "/p"), "src/a.rs");
    assert_eq!(make_relative("src/a.rs", "/p/./", "/x"), "/x/src/a.rs");
}

#[test]
fn child_component_of_nested_and_direct_files() {
    assert_eq!(child_component("src/util/helpers.rs", "src"), Some("util/".to_string()));
    assert_eq!(child_component("src/main.rs", "src"), Some("main.rs".to_string()));
    assert_eq!(child_component("src/a.rs", ""), Some("src/".to_string()));
    assert_eq!(child_component("src/v1.2/x.rs", "src"), Some("v1.2/".to_string()));
    assert_eq!(child_component("src/Makefile", "src"), Some("Makefile".to_string()));
    assert_eq!(child_component("main.rs", ""), Some("main.rs".to_string()));
}

#[test]
fn child_component_outside_the_directory() {
    assert_eq!(child_component("lib/x.rs", "src"), None);
    assert_eq!(child_component("src", "src"), None);
    assert_eq!(child_component("srcx/a.rs", "src"), None);
}

#[test]
fn display_path_is_stable() {
    let once = display_path("a\\b\\c.rs");
    assert_eq!(once, "a/b/c.rs");
    assert_eq!(display_path(&once), once);
    assert_eq!(display_path(""), "");
}

#[test]
fn test_directories_anywhere_in_the_path() {
    assert!(is_test_file("a/tests/b.rs"));
    assert!(is_test_file("tests"));
    assert!(is_test_file("./pkg/test/x.go"));
    assert!(!is_test_file("contest/a.rs"));
    assert!(!is_test_file("test_utils.pyc"));
}

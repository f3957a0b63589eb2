use mtl::filter::{is_hidden, Filter, IgnoreFilter, MatchAllFilter, PathFilter};
use mtl::path::RelativePath;

#[test]
fn path_test_filter() {
    struct TestCase {
        name: &'static str,
        target: RelativePath,
        args: RelativePath,
        expected: bool,
    }

    let table = [
        TestCase {
            name: "basic",
            target: RelativePath::from("foo/bar"),
            args: RelativePath::from("foo/bar/baz"),
            expected: true,
        },
        TestCase {
            name: "basic",
            target: RelativePath::from("foo/bar"),
            args: RelativePath::from("foo/baz"),
            expected: false,
        },
        TestCase {
            name: "root",
            target: RelativePath::Root,
            args: RelativePath::from("foo/bar/baz"),
            expected: true,
        },
        TestCase {
            name: "sub",
            target: RelativePath::from("foo/bar"),
            args: RelativePath::from("foo"),
            expected: true,
        },
        TestCase {
            name: "sub",
            target: RelativePath::from("foo/bar/baz"),
            args: RelativePath::from("foo/bar"),
            expected: true,
        },
    ];
    for test in table.iter() {
        let root = Vec::new();
        let filter = PathFilter::new(root, test.target.clone());
        assert_eq!(
            filter.path_matches(&test.args),
            test.expected,
            "test case: {}",
            test.name
        );
    }
}

#[test]
fn ignore_test_filter() {
    let lines = vec!["".to_string(), "target/".to_string()];
    let filter = IgnoreFilter::new(b"/repo".to_vec(), lines, false);

    assert_eq!(filter.path_matches(&RelativePath::from("foo")), true);
    assert_eq!(filter.path_matches(&RelativePath::from(".foo")), false);
    assert_eq!(filter.path_matches(&RelativePath::from("foo/bar")), true);
    assert_eq!(filter.path_matches(&RelativePath::from("foo/.bar")), false);
    assert_eq!(
        filter.path_matches(&RelativePath::from("foo/bar/.baz")),
        false
    );
    assert_eq!(
        filter.path_matches(&RelativePath::from("foo/bar/baz")),
        true
    );
    assert_eq!(
        filter.path_matches(&RelativePath::from("target/debug/mtl")),
        false
    );
}

#[test]
fn ignore_filter_with_hidden_paths() {
    let filter = IgnoreFilter::new(b"/repo".to_vec(), vec!["*.log".to_string()], true);
    assert!(filter.path_matches(&RelativePath::from(".foo")));
    assert!(filter.path_matches(&RelativePath::from("foo/.bar")));
    assert!(!filter.path_matches(&RelativePath::from("foo/x.log")));
    assert!(!filter.path_matches(&RelativePath::from(".git/config")));
    assert!(!filter.path_matches(&RelativePath::from(".mtl/HEAD")));
    assert!(!filter.path_matches(&RelativePath::from(".mtl")));
    assert!(filter.path_matches(&RelativePath::Root));
    assert_eq!(filter.root(), b"/repo".as_slice());
}

#[test]
fn ignore_filter_skips_lines_that_are_no_rules() {
    let filter = IgnoreFilter::new(
        Vec::new(),
        vec!["# comment".to_string(), "[".to_string(), "build/".to_string()],
        true,
    );
    assert!(filter.path_matches(&RelativePath::from("src/main.rs")));
    assert!(!filter.path_matches(&RelativePath::from("build/out")));
}

#[test]
fn hidden_components() {
    assert!(!is_hidden(&RelativePath::Root));
    assert!(!is_hidden(&RelativePath::from("foo/bar")));
    assert!(is_hidden(&RelativePath::from(".foo")));
    assert!(is_hidden(&RelativePath::from("foo/.bar/baz")));
    assert!(!is_hidden(&RelativePath::from("../foo")));
    assert!(is_hidden(&RelativePath::from("..foo")));
    assert!(is_hidden(&RelativePath::from("...")));
}

#[test]
fn match_all_filter_leaves_out_repository_directories() {
    let filter = MatchAllFilter::new(b"/repo".to_vec());
    assert_eq!(filter.root(), b"/repo".as_slice());
    assert!(filter.path_matches(&RelativePath::Root));
    assert!(filter.path_matches(&RelativePath::from("foo")));
    assert!(filter.path_matches(&RelativePath::from("foo/.mtl")));
    assert!(filter.path_matches(&RelativePath::from("foo/.git/config")));
    assert!(filter.path_matches(&RelativePath::from(".hidden")));
    assert!(!filter.path_matches(&RelativePath::from(".mtl")));
    assert!(!filter.path_matches(&RelativePath::from(".mtl/objects/ab")));
    assert!(!filter.path_matches(&RelativePath::from("./.mtl/HEAD")));
    assert!(!filter.path_matches(&RelativePath::from(".git")));
    assert!(!filter.path_matches(&RelativePath::from(".git/config")));
    // only the two directories themselves are left out, not what begins like them
    assert!(filter.path_matches(&RelativePath::from(".gitignore")));
    assert!(filter.path_matches(&RelativePath::from(".github/workflows/ci.yml")));
    assert!(filter.path_matches(&RelativePath::from(".mtlx/y")));
    assert!(filter.path_matches(&RelativePath::from(".gi")));
}

#[test]
fn path_filter_edges() {
    let filter = PathFilter::new(Vec::new(), RelativePath::from("foo/bar"));
    assert!(filter.path_matches(&RelativePath::from("foo/bar")));
    assert!(!filter.path_matches(&RelativePath::Root));
    assert!(!filter.path_matches(&RelativePath::from("foo/barbaz")));
    assert!(!filter.path_matches(&RelativePath::from("fo")));
    assert!(RelativePath::from("foo/bar").starts_with(&RelativePath::from("foo")));
    assert!(RelativePath::from("foo/bar").starts_with(&RelativePath::Root));
    assert!(!RelativePath::from("foo").starts_with(&RelativePath::from("foo/bar")));
    assert!(RelativePath::Root.starts_with(&RelativePath::Root));
}

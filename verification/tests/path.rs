use mtl::path::RelativePath;

#[test]
fn test_is() {
    assert_eq!(RelativePath::Root.is_root(), true);
    assert_eq!(RelativePath::Root.is_path(), false);

    assert_eq!(RelativePath::from("foo").is_root(), false);
    assert_eq!(RelativePath::from("foo").is_path(), true);
}

#[test]
fn test_parent() {
    let root = RelativePath::Root;
    assert_eq!(root.parent(), RelativePath::Root);

    let path = RelativePath::from("foo");
    assert_eq!(path.parent(), RelativePath::Root);

    let path = RelativePath::from("foo/bar");
    assert_eq!(path.parent(), RelativePath::from("foo"));

    let path = RelativePath::from("foo/bar/baz");
    assert_eq!(path.parent(), RelativePath::from("foo/bar"));
}

#[test]
fn test_file_name() {
    let root = RelativePath::Root;
    assert_eq!(root.file_name(), None);

    let path = RelativePath::from("foo");
    assert_eq!(path.file_name(), Some(b"foo".to_vec()));

    let path = RelativePath::from("foo/bar");
    assert_eq!(path.file_name(), Some(b"bar".to_vec()));

    let path = RelativePath::from("foo/bar/baz");
    assert_eq!(path.file_name(), Some(b"baz".to_vec()));
}

#[test]
fn test_as_path() {
    let root = RelativePath::Root;
    assert_eq!(root.as_path(), b"".to_vec());

    let path = RelativePath::from("foo");
    assert_eq!(path.as_path(), b"foo".to_vec());

    let path = RelativePath::from("foo/bar");
    assert_eq!(path.as_path(), b"foo/bar".to_vec());
}

#[test]
fn test_join() {
    let root = RelativePath::Root;
    assert_eq!(root.join("foo"), RelativePath::from("foo"));

    let path = RelativePath::from("foo");
    assert_eq!(path.join("bar"), RelativePath::from("foo/bar"));

    let path = RelativePath::from("foo/bar");
    assert_eq!(path.join("baz"), RelativePath::from("foo/bar/baz"));
}

#[test]
fn path_depth_counts_components() {
    assert_eq!(RelativePath::Root.depth(), 0);
    assert_eq!(RelativePath::from("foo").depth(), 1);
    assert_eq!(RelativePath::from("foo/bar/baz").depth(), 3);
}

#[test]
fn path_text_is_normalised() {
    assert_eq!(RelativePath::from(""), RelativePath::Root);
    assert_eq!(RelativePath::from("/"), RelativePath::Root);
    assert_eq!(RelativePath::from("."), RelativePath::Root);
    assert_eq!(RelativePath::from("./foo"), RelativePath::from("foo"));
    assert_eq!(RelativePath::from("foo//bar/"), RelativePath::from("foo/bar"));
    assert_eq!(RelativePath::from("foo/./bar"), RelativePath::from("foo/bar"));
    assert_eq!(RelativePath::from("foo/../bar").depth(), 3);
    assert_eq!(RelativePath::from("foo//bar/").as_path(), b"foo/bar".to_vec());
    assert_eq!(
        RelativePath::from_bytes(b"a\xff/b").as_path(),
        b"a\xff/b".to_vec()
    );
}

#[test]
fn path_root_is_the_only_fixed_point_of_parent() {
    assert_eq!(RelativePath::Root.parent(), RelativePath::Root);
    for text in ["a", "a/b", "a/b/c"] {
        let path = RelativePath::from(text);
        assert_ne!(path.parent(), path);
    }
}

#[test]
fn path_order_puts_root_first_and_compares_components() {
    let root = RelativePath::Root;
    let a = RelativePath::from("a");
    let a_b = RelativePath::from("a/b");
    let a_dash = RelativePath::from("a-b");
    let b = RelativePath::from("b");
    assert!(root.is_before(&a));
    assert!(!a.is_before(&root));
    assert!(!root.is_before(&root));
    assert!(a.is_before(&a_b));
    assert!(a_b.is_before(&a_dash));
    assert!(a_dash.is_before(&b));
    assert!(!b.is_before(&a_b));
    assert!(root < a && a < a_b && a_b < a_dash && a_dash < b);
}

#[test]
fn path_equality_and_clone() {
    let a = RelativePath::from("foo/bar");
    assert!(a.equals(&a.clone()));
    assert!(a.equals(&RelativePath::from("foo//bar")));
    assert!(!a.equals(&RelativePath::from("foo")));
    assert!(!a.equals(&RelativePath::Root));
    assert!(RelativePath::Root.equals(&RelativePath::Root));
    assert_eq!(a.to_string(), "foo/bar");
    assert_eq!(RelativePath::Root.to_string(), "");
}

#[test]
fn path_join_drops_empty_and_dot_segments() {
    let a = RelativePath::from("foo");
    assert_eq!(a.join("./bar//baz/"), RelativePath::from("foo/bar/baz"));
    assert_eq!(a.join(""), a);
    assert_eq!(RelativePath::Root.join(""), RelativePath::Root);
    assert_eq!(a.join_bytes(b"x/y"), RelativePath::from("foo/x/y"));
}

#[test]
fn path_first_name() {
    assert_eq!(RelativePath::Root.first_name(), None);
    assert_eq!(RelativePath::from("foo").first_name(), Some(b"foo".to_vec()));
    assert_eq!(RelativePath::from("foo/bar/baz").first_name(), Some(b"foo".to_vec()));
    assert_eq!(RelativePath::from("./.git/config").first_name(), Some(b".git".to_vec()));
}

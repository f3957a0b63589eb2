use mtl::filesystem::strip_current_dir;

#[test]
fn strip_current_dir_basic() {
    assert_eq!(strip_current_dir(b"./foo"), b"foo".to_vec());
    assert_eq!(strip_current_dir(b"foo"), b"foo".to_vec());
    assert_eq!(strip_current_dir(b"./foo/bar/baz"), b"foo/bar/baz".to_vec());
    assert_eq!(strip_current_dir(b"foo/bar/baz"), b"foo/bar/baz".to_vec());
}

#[test]
fn strip_current_dir_edges() {
    assert_eq!(strip_current_dir(b""), b"".to_vec());
    assert_eq!(strip_current_dir(b"."), b"".to_vec());
    assert_eq!(strip_current_dir(b"./"), b"".to_vec());
    assert_eq!(strip_current_dir(b".//foo"), b"foo".to_vec());
    assert_eq!(strip_current_dir(b".foo"), b".foo".to_vec());
    assert_eq!(strip_current_dir(b"../foo"), b"../foo".to_vec());
    assert_eq!(strip_current_dir(b"/foo"), b"/foo".to_vec());
    assert_eq!(strip_current_dir(b"././foo"), b"./foo".to_vec());
}

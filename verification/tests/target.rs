use mtl::builder::FileEntry;
use mtl::data::ObjectKind;
use mtl::error::ReadContentError;
use mtl::filter::{MatchAllFilter, PathFilter};
use mtl::path::RelativePath;
use mtl::target::{parse_listed_line, FileTargetGenerator, ScanTargetGenerator, Walked};

fn lines(text: &[&str]) -> Vec<Vec<u8>> {
    text.iter().map(|l| l.as_bytes().to_vec()).collect()
}

fn entries_of(t: &mtl::builder::TargetEntries) -> Vec<FileEntry> {
    t.iter().to_vec()
}

#[test]
fn listed_lines_name_files_and_directories() {
    assert_eq!(
        parse_listed_line(b"foo/bar\n"),
        Ok(FileEntry::new(ObjectKind::File, RelativePath::from("foo/bar"), 2))
    );
    assert_eq!(
        parse_listed_line(b"  ./foo/bar/ \r\n"),
        Ok(FileEntry::new(ObjectKind::Tree, RelativePath::from("foo/bar"), 2))
    );
    assert_eq!(
        parse_listed_line(b"././a"),
        Ok(FileEntry::new(ObjectKind::File, RelativePath::from("a"), 1))
    );
    assert_eq!(
        parse_listed_line(b"a//"),
        Ok(FileEntry::new(ObjectKind::Tree, RelativePath::from("a"), 1))
    );
    assert_eq!(
        parse_listed_line(b""),
        Ok(FileEntry::new(ObjectKind::File, RelativePath::Root, 0))
    );
    assert_eq!(
        parse_listed_line(b"/"),
        Ok(FileEntry::new(ObjectKind::Tree, RelativePath::Root, 0))
    );
}

#[test]
fn listed_absolute_paths_are_rejected() {
    assert_eq!(
        parse_listed_line(b"/etc/passwd"),
        Err(ReadContentError::AbsolutePathNotSupported)
    );
    assert_eq!(
        parse_listed_line(b" .//abs\n"),
        Err(ReadContentError::AbsolutePathNotSupported)
    );
}

#[test]
fn file_list_generates_entries_and_the_root_last() {
    let generator = FileTargetGenerator::new(MatchAllFilter::new(Vec::new()), b"-".to_vec());
    let entries = generator
        .generate(&lines(&["a/\n", "a/b\n", ".git/config\n", "./c\n"]))
        .unwrap();
    assert_eq!(
        entries_of(&entries),
        vec![
            FileEntry::new(ObjectKind::Tree, RelativePath::from("a"), 1),
            FileEntry::new(ObjectKind::File, RelativePath::from("a/b"), 2),
            FileEntry::new(ObjectKind::File, RelativePath::from("c"), 1),
            FileEntry::new(ObjectKind::Tree, RelativePath::Root, 0),
        ]
    );
    assert_eq!(entries.max_depth(), 2);
    assert_eq!(generator.input, b"-".to_vec());

    let empty = generator.generate(&Vec::new()).unwrap();
    assert_eq!(
        entries_of(&empty),
        vec![FileEntry::new(ObjectKind::Tree, RelativePath::Root, 0)]
    );
    assert_eq!(empty.max_depth(), 0);
}

#[test]
fn file_list_stops_at_an_absolute_path() {
    let generator = FileTargetGenerator::new(MatchAllFilter::new(Vec::new()), b"list".to_vec());
    let r = generator.generate(&lines(&["a\n", "/b\n", "c\n"]));
    assert_eq!(r.err(), Some(ReadContentError::AbsolutePathNotSupported));
}

#[test]
fn scan_generates_the_root_first() {
    let generator = ScanTargetGenerator::new(MatchAllFilter::new(Vec::new()), true);
    assert!(generator.hidden);
    let walked = vec![
        Walked { path: b"".to_vec(), is_file: false, is_dir: true },
        Walked { path: b"a".to_vec(), is_file: false, is_dir: true },
        Walked { path: b"a/b".to_vec(), is_file: true, is_dir: false },
        Walked { path: b"link".to_vec(), is_file: false, is_dir: false },
        Walked { path: b".git/x".to_vec(), is_file: true, is_dir: false },
    ];
    let entries = generator.generate(&walked);
    assert_eq!(
        entries_of(&entries),
        vec![
            FileEntry::new(ObjectKind::Tree, RelativePath::Root, 0),
            FileEntry::new(ObjectKind::Tree, RelativePath::from("a"), 1),
            FileEntry::new(ObjectKind::File, RelativePath::from("a/b"), 2),
        ]
    );
    assert_eq!(entries.num_files(), 1);
    assert_eq!(entries.num_dirs(), 2);
}

#[test]
fn scan_asks_the_filter() {
    let generator =
        ScanTargetGenerator::new(PathFilter::new(Vec::new(), RelativePath::from("a/b")), false);
    assert!(generator.accepts(b"a"));
    assert!(generator.accepts(b"a/b/c"));
    assert!(!generator.accepts(b"x"));
    assert_eq!(
        ScanTargetGenerator::<MatchAllFilter>::entry_of(&Walked {
            path: b"x/y".to_vec(),
            is_file: true,
            is_dir: false
        }),
        Some(FileEntry::new(ObjectKind::File, RelativePath::from("x/y"), 2))
    );
    assert_eq!(
        ScanTargetGenerator::<MatchAllFilter>::entry_of(&Walked {
            path: b"".to_vec(),
            is_file: false,
            is_dir: true
        }),
        None
    );
}

use mtl::builder::{build, file_object, process_tree_content, FileEntry, Placed, TargetEntries};
use mtl::data::{Object, ObjectID, ObjectKind};
use mtl::error::ReadContentError;
use mtl::filter::MatchAllFilter;
use mtl::path::RelativePath;
use mtl::target::{ScanTargetGenerator, Walked};
use mtl::tree::parse_tree_contents;

fn file(path: &str) -> Walked {
    Walked {
        path: path.as_bytes().to_vec(),
        is_file: true,
        is_dir: false,
    }
}

fn dir(path: &str) -> Walked {
    Walked {
        path: path.as_bytes().to_vec(),
        is_file: false,
        is_dir: true,
    }
}

/// Builds the tree of the given files, whose directories are walked too.
fn build_files(walked: &[Walked], contents: &[(&str, &str)]) -> Result<mtl::builder::Built, ReadContentError> {
    let generator = ScanTargetGenerator::new(MatchAllFilter::new(Vec::new()), false);
    let entries = generator.generate(&walked.to_vec());
    let mut placed = Vec::new();
    for entry in entries.iter() {
        if entry.mode == ObjectKind::File {
            let text = String::from_utf8(entry.path.as_path()).unwrap();
            let (_, content) = contents.iter().find(|(p, _)| *p == text).unwrap();
            let id = ObjectID::from_contents(content.as_bytes());
            placed.push(file_object(entry, id).unwrap());
        }
    }
    build(&entries, &placed)
}

#[test]
fn target_entries_count_and_depth() {
    let mut entries = TargetEntries::new();
    assert_eq!(entries.len(), 0);
    assert_eq!(entries.max_depth(), 0);
    assert_eq!(entries.num_files(), 0);
    assert_eq!(entries.num_dirs(), 0);
    entries.push_file_entry(FileEntry::new(ObjectKind::Tree, RelativePath::Root, 0));
    entries.push_file_entry(FileEntry::new(ObjectKind::Tree, RelativePath::from("a"), 1));
    entries.push_file_entry(FileEntry::new(ObjectKind::File, RelativePath::from("a/b/c"), 3));
    entries.push_file_entry(FileEntry::new(ObjectKind::File, RelativePath::from("d"), 1));
    assert_eq!(entries.len(), 4);
    assert_eq!(entries.max_depth(), 3);
    assert_eq!(entries.num_files(), 2);
    assert_eq!(entries.num_dirs(), 2);
    assert_eq!(entries.count(ObjectKind::File), 2);
    assert_eq!(
        entries.entries_of(ObjectKind::File),
        vec![
            FileEntry::new(ObjectKind::File, RelativePath::from("a/b/c"), 3),
            FileEntry::new(ObjectKind::File, RelativePath::from("d"), 1),
        ]
    );
    assert_eq!(entries.entries_of(ObjectKind::Tree).len(), 2);
    let paths: Vec<RelativePath> = entries.iter().iter().map(|e| e.path.clone()).collect();
    assert_eq!(
        paths,
        vec![
            RelativePath::Root,
            RelativePath::from("a"),
            RelativePath::from("a/b/c"),
            RelativePath::from("d")
        ]
    );
    let a = FileEntry::new(ObjectKind::Tree, RelativePath::from("a"), 1);
    let b = FileEntry::new(ObjectKind::File, RelativePath::from("b"), 1);
    assert!(a.is_before(&b));
    assert!(!b.is_before(&a));
    assert_eq!(a.clone(), a);
}

#[test]
fn empty_target_is_an_error() {
    let entries = TargetEntries::new();
    assert_eq!(build(&entries, &Vec::new()), Err(ReadContentError::TargetEmpty));

    let built = build_files(&[], &[]);
    assert_eq!(built, Err(ReadContentError::TargetEmpty));

    let built = build_files(&[dir("a"), dir("a/b")], &[]);
    assert_eq!(built, Err(ReadContentError::TargetEmpty));
}

#[test]
fn single_file_at_root_gives_a_root_tree_with_one_entry() {
    let built = build_files(&[file("a")], &[("a", "x")]).unwrap();
    assert_eq!(built.writes.len(), 1);
    let root = &built.writes[0];
    let entries = parse_tree_contents(&root.payload).unwrap();
    assert_eq!(entries.len(), 1);
    assert_eq!(entries[0], Object::new_file(ObjectID::from_contents(b"x"), "a"));
    assert_eq!(built.root, root.placed.object);
    assert!(built.root.is_tree());
    assert_eq!(built.root.basename, RelativePath::Root);
    assert_eq!(root.placed.parent, RelativePath::Root);
}

#[test]
fn empty_file_scenario() {
    let built = build_files(&[file("a")], &[("a", "")]).unwrap();
    let payload = &built.writes[0].payload;
    assert_eq!(payload.as_slice(), b"file\t2d06800538d394c2\ta\n".as_slice());
    assert_eq!(built.root.id, ObjectID::from_contents(payload));

    let again = build_files(&[file("a")], &[("a", "")]).unwrap();
    assert_eq!(again.root.id, built.root.id);
    assert_eq!(again, built);
}

fn nested(d_content: &str) -> mtl::builder::Built {
    build_files(
        &[dir("a"), dir("a/b"), file("a/b/c"), file("a/b/d")],
        &[("a/b/c", "c"), ("a/b/d", d_content)],
    )
    .unwrap()
}

#[test]
fn deterministic_nested_tree_scenario() {
    let first = nested("d");
    let second = nested("d");
    assert_eq!(first, second);
    assert_eq!(first.writes.len(), 3);

    // children before parents, the root last
    let names: Vec<RelativePath> = first
        .writes
        .iter()
        .map(|w| w.placed.parent.concat(&w.placed.object.basename))
        .collect();
    assert_eq!(
        names,
        vec![
            RelativePath::from("a/b"),
            RelativePath::from("a"),
            RelativePath::Root
        ]
    );
    for write in &first.writes {
        assert_eq!(write.placed.object.id, ObjectID::from_contents(&write.payload));
    }
    let b_payload = format!(
        "file\t{}\tc\nfile\t{}\td\n",
        ObjectID::from_contents(b"c").to_string(),
        ObjectID::from_contents(b"d").to_string()
    );
    assert_eq!(first.writes[0].payload, b_payload.as_bytes().to_vec());
    let a_payload = format!("tree\t{}\tb\n", first.writes[0].placed.object.id.to_string());
    assert_eq!(first.writes[1].payload, a_payload.as_bytes().to_vec());
    let root_payload = format!("tree\t{}\ta\n", first.writes[1].placed.object.id.to_string());
    assert_eq!(first.writes[2].payload, root_payload.as_bytes().to_vec());

    let changed = nested("D");
    assert_ne!(changed.root.id, first.root.id);
    for (old, new) in first.writes.iter().zip(changed.writes.iter()) {
        assert_ne!(old.placed.object.id, new.placed.object.id);
    }
    let old_entries = parse_tree_contents(&first.writes[0].payload).unwrap();
    let new_entries = parse_tree_contents(&changed.writes[0].payload).unwrap();
    assert_eq!(old_entries[0], new_entries[0]);
    assert_ne!(old_entries[1].id, new_entries[1].id);
}

#[test]
fn order_of_the_walk_does_not_change_the_root() {
    let contents = [("a/x", "1"), ("a/y", "2"), ("b", "3"), ("c/z", "4")];
    let one = build_files(
        &[dir("a"), file("a/x"), file("a/y"), file("b"), dir("c"), file("c/z")],
        &contents,
    )
    .unwrap();
    let other = build_files(
        &[file("c/z"), file("b"), dir("c"), file("a/y"), dir("a"), file("a/x")],
        &contents,
    )
    .unwrap();
    assert_eq!(one.root.id, other.root.id);
}

#[test]
fn empty_directories_leave_no_tree() {
    let built = build_files(
        &[dir("empty"), dir("full"), file("full/f"), dir("full/hollow")],
        &[("full/f", "f")],
    )
    .unwrap();
    assert_eq!(built.writes.len(), 2);
    let root_entries = parse_tree_contents(&built.writes[1].payload).unwrap();
    assert_eq!(root_entries.len(), 1);
    assert_eq!(root_entries[0].basename, RelativePath::from("full"));
}

#[test]
fn tree_entries_are_sorted_by_basename() {
    let built = build_files(
        &[dir("a"), file("a/b"), dir("a/z"), file("a/z/f"), file("a/c")],
        &[("a/b", "1"), ("a/z/f", "2"), ("a/c", "3")],
    )
    .unwrap();
    let a = built
        .writes
        .iter()
        .find(|w| w.placed.object.basename == RelativePath::from("a"))
        .unwrap();
    let names: Vec<RelativePath> = parse_tree_contents(&a.payload)
        .unwrap()
        .into_iter()
        .map(|o| o.basename)
        .collect();
    assert_eq!(
        names,
        vec![
            RelativePath::from("b"),
            RelativePath::from("c"),
            RelativePath::from("z")
        ]
    );
}

#[test]
fn file_objects_are_placed_under_their_directory() {
    let entry = FileEntry::new(ObjectKind::File, RelativePath::from("a/b/c"), 3);
    let id = ObjectID::from_contents(b"c");
    let placed = file_object(&entry, id).unwrap();
    assert_eq!(placed.parent, RelativePath::from("a/b"));
    assert_eq!(placed.object, Object::new_file(id, "c"));

    let root = FileEntry::new(ObjectKind::File, RelativePath::Root, 0);
    assert_eq!(file_object(&root, id), None);
}

#[test]
fn process_tree_content_folds_the_children_of_one_directory() {
    let id_c = ObjectID::from_contents(b"c");
    let id_d = ObjectID::from_contents(b"d");
    let placed = vec![
        Placed { parent: RelativePath::from("a/b"), object: Object::new_file(id_d, "d") },
        Placed { parent: RelativePath::from("a"), object: Object::new_file(id_d, "other") },
        Placed { parent: RelativePath::from("a/b"), object: Object::new_file(id_c, "c") },
    ];
    let entry = FileEntry::new(ObjectKind::Tree, RelativePath::from("a/b"), 2);
    let write = process_tree_content(&placed, &entry).unwrap();
    let expected = format!("file\t{}\tc\nfile\t{}\td\n", id_c.to_string(), id_d.to_string());
    assert_eq!(write.payload, expected.as_bytes().to_vec());
    assert_eq!(write.placed.parent, RelativePath::from("a"));
    assert_eq!(
        write.placed.object,
        Object::new_tree(ObjectID::from_contents(expected.as_bytes()), "b")
    );

    let hollow = FileEntry::new(ObjectKind::Tree, RelativePath::from("x"), 1);
    assert_eq!(process_tree_content(&placed, &hollow), None);
}

use mtl::data::{Object, ObjectID, ObjectKind};
use mtl::error::{ParseError, ParseHashError};
use mtl::hash;
use mtl::path::RelativePath;
use mtl::tree::{
    list_entry, parse_entry_line, parse_tree_contents, serialize_entries, sort_entries,
    tree_contents, within_depth,
};

fn id(n: u64) -> ObjectID {
    ObjectID::new(hash::Hash::new(n))
}

#[test]
fn serialize_writes_one_line_per_entry() {
    let entries = vec![
        Object::new_file(id(1), "a"),
        Object::new_tree(id(0xabc), "dir"),
    ];
    assert_eq!(
        serialize_entries(&entries),
        b"file\t0000000000000001\ta\ntree\t0000000000000abc\tdir\n".to_vec()
    );
    assert_eq!(serialize_entries(&Vec::new()), Vec::<u8>::new());
}

#[test]
fn serialized_size_is_the_sum_of_entry_sizes() {
    let entries = vec![
        Object::new_file(id(1), "a"),
        Object::new_file(id(2), "ああ"),
    ];
    let total: usize = entries.iter().map(|e| e.size()).sum();
    assert_eq!(serialize_entries(&entries).len(), total);
    assert_eq!(total, 24 + 29);
}

#[test]
fn sort_orders_by_name_and_keeps_equal_names_in_place() {
    let entries = vec![
        Object::new_file(id(1), "b"),
        Object::new_file(id(2), "a"),
        Object::new_tree(id(3), "b"),
        Object::new_file(id(4), "A"),
    ];
    let sorted = sort_entries(&entries);
    let ids: Vec<u64> = sorted.iter().map(|o| o.id.as_u64()).collect();
    assert_eq!(ids, vec![4, 2, 1, 3]);
}

#[test]
fn tree_id_does_not_depend_on_the_order_of_children() {
    let a = Object::new_file(id(1), "a");
    let b = Object::new_tree(id(2), "b");
    let c = Object::new_file(id(3), "c");
    let orders = vec![
        vec![a.clone(), b.clone(), c.clone()],
        vec![c.clone(), a.clone(), b.clone()],
        vec![b.clone(), c.clone(), a.clone()],
        vec![c.clone(), b.clone(), a.clone()],
    ];
    let (first_id, first_payload) = tree_contents(&orders[0]);
    assert_eq!(
        first_payload,
        b"file\t0000000000000001\ta\ntree\t0000000000000002\tb\nfile\t0000000000000003\tc\n"
            .to_vec()
    );
    assert_eq!(first_id, ObjectID::from_contents(&first_payload));
    for order in &orders {
        let (id, payload) = tree_contents(order);
        assert_eq!(id, first_id);
        assert_eq!(payload, first_payload);
    }
}

#[test]
fn parse_reads_back_what_serialize_wrote() {
    let entries = vec![
        Object::new_file(id(1), "a"),
        Object::new_tree(id(0xd447b1ea40e6988b), "name with blanks"),
        Object::new_file(id(u64::MAX), "ああ"),
    ];
    let payload = serialize_entries(&entries);
    assert_eq!(parse_tree_contents(&payload), Ok(entries));
}

#[test]
fn parse_accepts_a_last_line_without_newline_and_an_empty_payload() {
    assert_eq!(parse_tree_contents(b""), Ok(vec![]));
    assert_eq!(
        parse_tree_contents(b"file\t0000000000000001\ta"),
        Ok(vec![Object::new_file(id(1), "a")])
    );
    assert_eq!(
        parse_tree_contents(b"file\t0000000000000001\ta\ttrailing\n"),
        Ok(vec![Object::new_file(id(1), "a")])
    );
}

#[test]
fn parse_reports_the_first_bad_line() {
    assert_eq!(
        parse_tree_contents(b"\n"),
        Err(ParseError::EmptyToken)
    );
    assert_eq!(
        parse_tree_contents(b"blob\t0000000000000001\ta\n"),
        Err(ParseError::InvalidToken("blob".to_string()))
    );
    assert_eq!(
        parse_tree_contents(b"file\n"),
        Err(ParseError::EmptyToken)
    );
    assert_eq!(
        parse_tree_contents(b"file\t123\ta\n"),
        Err(ParseError::Hash(ParseHashError::InvalidFormat))
    );
    assert_eq!(
        parse_tree_contents(b"file\tzzzzzzzzzzzzzzzz\ta\n"),
        Err(ParseError::Hash(ParseHashError::IntError))
    );
    assert_eq!(
        parse_tree_contents(b"file\t0000000000000001\n"),
        Err(ParseError::EmptyToken)
    );
    assert_eq!(
        parse_tree_contents(b"file\t0000000000000001\ta\nfile\t12\tb\nblob\n"),
        Err(ParseError::Hash(ParseHashError::InvalidFormat))
    );
    assert_eq!(
        parse_entry_line(b"tree\t0000000000000002\tdir"),
        Ok(Object::new_tree(id(2), "dir"))
    );
}

#[test]
fn listing_lines_show_kind_id_and_path() {
    let parent = RelativePath::from("a/b");
    let file = Object::new_file(id(1), "c");
    let tree = Object::new_tree(id(2), "d");

    let (line, path) = list_entry(&file, &parent, None);
    assert_eq!(line, Some(b"file 0000000000000001\ta/b/c".to_vec()));
    assert_eq!(path, RelativePath::from("a/b/c"));

    let (line, path) = list_entry(&tree, &parent, None);
    assert_eq!(line, Some(b"tree 0000000000000002\ta/b/d/".to_vec()));
    assert_eq!(path, RelativePath::from("a/b/d"));

    let (line, _) = list_entry(&tree, &RelativePath::Root, Some(ObjectKind::Tree));
    assert_eq!(line, Some(b"tree 0000000000000002\td/".to_vec()));
    let (line, path) = list_entry(&tree, &RelativePath::Root, Some(ObjectKind::File));
    assert_eq!(line, None);
    assert_eq!(path, RelativePath::from("d"));
    let (line, _) = list_entry(&file, &RelativePath::Root, Some(ObjectKind::File));
    assert_eq!(line, Some(b"file 0000000000000001\tc".to_vec()));
}

#[test]
fn depth_limit() {
    assert!(within_depth(None, 0));
    assert!(within_depth(None, usize::MAX));
    assert!(within_depth(Some(2), 1));
    assert!(!within_depth(Some(2), 2));
    assert!(!within_depth(Some(0), 0));
}

#[test]
fn names_that_are_not_utf8_are_written_and_read_as_they_are() {
    let name = RelativePath::from_bytes(b"caf\xe9 \xff");
    let entries = vec![Object::with_basename(ObjectKind::File, id(7), name.clone())];
    let payload = serialize_entries(&entries);
    assert_eq!(payload, b"file\t0000000000000007\tcaf\xe9 \xff\n".to_vec());
    let read = parse_tree_contents(&payload).unwrap();
    assert_eq!(read, entries);
    assert_eq!(read[0].basename, name);
    assert_eq!(entries[0].size(), 23 + 6);
    assert_eq!(entries[0].to_string(), "file\t0000000000000007\tcaf\u{fffd} \u{fffd}");
}

use std::str::FromStr;

use mtl::data::{sort_refs, Object, ObjectID, ObjectKind, ObjectRef};
use mtl::error::{ParseError, ParseHashError, ReadContentError};
use mtl::hash;
use mtl::path::RelativePath;
use mtl::tree::sort_entries;

#[test]
fn test_object_kind_display() {
    assert_eq!(ObjectKind::Tree.to_string(), "tree");
    assert_eq!(ObjectKind::File.to_string(), "file");
}

#[test]
fn test_object_kind_from_str() {
    assert_eq!(ObjectKind::from_str("tree").unwrap(), ObjectKind::Tree);
    assert_eq!(ObjectKind::from_str("file").unwrap(), ObjectKind::File);
    assert!(ObjectKind::from_str("").is_err());
    assert!(ObjectKind::from_str("invalid").is_err());
}

#[test]
fn test_object_id_from_hex() {
    assert_eq!(
        ObjectID::from_hex("d447b1ea40e6988b").unwrap(),
        ObjectID::new(hash::Hash::from_hex("d447b1ea40e6988b").unwrap())
    );

    assert_eq!(
        ObjectID::from_contents("hello world".as_bytes()),
        ObjectID::from_hex("d447b1ea40e6988b").unwrap()
    );

    assert_eq!(
        ObjectID::from_hex("d447b1ea40e6988b").unwrap().to_string(),
        "d447b1ea40e6988b".to_string()
    );
}

#[test]
fn test_object_id_from_contents() {
    assert_eq!(
        ObjectID::from_contents("hello world".as_bytes()),
        ObjectID::from_hex("d447b1ea40e6988b").unwrap()
    );
}

#[test]
fn test_object_id_from_str() {
    assert_eq!(
        ObjectID::from_str("d447b1ea40e6988b").unwrap(),
        ObjectID::new(hash::Hash::from_hex("d447b1ea40e6988b").unwrap())
    );
}

#[test]
fn test_object_ref() {
    assert_eq!(
        "d447b1ea40e6988b".parse::<ObjectRef>().unwrap(),
        ObjectRef::new_id(ObjectID::from_hex("d447b1ea40e6988b").unwrap())
    );
    assert_eq!(
        "HEAD".parse::<ObjectRef>().unwrap(),
        ObjectRef::new_reference("HEAD")
    );
    assert_eq!(
        "invalid_hex".parse::<ObjectRef>().unwrap(),
        ObjectRef::new_reference("invalid_hex")
    );
}

fn four_objects() -> Vec<Object> {
    let object_id = ObjectID::from_hex("d447b1ea40e6988b").unwrap();
    vec![
        Object::new(ObjectKind::File, object_id.clone(), "c"),
        Object::new(ObjectKind::File, object_id.clone(), "d"),
        Object::new(ObjectKind::File, object_id.clone(), "a"),
        Object::new(ObjectKind::File, object_id.clone(), "b"),
    ]
}

fn check_object_order() {
    let objects = four_objects();
    let mut compare_target = objects.clone();

    let objects = sort_entries(&objects);
    compare_target.sort_by(|a, b| a.basename.cmp(&b.basename));
    assert_eq!(objects, compare_target);
    assert_eq!(
        vec![
            RelativePath::from("a"),
            RelativePath::from("b"),
            RelativePath::from("c"),
            RelativePath::from("d")
        ],
        objects.into_iter().map(|o| o.basename).collect::<Vec<_>>()
    );
}

fn check_object_size() {
    let object_id = ObjectID::from_hex("d447b1ea40e6988b").unwrap();
    let objects = vec![
        Object::new(ObjectKind::File, object_id.clone(), "a"),
        Object::new(ObjectKind::File, object_id.clone(), "aa"),
        Object::new(ObjectKind::File, object_id.clone(), "aあ"),
        Object::new(ObjectKind::File, object_id.clone(), "あ"),
        Object::new(ObjectKind::File, object_id.clone(), "ああ"),
    ];
    assert_eq!(objects[0].size(), 24);
    assert_eq!(objects[1].size(), 25);
    assert_eq!(objects[2].size(), 27);
    assert_eq!(objects[3].size(), 26);
    assert_eq!(objects[4].size(), 29);
}

fn check_object_display() {
    let object = Object::new_file(
        ObjectID::from_hex("d447b1ea40e6988b").unwrap(),
        "foo/bar/baz",
    );
    assert_eq!(object.to_string(), "file\td447b1ea40e6988b\tbaz");
}

#[test]
fn data_test_object_order() {
    check_object_order();
}

#[test]
fn data_test_object_size() {
    check_object_size();
}

#[test]
fn data_test_object_display() {
    check_object_display();
}

#[test]
fn lib_test_object_order() {
    check_object_order();
}

#[test]
fn lib_test_object_size() {
    check_object_size();
}

#[test]
fn lib_test_object_display() {
    check_object_display();
}

#[test]
fn object_kind_errors_tell_empty_from_invalid() {
    assert_eq!(ObjectKind::from_str(""), Err(ParseError::EmptyToken));
    assert_eq!(
        ObjectKind::from_str("invalid"),
        Err(ParseError::InvalidToken("invalid".to_string()))
    );
    assert_eq!(
        ObjectKind::from_str("Tree"),
        Err(ParseError::InvalidToken("Tree".to_string()))
    );
    assert_eq!(ObjectKind::from_bytes(b"tree"), Some(ObjectKind::Tree));
    assert_eq!(ObjectKind::from_bytes(b"file"), Some(ObjectKind::File));
    assert_eq!(ObjectKind::from_bytes(b"files"), None);
    assert_eq!(ObjectKind::Tree.as_bytes(), b"tree".to_vec());
    assert_eq!(ObjectKind::File.as_bytes(), b"file".to_vec());
}

#[test]
fn parse_error_messages() {
    assert_eq!(ParseError::EmptyToken.to_string(), "empty token");
    assert_eq!(
        ParseError::InvalidToken("x".to_string()).to_string(),
        "invalid token: \"x\""
    );
    assert_eq!(
        ParseError::Hash(ParseHashError::InvalidFormat).to_string(),
        "invalid hash: invalid hash format"
    );
}

#[test]
fn object_id_errors_wrap_hash_errors() {
    assert_eq!(
        ObjectID::from_hex("g"),
        Err(ParseError::Hash(ParseHashError::InvalidFormat))
    );
    assert_eq!(
        ObjectID::from_hex("ghijklmnopqrstuv"),
        Err(ParseError::Hash(ParseHashError::IntError))
    );
}

#[test]
fn object_id_key_is_little_endian_and_orders_by_number() {
    let id = ObjectID::new(hash::Hash::new(0x0102030405060708));
    let key = id.to_bytes();
    assert_eq!(key, vec![8, 7, 6, 5, 4, 3, 2, 1]);
    assert_eq!(ObjectID::from_bytes(&key), id);
    assert_eq!(id.as_u64(), 0x0102030405060708);

    let small = ObjectID::new(hash::Hash::new(0x00ff)).to_bytes();
    let large = ObjectID::new(hash::Hash::new(0x0100)).to_bytes();
    assert!(ObjectID::key_is_before(&small, &large));
    assert!(!ObjectID::key_is_before(&large, &small));
    assert!(!ObjectID::key_is_before(&small, &small));
    assert!(small > large);
}

#[test]
fn object_refs_order_names_before_ids() {
    let head = ObjectRef::new_reference("HEAD");
    let main = ObjectRef::new_reference("main");
    let one = ObjectRef::new_id(ObjectID::new(hash::Hash::new(1)));
    let two = ObjectRef::new_id(ObjectID::new(hash::Hash::new(2)));
    assert!(head.is_before(&main));
    assert!(!main.is_before(&head));
    assert!(main.is_before(&one));
    assert!(!one.is_before(&main));
    assert!(one.is_before(&two));
    assert!(!two.is_before(&one));
    assert!(!one.is_before(&one));
    assert_eq!(head.to_string(), "HEAD");
    assert_eq!(one.to_string(), "0000000000000001");
    assert_eq!(ObjectRef::parse("HEAD"), head);
}

#[test]
fn object_predicates_and_lines() {
    let id = ObjectID::from_hex("d447b1ea40e6988b").unwrap();
    let tree = Object::new_tree(id, "dir");
    let file = Object::new_file(id, "name");
    assert!(tree.is_tree() && !tree.is_file());
    assert!(file.is_file() && !file.is_tree());
    assert_eq!(tree.line(), b"tree\td447b1ea40e6988b\tdir".to_vec());
    assert_eq!(file.line(), b"file\td447b1ea40e6988b\tname".to_vec());
    assert_eq!(Object::new_tree(id, "").line(), b"tree\td447b1ea40e6988b\t".to_vec());
    assert_eq!(file.as_object_ref(), ObjectRef::new_id(id));
    assert!(file.equals(&file.clone()));
    assert!(!file.equals(&tree));
    assert!(tree.is_before(&file));
    assert!(!file.is_before(&tree));
    let named = Object::with_basename(ObjectKind::File, id, RelativePath::from("name"));
    assert_eq!(named, file);
}

#[test]
fn references_are_listed_in_order() {
    let refs = vec![
        ObjectRef::new_id(ObjectID::new(hash::Hash::new(2))),
        ObjectRef::new_reference("v2"),
        ObjectRef::new_reference("main"),
        ObjectRef::new_id(ObjectID::new(hash::Hash::new(1))),
        ObjectRef::new_reference("A"),
        ObjectRef::new_reference("v10"),
    ];
    let sorted = sort_refs(refs.clone());
    assert_eq!(
        sorted,
        vec![
            ObjectRef::new_reference("A"),
            ObjectRef::new_reference("main"),
            ObjectRef::new_reference("v10"),
            ObjectRef::new_reference("v2"),
            ObjectRef::new_id(ObjectID::new(hash::Hash::new(1))),
            ObjectRef::new_id(ObjectID::new(hash::Hash::new(2))),
        ]
    );
    let mut expected = refs;
    expected.sort();
    assert_eq!(sorted, expected);
    assert_eq!(sort_refs(Vec::new()), Vec::new());
}

#[test]
fn read_content_error_messages() {
    assert_eq!(ReadContentError::ObjectNotFound.to_string(), "object not found");
    assert_eq!(ReadContentError::TargetEmpty.to_string(), "target is empty");
    assert_eq!(
        ReadContentError::AbsolutePathNotSupported.to_string(),
        "absolute path is not supported"
    );
    assert_eq!(
        ReadContentError::ParseError(ParseError::EmptyToken).to_string(),
        "empty token"
    );
    assert_eq!(
        ReadContentError::ParseError(ParseError::Hash(ParseHashError::IntError)).to_string(),
        "invalid hash: invalid digit found in string"
    );
}

#[test]
fn the_name_of_an_entry_is_a_single_component() {
    let id = ObjectID::from_hex("d447b1ea40e6988b").unwrap();
    let object = Object::new_file(id, "foo/bar/baz");
    assert_eq!(object.basename, RelativePath::from("baz"));
    assert_eq!(object.line(), b"file\td447b1ea40e6988b\tbaz".to_vec());
    assert_eq!(object.size(), 23 + 3);
    assert_eq!(object.size(), object.line().len() + 1);
    assert_eq!(object, Object::new_file(id, "baz"));

    let named = Object::with_basename(ObjectKind::Tree, id, RelativePath::from("a/b"));
    assert_eq!(named, Object::new_tree(id, "b"));

    let root = Object::new_tree(id, "");
    assert_eq!(root.basename, RelativePath::Root);
    assert_eq!(root.size(), 23);
}

use std::collections::HashMap;

use mtl::data::{Object, ObjectID, ObjectRef};
use mtl::error::ReadContentError;
use mtl::expr::{find_child, ObjectExpr, Search, SearchStep};
use mtl::hash;
use mtl::path::RelativePath;
use mtl::tree::{parse_tree_contents, tree_contents};

fn id(n: u64) -> ObjectID {
    ObjectID::new(hash::Hash::new(n))
}

#[test]
fn test_object_expr() {
    let object_expr = "d447b1ea40e6988b:foo/bar/baz"
        .parse::<ObjectExpr>()
        .unwrap();
    assert_eq!(
        object_expr.object_ref,
        ObjectRef::new_id(ObjectID::from_hex("d447b1ea40e6988b").unwrap())
    );
    assert_eq!(object_expr.path, Some(RelativePath::from("foo/bar/baz")));

    let object_expr = "d447b1ea40e6988b".parse::<ObjectExpr>().unwrap();
    assert_eq!(
        object_expr.object_ref,
        ObjectRef::new_id(ObjectID::from_hex("d447b1ea40e6988b").unwrap())
    );
    assert_eq!(object_expr.path, None);

    let object_expr = "d447b1ea40e6988b:".parse::<ObjectExpr>().unwrap();
    assert_eq!(
        object_expr.object_ref,
        ObjectRef::new_id(ObjectID::from_hex("d447b1ea40e6988b").unwrap())
    );
    assert_eq!(object_expr.path, None);
}

#[test]
fn expressions_with_reference_names() {
    let e = ObjectExpr::parse("HEAD:a/b/d");
    assert_eq!(e.object_ref, ObjectRef::new_reference("HEAD"));
    assert_eq!(e.path, Some(RelativePath::from("a/b/d")));
    assert_eq!(e.to_string(), "HEAD:a/b/d");

    assert_eq!(ObjectExpr::parse("HEAD:"), ObjectExpr::parse("HEAD"));
    assert_eq!(ObjectExpr::parse("HEAD").to_string(), "HEAD");

    let e = ObjectExpr::parse("日本語:x:y");
    assert_eq!(e.object_ref, ObjectRef::new_reference("日本語"));
    assert_eq!(e.path, Some(RelativePath::from("x:y")));

    let e = ObjectExpr::parse(":x");
    assert_eq!(e.object_ref, ObjectRef::new_reference(""));
    assert_eq!(e.path, Some(RelativePath::from("x")));

    let e = ObjectExpr::parse("0000000000000abc:x");
    assert_eq!(e.to_string(), "0000000000000abc:x");
}

#[test]
fn children_are_found_by_exact_name() {
    let entries = vec![
        Object::new_file(id(1), "a"),
        Object::new_tree(id(2), "b"),
        Object::new_file(id(3), "b"),
        Object::new_tree(id(4), ""),
    ];
    assert_eq!(find_child(&entries, b"a"), Some(id(1)));
    assert_eq!(find_child(&entries, b"b"), Some(id(2)));
    assert_eq!(find_child(&entries, b"B"), None);
    assert_eq!(find_child(&entries, b""), None);
    assert_eq!(find_child(&Vec::new(), b"a"), None);
}

/// Walks down with every tree of the store at hand.
fn resolve_at_once(
    store: &HashMap<ObjectID, Vec<u8>>,
    base: ObjectID,
    path: &str,
) -> Result<SearchStep, ReadContentError> {
    let mut read = HashMap::new();
    for (id, payload) in store {
        read.insert(id.as_u64(), parse_tree_contents(payload).unwrap());
    }
    Search::new(base, &RelativePath::from(path)).advance(&read)
}

/// Walks down the store, reading a tree when the walk asks for it.
fn resolve_on_demand(
    store: &HashMap<ObjectID, Vec<u8>>,
    base: ObjectID,
    path: &str,
) -> Result<Vec<ObjectID>, ReadContentError> {
    let mut search = Search::new(base, &RelativePath::from(path));
    let mut read = HashMap::new();
    loop {
        match search.advance(&read)? {
            SearchStep::Found(routes) => return Ok(routes),
            SearchStep::Read(id) => {
                let payload = store.get(&id).ok_or(ReadContentError::ObjectNotFound)?;
                let entries =
                    parse_tree_contents(payload).map_err(ReadContentError::ParseError)?;
                read.clear();
                read.insert(id.as_u64(), entries);
            }
        }
    }
}

/// Walks down the store as a caller of the library would.
fn resolve(
    store: &HashMap<ObjectID, Vec<u8>>,
    base: ObjectID,
    path: &str,
) -> Result<Vec<ObjectID>, ReadContentError> {
    let mut search = Search::new(base, &RelativePath::from(path));
    loop {
        match search.next() {
            SearchStep::Found(routes) => return Ok(routes),
            SearchStep::Read(id) => {
                let payload = store.get(&id).ok_or(ReadContentError::ObjectNotFound)?;
                let entries =
                    parse_tree_contents(payload).map_err(ReadContentError::ParseError)?;
                search.step(&entries)?;
            }
        }
    }
}

#[test]
fn reference_expression_scenario() {
    let mut store = HashMap::new();
    let id_c = ObjectID::from_contents(b"c");
    let id_d = ObjectID::from_contents(b"d");
    let (b, payload) = tree_contents(&vec![
        Object::new_file(id_c, "c"),
        Object::new_file(id_d, "d"),
    ]);
    store.insert(b, payload);
    let (a, payload) = tree_contents(&vec![Object::new_tree(b, "b")]);
    store.insert(a, payload);
    let (root, payload) = tree_contents(&vec![Object::new_tree(a, "a")]);
    store.insert(root, payload);

    assert_eq!(resolve(&store, root, "a/b/d"), Ok(vec![id_d, b, a]));
    assert_eq!(resolve(&store, root, "a/b"), Ok(vec![b, a]));
    assert_eq!(
        resolve(&store, root, "a/b/missing"),
        Err(ReadContentError::ObjectNotFound)
    );
    assert_eq!(
        resolve(&store, root, "x"),
        Err(ReadContentError::ObjectNotFound)
    );
    // a file has no entries to walk into
    assert_eq!(
        resolve(&store, root, "a/b/d/e"),
        Err(ReadContentError::ObjectNotFound)
    );
    // an expression without path stands for the object itself
    assert_eq!(resolve(&store, root, ""), Ok(vec![]));

    // the whole walk at once, and with trees read on demand
    assert_eq!(
        resolve_at_once(&store, root, "a/b/d"),
        Ok(SearchStep::Found(vec![id_d, b, a]))
    );
    assert_eq!(
        resolve_at_once(&store, root, "a/b/missing"),
        Err(ReadContentError::ObjectNotFound)
    );
    assert_eq!(resolve_at_once(&store, root, ""), Ok(SearchStep::Found(vec![])));
    assert_eq!(
        resolve_at_once(&store, root, "a/b/d/e"),
        Ok(SearchStep::Read(id_d))
    );
    assert_eq!(resolve_on_demand(&store, root, "a/b/d"), Ok(vec![id_d, b, a]));
    assert_eq!(resolve_on_demand(&store, root, "a/b/c"), Ok(vec![id_c, b, a]));
    assert_eq!(
        resolve_on_demand(&store, root, "a/x"),
        Err(ReadContentError::ObjectNotFound)
    );
    assert_eq!(
        resolve_on_demand(&store, root, "a/b/d/e"),
        Err(ReadContentError::ObjectNotFound)
    );
    assert_eq!(ObjectExpr::parse("HEAD:").path, None);
}

use std::collections::HashMap;

use mtl::builder::{build, file_object, Built};
use mtl::data::{Object, ObjectID, ObjectKind};
use mtl::filter::MatchAllFilter;
use mtl::hash;
use mtl::target::{ScanTargetGenerator, Walked};
use mtl::tree::parse_tree_contents;
use mtl::update::{rewrite_ancestors, substitute_child};

fn id(n: u64) -> ObjectID {
    ObjectID::new(hash::Hash::new(n))
}

#[test]
fn substituting_the_id_of_a_child() {
    let entries = vec![
        Object::new_file(id(1), "a"),
        Object::new_tree(id(2), "b"),
        Object::new_file(id(3), "b"),
        Object::new_tree(id(4), "c"),
    ];
    assert_eq!(
        substitute_child(&entries, b"b", id(9)),
        Some(vec![
            Object::new_file(id(1), "a"),
            Object::new_tree(id(9), "b"),
            Object::new_file(id(3), "b"),
            Object::new_tree(id(4), "c"),
        ])
    );
    assert_eq!(substitute_child(&entries, b"a", id(9)), None);
    assert_eq!(substitute_child(&entries, b"x", id(9)), None);
    assert_eq!(substitute_child(&Vec::new(), b"a", id(9)), None);
}

/// Builds the tree of the files and puts its tree objects into the store.
fn build_into(store: &mut HashMap<ObjectID, Vec<u8>>, files: &[(&str, &str)]) -> Built {
    let mut walked = Vec::new();
    for (path, _) in files {
        let parts: Vec<&str> = path.split('/').collect();
        for n in 1..parts.len() {
            let dir = Walked {
                path: parts[..n].join("/").into_bytes(),
                is_file: false,
                is_dir: true,
            };
            if !walked.contains(&dir) {
                walked.push(dir);
            }
        }
        walked.push(Walked { path: path.as_bytes().to_vec(), is_file: true, is_dir: false });
    }
    let generator = ScanTargetGenerator::new(MatchAllFilter::new(Vec::new()), false);
    let entries = generator.generate(&walked);
    let mut placed = Vec::new();
    for entry in entries.iter() {
        if entry.mode == ObjectKind::File {
            let text = String::from_utf8(entry.path.as_path()).unwrap();
            let (_, content) = files.iter().find(|(p, _)| *p == text).unwrap();
            placed.push(file_object(entry, ObjectID::from_contents(content.as_bytes())).unwrap());
        }
    }
    let built = build(&entries, &placed).unwrap();
    for write in &built.writes {
        store.insert(write.placed.object.id, write.payload.clone());
    }
    built
}

fn id_at(store: &HashMap<ObjectID, Vec<u8>>, root: ObjectID, path: &str) -> ObjectID {
    let mut at = root;
    for name in path.split('/').filter(|n| !n.is_empty()) {
        let entries = parse_tree_contents(&store[&at]).unwrap();
        at = mtl::expr::find_child(&entries, name.as_bytes()).unwrap();
    }
    at
}

#[test]
fn update_gives_the_root_of_a_full_rebuild() {
    let mut store = HashMap::new();
    let old = build_into(
        &mut store,
        &[("a/b/c", "c"), ("a/b/d", "d"), ("a/x", "x"), ("y/z", "z"), ("top", "t")],
    );

    // the subtree a/b changes: d is rewritten, e is new
    let changed = [("a/b/c", "c"), ("a/b/d", "D"), ("a/b/e/f", "f"), ("a/x", "x"), ("y/z", "z"), ("top", "t")];
    let mut rebuilt_store = HashMap::new();
    let rebuilt = build_into(&mut rebuilt_store, &changed);
    assert_ne!(rebuilt.root.id, old.root.id);

    // the update: the subtree alone is built, then the trees above it are rewritten
    let new_subtree = id_at(&rebuilt_store, rebuilt.root.id, "a/b");
    let ancestors = vec![
        parse_tree_contents(&store[&old.root.id]).unwrap(),
        parse_tree_contents(&store[&id_at(&store, old.root.id, "a")]).unwrap(),
    ];
    let names = vec![b"a".to_vec(), b"b".to_vec()];
    let writes = rewrite_ancestors(&ancestors, &names, new_subtree).unwrap();
    assert_eq!(writes.len(), 2);
    assert_eq!(writes[1].0, rebuilt.root.id);
    assert_eq!(writes[0].0, id_at(&rebuilt_store, rebuilt.root.id, "a"));
    for (id, payload) in &writes {
        assert_eq!(*id, ObjectID::from_contents(payload));
        assert_eq!(rebuilt_store.get(id), Some(payload));
    }

    // what lies beside the subtree keeps its id
    assert_eq!(
        id_at(&store, old.root.id, "y"),
        id_at(&rebuilt_store, rebuilt.root.id, "y")
    );
}

#[test]
fn update_with_an_unchanged_subtree_changes_nothing() {
    let mut store = HashMap::new();
    let old = build_into(&mut store, &[("a/b/c", "c"), ("top", "t")]);
    let subtree = id_at(&store, old.root.id, "a/b");
    let ancestors = vec![
        parse_tree_contents(&store[&old.root.id]).unwrap(),
        parse_tree_contents(&store[&id_at(&store, old.root.id, "a")]).unwrap(),
    ];
    let names = vec![b"a".to_vec(), b"b".to_vec()];
    let writes = rewrite_ancestors(&ancestors, &names, subtree).unwrap();
    assert_eq!(writes[1].0, old.root.id);
    assert_eq!(writes[0].0, id_at(&store, old.root.id, "a"));
}

#[test]
fn update_fails_where_the_way_down_is_missing() {
    let mut store = HashMap::new();
    let old = build_into(&mut store, &[("a/b/c", "c")]);
    let root = parse_tree_contents(&store[&old.root.id]).unwrap();
    assert_eq!(rewrite_ancestors(&vec![root.clone()], &vec![b"x".to_vec()], id(1)), None);
    assert_eq!(rewrite_ancestors(&vec![root], &Vec::new(), id(1)), None);
    assert_eq!(rewrite_ancestors(&Vec::new(), &Vec::new(), id(1)), Some(vec![]));
}

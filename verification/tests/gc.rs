use std::collections::HashMap;

use mtl::builder::{build, file_object};
use mtl::data::{Object, ObjectID, ObjectKind};
use mtl::filter::MatchAllFilter;
use mtl::gc::{garbage, Marker};
use mtl::hash;
use mtl::target::{ScanTargetGenerator, Walked};
use mtl::tree::parse_tree_contents;

fn id(n: u64) -> ObjectID {
    ObjectID::new(hash::Hash::new(n))
}

#[test]
fn marker_marks_trees_once() {
    let mut m = Marker::new();
    assert_eq!(m.next(), None);
    m.mark_used_object(id(1));
    m.mark_used_object(id(1));
    assert!(m.is_marked(&id(1)));
    assert!(!m.is_marked(&id(2)));
    assert_eq!(m.next(), Some(id(1)));
    assert_eq!(m.next(), None);

    m.visit(&vec![
        Object::new_tree(id(2), "a"),
        Object::new_file(id(3), "b"),
        Object::new_tree(id(1), "c"),
        Object::new_tree(id(2), "d"),
        Object::new_tree(id(4), "e"),
    ]);
    assert!(m.is_marked(&id(2)));
    assert!(!m.is_marked(&id(3)));
    assert!(m.is_marked(&id(4)));
    assert_eq!(m.next(), Some(id(4)));
    assert_eq!(m.next(), Some(id(2)));
    assert_eq!(m.next(), None);

    assert_eq!(
        m.sweep(&vec![id(5), id(1), id(3), id(4), id(6)]),
        vec![id(5), id(3), id(6)]
    );
}

/// Builds the tree of the files and puts its tree objects into the store.
fn build_into(store: &mut HashMap<ObjectID, Vec<u8>>, files: &[(&str, &str)]) -> ObjectID {
    let mut walked = Vec::new();
    for (path, _) in files {
        let parts: Vec<&str> = path.split('/').collect();
        for n in 1..parts.len() {
            let dir = Walked {
                path: parts[..n].join("/").into_bytes(),
                is_file: false,
                is_dir: true,
            };
            if !walked.contains(&dir) {
                walked.push(dir);
            }
        }
        walked.push(Walked { path: path.as_bytes().to_vec(), is_file: true, is_dir: false });
    }
    let generator = ScanTargetGenerator::new(MatchAllFilter::new(Vec::new()), false);
    let entries = generator.generate(&walked);
    let mut placed = Vec::new();
    for entry in entries.iter() {
        if entry.mode == ObjectKind::File {
            let text = String::from_utf8(entry.path.as_path()).unwrap();
            let (_, content) = files.iter().find(|(p, _)| *p == text).unwrap();
            placed.push(file_object(entry, ObjectID::from_contents(content.as_bytes())).unwrap());
        }
    }
    let built = build(&entries, &placed).unwrap();
    for write in built.writes {
        store.insert(write.placed.object.id, write.payload);
    }
    built.root.id
}

/// Runs a collection over the store from the given roots.
fn collect(store: &HashMap<ObjectID, Vec<u8>>, roots: &[ObjectID]) -> Vec<ObjectID> {
    let mut marker = Marker::new();
    for root in roots {
        marker.mark_used_object(*root);
    }
    while let Some(next) = marker.next() {
        let entries = parse_tree_contents(&store[&next]).unwrap();
        marker.visit(&entries);
    }
    let mut all: Vec<ObjectID> = store.keys().cloned().collect();
    all.sort();
    marker.sweep(&all)
}

#[test]
fn gc_dry_run_then_sweep_then_nothing() {
    let mut store = HashMap::new();
    let first = build_into(&mut store, &[("a/b/c", "c"), ("a/b/d", "d"), ("e", "e")]);
    let second = build_into(&mut store, &[("a/b/c", "c"), ("a/b/d", "D"), ("e", "e")]);
    assert_ne!(first, second);
    assert_eq!(store.len(), 6);

    // with both roots in use nothing is garbage
    assert_eq!(collect(&store, &[first, second]), vec![]);

    // HEAD now names the second root only: the dry run lists the three trees of the first
    let unused = collect(&store, &[second]);
    assert_eq!(unused.len(), 3);
    assert!(unused.contains(&first));
    assert!(!unused.contains(&second));
    assert_eq!(store.len(), 6);

    for id in &unused {
        store.remove(id);
    }
    assert_eq!(store.len(), 3);
    assert_eq!(collect(&store, &[second]), vec![]);
}

#[test]
fn shared_subtrees_stay() {
    let mut store = HashMap::new();
    let first = build_into(&mut store, &[("shared/x", "x"), ("one", "1")]);
    let second = build_into(&mut store, &[("shared/x", "x"), ("two", "2")]);
    assert_eq!(store.len(), 3);
    let unused = collect(&store, &[second]);
    assert_eq!(unused, vec![first]);
}

/// Every tree of the store, read.
fn read_all(store: &HashMap<ObjectID, Vec<u8>>) -> HashMap<u64, Vec<Object>> {
    store
        .iter()
        .map(|(id, payload)| (id.as_u64(), parse_tree_contents(payload).unwrap()))
        .collect()
}

#[test]
fn whole_collection_over_the_trees_at_hand() {
    let mut store = HashMap::new();
    let first = build_into(&mut store, &[("a/b/c", "c"), ("a/b/d", "d"), ("e", "e")]);
    let second = build_into(&mut store, &[("a/b/c", "c"), ("a/b/d", "D"), ("e", "e")]);
    let mut all: Vec<ObjectID> = store.keys().cloned().collect();
    all.sort();
    let read = read_all(&store);

    assert_eq!(garbage(&vec![first, second], &read, &all), Ok(vec![]));
    assert_eq!(garbage(&vec![second], &read, &all), Ok(collect(&store, &[second])));
    assert_eq!(garbage(&vec![second], &read, &all).unwrap().len(), 3);
    assert_eq!(garbage(&Vec::new(), &read, &all), Ok(all.clone()));

    // a tree that is reached but not at hand is asked for, and nothing is swept
    let mut partly = read_all(&store);
    partly.remove(&second.as_u64());
    assert_eq!(garbage(&vec![second], &partly, &all), Err(second));
}

#[test]
fn marking_goes_on_as_far_as_the_trees_at_hand_lead() {
    let mut store = HashMap::new();
    let root = build_into(&mut store, &[("a/b/c", "c"), ("x/y", "y")]);
    let read = read_all(&store);

    let mut marker = Marker::new();
    marker.mark_used_object(root);
    assert_eq!(marker.advance(&HashMap::new()), Some(root));
    assert_eq!(marker.advance(&read), None);
    for id in store.keys() {
        assert!(marker.is_marked(id));
    }
    assert_eq!(marker.advance(&read), None);
}

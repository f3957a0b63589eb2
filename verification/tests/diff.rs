use mtl::data::{Object, ObjectID};
use mtl::diff::{diff_lines, diff_trees, goes_on, ops_fit, render, DiffLine, DiffOp, Span, Tone};
use mtl::path::RelativePath;
use mtl::hash;

fn id(n: u64) -> ObjectID {
    ObjectID::new(hash::Hash::new(n))
}

#[test]
fn diff_scenario_replace_and_insert() {
    let t1 = vec![Object::new_file(id(1), "f"), Object::new_file(id(2), "g")];
    let t2 = vec![
        Object::new_file(id(1), "f"),
        Object::new_file(id(3), "g"),
        Object::new_file(id(4), "h"),
    ];
    let lines = diff_trees(&t1, &t2).unwrap();
    assert_eq!(
        lines,
        vec![
            DiffLine {
                a: Some(Object::new_file(id(2), "g")),
                b: Some(Object::new_file(id(3), "g")),
                descend: false
            },
            DiffLine { a: None, b: Some(Object::new_file(id(4), "h")), descend: false },
        ]
    );
}

#[test]
fn identical_trees_give_no_line() {
    let t = vec![Object::new_file(id(1), "f"), Object::new_tree(id(2), "g")];
    assert_eq!(diff_trees(&t, &t), Some(vec![]));
    assert_eq!(diff_trees(&Vec::new(), &Vec::new()), Some(vec![]));
}

#[test]
fn deleted_and_inserted_entries() {
    let t1 = vec![
        Object::new_file(id(1), "a"),
        Object::new_file(id(2), "b"),
        Object::new_file(id(3), "c"),
    ];
    let t2 = vec![Object::new_file(id(2), "b")];
    assert_eq!(
        diff_trees(&t1, &t2).unwrap(),
        vec![
            DiffLine { a: Some(Object::new_file(id(1), "a")), b: None, descend: false },
            DiffLine { a: Some(Object::new_file(id(3), "c")), b: None, descend: false },
        ]
    );
    assert_eq!(
        diff_trees(&t2, &t1).unwrap(),
        vec![
            DiffLine { a: None, b: Some(Object::new_file(id(1), "a")), descend: false },
            DiffLine { a: None, b: Some(Object::new_file(id(3), "c")), descend: false },
        ]
    );
}

#[test]
fn changed_trees_are_descended_into() {
    let t1 = vec![Object::new_tree(id(1), "d"), Object::new_file(id(5), "x")];
    let t2 = vec![Object::new_tree(id(2), "d"), Object::new_tree(id(6), "x")];
    let lines = diff_trees(&t1, &t2).unwrap();
    assert_eq!(
        lines,
        vec![
            DiffLine {
                a: Some(Object::new_tree(id(1), "d")),
                b: Some(Object::new_tree(id(2), "d")),
                descend: true
            },
            DiffLine {
                a: Some(Object::new_file(id(5), "x")),
                b: Some(Object::new_tree(id(6), "x")),
                descend: false
            },
        ]
    );
}

#[test]
fn replaced_runs_are_grouped_by_name_in_ascending_order() {
    let old = vec![Object::new_file(id(1), "m"), Object::new_file(id(2), "a")];
    let new = vec![
        Object::new_file(id(3), "z"),
        Object::new_file(id(4), "a"),
        Object::new_file(id(5), "a"),
    ];
    let ops = vec![DiffOp::Replace { old_index: 0, old_len: 2, new_index: 0, new_len: 3 }];
    assert!(ops_fit(&ops, 2, 3));
    assert_eq!(
        diff_lines(&old, &new, &ops),
        vec![
            DiffLine {
                a: Some(Object::new_file(id(2), "a")),
                b: Some(Object::new_file(id(5), "a")),
                descend: false
            },
            DiffLine { a: Some(Object::new_file(id(1), "m")), b: None, descend: false },
            DiffLine { a: None, b: Some(Object::new_file(id(3), "z")), descend: false },
        ]
    );
}

#[test]
fn scripts_are_checked_against_the_trees() {
    let ops = vec![
        DiffOp::Equal { old_index: 0, new_index: 0, len: 1 },
        DiffOp::Delete { old_index: 1, old_len: 2, new_index: 1 },
    ];
    assert!(ops_fit(&ops, 3, 1));
    assert!(!ops_fit(&ops, 2, 1));
    assert!(!ops_fit(
        &vec![DiffOp::Insert { old_index: 0, new_index: usize::MAX, new_len: 2 }],
        3,
        3
    ));
    assert!(ops_fit(&Vec::new(), 0, 0));
}

#[test]
fn comparison_stops_at_equal_ids_and_at_the_depth_limit() {
    assert!(!goes_on(&id(1), &id(1), None, 0));
    assert!(goes_on(&id(1), &id(2), None, 7));
    assert!(goes_on(&id(1), &id(2), Some(3), 2));
    assert!(!goes_on(&id(1), &id(2), Some(3), 3));
}

fn text_of(spans: &[Span]) -> String {
    let mut bytes = Vec::new();
    for span in spans {
        bytes.extend_from_slice(&span.text);
    }
    String::from_utf8(bytes).unwrap()
}

fn tones_of(spans: &[Span]) -> Vec<Tone> {
    spans.iter().map(|s| s.tone).collect()
}

#[test]
fn changed_entries_are_shown_side_by_side() {
    let line = DiffLine {
        a: Some(Object::new_file(id(2), "g")),
        b: Some(Object::new_file(id(3), "g")),
        descend: false,
    };
    let spans = render(&line, &RelativePath::from("a/b"));
    assert_eq!(
        text_of(&spans),
        "-/+ file/file\t0000000000000002/0000000000000003\ta/b/g"
    );
    let (added, plain, removed) = (Tone::Added, Tone::Plain, Tone::Removed);
    assert_eq!(
        tones_of(&spans),
        vec![
            removed, plain, added, plain, plain, plain, plain, plain, removed, plain, added,
            plain, plain
        ]
    );

    let line = DiffLine {
        a: Some(Object::new_file(id(2), "g")),
        b: Some(Object::new_tree(id(2), "g")),
        descend: false,
    };
    let spans = render(&line, &RelativePath::Root);
    assert_eq!(
        text_of(&spans),
        "-/+ file/tree\t0000000000000002/0000000000000002\tg"
    );
    assert_eq!(
        tones_of(&spans),
        vec![
            removed, plain, added, plain, removed, plain, added, plain, plain, plain, plain,
            plain, plain
        ]
    );
}

#[test]
fn removed_and_added_entries_are_shown_on_their_side() {
    let removed = DiffLine { a: Some(Object::new_tree(id(1), "d")), b: None, descend: false };
    let spans = render(&removed, &RelativePath::Root);
    assert_eq!(
        text_of(&spans),
        "-/  tree/    \t0000000000000001/                \td"
    );
    assert_eq!(spans.last().unwrap().tone, Tone::Removed);
    assert_eq!(spans[0].tone, Tone::Removed);

    let added = DiffLine { a: None, b: Some(Object::new_file(id(4), "h")), descend: false };
    let spans = render(&added, &RelativePath::from("x"));
    assert_eq!(
        text_of(&spans),
        " /+     /file\t                /0000000000000004\tx/h"
    );
    assert_eq!(spans.last().unwrap().tone, Tone::Added);
    assert_eq!(spans[0].tone, Tone::Plain);

    let nothing = DiffLine { a: None, b: None, descend: false };
    assert!(render(&nothing, &RelativePath::Root).is_empty());
}

#[test]
fn identical_trees_have_no_head_line() {
    assert_eq!(mtl::diff::root_line(id(1), id(1)), None);
    let line = mtl::diff::root_line(id(1), id(2)).unwrap();
    assert_eq!(line.a, Some(Object::new_tree(id(1), "")));
    assert_eq!(line.b, Some(Object::new_tree(id(2), "")));
    assert!(line.descend);
}

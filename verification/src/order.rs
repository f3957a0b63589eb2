//! The order in which the target is enumerated does not matter: a build
//! gives the same root whatever the order of its entries and file objects.

use vstd::prelude::*;

use crate::builder::{build_writes, children_of, max_depth_of, FileEntryView, PlacedView};
use crate::data::{ObjectKind, ObjectView};
use crate::merkle::{
    consistent, dir_children, lemma_build_is_merkle, lemma_children_of_concat,
    lemma_children_of_lifted, lemma_depth_bound, lifted, sub_trees, tree_of,
};
use crate::path::parent_of;
use crate::tree::{distinct_names, lemma_tree_id_ignores_order};

verus! {

/// What an entry adds to the trees directly below `dir`: the tree of its
/// directory, if it is a directory directly below `dir` that has a tree.
pub open spec fn contributed(
    files: Seq<PlacedView>,
    entries: Seq<FileEntryView>,
    e: FileEntryView,
    dir: Seq<Seq<u8>>,
    cutoff: nat,
) -> Seq<ObjectView> {
    if e.mode == ObjectKind::Tree && e.path.len() == dir.len() + 1 && parent_of(e.path) == dir {
        match tree_of(files, entries, e.path, cutoff) {
            Some(w) => seq![w.placed.object],
            None => Seq::empty(),
        }
    } else {
        Seq::empty()
    }
}

/// The trees below a directory, entry by entry.
pub proof fn lemma_sub_trees_last(
    files: Seq<PlacedView>,
    entries: Seq<FileEntryView>,
    es: Seq<FileEntryView>,
    dir: Seq<Seq<u8>>,
    cutoff: nat,
)
    requires
        es.len() > 0,
        dir.len() < cutoff,
    ensures
        sub_trees(files, entries, es, dir, cutoff) == sub_trees(
            files,
            entries,
            es.drop_last(),
            dir,
            cutoff,
        ) + contributed(files, entries, es.last(), dir, cutoff),
{
    let before = sub_trees(files, entries, es.drop_last(), dir, cutoff);
    let c = contributed(files, entries, es.last(), dir, cutoff);
    if c.len() == 0 {
        assert(before + c =~= before);
    } else {
        assert(before + c =~= before.push(c[0]));
    }
}

/// Taking an entry out takes out what it added.
pub proof fn lemma_sub_trees_remove(
    files: Seq<PlacedView>,
    entries: Seq<FileEntryView>,
    es: Seq<FileEntryView>,
    dir: Seq<Seq<u8>>,
    cutoff: nat,
    i: int,
)
    requires
        0 <= i < es.len(),
        dir.len() < cutoff,
    ensures
        sub_trees(files, entries, es, dir, cutoff).to_multiset() == sub_trees(
            files,
            entries,
            es.remove(i),
            dir,
            cutoff,
        ).to_multiset().add(contributed(files, entries, es[i], dir, cutoff).to_multiset()),
    decreases es.len(),
{
    broadcast use vstd::multiset::group_multiset_axioms;

    lemma_sub_trees_last(files, entries, es, dir, cutoff);
    let init = es.drop_last();
    let last = contributed(files, entries, es.last(), dir, cutoff);
    vstd::seq_lib::lemma_multiset_commutative(sub_trees(files, entries, init, dir, cutoff), last);
    if i == es.len() - 1 {
        assert(es.remove(i) =~= init);
    } else {
        lemma_sub_trees_remove(files, entries, init, dir, cutoff, i);
        let rest = es.remove(i);
        assert(rest.drop_last() =~= init.remove(i));
        assert(rest.last() == es.last());
        lemma_sub_trees_last(files, entries, rest, dir, cutoff);
        vstd::seq_lib::lemma_multiset_commutative(
            sub_trees(files, entries, init.remove(i), dir, cutoff),
            last,
        );
        assert(init[i] == es[i]);
        assert(sub_trees(files, entries, es, dir, cutoff).to_multiset() =~= sub_trees(
            files,
            entries,
            es.remove(i),
            dir,
            cutoff,
        ).to_multiset().add(contributed(files, entries, es[i], dir, cutoff).to_multiset()));
    }
}

/// The trees below a directory are the same, each as often, whatever the
/// order of the entries.
pub proof fn lemma_sub_trees_any_order(
    files: Seq<PlacedView>,
    entries: Seq<FileEntryView>,
    a: Seq<FileEntryView>,
    b: Seq<FileEntryView>,
    dir: Seq<Seq<u8>>,
    cutoff: nat,
)
    requires
        a.to_multiset() == b.to_multiset(),
        dir.len() < cutoff,
    ensures
        sub_trees(files, entries, a, dir, cutoff).to_multiset() == sub_trees(
            files,
            entries,
            b,
            dir,
            cutoff,
        ).to_multiset(),
    decreases a.len(),
{
    broadcast use vstd::multiset::group_multiset_axioms;

    a.to_multiset_ensures();
    b.to_multiset_ensures();
    if a.len() == 0 {
        assert(b.len() == 0);
        assert(a =~= b);
    } else {
        let x = a.last();
        assert(a.contains(x));
        assert(a.to_multiset().count(x) > 0);
        assert(b.to_multiset().count(x) > 0);
        assert(b.contains(x));
        let i = choose|i: int| 0 <= i < b.len() && b[i] == x;
        let init = a.drop_last();
        assert(init =~= a.remove(a.len() - 1));
        vstd::seq_lib::to_multiset_remove(a, a.len() - 1);
        vstd::seq_lib::to_multiset_remove(b, i);
        lemma_sub_trees_any_order(files, entries, init, b.remove(i), dir, cutoff);
        lemma_sub_trees_remove(files, entries, a, dir, cutoff, a.len() - 1);
        lemma_sub_trees_remove(files, entries, b, dir, cutoff, i);
    }
}

/// What is placed under a directory is counted as it is placed.
pub proof fn lemma_children_count(files: Seq<PlacedView>, dir: Seq<Seq<u8>>, o: ObjectView)
    ensures
        children_of(files, dir).to_multiset().count(o) == files.to_multiset().count(
            PlacedView { parent: dir, object: o },
        ),
    decreases files.len(),
{
    broadcast use vstd::multiset::group_multiset_axioms;

    if files.len() == 0 {
        files.to_multiset_ensures();
        children_of(files, dir).to_multiset_ensures();
        assert(!files.contains(PlacedView { parent: dir, object: o }));
        assert(!children_of(files, dir).contains(o));
    } else {
        let init = files.drop_last();
        let p = files.last();
        lemma_children_count(init, dir, o);
        assert(init.push(p) =~= files);
        vstd::seq_lib::to_multiset_build(init, p);
        if p.parent == dir {
            vstd::seq_lib::to_multiset_build(children_of(init, dir), p.object);
        }
    }
}

/// What is placed under a directory is the same, each object as often,
/// whatever the order of the file objects.
pub proof fn lemma_children_any_order(a: Seq<PlacedView>, b: Seq<PlacedView>, dir: Seq<Seq<u8>>)
    requires
        a.to_multiset() == b.to_multiset(),
    ensures
        children_of(a, dir).to_multiset() == children_of(b, dir).to_multiset(),
{
    assert forall|o: ObjectView|
        children_of(a, dir).to_multiset().count(o) == children_of(b, dir).to_multiset().count(
            o,
        ) by {
        lemma_children_count(a, dir, o);
        lemma_children_count(b, dir, o);
    }
    assert(children_of(a, dir).to_multiset() =~= children_of(b, dir).to_multiset());
}

/// The trees below a directory are the same in two targets whose deeper
/// trees are the same.
pub proof fn lemma_sub_trees_same_below(
    files_a: Seq<PlacedView>,
    entries_a: Seq<FileEntryView>,
    files_b: Seq<PlacedView>,
    entries_b: Seq<FileEntryView>,
    es: Seq<FileEntryView>,
    dir: Seq<Seq<u8>>,
    cutoff: nat,
)
    requires
        forall|p: Seq<Seq<u8>>|
            p.len() == dir.len() + 1 ==> #[trigger] tree_of(files_a, entries_a, p, cutoff)
                == tree_of(files_b, entries_b, p, cutoff),
    ensures
        sub_trees(files_a, entries_a, es, dir, cutoff) == sub_trees(
            files_b,
            entries_b,
            es,
            dir,
            cutoff,
        ),
    decreases es.len(),
{
    if dir.len() < cutoff && es.len() > 0 {
        lemma_sub_trees_same_below(
            files_a,
            entries_a,
            files_b,
            entries_b,
            es.drop_last(),
            dir,
            cutoff,
        );
        let e = es.last();
        if e.path.len() == dir.len() + 1 {
            assert(tree_of(files_a, entries_a, e.path, cutoff) == tree_of(
                files_b,
                entries_b,
                e.path,
                cutoff,
            ));
        }
    }
}

/// The greatest depth is a depth of some entry, and no entry is deeper.
pub proof fn lemma_max_depth_is_reached(entries: Seq<FileEntryView>)
    ensures
        entries.len() > 0 ==> exists|i: int|
            0 <= i < entries.len() && (#[trigger] entries[i]).depth == max_depth_of(entries),
        entries.len() == 0 ==> max_depth_of(entries) == 0,
    decreases entries.len(),
{
    if entries.len() > 0 {
        let init = entries.drop_last();
        lemma_max_depth_is_reached(init);
        if entries.last().depth > max_depth_of(init) || init.len() == 0 {
            assert(entries[entries.len() - 1].depth == max_depth_of(entries));
        } else {
            let i = choose|i: int|
                0 <= i < init.len() && (#[trigger] init[i]).depth == max_depth_of(init);
            assert(entries[i] == init[i]);
        }
    }
}

/// The greatest depth does not depend on the order of the entries.
pub proof fn lemma_max_depth_any_order(a: Seq<FileEntryView>, b: Seq<FileEntryView>)
    requires
        a.to_multiset() == b.to_multiset(),
    ensures
        max_depth_of(a) == max_depth_of(b),
{
    a.to_multiset_ensures();
    b.to_multiset_ensures();
    lemma_max_depth_is_reached(a);
    lemma_max_depth_is_reached(b);
    if a.len() > 0 {
        let i = choose|i: int| 0 <= i < a.len() && (#[trigger] a[i]).depth == max_depth_of(a);
        assert(a.contains(a[i]));
        assert(a.to_multiset().count(a[i]) > 0);
        assert(b.contains(a[i]));
        let k = choose|k: int| 0 <= k < b.len() && b[k] == a[i];
        lemma_depth_bound(b, k);
        let j = choose|j: int| 0 <= j < b.len() && (#[trigger] b[j]).depth == max_depth_of(b);
        assert(b.contains(b[j]));
        assert(b.to_multiset().count(b[j]) > 0);
        assert(a.contains(b[j]));
        let l = choose|l: int| 0 <= l < a.len() && a[l] == b[j];
        lemma_depth_bound(a, l);
    }
}

/// Entries and file objects that fit together do so in any order.
pub proof fn lemma_consistent_any_order(
    files_a: Seq<PlacedView>,
    entries_a: Seq<FileEntryView>,
    files_b: Seq<PlacedView>,
    entries_b: Seq<FileEntryView>,
)
    requires
        consistent(files_a, entries_a),
        files_a.to_multiset() == files_b.to_multiset(),
        entries_a.to_multiset() == entries_b.to_multiset(),
    ensures
        consistent(files_b, entries_b),
{
    files_a.to_multiset_ensures();
    files_b.to_multiset_ensures();
    entries_a.to_multiset_ensures();
    entries_b.to_multiset_ensures();
    lemma_max_depth_any_order(entries_a, entries_b);
    assert forall|i: int|
        0 <= i < entries_b.len() && entries_b[i].mode == ObjectKind::Tree implies (
    #[trigger] entries_b[i]).depth == entries_b[i].path.len() by {
        assert(entries_b.contains(entries_b[i]));
        assert(entries_b.to_multiset().count(entries_b[i]) > 0);
        assert(entries_a.contains(entries_b[i]));
        let k = choose|k: int| 0 <= k < entries_a.len() && entries_a[k] == entries_b[i];
        assert(entries_a[k].depth == entries_a[k].path.len());
    }
    assert forall|i: int| 0 <= i < files_b.len() implies (#[trigger] files_b[i]).parent.len()
        < max_depth_of(entries_b) by {
        assert(files_b.contains(files_b[i]));
        assert(files_b.to_multiset().count(files_b[i]) > 0);
        assert(files_a.contains(files_b[i]));
        let k = choose|k: int| 0 <= k < files_a.len() && files_a[k] == files_b[i];
        assert(files_a[k].parent.len() < max_depth_of(entries_a));
    }
}

/// The tree of a directory is the same in two targets that hold the same
/// entries and file objects in another order, where no directory has two
/// entries of one name.
pub proof fn lemma_tree_any_order(
    files_a: Seq<PlacedView>,
    entries_a: Seq<FileEntryView>,
    files_b: Seq<PlacedView>,
    entries_b: Seq<FileEntryView>,
    dir: Seq<Seq<u8>>,
    cutoff: nat,
)
    requires
        files_a.to_multiset() == files_b.to_multiset(),
        entries_a.to_multiset() == entries_b.to_multiset(),
        forall|d: Seq<Seq<u8>>|
            distinct_names(#[trigger] dir_children(files_a, entries_a, d, cutoff)),
    ensures
        tree_of(files_a, entries_a, dir, cutoff) == tree_of(files_b, entries_b, dir, cutoff),
    decreases cutoff - dir.len(),
{
    broadcast use vstd::multiset::group_multiset_axioms;

    if dir.len() < cutoff {
        assert forall|p: Seq<Seq<u8>>| p.len() == dir.len() + 1 implies #[trigger] tree_of(
            files_a,
            entries_a,
            p,
            cutoff,
        ) == tree_of(files_b, entries_b, p, cutoff) by {
            lemma_tree_any_order(files_a, entries_a, files_b, entries_b, p, cutoff);
        }
        let subs_a = sub_trees(files_a, entries_a, entries_a, dir, cutoff);
        let subs_b = sub_trees(files_b, entries_b, entries_b, dir, cutoff);
        lemma_sub_trees_same_below(files_a, entries_a, files_b, entries_b, entries_b, dir, cutoff);
        lemma_sub_trees_any_order(files_a, entries_a, entries_a, entries_b, dir, cutoff);
        lemma_children_any_order(files_a, files_b, dir);
        let children_a = dir_children(files_a, entries_a, dir, cutoff);
        let children_b = dir_children(files_b, entries_b, dir, cutoff);
        vstd::seq_lib::lemma_multiset_commutative(children_of(files_a, dir), subs_a);
        vstd::seq_lib::lemma_multiset_commutative(children_of(files_b, dir), subs_b);
        assert(children_a.to_multiset() =~= children_b.to_multiset());
        assert(distinct_names(children_a));
        lemma_tree_id_ignores_order(children_a, children_b);
        crate::tree::lemma_distinct_names_of_same_members(children_a, children_b);
        lemma_children_of_concat(files_a, lifted(subs_a, dir), dir);
        lemma_children_of_lifted(subs_a, dir);
        lemma_children_of_concat(files_b, lifted(subs_b, dir), dir);
        lemma_children_of_lifted(subs_b, dir);
        assert(children_of(files_a + lifted(subs_a, dir), dir) == children_a);
        assert(children_of(files_b + lifted(subs_b, dir), dir) == children_b);
    }
}

/// Determinism.  A build gives the same root whatever the order in which the
/// target was enumerated: two targets that hold the same entries and the same
/// file objects, in any two orders, have the same root tree, where entries
/// and file objects fit together and no directory has two entries of one
/// name.
pub proof fn lemma_build_any_order(
    files_a: Seq<PlacedView>,
    entries_a: Seq<FileEntryView>,
    files_b: Seq<PlacedView>,
    entries_b: Seq<FileEntryView>,
)
    requires
        consistent(files_a, entries_a),
        files_a.to_multiset() == files_b.to_multiset(),
        entries_a.to_multiset() == entries_b.to_multiset(),
        forall|d: Seq<Seq<u8>>|
            distinct_names(
                #[trigger] dir_children(files_a, entries_a, d, max_depth_of(entries_a)),
            ),
    ensures
        match (build_writes(files_a, entries_a), build_writes(files_b, entries_b)) {
            (Some(a), Some(b)) => a.last() == b.last(),
            (None, None) => true,
            _ => false,
        },
{
    lemma_consistent_any_order(files_a, entries_a, files_b, entries_b);
    lemma_max_depth_any_order(entries_a, entries_b);
    lemma_build_is_merkle(files_a, entries_a);
    lemma_build_is_merkle(files_b, entries_b);
    lemma_tree_any_order(
        files_a,
        entries_a,
        files_b,
        entries_b,
        Seq::empty(),
        max_depth_of(entries_a),
    );
    let m = max_depth_of(entries_a);
    if m > 0 {
        // with depth, a build has a root exactly where the root has a tree
        assert(build_writes(files_a, entries_a) is Some <==> tree_of(
            files_a,
            entries_a,
            Seq::empty(),
            m,
        ) is Some) by {
            lemma_root_exists(files_a, entries_a);
        }
        assert(build_writes(files_b, entries_b) is Some <==> tree_of(
            files_b,
            entries_b,
            Seq::empty(),
            m,
        ) is Some) by {
            lemma_root_exists(files_b, entries_b);
        }
    }
}

/// A build has a root where the root directory has a tree.
pub proof fn lemma_root_exists(files: Seq<PlacedView>, entries: Seq<FileEntryView>)
    requires
        consistent(files, entries),
        max_depth_of(entries) > 0,
    ensures
        build_writes(files, entries) is Some <==> tree_of(
            files,
            entries,
            Seq::empty(),
            max_depth_of(entries),
        ) is Some,
{
    lemma_build_is_merkle(files, entries);
}

} // verus!

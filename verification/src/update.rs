//! Partial update: a subtree has changed, and the trees above it are
//! rewritten to name it by its new id.

use vstd::prelude::*;

use crate::builder::{children_of, max_depth_of, tree_write, FileEntryView, PlacedView};
use crate::data::{Object, ObjectID, ObjectKind, ObjectView};
use crate::merkle::{
    all_files, consistent, dir_children, id_of, lemma_children_of_concat,
    lemma_children_of_lifted, lemma_cutoff_sub_trees, lemma_cutoff_tree, lemma_depth_bound,
    lemma_tree_write_by_children, lifted, sub_trees, tree_of,
};
use crate::path::{is_prefix, name_of, parent_of};
use crate::text::bytes_eq;
use crate::tree::{
    entry_lt, insert_position, lemma_insert_position, object_views, sorted_entries,
    tree_contents, tree_id, tree_payload,
};

verus! {

/// The entry `o` with the id `id`, if it is a tree whose name is the single
/// component `name`; else `o` itself.
pub open spec fn renamed(o: ObjectView, name: Seq<u8>, id: u64) -> ObjectView {
    if o.kind == ObjectKind::Tree && o.basename == seq![name] {
        ObjectView { kind: o.kind, id, basename: o.basename }
    } else {
        o
    }
}

/// The entries with the id `id` in the place of the id of every entry named
/// `name`.
pub open spec fn substituted(entries: Seq<ObjectView>, name: Seq<u8>, id: u64) -> Seq<
    ObjectView,
> {
    Seq::new(entries.len(), |i: int| renamed(entries[i], name, id))
}

/// A tree among the entries has the name `name`.
pub open spec fn has_child(entries: Seq<ObjectView>, name: Seq<u8>) -> bool {
    exists|i: int|
        0 <= i < entries.len() && (#[trigger] entries[i]).kind == ObjectKind::Tree
            && entries[i].basename == seq![name]
}

/// Puts the id `id` in the place of the id of the tree named `name`.
/// `None` says that no tree has that name.
pub fn substitute_child(entries: &Vec<Object>, name: &[u8], id: ObjectID) -> (r: Option<
    Vec<Object>,
>)
    ensures
        match r {
            Some(out) => has_child(object_views(entries@), name@) && object_views(out@)
                == substituted(object_views(entries@), name@, id.0.xxh3),
            None => !has_child(object_views(entries@), name@),
        },
{
    let mut out: Vec<Object> = Vec::new();
    let mut found = false;
    let mut i: usize = 0;
    let ghost all = object_views(entries@);
    assert(object_views(out@) =~= substituted(all, name@, id.0.xxh3).take(0));
    while i < entries.len()
        invariant
            i <= entries.len(),
            all == object_views(entries@),
            object_views(out@) == substituted(all, name@, id.0.xxh3).take(i as int),
            found == has_child(all.take(i as int), name@),
        decreases entries.len() - i,
    {
        let ghost had = object_views(out@);
        let o = &entries[i];
        let is_named = o.is_tree() && o.basename.depth() == 1 && match o.basename.file_name() {
            Some(n) => bytes_eq(n.as_slice(), name),
            None => false,
        };
        proof {
            assert(all[i as int] == o@);
            if o@.basename.len() == 1 {
                assert(o@.basename =~= seq![o@.basename.last()]);
            }
            assert(is_named == (o@.kind == ObjectKind::Tree && o@.basename == seq![name@]));
        }
        let entry = if is_named {
            Object::with_basename(o.kind, id, o.basename.clone())
        } else {
            o.clone()
        };
        assert(entry@ == renamed(o@, name@, id.0.xxh3));
        out.push(entry);
        assert(object_views(out@) =~= had.push(entry@));
        proof {
            let before = all.take(i as int);
            let after = all.take(i + 1);
            if has_child(before, name@) {
                let k = choose|k: int|
                    0 <= k < before.len() && (#[trigger] before[k]).kind == ObjectKind::Tree
                        && before[k].basename == seq![name@];
                assert(after[k] == before[k]);
            }
            if is_named {
                assert(after[i as int].kind == ObjectKind::Tree && after[i as int].basename == seq![
                    name@,
                ]);
            }
            if has_child(after, name@) && !is_named {
                let k = choose|k: int|
                    0 <= k < after.len() && (#[trigger] after[k]).kind == ObjectKind::Tree
                        && after[k].basename == seq![name@];
                assert(before[k] == after[k]);
            }
        }
        found = found || is_named;
        i = i + 1;
        assert(object_views(out@) =~= substituted(all, name@, id.0.xxh3).take(i as int));
    }
    assert(all.take(entries.len() as int) =~= all);
    assert(substituted(all, name@, id.0.xxh3).take(entries.len() as int) =~= substituted(
        all,
        name@,
        id.0.xxh3,
    ));
    if found {
        Some(out)
    } else {
        None
    }
}

/// Where an entry goes in a sorted list does not depend on ids.
pub proof fn lemma_insert_position_substituted(s: Seq<ObjectView>, x: ObjectView, name: Seq<u8>, id: u64)
    ensures
        insert_position(substituted(s, name, id), renamed(x, name, id)) == insert_position(s, x),
    decreases s.len(),
{
    let t = substituted(s, name, id);
    if s.len() > 0 {
        assert(t.last() == renamed(s.last(), name, id));
        assert(t.drop_last() =~= substituted(s.drop_last(), name, id));
        lemma_insert_position_substituted(s.drop_last(), x, name, id);
    }
}

/// Sorting and substituting may change places: the order of entries depends
/// on their names alone.
pub proof fn lemma_sorted_substituted(entries: Seq<ObjectView>, name: Seq<u8>, id: u64)
    ensures
        sorted_entries(substituted(entries, name, id)) == substituted(
            sorted_entries(entries),
            name,
            id,
        ),
    decreases entries.len(),
{
    let t = substituted(entries, name, id);
    if entries.len() == 0 {
        assert(sorted_entries(t) =~= substituted(sorted_entries(entries), name, id));
    } else {
        let init = entries.drop_last();
        let x = entries.last();
        lemma_sorted_substituted(init, name, id);
        assert(t.drop_last() =~= substituted(init, name, id));
        assert(t.last() == renamed(x, name, id));
        let sorted = sorted_entries(init);
        lemma_insert_position_substituted(sorted, x, name, id);
        lemma_insert_position(sorted, x);
        lemma_insert_position(substituted(sorted, name, id), renamed(x, name, id));
        let at = insert_position(sorted, x);
        assert(substituted(sorted, name, id).insert(at, renamed(x, name, id)) =~= substituted(
            sorted.insert(at, x),
            name,
            id,
        ));
    }
}

/// The tree of a directory after one of its children has changed: the old
/// entries, read from the old tree in their order, with the new id of the
/// child, are the payload of the new tree as they stand.  Rewriting a tree
/// gives the tree that a build of the changed directory gives.
pub proof fn lemma_rewrite_is_rebuild(children: Seq<ObjectView>, name: Seq<u8>, id: u64)
    ensures
        tree_payload(substituted(children, name, id)) == crate::tree::serialize(
            substituted(sorted_entries(children), name, id),
        ),
        tree_payload(substituted(sorted_entries(children), name, id)) == tree_payload(
            substituted(children, name, id),
        ),
{
    lemma_sorted_substituted(children, name, id);
    lemma_sorted_substituted(sorted_entries(children), name, id);
    crate::tree::lemma_sorted_entries_is_sorted(children);
    lemma_sorted_of_sorted(sorted_entries(children));
}

/// Sorting a sorted list changes nothing.
pub proof fn lemma_sorted_of_sorted(s: Seq<ObjectView>)
    requires
        crate::tree::is_sorted(s),
    ensures
        sorted_entries(s) == s,
    decreases s.len(),
{
    if s.len() > 0 {
        let init = s.drop_last();
        assert forall|i: int, j: int| 0 <= i < j < init.len() implies !entry_lt(init[j], init[i]) by {
            assert(init[i] == s[i] && init[j] == s[j]);
        }
        lemma_sorted_of_sorted(init);
        if init.len() > 0 {
            assert(!entry_lt(s[s.len() - 1], s[s.len() - 2]));
            assert(init.last() == s[s.len() - 2]);
        }
        assert(init.push(s.last()) =~= s);
    }
}

/// The id of the tree at the depth `k` on the way down to a changed
/// subtree, after the rewriting.  `ancestors` holds the entries of the old
/// trees on the way, the root first; `names` the components of the path of
/// the subtree; `id` is the new id of the subtree, which stands at the depth
/// behind the last tree.  Each tree above it is its old entries with the new
/// id of the child that leads on.
pub open spec fn rewritten_at(
    ancestors: Seq<Seq<ObjectView>>,
    names: Seq<Seq<u8>>,
    id: u64,
    k: int,
) -> u64
    decreases ancestors.len() - k,
{
    if k < 0 || k >= ancestors.len() {
        id
    } else {
        tree_id(substituted(ancestors[k], names[k], rewritten_at(ancestors, names, id, k + 1)))
    }
}

/// The id of the root after the rewriting.
pub open spec fn rewritten(ancestors: Seq<Seq<ObjectView>>, names: Seq<Seq<u8>>, id: u64) -> u64 {
    rewritten_at(ancestors, names, id, 0)
}

pub open spec fn tree_views(trees: Seq<Vec<Object>>) -> Seq<Seq<ObjectView>> {
    Seq::new(trees.len(), |i: int| object_views(trees[i]@))
}

/// Rewrites the trees above a changed subtree, from its parent up to the
/// root.  Returns the rewritten trees, the deepest first and the root last,
/// each with its new id and payload; `None` where the trees and the names
/// do not fit in number, or a tree has no tree among its entries of the name
/// that leads on.
pub fn rewrite_ancestors(ancestors: &Vec<Vec<Object>>, names: &Vec<Vec<u8>>, id: ObjectID) -> (r:
    Option<Vec<(ObjectID, Vec<u8>)>>)
    ensures
        match r {
            Some(writes) => {
                &&& names.len() == ancestors.len()
                &&& writes.len() == ancestors.len()
                &&& forall|k: int|
                    0 <= k < ancestors.len() ==> has_child(
                        #[trigger] tree_views(ancestors@)[k],
                        crate::text::views(names@)[k],
                    )
                &&& forall|j: int|
                    0 <= j < writes.len() ==> (#[trigger] writes[j]).0.0.xxh3 == rewritten_at(
                        tree_views(ancestors@),
                        crate::text::views(names@),
                        id.0.xxh3,
                        ancestors.len() - 1 - j,
                    ) && writes[j].1@ == tree_payload(
                        substituted(
                            tree_views(ancestors@)[ancestors.len() - 1 - j],
                            crate::text::views(names@)[ancestors.len() - 1 - j],
                            rewritten_at(
                                tree_views(ancestors@),
                                crate::text::views(names@),
                                id.0.xxh3,
                                ancestors.len() - j,
                            ),
                        ),
                    )
            },
            None => names.len() != ancestors.len() || exists|k: int|
                0 <= k < ancestors.len() && !has_child(
                    #[trigger] tree_views(ancestors@)[k],
                    crate::text::views(names@)[k],
                ),
        },
{
    if names.len() != ancestors.len() {
        return None;
    }
    let ghost trees = tree_views(ancestors@);
    let ghost path = crate::text::views(names@);
    let n = ancestors.len();
    let mut writes: Vec<(ObjectID, Vec<u8>)> = Vec::new();
    let mut current = id;
    let mut k: usize = n;
    while k > 0
        invariant
            k <= n == ancestors.len() == names.len(),
            trees == tree_views(ancestors@),
            path == crate::text::views(names@),
            writes.len() == n - k,
            current.0.xxh3 == rewritten_at(trees, path, id.0.xxh3, k as int),
            forall|i: int| k <= i < n ==> has_child(#[trigger] trees[i], path[i]),
            forall|j: int|
                0 <= j < writes.len() ==> (#[trigger] writes[j]).0.0.xxh3 == rewritten_at(
                    trees,
                    path,
                    id.0.xxh3,
                    n - 1 - j,
                ) && writes[j].1@ == tree_payload(
                    substituted(
                        trees[n - 1 - j],
                        path[n - 1 - j],
                        rewritten_at(trees, path, id.0.xxh3, n - j),
                    ),
                ),
        decreases k,
    {
        k = k - 1;
        assert(trees[k as int] == object_views(ancestors[k as int]@));
        assert(path[k as int] == names[k as int]@);
        match substitute_child(&ancestors[k], names[k].as_slice(), current) {
            None => {
                assert(!has_child(trees[k as int], path[k as int]));
                return None;
            },
            Some(entries) => {
                let (new_id, payload) = tree_contents(&entries);
                writes.push((new_id, payload));
                current = new_id;
            },
        }
    }
    Some(writes)
}

/// The file objects that do not lie in the subtree at `target`.
pub open spec fn outside_files(files: Seq<PlacedView>, target: Seq<Seq<u8>>) -> Seq<PlacedView>
    decreases files.len(),
{
    if files.len() == 0 {
        Seq::empty()
    } else if is_prefix(target, files.last().parent) {
        outside_files(files.drop_last(), target)
    } else {
        outside_files(files.drop_last(), target).push(files.last())
    }
}

/// The entries that do not lie below `target`; the entry of `target` itself
/// is one of them.
pub open spec fn outside_entries(entries: Seq<FileEntryView>, target: Seq<Seq<u8>>) -> Seq<
    FileEntryView,
>
    decreases entries.len(),
{
    if entries.len() == 0 {
        Seq::empty()
    } else if is_prefix(target, entries.last().path) && entries.last().path.len() > target.len() {
        outside_entries(entries.drop_last(), target)
    } else {
        outside_entries(entries.drop_last(), target).push(entries.last())
    }
}

/// What is placed under a directory outside the subtree is placed there
/// whatever the subtree holds.
pub proof fn lemma_children_outside(files: Seq<PlacedView>, target: Seq<Seq<u8>>, dir: Seq<Seq<u8>>)
    requires
        !is_prefix(target, dir),
    ensures
        children_of(files, dir) == children_of(outside_files(files, target), dir),
    decreases files.len(),
{
    if files.len() > 0 {
        lemma_children_outside(files.drop_last(), target, dir);
        if !is_prefix(target, files.last().parent) {
            assert(outside_files(files, target).drop_last() =~= outside_files(
                files.drop_last(),
                target,
            ));
        }
    }
}

/// What a directory has of its child in the new target, given what it had
/// in the old: `g` of the old entry, or nothing in both.
pub open spec fn related(
    old: Option<crate::builder::TreeWriteView>,
    new: Option<crate::builder::TreeWriteView>,
    g: spec_fn(ObjectView) -> ObjectView,
) -> bool {
    match (old, new) {
        (Some(w), Some(v)) => v.placed.object == g(w.placed.object),
        (None, None) => true,
        _ => false,
    }
}

/// The trees directly below a directory outside the subtree, in the new
/// target, from those in the old: tree by tree.
pub proof fn lemma_sub_trees_related(
    old_files: Seq<PlacedView>,
    old_entries: Seq<FileEntryView>,
    new_files: Seq<PlacedView>,
    new_entries: Seq<FileEntryView>,
    old_es: Seq<FileEntryView>,
    new_es: Seq<FileEntryView>,
    target: Seq<Seq<u8>>,
    dir: Seq<Seq<u8>>,
    cutoff: nat,
    g: spec_fn(ObjectView) -> ObjectView,
)
    requires
        outside_entries(old_es, target) == outside_entries(new_es, target),
        !is_prefix(target, dir),
        dir.len() < cutoff,
        forall|p: Seq<Seq<u8>>|
            p.len() == dir.len() + 1 && parent_of(p) == dir ==> related(
                #[trigger] tree_of(old_files, old_entries, p, cutoff),
                tree_of(new_files, new_entries, p, cutoff),
                g,
            ),
    ensures
        sub_trees(new_files, new_entries, new_es, dir, cutoff) == Seq::new(
            sub_trees(old_files, old_entries, old_es, dir, cutoff).len(),
            |i: int| g(sub_trees(old_files, old_entries, old_es, dir, cutoff)[i]),
        ),
    decreases old_es.len() + new_es.len(),
{
    let old_subs = sub_trees(old_files, old_entries, old_es, dir, cutoff);
    let new_subs = sub_trees(new_files, new_entries, new_es, dir, cutoff);
    if old_es.len() > 0 && is_prefix(target, old_es.last().path) && old_es.last().path.len()
        > target.len() {
        // the last old entry lies below the target, so not directly below `dir`
        let e = old_es.last();
        lemma_sub_trees_related(
            old_files,
            old_entries,
            new_files,
            new_entries,
            old_es.drop_last(),
            new_es,
            target,
            dir,
            cutoff,
            g,
        );
        if e.path.len() == dir.len() + 1 && parent_of(e.path) == dir {
            lemma_prefix_of_parent(target, e.path);
        }
    } else if new_es.len() > 0 && is_prefix(target, new_es.last().path) && new_es.last().path.len()
        > target.len() {
        let e = new_es.last();
        lemma_sub_trees_related(
            old_files,
            old_entries,
            new_files,
            new_entries,
            old_es,
            new_es.drop_last(),
            target,
            dir,
            cutoff,
            g,
        );
        if e.path.len() == dir.len() + 1 && parent_of(e.path) == dir {
            lemma_prefix_of_parent(target, e.path);
        }
    } else if old_es.len() > 0 && new_es.len() > 0 {
        // both last entries lie outside, and are the same entry
        let e = old_es.last();
        assert(outside_entries(old_es, target).last() == e);
        assert(outside_entries(new_es, target).last() == new_es.last());
        assert(outside_entries(old_es, target).drop_last() =~= outside_entries(
            old_es.drop_last(),
            target,
        ));
        assert(outside_entries(new_es, target).drop_last() =~= outside_entries(
            new_es.drop_last(),
            target,
        ));
        lemma_sub_trees_related(
            old_files,
            old_entries,
            new_files,
            new_entries,
            old_es.drop_last(),
            new_es.drop_last(),
            target,
            dir,
            cutoff,
            g,
        );
        let before = sub_trees(old_files, old_entries, old_es.drop_last(), dir, cutoff);
        if e.mode == ObjectKind::Tree && e.path.len() == dir.len() + 1 && parent_of(e.path) == dir {
            assert(related(
                tree_of(old_files, old_entries, e.path, cutoff),
                tree_of(new_files, new_entries, e.path, cutoff),
                g,
            ));
        }
        assert(new_subs =~= Seq::new(old_subs.len(), |i: int| g(old_subs[i])));
    } else if old_es.len() > 0 {
        assert(outside_entries(old_es, target).len() > 0);
        assert(outside_entries(new_es, target).len() == 0);
    } else if new_es.len() > 0 {
        assert(outside_entries(new_es, target).len() > 0);
        assert(outside_entries(old_es, target).len() == 0);
    } else {
        assert(new_subs =~= Seq::new(old_subs.len(), |i: int| g(old_subs[i])));
    }
}

/// A directory beside the subtree has its children beside the subtree.
pub proof fn lemma_unrelated_child(target: Seq<Seq<u8>>, dir: Seq<Seq<u8>>, path: Seq<Seq<u8>>)
    requires
        !is_prefix(target, dir),
        !is_prefix(dir, target),
        path.len() == dir.len() + 1,
        parent_of(path) == dir,
    ensures
        !is_prefix(target, path),
        !is_prefix(path, target),
{
    if is_prefix(target, path) {
        if target.len() <= dir.len() {
            assert(dir.take(target.len() as int) =~= path.take(target.len() as int));
        } else {
            assert(path.take(path.len() as int) =~= path);
            assert(target.take(dir.len() as int) =~= dir);
        }
    }
    if is_prefix(path, target) {
        assert(target.take(dir.len() as int) =~= target.take(path.len() as int).take(
            dir.len() as int,
        ));
        assert(path.take(dir.len() as int) =~= dir);
    }
}

/// The tree of a directory beside the subtree is the same before and after
/// a change that is confined to the subtree.
pub proof fn lemma_local_tree(
    old_files: Seq<PlacedView>,
    old_entries: Seq<FileEntryView>,
    new_files: Seq<PlacedView>,
    new_entries: Seq<FileEntryView>,
    target: Seq<Seq<u8>>,
    dir: Seq<Seq<u8>>,
    cutoff: nat,
)
    requires
        outside_files(old_files, target) == outside_files(new_files, target),
        outside_entries(old_entries, target) == outside_entries(new_entries, target),
        !is_prefix(target, dir),
        !is_prefix(dir, target),
    ensures
        tree_of(old_files, old_entries, dir, cutoff) == tree_of(
            new_files,
            new_entries,
            dir,
            cutoff,
        ),
    decreases cutoff - dir.len(),
{
    if dir.len() < cutoff {
        let same = |o: ObjectView| o;
        assert forall|p: Seq<Seq<u8>>| p.len() == dir.len() + 1 && parent_of(p) == dir implies related(
            #[trigger] tree_of(old_files, old_entries, p, cutoff),
            tree_of(new_files, new_entries, p, cutoff),
            same,
        ) by {
            lemma_unrelated_child(target, dir, p);
            lemma_local_tree(old_files, old_entries, new_files, new_entries, target, p, cutoff);
        }
        lemma_sub_trees_related(
            old_files,
            old_entries,
            new_files,
            new_entries,
            old_entries,
            new_entries,
            target,
            dir,
            cutoff,
            same,
        );
        let old_subs = sub_trees(old_files, old_entries, old_entries, dir, cutoff);
        let new_subs = sub_trees(new_files, new_entries, new_entries, dir, cutoff);
        assert(new_subs =~= old_subs);
        lemma_children_outside(old_files, target, dir);
        lemma_children_outside(new_files, target, dir);
        lemma_children_of_concat(old_files, lifted(old_subs, dir), dir);
        lemma_children_of_concat(new_files, lifted(new_subs, dir), dir);
        lemma_tree_write_by_children(
            old_files + lifted(old_subs, dir),
            new_files + lifted(new_subs, dir),
            dir,
        );
    }
}

/// What is placed under a directory is a file object, where all that is
/// placed is.
pub proof fn lemma_children_are_files(files: Seq<PlacedView>, dir: Seq<Seq<u8>>)
    requires
        all_files(files),
    ensures
        forall|i: int|
            0 <= i < children_of(files, dir).len() ==> (#[trigger] children_of(files, dir)[i]).kind
                == ObjectKind::File,
    decreases files.len(),
{
    if files.len() > 0 {
        assert forall|i: int| 0 <= i < files.drop_last().len() implies (
        #[trigger] files.drop_last()[i]).object.kind == ObjectKind::File by {
            assert(files.drop_last()[i] == files[i]);
        }
        lemma_children_are_files(files.drop_last(), dir);
        assert(files[files.len() - 1].object.kind == ObjectKind::File);
    }
}

/// One step up: the tree of a directory above the subtree, after the change,
/// is the tree of its old entries with the new id of the child that leads to
/// the subtree.
pub proof fn lemma_ancestor_tree(
    old_files: Seq<PlacedView>,
    old_entries: Seq<FileEntryView>,
    new_files: Seq<PlacedView>,
    new_entries: Seq<FileEntryView>,
    target: Seq<Seq<u8>>,
    k: int,
    cutoff: nat,
)
    requires
        all_files(old_files),
        all_files(new_files),
        outside_files(old_files, target) == outside_files(new_files, target),
        outside_entries(old_entries, target) == outside_entries(new_entries, target),
        0 <= k < target.len(),
        target.len() < cutoff,
        tree_of(old_files, old_entries, target.take(k + 1), cutoff) is Some,
        tree_of(new_files, new_entries, target.take(k + 1), cutoff) is Some,
    ensures
        dir_children(new_files, new_entries, target.take(k), cutoff) == substituted(
            dir_children(old_files, old_entries, target.take(k), cutoff),
            target[k],
            id_of(tree_of(new_files, new_entries, target.take(k + 1), cutoff)),
        ),
        tree_of(new_files, new_entries, target.take(k), cutoff) == tree_write(
            lifted(
                substituted(
                    dir_children(old_files, old_entries, target.take(k), cutoff),
                    target[k],
                    id_of(tree_of(new_files, new_entries, target.take(k + 1), cutoff)),
                ),
                target.take(k),
            ),
            target.take(k),
        ),
{
    let dir = target.take(k);
    let child = target.take(k + 1);
    let name = target[k];
    let id = id_of(tree_of(new_files, new_entries, child, cutoff));
    let g = |o: ObjectView| renamed(o, name, id);
    assert(child.drop_last() =~= dir);
    assert(child.last() == name);
    assert forall|p: Seq<Seq<u8>>| p.len() == dir.len() + 1 && parent_of(p) == dir implies related(
        #[trigger] tree_of(old_files, old_entries, p, cutoff),
        tree_of(new_files, new_entries, p, cutoff),
        g,
    ) by {
        if p == child {
            assert(name_of(p) == seq![name]);
        } else {
            // a sibling of the child on the way lies beside the subtree
            assert(p.last() != name) by {
                if p.last() == name {
                    assert(p =~= p.drop_last().push(p.last()));
                    assert(child =~= child.drop_last().push(child.last()));
                }
            }
            assert(!is_prefix(target, p)) by {
                if is_prefix(target, p) {
                    assert(target.len() == k + 1);
                    assert(target.take(k + 1) =~= target);
                    assert(p.take(k + 1) =~= p);
                }
            }
            assert(!is_prefix(p, target)) by {
                if is_prefix(p, target) {
                    assert(target.take(k + 1) == p);
                }
            }
            lemma_local_tree(old_files, old_entries, new_files, new_entries, target, p, cutoff);
            match tree_of(old_files, old_entries, p, cutoff) {
                Some(w) => {
                    assert(w.placed.object.basename == name_of(p));
                    assert(name_of(p)[0] == p.last());
                    assert(seq![name][0] == name);
                },
                None => {},
            }
        }
    }
    assert(!is_prefix(target, dir)) by {
        if is_prefix(target, dir) {
            assert(target.len() <= k);
        }
    }
    lemma_sub_trees_related(
        old_files,
        old_entries,
        new_files,
        new_entries,
        old_entries,
        new_entries,
        target,
        dir,
        cutoff,
        g,
    );
    lemma_children_outside(old_files, target, dir);
    lemma_children_outside(new_files, target, dir);
    lemma_children_are_files(old_files, dir);
    let old_subs = sub_trees(old_files, old_entries, old_entries, dir, cutoff);
    let new_subs = sub_trees(new_files, new_entries, new_entries, dir, cutoff);
    let old_children = dir_children(old_files, old_entries, dir, cutoff);
    let new_children = dir_children(new_files, new_entries, dir, cutoff);
    assert(new_children =~= substituted(old_children, name, id)) by {
        assert forall|i: int| 0 <= i < new_children.len() implies new_children[i] == renamed(
            old_children[i],
            name,
            id,
        ) by {
            if i < children_of(old_files, dir).len() {
                assert(old_children[i] == children_of(old_files, dir)[i]);
                assert(children_of(old_files, dir)[i].kind == ObjectKind::File);
            } else {
                assert(old_children[i] == old_subs[i - children_of(old_files, dir).len()]);
            }
        }
    }
    lemma_children_of_concat(new_files, lifted(new_subs, dir), dir);
    lemma_children_of_lifted(new_subs, dir);
    lemma_children_of_lifted(substituted(old_children, name, id), dir);
    lemma_tree_write_by_children(
        new_files + lifted(new_subs, dir),
        lifted(substituted(old_children, name, id), dir),
        dir,
    );
}

/// The entries of the trees on the way down to `path`, the root first, each
/// tree as it is written: its entries in ascending order of their names.
pub open spec fn ancestors_of(
    files: Seq<PlacedView>,
    entries: Seq<FileEntryView>,
    path: Seq<Seq<u8>>,
    cutoff: nat,
) -> Seq<Seq<ObjectView>> {
    Seq::new(
        path.len(),
        |k: int| sorted_entries(dir_children(files, entries, path.take(k), cutoff)),
    )
}

/// The rewritten tree at every depth on the way is the tree of its
/// directory in the changed target.
pub proof fn lemma_rewrite_up(
    old_files: Seq<PlacedView>,
    old_entries: Seq<FileEntryView>,
    new_files: Seq<PlacedView>,
    new_entries: Seq<FileEntryView>,
    target: Seq<Seq<u8>>,
    j: int,
    cutoff: nat,
)
    requires
        all_files(old_files),
        all_files(new_files),
        outside_files(old_files, target) == outside_files(new_files, target),
        outside_entries(old_entries, target) == outside_entries(new_entries, target),
        0 <= j <= target.len(),
        target.len() < cutoff,
        forall|k: int|
            0 <= k <= target.len() ==> (#[trigger] tree_of(
                old_files,
                old_entries,
                target.take(k),
                cutoff,
            )) is Some && tree_of(new_files, new_entries, target.take(k), cutoff) is Some,
    ensures
        rewritten_at(
            ancestors_of(old_files, old_entries, target, cutoff),
            target,
            id_of(tree_of(new_files, new_entries, target, cutoff)),
            j,
        ) == id_of(tree_of(new_files, new_entries, target.take(j), cutoff)),
    decreases target.len() - j,
{
    let ancestors = ancestors_of(old_files, old_entries, target, cutoff);
    if j == target.len() {
        assert(target.take(j) =~= target);
    } else {
        let dir = target.take(j);
        let children = dir_children(old_files, old_entries, dir, cutoff);
        lemma_rewrite_up(old_files, old_entries, new_files, new_entries, target, j + 1, cutoff);
        let id = id_of(tree_of(new_files, new_entries, target.take(j + 1), cutoff));
        assert(tree_of(old_files, old_entries, target.take(j + 1), cutoff) is Some);
        assert(tree_of(old_files, old_entries, target.take(j), cutoff) is Some);
        lemma_ancestor_tree(old_files, old_entries, new_files, new_entries, target, j, cutoff);
        lemma_rewrite_is_rebuild(children, target[j], id);
        lemma_children_of_lifted(substituted(children, target[j], id), dir);
        assert(ancestors[j] == sorted_entries(children));
        assert(tree_id(substituted(sorted_entries(children), target[j], id)) == id_of(
            tree_of(new_files, new_entries, dir, cutoff),
        ));
    }
}

/// The entries hold a directory entry for `path`.
pub open spec fn has_dir_entry(entries: Seq<FileEntryView>, path: Seq<Seq<u8>>) -> bool {
    exists|i: int|
        0 <= i < entries.len() && (#[trigger] entries[i]).mode == ObjectKind::Tree
            && entries[i].path == path
}

/// The way down is there to rewrite.  Where the entries hold the directory
/// one step further down the way to `target`, and that directory has a tree,
/// the tree of the directory before it, as it is written, has a tree of the
/// name that leads on: `rewrite_ancestors` finds every child it looks for.
pub proof fn lemma_way_down_has_child(
    files: Seq<PlacedView>,
    entries: Seq<FileEntryView>,
    target: Seq<Seq<u8>>,
    k: int,
)
    requires
        0 <= k < target.len(),
        has_dir_entry(entries, target.take(k + 1)),
        tree_of(files, entries, target.take(k + 1), max_depth_of(entries)) is Some,
    ensures
        has_child(ancestors_of(files, entries, target, max_depth_of(entries))[k], target[k]),
{
    broadcast use vstd::multiset::group_multiset_axioms;

    let m = max_depth_of(entries);
    let dir = target.take(k);
    let child = target.take(k + 1);
    assert(child.drop_last() =~= dir);
    assert(child.last() == target[k]);
    let i = choose|i: int|
        0 <= i < entries.len() && (#[trigger] entries[i]).mode == ObjectKind::Tree
            && entries[i].path == child;
    let w = tree_of(files, entries, child, m).unwrap();
    let o = w.placed.object;
    assert(o.kind == ObjectKind::Tree && o.basename =~= seq![target[k]]);
    // the tree of the child stands among the trees below the directory
    let subs = sub_trees(files, entries, entries, dir, m);
    crate::order::lemma_sub_trees_remove(files, entries, entries, dir, m, i);
    let added = crate::order::contributed(files, entries, entries[i], dir, m);
    assert(added =~= seq![o]);
    added.to_multiset_ensures();
    assert(added.contains(o)) by {
        assert(added[0] == o);
    }
    assert(subs.to_multiset().count(o) > 0);
    // and so among the entries of the directory, in whatever order
    let children = dir_children(files, entries, dir, m);
    vstd::seq_lib::lemma_multiset_commutative(children_of(files, dir), subs);
    assert(children.to_multiset().count(o) > 0);
    let written = sorted_entries(children);
    crate::tree::lemma_sorted_entries_multiset(children);
    written.to_multiset_ensures();
    assert(written.contains(o));
    let j = choose|j: int| 0 <= j < written.len() && written[j] == o;
    assert(written[j].kind == ObjectKind::Tree && written[j].basename == seq![target[k]]);
    assert(ancestors_of(files, entries, target, m)[k] == written);
}

/// Update equivalence.  Take a target, and a second target that differs
/// from it in the subtree at `target` only: outside that subtree both have
/// the same file objects and the same entries.  Let the subtree and every
/// directory above it have a tree in both.  Then rewriting the old trees on
/// the way down to the subtree, each with the new id of the child that leads
/// on, gives the id of the root of the second target: the id that a build of
/// the second target from nothing returns.
pub proof fn lemma_update_is_rebuild(
    old_files: Seq<PlacedView>,
    old_entries: Seq<FileEntryView>,
    new_files: Seq<PlacedView>,
    new_entries: Seq<FileEntryView>,
    target: Seq<Seq<u8>>,
)
    requires
        consistent(old_files, old_entries),
        consistent(new_files, new_entries),
        all_files(old_files),
        all_files(new_files),
        outside_files(old_files, target) == outside_files(new_files, target),
        outside_entries(old_entries, target) == outside_entries(new_entries, target),
        forall|k: int|
            0 <= k <= target.len() ==> (#[trigger] tree_of(
                old_files,
                old_entries,
                target.take(k),
                max_depth_of(old_entries),
            )) is Some && tree_of(
                new_files,
                new_entries,
                target.take(k),
                max_depth_of(new_entries),
            ) is Some,
    ensures
        rewritten(
            ancestors_of(old_files, old_entries, target, max_depth_of(old_entries)),
            target,
            id_of(tree_of(new_files, new_entries, target, max_depth_of(new_entries))),
        ) == id_of(
            tree_of(new_files, new_entries, Seq::empty(), max_depth_of(new_entries)),
        ),
{
    let m = max_depth_of(old_entries);
    let n = max_depth_of(new_entries);
    let cutoff = if m >= n {
        m
    } else {
        n
    };
    assert(target.take(target.len() as int) =~= target);
    assert(tree_of(old_files, old_entries, target.take(target.len() as int), m) is Some);
    assert(target.len() < m);
    assert forall|k: int| 0 <= k <= target.len() implies (#[trigger] tree_of(
        old_files,
        old_entries,
        target.take(k),
        cutoff,
    )) is Some && tree_of(new_files, new_entries, target.take(k), cutoff) is Some by {
        lemma_cutoff_tree(old_files, old_entries, target.take(k), cutoff);
        lemma_cutoff_tree(new_files, new_entries, target.take(k), cutoff);
        assert(tree_of(old_files, old_entries, target.take(k), m) is Some);
    }
    lemma_rewrite_up(old_files, old_entries, new_files, new_entries, target, 0, cutoff);
    assert(target.take(0) =~= Seq::<Seq<u8>>::empty());
    lemma_cutoff_tree(new_files, new_entries, target, cutoff);
    lemma_cutoff_tree(new_files, new_entries, Seq::empty(), cutoff);
    assert(ancestors_of(old_files, old_entries, target, cutoff) =~= ancestors_of(
        old_files,
        old_entries,
        target,
        m,
    )) by {
        assert forall|k: int| 0 <= k < target.len() implies dir_children(
            old_files,
            old_entries,
            target.take(k),
            cutoff,
        ) == dir_children(old_files, old_entries, target.take(k), m) by {
            assert forall|i: int| 0 <= i < old_entries.len() && old_entries[i].mode
                == ObjectKind::Tree implies (#[trigger] old_entries[i]).path.len() <= m by {
                lemma_depth_bound(old_entries, i);
            }
            lemma_cutoff_sub_trees(old_files, old_entries, old_entries, target.take(k), cutoff);
        }
    }
}

/// An update with an unchanged subtree changes nothing: rewriting the trees
/// on the way down with the id that the subtree has gives the root that the
/// target has.
pub proof fn lemma_update_unchanged(
    files: Seq<PlacedView>,
    entries: Seq<FileEntryView>,
    target: Seq<Seq<u8>>,
)
    requires
        consistent(files, entries),
        all_files(files),
        forall|k: int|
            0 <= k <= target.len() ==> (#[trigger] tree_of(
                files,
                entries,
                target.take(k),
                max_depth_of(entries),
            )) is Some,
    ensures
        rewritten(
            ancestors_of(files, entries, target, max_depth_of(entries)),
            target,
            id_of(tree_of(files, entries, target, max_depth_of(entries))),
        ) == id_of(tree_of(files, entries, Seq::empty(), max_depth_of(entries))),
{
    lemma_update_is_rebuild(files, entries, files, entries, target);
}

/// A path below the target has its parent in the subtree of the target.
pub proof fn lemma_prefix_of_parent(target: Seq<Seq<u8>>, path: Seq<Seq<u8>>)
    requires
        is_prefix(target, path),
        path.len() > target.len(),
    ensures
        is_prefix(target, parent_of(path)),
{
    assert(path.drop_last().take(target.len() as int) =~= path.take(target.len() as int));
}

} // verus!

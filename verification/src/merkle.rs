//! What a build computes: the Merkle tree of the target, directory by
//! directory.

use vstd::prelude::*;

use crate::builder::{
    build_writes, children_of, layer_writes, lemma_children_of_elsewhere, max_depth_of,
    placed_of, tree_write, writes_down_to, FileEntryView, PlacedView, TreeWriteView,
};
use crate::data::{ObjectKind, ObjectView};
use crate::path::parent_of;

verus! {

/// The tree objects of the directories directly below `dir`, among the
/// entries `es`, in their order: each is the tree of its directory.
pub open spec fn sub_trees(
    files: Seq<PlacedView>,
    entries: Seq<FileEntryView>,
    es: Seq<FileEntryView>,
    dir: Seq<Seq<u8>>,
    max_depth: nat,
) -> Seq<ObjectView>
    decreases max_depth - dir.len(), es.len(),
{
    if dir.len() >= max_depth || es.len() == 0 {
        Seq::empty()
    } else {
        let before = sub_trees(files, entries, es.drop_last(), dir, max_depth);
        let e = es.last();
        if e.mode == ObjectKind::Tree && e.path.len() == dir.len() + 1 && parent_of(e.path) == dir {
            match tree_of(files, entries, e.path, max_depth) {
                Some(w) => before.push(w.placed.object),
                None => before,
            }
        } else {
            before
        }
    }
}

/// The tree object of the directory `dir`: its entries are the file objects
/// placed under it and the trees of the directories directly below it; a
/// directory without entries has no tree object.  Nothing lies deeper than
/// `max_depth`.
pub open spec fn tree_of(
    files: Seq<PlacedView>,
    entries: Seq<FileEntryView>,
    dir: Seq<Seq<u8>>,
    max_depth: nat,
) -> Option<TreeWriteView>
    decreases max_depth - dir.len(), entries.len() + 1,
{
    if dir.len() >= max_depth {
        None
    } else {
        tree_write(
            files + lifted(sub_trees(files, entries, entries, dir, max_depth), dir),
            dir,
        )
    }
}

/// Objects placed under `dir`.
pub open spec fn lifted(objects: Seq<ObjectView>, dir: Seq<Seq<u8>>) -> Seq<PlacedView> {
    Seq::new(objects.len(), |i: int| PlacedView { parent: dir, object: objects[i] })
}

/// The entries of a directory: the file objects placed under it and the
/// trees of the directories directly below it.
pub open spec fn dir_children(
    files: Seq<PlacedView>,
    entries: Seq<FileEntryView>,
    dir: Seq<Seq<u8>>,
    cutoff: nat,
) -> Seq<ObjectView> {
    children_of(files, dir) + sub_trees(files, entries, entries, dir, cutoff)
}

/// The id that a tree has; of no tree, no id is meant.
pub open spec fn id_of(tree: Option<TreeWriteView>) -> u64 {
    match tree {
        Some(w) => w.placed.object.id,
        None => 0,
    }
}

/// A tree object as the store holds it: a tree with one entry at least,
/// whose payload is its entries in ascending order of their names, under the
/// id that is the hash of the payload.
pub open spec fn is_tree_object(w: TreeWriteView) -> bool {
    &&& w.placed.object.kind == ObjectKind::Tree
    &&& w.placed.object.id == crate::hash::xxh3_64(w.payload)
    &&& exists|children: Seq<ObjectView>|
        children.len() > 0 && w.payload == #[trigger] crate::tree::tree_payload(children)
}

/// What a directory is folded into is a tree object.
pub proof fn lemma_tree_write_is_tree_object(placed: Seq<PlacedView>, dir: Seq<Seq<u8>>)
    ensures
        tree_write(placed, dir) matches Some(w) ==> is_tree_object(w),
{
    let children = children_of(placed, dir);
    if children.len() > 0 {
        assert(tree_write(placed, dir).unwrap().payload == crate::tree::tree_payload(children));
    }
}

/// Every tree of a layer is a tree object.
pub proof fn lemma_layer_writes_are_tree_objects(
    placed: Seq<PlacedView>,
    entries: Seq<FileEntryView>,
    depth: nat,
)
    ensures
        forall|i: int|
            0 <= i < layer_writes(placed, entries, depth).len() ==> is_tree_object(
                #[trigger] layer_writes(placed, entries, depth)[i],
            ),
    decreases entries.len(),
{
    if entries.len() > 0 {
        lemma_layer_writes_are_tree_objects(placed, entries.drop_last(), depth);
        lemma_tree_write_is_tree_object(placed, entries.last().path);
        let before = layer_writes(placed, entries.drop_last(), depth);
        let layer = layer_writes(placed, entries, depth);
        assert forall|i: int| 0 <= i < layer.len() implies is_tree_object(#[trigger] layer[i]) by {
            if i < before.len() {
                assert(layer[i] == before[i]);
            }
        }
    }
}

/// Every tree of the layers down to a depth is a tree object.
pub proof fn lemma_writes_are_tree_objects(
    files: Seq<PlacedView>,
    entries: Seq<FileEntryView>,
    max_depth: nat,
    depth: nat,
)
    ensures
        forall|i: int|
            0 <= i < writes_down_to(files, entries, max_depth, depth).len() ==> is_tree_object(
                #[trigger] writes_down_to(files, entries, max_depth, depth)[i],
            ),
    decreases max_depth - depth,
{
    if depth < max_depth {
        lemma_writes_are_tree_objects(files, entries, max_depth, depth + 1);
        let deeper = writes_down_to(files, entries, max_depth, depth + 1);
        let layer = layer_writes(files + placed_of(deeper), entries, depth);
        lemma_layer_writes_are_tree_objects(files + placed_of(deeper), entries, depth);
        let all = writes_down_to(files, entries, max_depth, depth);
        assert forall|i: int| 0 <= i < all.len() implies is_tree_object(#[trigger] all[i]) by {
            if i < deeper.len() {
                assert(all[i] == deeper[i]);
            } else {
                assert(all[i] == layer[i - deeper.len()]);
            }
        }
    }
}

/// Content addressing.  Every object that a build hands out to be written
/// is a tree object: it has one entry at least, its entries stand in
/// ascending order of their names, and its id is the hash of its payload.
pub proof fn lemma_build_writes_tree_objects(files: Seq<PlacedView>, entries: Seq<FileEntryView>)
    ensures
        build_writes(files, entries) matches Some(ws) ==> ws.len() > 0 && forall|i: int|
            0 <= i < ws.len() ==> is_tree_object(#[trigger] ws[i]),
{
    let max_depth = max_depth_of(entries);
    if max_depth > 0 {
        lemma_writes_are_tree_objects(files, entries, max_depth, 1);
        let below = writes_down_to(files, entries, max_depth, 1);
        lemma_tree_write_is_tree_object(files + placed_of(below), Seq::empty());
        match build_writes(files, entries) {
            Some(ws) => {
                assert forall|i: int| 0 <= i < ws.len() implies is_tree_object(#[trigger] ws[i]) by {
                    if i < below.len() {
                        assert(ws[i] == below[i]);
                    }
                }
            },
            None => {},
        }
    }
}

/// The trees of the directory entries at the given depth, among the entries
/// `es`, in their order.
pub open spec fn tree_layer(
    files: Seq<PlacedView>,
    entries: Seq<FileEntryView>,
    es: Seq<FileEntryView>,
    depth: nat,
    max_depth: nat,
) -> Seq<TreeWriteView>
    decreases es.len(),
{
    if es.len() == 0 {
        Seq::empty()
    } else {
        let before = tree_layer(files, entries, es.drop_last(), depth, max_depth);
        let e = es.last();
        if e.mode == ObjectKind::Tree && e.depth == depth {
            match tree_of(files, entries, e.path, max_depth) {
                Some(w) => before.push(w),
                None => before,
            }
        } else {
            before
        }
    }
}

/// Entries and file objects that fit together: the depth of a directory
/// entry is the number of components of its path, and no file object lies
/// deeper than the deepest entry.
pub open spec fn consistent(files: Seq<PlacedView>, entries: Seq<FileEntryView>) -> bool {
    &&& forall|i: int|
        0 <= i < entries.len() && entries[i].mode == ObjectKind::Tree ==> (
        #[trigger] entries[i]).depth == entries[i].path.len()
    &&& forall|i: int| 0 <= i < files.len() ==> (#[trigger] files[i]).parent.len() < max_depth_of(entries)
}

/// Every placed object is a file object.
pub open spec fn all_files(files: Seq<PlacedView>) -> bool {
    forall|i: int| 0 <= i < files.len() ==> (#[trigger] files[i]).object.kind == ObjectKind::File
}

/// `p` is the file object of one of the entries.
pub open spec fn is_file_object_of(p: PlacedView, entries: Seq<FileEntryView>) -> bool {
    exists|i: int|
        0 <= i < entries.len() && #[trigger] crate::builder::file_placed(entries[i], p.object.id)
            == Some(p)
}

/// Entries with the depths of their paths, and the file objects of entries
/// among them, fit together.
pub proof fn lemma_file_objects_consistent(files: Seq<PlacedView>, entries: Seq<FileEntryView>)
    requires
        forall|i: int|
            0 <= i < entries.len() ==> (#[trigger] entries[i]).depth == entries[i].path.len(),
        forall|j: int| 0 <= j < files.len() ==> is_file_object_of(#[trigger] files[j], entries),
    ensures
        consistent(files, entries),
        all_files(files),
{
    assert forall|j: int| 0 <= j < files.len() implies (#[trigger] files[j]).object.kind
        == ObjectKind::File by {
        assert(is_file_object_of(files[j], entries));
    }
    assert forall|j: int| 0 <= j < files.len() implies (#[trigger] files[j]).parent.len()
        < max_depth_of(entries) by {
        let p = files[j];
        assert(is_file_object_of(p, entries));
        let i = choose|i: int|
            0 <= i < entries.len() && #[trigger] crate::builder::file_placed(
                entries[i],
                p.object.id,
            ) == Some(p);
        lemma_depth_bound(entries, i);
    }
}

/// What is placed under a directory in two lists is what is placed under
/// it in the first, then in the second.
pub proof fn lemma_children_of_concat(a: Seq<PlacedView>, b: Seq<PlacedView>, dir: Seq<Seq<u8>>)
    ensures
        children_of(a + b, dir) == children_of(a, dir) + children_of(b, dir),
    decreases b.len(),
{
    if b.len() == 0 {
        assert(a + b =~= a);
        assert(children_of(a, dir) + children_of(b, dir) =~= children_of(a, dir));
    } else {
        lemma_children_of_concat(a, b.drop_last(), dir);
        assert((a + b).drop_last() =~= a + b.drop_last());
        assert((a + b).last() == b.last());
        if b.last().parent == dir {
            assert(children_of(a, dir) + children_of(b.drop_last(), dir).push(b.last().object)
                =~= (children_of(a, dir) + children_of(b.drop_last(), dir)).push(
                b.last().object,
            ));
        }
    }
}

/// Objects placed under a directory are found under it, all of them.
pub proof fn lemma_children_of_lifted(objects: Seq<ObjectView>, dir: Seq<Seq<u8>>)
    ensures
        children_of(lifted(objects, dir), dir) == objects,
    decreases objects.len(),
{
    if objects.len() == 0 {
        assert(children_of(lifted(objects, dir), dir) =~= objects);
    } else {
        lemma_children_of_lifted(objects.drop_last(), dir);
        assert(lifted(objects, dir).drop_last() =~= lifted(objects.drop_last(), dir));
        assert(objects.drop_last().push(objects.last()) =~= objects);
    }
}

/// The tree of a directory depends on what is placed under it, and on
/// nothing else that is placed.
pub proof fn lemma_tree_write_by_children(a: Seq<PlacedView>, b: Seq<PlacedView>, dir: Seq<Seq<u8>>)
    requires
        children_of(a, dir) == children_of(b, dir),
    ensures
        tree_write(a, dir) == tree_write(b, dir),
{
}

/// Every tree of a layer lies under a directory one level above the layer.
pub proof fn lemma_tree_layer_parents(
    files: Seq<PlacedView>,
    entries: Seq<FileEntryView>,
    es: Seq<FileEntryView>,
    depth: nat,
    max_depth: nat,
)
    requires
        depth >= 1,
        forall|i: int|
            0 <= i < es.len() && es[i].mode == ObjectKind::Tree ==> (#[trigger] es[i]).depth
                == es[i].path.len(),
    ensures
        forall|i: int|
            0 <= i < tree_layer(files, entries, es, depth, max_depth).len() ==> (
            #[trigger] tree_layer(files, entries, es, depth, max_depth)[i]).placed.parent.len() + 1
                == depth,
    decreases es.len(),
{
    if es.len() > 0 {
        let init = es.drop_last();
        assert forall|i: int| 0 <= i < init.len() && init[i].mode == ObjectKind::Tree implies (
        #[trigger] init[i]).depth == init[i].path.len() by {
            assert(init[i] == es[i]);
        }
        lemma_tree_layer_parents(files, entries, init, depth, max_depth);
        let e = es.last();
        assert(e == es[es.len() - 1]);
        let layer = tree_layer(files, entries, es, depth, max_depth);
        let before = tree_layer(files, entries, init, depth, max_depth);
        assert forall|i: int| 0 <= i < layer.len() implies (#[trigger] layer[i]).placed.parent.len()
            + 1 == depth by {
            if i < before.len() {
                assert(layer[i] == before[i]);
            }
        }
    }
}

/// The trees of the layer below a directory that lie under it are the trees
/// of the directories directly below it.
pub proof fn lemma_layer_children(
    files: Seq<PlacedView>,
    entries: Seq<FileEntryView>,
    es: Seq<FileEntryView>,
    dir: Seq<Seq<u8>>,
    max_depth: nat,
)
    requires
        dir.len() < max_depth,
        forall|i: int|
            0 <= i < es.len() && es[i].mode == ObjectKind::Tree ==> (#[trigger] es[i]).depth
                == es[i].path.len(),
    ensures
        children_of(placed_of(tree_layer(files, entries, es, dir.len() + 1, max_depth)), dir)
            == sub_trees(files, entries, es, dir, max_depth),
    decreases es.len(),
{
    let depth = dir.len() + 1;
    let layer = tree_layer(files, entries, es, depth, max_depth);
    if es.len() == 0 {
        assert(placed_of(layer) =~= Seq::<PlacedView>::empty());
    } else {
        let init = es.drop_last();
        let e = es.last();
        assert(e == es[es.len() - 1]);
        assert forall|i: int| 0 <= i < init.len() && init[i].mode == ObjectKind::Tree implies (
        #[trigger] init[i]).depth == init[i].path.len() by {
            assert(init[i] == es[i]);
        }
        lemma_layer_children(files, entries, init, dir, max_depth);
        let before = tree_layer(files, entries, init, depth, max_depth);
        if e.mode == ObjectKind::Tree && e.depth == depth {
            match tree_of(files, entries, e.path, max_depth) {
                Some(w) => {
                    assert(layer == before.push(w));
                    assert(placed_of(layer) =~= placed_of(before).push(w.placed));
                    assert(placed_of(layer).drop_last() =~= placed_of(before));
                    assert(w.placed.parent == parent_of(e.path));
                },
                None => {},
            }
        }
    }
}

/// No entry is deeper than the greatest depth.
pub proof fn lemma_depth_bound(entries: Seq<FileEntryView>, i: int)
    requires
        0 <= i < entries.len(),
    ensures
        entries[i].depth <= max_depth_of(entries),
    decreases entries.len(),
{
    if i < entries.len() - 1 {
        lemma_depth_bound(entries.drop_last(), i);
    }
}

/// The trees below a directory do not depend on how deep the model is
/// allowed to look, once it looks as deep as the entries go.
pub proof fn lemma_cutoff_sub_trees(
    files: Seq<PlacedView>,
    entries: Seq<FileEntryView>,
    es: Seq<FileEntryView>,
    dir: Seq<Seq<u8>>,
    cutoff: nat,
)
    requires
        consistent(files, entries),
        cutoff >= max_depth_of(entries),
        forall|i: int|
            0 <= i < es.len() && es[i].mode == ObjectKind::Tree ==> (#[trigger] es[i]).path.len()
                <= max_depth_of(entries),
    ensures
        sub_trees(files, entries, es, dir, cutoff) == sub_trees(
            files,
            entries,
            es,
            dir,
            max_depth_of(entries),
        ),
    decreases cutoff - dir.len(), es.len(),
{
    let m = max_depth_of(entries);
    if dir.len() < cutoff && es.len() > 0 {
        let init = es.drop_last();
        let e = es.last();
        assert(e == es[es.len() - 1]);
        assert forall|i: int| 0 <= i < init.len() && init[i].mode == ObjectKind::Tree implies (
        #[trigger] init[i]).path.len() <= m by {
            assert(init[i] == es[i]);
        }
        lemma_cutoff_sub_trees(files, entries, init, dir, cutoff);
        if e.mode == ObjectKind::Tree && e.path.len() == dir.len() + 1 && parent_of(e.path) == dir {
            lemma_cutoff_tree(files, entries, e.path, cutoff);
            if dir.len() >= m {
                assert(false);
            }
        }
        if dir.len() >= m {
            lemma_sub_trees_at_bottom(files, entries, init, dir, m);
        }
    }
}

/// The tree of a directory does not depend on how deep the model is allowed
/// to look, once it looks as deep as the entries go.
pub proof fn lemma_cutoff_tree(
    files: Seq<PlacedView>,
    entries: Seq<FileEntryView>,
    dir: Seq<Seq<u8>>,
    cutoff: nat,
)
    requires
        consistent(files, entries),
        cutoff >= max_depth_of(entries),
    ensures
        tree_of(files, entries, dir, cutoff) == tree_of(files, entries, dir, max_depth_of(entries)),
    decreases cutoff - dir.len(), entries.len() + 1,
{
    let m = max_depth_of(entries);
    if dir.len() < cutoff {
        assert forall|i: int| 0 <= i < entries.len() && entries[i].mode
            == ObjectKind::Tree implies (#[trigger] entries[i]).path.len() <= m by {
            lemma_depth_bound(entries, i);
        }
        lemma_cutoff_sub_trees(files, entries, entries, dir, cutoff);
        if dir.len() >= m {
            // nothing lies this deep: no file object, and no directory below
            assert forall|i: int| 0 <= i < files.len() implies (#[trigger] files[i]).parent
                != dir by {}
            lemma_children_of_elsewhere(files, dir);
            let subs = sub_trees(files, entries, entries, dir, cutoff);
            assert(subs =~= Seq::<ObjectView>::empty());
            assert(files + lifted(subs, dir) =~= files);
        }
    }
}

/// No directory has a tree of its own below it where it is one level above
/// the deepest entry.
pub proof fn lemma_sub_trees_at_bottom(
    files: Seq<PlacedView>,
    entries: Seq<FileEntryView>,
    es: Seq<FileEntryView>,
    dir: Seq<Seq<u8>>,
    max_depth: nat,
)
    requires
        dir.len() + 1 >= max_depth,
    ensures
        sub_trees(files, entries, es, dir, max_depth) == Seq::<ObjectView>::empty(),
    decreases es.len(),
{
    if dir.len() < max_depth && es.len() > 0 {
        lemma_sub_trees_at_bottom(files, entries, es.drop_last(), dir, max_depth);
        let e = es.last();
        if e.path.len() == dir.len() + 1 {
            assert(tree_of(files, entries, e.path, max_depth) is None);
        }
    }
}

/// The layers of a build, taken apart: down to any depth, every tree that
/// was written lies at that depth or deeper, and the layer at that depth
/// holds the trees of its directory entries.
pub proof fn lemma_layers(files: Seq<PlacedView>, entries: Seq<FileEntryView>, depth: nat)
    requires
        consistent(files, entries),
        1 <= depth <= max_depth_of(entries),
    ensures
        forall|i: int|
            0 <= i < writes_down_to(files, entries, max_depth_of(entries), depth).len() ==> (
            #[trigger] writes_down_to(
                files,
                entries,
                max_depth_of(entries),
                depth,
            )[i]).placed.parent.len() + 1 >= depth,
        depth < max_depth_of(entries) ==> writes_down_to(
            files,
            entries,
            max_depth_of(entries),
            depth,
        ) == writes_down_to(files, entries, max_depth_of(entries), depth + 1) + tree_layer(
            files,
            entries,
            entries,
            depth,
            max_depth_of(entries),
        ),
    decreases max_depth_of(entries) - depth,
{
    let max_depth = max_depth_of(entries);
    if depth < max_depth {
        lemma_layers(files, entries, depth + 1);
        if depth + 1 < max_depth {
            lemma_layers(files, entries, depth + 2);
        }
        let deeper = writes_down_to(files, entries, max_depth, depth + 1);
        let placed = files + placed_of(deeper);
        lemma_layer_is_tree_layer(files, entries, entries, depth);
        let layer = tree_layer(files, entries, entries, depth, max_depth);
        lemma_tree_layer_parents(files, entries, entries, depth, max_depth);
        let all = writes_down_to(files, entries, max_depth, depth);
        assert(all == deeper + layer);
        assert forall|i: int| 0 <= i < all.len() implies (#[trigger] all[i]).placed.parent.len()
            + 1 >= depth by {
            if i < deeper.len() {
                assert(all[i] == deeper[i]);
            } else {
                assert(all[i] == layer[i - deeper.len()]);
            }
        }
    }
}

/// What is placed under a directory when its layer is built: the file
/// objects under it, and the trees of the directories directly below it.
pub proof fn lemma_children_when_built(
    files: Seq<PlacedView>,
    entries: Seq<FileEntryView>,
    dir: Seq<Seq<u8>>,
)
    requires
        consistent(files, entries),
        dir.len() < max_depth_of(entries),
        dir.len() + 1 < max_depth_of(entries) ==> forall|i: int|
            0 <= i < writes_down_to(files, entries, max_depth_of(entries), dir.len() + 2).len()
                ==> (#[trigger] writes_down_to(
                files,
                entries,
                max_depth_of(entries),
                dir.len() + 2,
            )[i]).placed.parent.len() + 1 >= dir.len() + 2,
        dir.len() + 1 < max_depth_of(entries) ==> writes_down_to(
            files,
            entries,
            max_depth_of(entries),
            dir.len() + 1,
        ) == writes_down_to(files, entries, max_depth_of(entries), dir.len() + 2) + tree_layer(
            files,
            entries,
            entries,
            dir.len() + 1,
            max_depth_of(entries),
        ),
    ensures
        children_of(
            files + placed_of(
                writes_down_to(files, entries, max_depth_of(entries), dir.len() + 1),
            ),
            dir,
        ) == children_of(files, dir) + sub_trees(
            files,
            entries,
            entries,
            dir,
            max_depth_of(entries),
        ),
{
    let max_depth = max_depth_of(entries);
    let below = writes_down_to(files, entries, max_depth, dir.len() + 1);
    lemma_children_of_concat(files, placed_of(below), dir);
    if dir.len() + 1 < max_depth {
        let deeper = writes_down_to(files, entries, max_depth, dir.len() + 2);
        let layer = tree_layer(files, entries, entries, dir.len() + 1, max_depth);
        assert(placed_of(below) =~= placed_of(deeper) + placed_of(layer));
        lemma_children_of_concat(placed_of(deeper), placed_of(layer), dir);
        assert forall|i: int| 0 <= i < placed_of(deeper).len() implies (
        #[trigger] placed_of(deeper)[i]).parent != dir by {
            assert(deeper[i].placed.parent.len() + 1 >= dir.len() + 2);
        }
        lemma_children_of_elsewhere(placed_of(deeper), dir);
        lemma_layer_children(files, entries, entries, dir, max_depth);
        assert(Seq::<ObjectView>::empty() + sub_trees(files, entries, entries, dir, max_depth)
            =~= sub_trees(files, entries, entries, dir, max_depth));
    } else {
        assert(below =~= Seq::<TreeWriteView>::empty());
        assert(placed_of(below) =~= Seq::<PlacedView>::empty());
        lemma_sub_trees_at_bottom(files, entries, entries, dir, max_depth);
    }
}

/// The layer that a build writes at a depth holds the trees of the
/// directory entries at that depth.
pub proof fn lemma_layer_is_tree_layer(
    files: Seq<PlacedView>,
    entries: Seq<FileEntryView>,
    es: Seq<FileEntryView>,
    depth: nat,
)
    requires
        consistent(files, entries),
        1 <= depth < max_depth_of(entries),
        forall|i: int|
            0 <= i < es.len() && es[i].mode == ObjectKind::Tree ==> (#[trigger] es[i]).depth
                == es[i].path.len(),
        forall|i: int|
            0 <= i < writes_down_to(files, entries, max_depth_of(entries), depth + 1).len() ==> (
            #[trigger] writes_down_to(
                files,
                entries,
                max_depth_of(entries),
                depth + 1,
            )[i]).placed.parent.len() + 1 >= depth + 1,
        depth + 1 < max_depth_of(entries) ==> writes_down_to(
            files,
            entries,
            max_depth_of(entries),
            depth + 1,
        ) == writes_down_to(files, entries, max_depth_of(entries), depth + 2) + tree_layer(
            files,
            entries,
            entries,
            depth + 1,
            max_depth_of(entries),
        ),
        depth + 1 < max_depth_of(entries) ==> forall|i: int|
            0 <= i < writes_down_to(files, entries, max_depth_of(entries), depth + 2).len() ==> (
            #[trigger] writes_down_to(
                files,
                entries,
                max_depth_of(entries),
                depth + 2,
            )[i]).placed.parent.len() + 1 >= depth + 2,
    ensures
        layer_writes(
            files + placed_of(writes_down_to(files, entries, max_depth_of(entries), depth + 1)),
            es,
            depth,
        ) == tree_layer(files, entries, es, depth, max_depth_of(entries)),
    decreases es.len(),
{
    let max_depth = max_depth_of(entries);
    if es.len() > 0 {
        let init = es.drop_last();
        let e = es.last();
        assert(e == es[es.len() - 1]);
        assert forall|i: int| 0 <= i < init.len() && init[i].mode == ObjectKind::Tree implies (
        #[trigger] init[i]).depth == init[i].path.len() by {
            assert(init[i] == es[i]);
        }
        lemma_layer_is_tree_layer(files, entries, init, depth);
        if e.mode == ObjectKind::Tree && e.depth == depth {
            let placed = files + placed_of(writes_down_to(files, entries, max_depth, depth + 1));
            lemma_children_when_built(files, entries, e.path);
            let subs = sub_trees(files, entries, entries, e.path, max_depth);
            lemma_children_of_concat(files, lifted(subs, e.path), e.path);
            lemma_children_of_lifted(subs, e.path);
            lemma_tree_write_by_children(placed, files + lifted(subs, e.path), e.path);
        }
    }
}

/// A build computes the Merkle tree of its target.  Where the entries and
/// the file objects fit together, the root that the build returns is the
/// tree of the root directory: the tree whose entries are the files in the
/// root and the trees of the directories in it, each of which is the tree of
/// its directory in the same way.  The build is empty where the target has
/// no depth or the root has no entry.
pub proof fn lemma_build_is_merkle(files: Seq<PlacedView>, entries: Seq<FileEntryView>)
    requires
        consistent(files, entries),
    ensures
        match build_writes(files, entries) {
            Some(ws) => tree_of(files, entries, Seq::empty(), max_depth_of(entries)) == Some(
                ws.last(),
            ),
            None => max_depth_of(entries) == 0 || tree_of(
                files,
                entries,
                Seq::empty(),
                max_depth_of(entries),
            ) is None,
        },
{
    let max_depth = max_depth_of(entries);
    let root = Seq::<Seq<u8>>::empty();
    if max_depth > 0 {
        lemma_layers(files, entries, 1);
        if 1 < max_depth {
            lemma_layers(files, entries, 2);
        }
        lemma_children_when_built(files, entries, root);
        let below = writes_down_to(files, entries, max_depth, 1);
        let subs = sub_trees(files, entries, entries, root, max_depth);
        lemma_children_of_concat(files, lifted(subs, root), root);
        lemma_children_of_lifted(subs, root);
        lemma_tree_write_by_children(files + placed_of(below), files + lifted(subs, root), root);
    }
}

} // verus!

//! The build: target entries, and the layered fold of file objects into tree
//! objects up to the root.

use std::collections::HashMap;

use vstd::prelude::*;

use crate::data::{Object, ObjectID, ObjectKind, ObjectView};
use crate::error::ReadContentError;
use crate::hash::{xxh3_64, xxh3_contents};
use crate::merkle::{consistent, lemma_build_is_merkle, tree_of};
use crate::path::{join_text, name_of, parent_of, RelativePath};
use crate::tree::{object_views, tree_contents, tree_id, tree_payload};

verus! {

broadcast use vstd::std_specs::hash::group_hash_axioms;

/// A target entry, as contracts see it.
pub struct FileEntryView {
    pub mode: ObjectKind,
    pub path: Seq<Seq<u8>>,
    pub depth: nat,
}

/// One entry of the target: a file or a directory, its path and its depth.
#[derive(Debug, PartialEq, Eq)]
pub struct FileEntry {
    pub mode: ObjectKind,
    pub path: RelativePath,
    pub depth: usize,
}

impl View for FileEntry {
    type V = FileEntryView;

    open spec fn view(&self) -> FileEntryView {
        FileEntryView { mode: self.mode, path: self.path@, depth: self.depth as nat }
    }
}

impl FileEntry {
    pub fn new(mode: ObjectKind, path: RelativePath, depth: usize) -> (e: Self)
        ensures
            e.mode == mode,
            e.path == path,
            e.depth == depth,
    {
        Self { mode, path, depth }
    }

    /// Whether this entry sorts strictly before `other`: entries are ordered
    /// by path alone.
    pub fn is_before(&self, other: &Self) -> (lt: bool)
        ensures
            lt == crate::path::components_lt(self.path@, other.path@),
    {
        self.path.is_before(&other.path)
    }
}

impl Clone for FileEntry {
    fn clone(&self) -> (e: Self)
        ensures
            e@ == self@,
    {
        Self { mode: self.mode, path: self.path.clone(), depth: self.depth }
    }
}

/// The entries that a vector holds, as contracts see them.
pub open spec fn entry_views(v: Seq<FileEntry>) -> Seq<FileEntryView> {
    Seq::new(v.len(), |i: int| v[i]@)
}

/// The number of entries of the given kind.
pub open spec fn count_kind(entries: Seq<FileEntryView>, kind: ObjectKind) -> nat
    decreases entries.len(),
{
    if entries.len() == 0 {
        0
    } else {
        count_kind(entries.drop_last(), kind) + if entries.last().mode == kind {
            1nat
        } else {
            0nat
        }
    }
}

/// The greatest depth of an entry; 0 where there is none.
pub open spec fn max_depth_of(entries: Seq<FileEntryView>) -> nat
    decreases entries.len(),
{
    if entries.len() == 0 {
        0
    } else {
        let rest = max_depth_of(entries.drop_last());
        if entries.last().depth > rest {
            entries.last().depth
        } else {
            rest
        }
    }
}

/// The entries of the given kind, in their order.
pub open spec fn of_kind(entries: Seq<FileEntryView>, kind: ObjectKind) -> Seq<FileEntryView>
    decreases entries.len(),
{
    if entries.len() == 0 {
        Seq::empty()
    } else if entries.last().mode == kind {
        of_kind(entries.drop_last(), kind).push(entries.last())
    } else {
        of_kind(entries.drop_last(), kind)
    }
}

/// Every entry is a file or a directory.
pub proof fn lemma_count_kinds(entries: Seq<FileEntryView>)
    ensures
        count_kind(entries, ObjectKind::File) + count_kind(entries, ObjectKind::Tree)
            == entries.len(),
    decreases entries.len(),
{
    if entries.len() > 0 {
        lemma_count_kinds(entries.drop_last());
    }
}

/// The entries to hash, in the order in which they were found.
#[derive(Debug)]
pub struct TargetEntries {
    files: Vec<FileEntry>,
}

impl View for TargetEntries {
    type V = Seq<FileEntryView>;

    closed spec fn view(&self) -> Seq<FileEntryView> {
        entry_views(self.files@)
    }
}

impl TargetEntries {
    /// No entries.
    pub fn new() -> (t: Self)
        ensures
            t@ == Seq::<FileEntryView>::empty(),
    {
        let t = Self { files: Vec::new() };
        assert(entry_views(t.files@) =~= Seq::empty());
        t
    }

    /// Adds an entry behind those that are there.
    pub fn push_file_entry(&mut self, entry: FileEntry)
        ensures
            final(self)@ == old(self)@.push(entry@),
    {
        self.files.push(entry);
        assert(entry_views(self.files@) =~= entry_views(old(self).files@).push(entry@));
    }

    /// The entries, in the order in which they were added.
    pub fn iter(&self) -> (entries: &[FileEntry])
        ensures
            entry_views(entries@) == self@,
    {
        self.files.as_slice()
    }

    /// The number of entries.
    pub fn len(&self) -> (n: usize)
        ensures
            n == self@.len(),
    {
        self.files.len()
    }

    /// The entries of the given kind, in their order: the first step of a
    /// build takes the file entries apart from the directory entries.
    pub fn entries_of(&self, kind: ObjectKind) -> (out: Vec<FileEntry>)
        ensures
            entry_views(out@) == of_kind(self@, kind),
    {
        let mut out: Vec<FileEntry> = Vec::new();
        let mut i: usize = 0;
        assert(self@.take(0) =~= Seq::empty());
        assert(entry_views(out@) =~= Seq::empty());
        while i < self.files.len()
            invariant
                i <= self.files.len(),
                entry_views(out@) == of_kind(self@.take(i as int), kind),
            decreases self.files.len() - i,
        {
            assert(self@.take(i + 1).drop_last() =~= self@.take(i as int));
            assert(self@.take(i + 1).last() == self.files[i as int]@);
            if self.files[i].mode == kind {
                let ghost had = entry_views(out@);
                let e = self.files[i].clone();
                out.push(e);
                assert(entry_views(out@) =~= had.push(e@));
            }
            i = i + 1;
        }
        assert(self@.take(self.files.len() as int) =~= self@);
        out
    }

    /// The greatest depth of an entry; 0 where there is none.
    pub fn max_depth(&self) -> (d: usize)
        ensures
            d == max_depth_of(self@),
    {
        let mut d: usize = 0;
        let mut i: usize = 0;
        while i < self.files.len()
            invariant
                i <= self.files.len(),
                d == max_depth_of(self@.take(i as int)),
            decreases self.files.len() - i,
        {
            assert(self@.take(i + 1).drop_last() =~= self@.take(i as int));
            if self.files[i].depth > d {
                d = self.files[i].depth;
            }
            i = i + 1;
        }
        assert(self@.take(self.files.len() as int) =~= self@);
        d
    }

    /// The number of entries of the given kind.
    pub fn count(&self, kind: ObjectKind) -> (n: u64)
        ensures
            n == count_kind(self@, kind),
    {
        let mut n: u64 = 0;
        let mut i: usize = 0;
        while i < self.files.len()
            invariant
                i <= self.files.len(),
                n == count_kind(self@.take(i as int), kind),
                n <= i,
            decreases self.files.len() - i,
        {
            assert(self@.take(i + 1).drop_last() =~= self@.take(i as int));
            if self.files[i].mode == kind {
                n = n + 1;
            }
            i = i + 1;
        }
        assert(self@.take(self.files.len() as int) =~= self@);
        n
    }

    /// The number of file entries.
    pub fn num_files(&self) -> (n: u64)
        ensures
            n == count_kind(self@, ObjectKind::File),
    {
        self.count(ObjectKind::File)
    }

    /// The number of directory entries.
    pub fn num_dirs(&self) -> (n: u64)
        ensures
            n == count_kind(self@, ObjectKind::Tree),
    {
        self.count(ObjectKind::Tree)
    }
}

/// An object under the directory that lists it, as contracts see it.
pub struct PlacedView {
    pub parent: Seq<Seq<u8>>,
    pub object: ObjectView,
}

/// An object together with the path of the directory that lists it.
#[derive(Debug, PartialEq, Eq)]
pub struct Placed {
    pub parent: RelativePath,
    pub object: Object,
}

impl View for Placed {
    type V = PlacedView;

    open spec fn view(&self) -> PlacedView {
        PlacedView { parent: self.parent@, object: self.object@ }
    }
}

impl Clone for Placed {
    fn clone(&self) -> (p: Self)
        ensures
            p@ == self@,
    {
        Placed { parent: self.parent.clone(), object: self.object.clone() }
    }
}

/// A tree object to write, as contracts see it.
pub struct TreeWriteView {
    pub placed: PlacedView,
    pub payload: Seq<u8>,
}

/// A tree object to write: the entry that stands for it in its parent, and
/// its payload.
#[derive(Debug, PartialEq, Eq)]
pub struct TreeWrite {
    pub placed: Placed,
    pub payload: Vec<u8>,
}

impl View for TreeWrite {
    type V = TreeWriteView;

    open spec fn view(&self) -> TreeWriteView {
        TreeWriteView { placed: self.placed@, payload: self.payload@ }
    }
}

pub open spec fn placed_views(v: Seq<Placed>) -> Seq<PlacedView> {
    Seq::new(v.len(), |i: int| v[i]@)
}

pub open spec fn write_views(v: Seq<TreeWrite>) -> Seq<TreeWriteView> {
    Seq::new(v.len(), |i: int| v[i]@)
}

/// The entries that stand for the written trees in their parents.
pub open spec fn placed_of(writes: Seq<TreeWriteView>) -> Seq<PlacedView> {
    Seq::new(writes.len(), |i: int| writes[i].placed)
}

/// The objects placed under `dir`, in the order in which they were placed.
pub open spec fn children_of(placed: Seq<PlacedView>, dir: Seq<Seq<u8>>) -> Seq<ObjectView>
    decreases placed.len(),
{
    if placed.len() == 0 {
        Seq::empty()
    } else if placed.last().parent == dir {
        children_of(placed.drop_last(), dir).push(placed.last().object)
    } else {
        children_of(placed.drop_last(), dir)
    }
}

/// The tree object of the directory `dir`, given what has been placed: none
/// for a directory without children; else its children sorted by name and
/// written out, under the id that is the hash of that payload, and placed
/// under the parent of `dir` by the last component of `dir`.
pub open spec fn tree_write(placed: Seq<PlacedView>, dir: Seq<Seq<u8>>) -> Option<TreeWriteView> {
    let children = children_of(placed, dir);
    if children.len() == 0 {
        None
    } else {
        Some(
            TreeWriteView {
                placed: PlacedView {
                    parent: parent_of(dir),
                    object: ObjectView {
                        kind: ObjectKind::Tree,
                        id: tree_id(children),
                        basename: name_of(dir),
                    },
                },
                payload: tree_payload(children),
            },
        )
    }
}

/// The tree objects of one layer: of the directory entries at exactly the
/// given depth, in the order of the entries, each from what was placed before
/// the layer began.
pub open spec fn layer_writes(
    placed: Seq<PlacedView>,
    entries: Seq<FileEntryView>,
    depth: nat,
) -> Seq<TreeWriteView>
    decreases entries.len(),
{
    if entries.len() == 0 {
        Seq::empty()
    } else {
        let before = layer_writes(placed, entries.drop_last(), depth);
        let entry = entries.last();
        if entry.mode == ObjectKind::Tree && entry.depth == depth {
            match tree_write(placed, entry.path) {
                Some(w) => before.push(w),
                None => before,
            }
        } else {
            before
        }
    }
}

/// The tree objects of the layers from the deepest down to `depth`, deepest
/// first.  Each layer sees the file objects and the trees of all deeper
/// layers.
pub open spec fn writes_down_to(
    files: Seq<PlacedView>,
    entries: Seq<FileEntryView>,
    max_depth: nat,
    depth: nat,
) -> Seq<TreeWriteView>
    decreases max_depth - depth,
{
    if depth >= max_depth {
        Seq::empty()
    } else {
        let deeper = writes_down_to(files, entries, max_depth, depth + 1);
        deeper + layer_writes(files + placed_of(deeper), entries, depth)
    }
}

/// The tree objects of a build, children before parents and the root last;
/// none where the entries have no depth or nothing is placed under the root.
pub open spec fn build_writes(files: Seq<PlacedView>, entries: Seq<FileEntryView>) -> Option<
    Seq<TreeWriteView>,
> {
    let max_depth = max_depth_of(entries);
    if max_depth == 0 {
        None
    } else {
        let below = writes_down_to(files, entries, max_depth, 1);
        match tree_write(files + placed_of(below), Seq::empty()) {
            None => None,
            Some(root) => Some(below.push(root)),
        }
    }
}

/// The file object of a file entry whose content has the given id, placed
/// under the directory of the entry; none for an entry without a file name.
pub open spec fn file_placed(entry: FileEntryView, id: u64) -> Option<PlacedView> {
    if entry.path.len() == 0 {
        None
    } else {
        Some(
            PlacedView {
                parent: parent_of(entry.path),
                object: ObjectView { kind: ObjectKind::File, id, basename: name_of(entry.path) },
            },
        )
    }
}

/// Places the file object of `entry`, whose content has the id `id`.
pub fn file_object(entry: &FileEntry, id: ObjectID) -> (r: Option<Placed>)
    ensures
        match file_placed(entry@, id.0.xxh3) {
            Some(p) => r matches Some(placed) && placed@ == p,
            None => r is None,
        },
{
    if entry.path.is_root() {
        return None;
    }
    let object = Object::with_basename(ObjectKind::File, id, entry.path.base());
    Some(Placed { parent: entry.path.parent(), object })
}

/// The objects placed under `dir`.
fn collect_children(placed: &Vec<Placed>, dir: &RelativePath) -> (children: Vec<Object>)
    ensures
        object_views(children@) == children_of(placed_views(placed@), dir@),
{
    let mut children: Vec<Object> = Vec::new();
    let mut i: usize = 0;
    assert(placed_views(placed@).take(0) =~= Seq::empty());
    assert(object_views(children@) =~= Seq::empty());
    while i < placed.len()
        invariant
            i <= placed.len(),
            object_views(children@) == children_of(placed_views(placed@).take(i as int), dir@),
        decreases placed.len() - i,
    {
        let ghost before = placed_views(placed@).take(i as int);
        let ghost after = placed_views(placed@).take(i + 1);
        assert(after.drop_last() =~= before);
        assert(after.last() == placed[i as int]@);
        if placed[i].parent.equals(dir) {
            let ghost had = object_views(children@);
            let o = placed[i].object.clone();
            children.push(o);
            assert(object_views(children@) =~= had.push(o@));
        }
        i = i + 1;
    }
    assert(placed_views(placed@).take(placed.len() as int) =~= placed_views(placed@));
    children
}

/// Nothing is found under a directory under which nothing is placed.
pub proof fn lemma_children_of_elsewhere(placed: Seq<PlacedView>, dir: Seq<Seq<u8>>)
    requires
        forall|i: int| 0 <= i < placed.len() ==> (#[trigger] placed[i]).parent != dir,
    ensures
        children_of(placed, dir) == Seq::<ObjectView>::empty(),
    decreases placed.len(),
{
    if placed.len() > 0 {
        assert forall|i: int| 0 <= i < placed.drop_last().len() implies (
        #[trigger] placed.drop_last()[i]).parent != dir by {
            assert(placed.drop_last()[i] == placed[i]);
        }
        lemma_children_of_elsewhere(placed.drop_last(), dir);
        assert(placed[placed.len() - 1].parent != dir);
    }
}

/// The key under which the index keeps what is placed under a directory:
/// the hash of the text of its path.
pub open spec fn dir_key(dir: Seq<Seq<u8>>) -> u64 {
    xxh3_64(join_text(dir))
}

fn key_of(dir: &RelativePath) -> (k: u64)
    ensures
        k == dir_key(dir@),
{
    let text = dir.as_path();
    xxh3_contents(text.as_slice())
}

/// The positions stand in ascending order.
spec fn ascending(bucket: Seq<usize>) -> bool {
    forall|i: int, j: int| 0 <= i < j < bucket.len() ==> bucket[i] < bucket[j]
}

/// The objects at the given positions that are placed under `dir`, in the
/// order of the positions.
spec fn picked(placed: Seq<PlacedView>, bucket: Seq<usize>, dir: Seq<Seq<u8>>) -> Seq<ObjectView>
    decreases bucket.len(),
{
    if bucket.len() == 0 {
        Seq::empty()
    } else {
        let rest = picked(placed, bucket.drop_last(), dir);
        let n = bucket.last() as int;
        if n < placed.len() && placed[n].parent == dir {
            rest.push(placed[n].object)
        } else {
            rest
        }
    }
}

/// What is picked at positions below `n` does not depend on what is placed
/// behind them.
proof fn lemma_picked_prefix(placed: Seq<PlacedView>, bucket: Seq<usize>, dir: Seq<Seq<u8>>, n: int)
    requires
        0 <= n <= placed.len(),
        forall|i: int| 0 <= i < bucket.len() ==> bucket[i] < n,
    ensures
        picked(placed, bucket, dir) == picked(placed.take(n), bucket, dir),
    decreases bucket.len(),
{
    if bucket.len() > 0 {
        assert forall|i: int| 0 <= i < bucket.drop_last().len() implies bucket.drop_last()[i]
            < n by {
            assert(bucket.drop_last()[i] == bucket[i]);
        }
        lemma_picked_prefix(placed, bucket.drop_last(), dir, n);
        assert(bucket[bucket.len() - 1] < n);
    }
}

/// Positions in ascending order that hold every object placed under `dir`
/// pick what is placed under `dir`.
proof fn lemma_picked_is_children(placed: Seq<PlacedView>, bucket: Seq<usize>, dir: Seq<Seq<u8>>)
    requires
        placed.len() <= usize::MAX,
        ascending(bucket),
        forall|i: int| 0 <= i < bucket.len() ==> bucket[i] < placed.len(),
        forall|n: int|
            0 <= n < placed.len() && (#[trigger] placed[n]).parent == dir ==> bucket.contains(
                n as usize,
            ),
    ensures
        picked(placed, bucket, dir) == children_of(placed, dir),
    decreases placed.len(),
{
    if placed.len() == 0 {
        if bucket.len() > 0 {
            assert(bucket[0] < placed.len());
        }
    } else {
        let last = placed.len() - 1;
        let init = placed.drop_last();
        assert(init =~= placed.take(last));
        if bucket.len() > 0 && bucket.last() == last {
            let rest = bucket.drop_last();
            assert forall|i: int| 0 <= i < rest.len() implies rest[i] < last by {
                assert(rest[i] == bucket[i]);
                assert(bucket[i] < bucket[bucket.len() - 1]);
            }
            assert(ascending(rest)) by {
                assert forall|i: int, j: int| 0 <= i < j < rest.len() implies rest[i] < rest[j] by {
                    assert(rest[i] == bucket[i] && rest[j] == bucket[j]);
                }
            }
            assert forall|n: int| 0 <= n < init.len() && (#[trigger] init[n]).parent
                == dir implies rest.contains(n as usize) by {
                assert(init[n] == placed[n]);
                assert(bucket.contains(n as usize));
                let i = choose|i: int| 0 <= i < bucket.len() && bucket[i] == n as usize;
                assert(rest[i] == n as usize);
            }
            lemma_picked_is_children(init, rest, dir);
            lemma_picked_prefix(placed, rest, dir, last);
        } else {
            // the last object is at none of the positions, so not under `dir`
            assert forall|i: int| 0 <= i < bucket.len() implies bucket[i] < last by {
                if bucket[i] == last {
                    assert(bucket[i] <= bucket[bucket.len() - 1]);
                }
            }
            if placed[last].parent == dir {
                assert(bucket.contains(last as usize));
                let i = choose|i: int| 0 <= i < bucket.len() && bucket[i] == last as usize;
                assert(false);
            }
            assert forall|n: int| 0 <= n < init.len() && (#[trigger] init[n]).parent
                == dir implies bucket.contains(n as usize) by {
                assert(init[n] == placed[n]);
            }
            lemma_picked_is_children(init, bucket, dir);
            lemma_picked_prefix(placed, bucket, dir, last);
        }
    }
}

/// The index holds, for every directory, the positions of what is placed
/// under it, in ascending order.
spec fn indexed(index: Map<u64, Vec<usize>>, placed: Seq<PlacedView>) -> bool {
    &&& placed.len() <= usize::MAX
    &&& forall|k: u64| #[trigger]
        index.contains_key(k) ==> ascending(index[k]@) && forall|i: int|
            0 <= i < index[k]@.len() ==> (#[trigger] index[k]@[i]) < placed.len()
    &&& forall|n: int|
        0 <= n < placed.len() ==> index.contains_key(dir_key((#[trigger] placed[n]).parent))
            && index[dir_key(placed[n].parent)]@.contains(n as usize)
}

/// Places an object behind those that are placed, and notes its position.
fn place(placed: &mut Vec<Placed>, index: &mut HashMap<u64, Vec<usize>>, p: Placed)
    requires
        indexed(old(index)@, placed_views(old(placed)@)),
    ensures
        placed_views(final(placed)@) == placed_views(old(placed)@).push(p@),
        indexed(final(index)@, placed_views(final(placed)@)),
{
    let key = key_of(&p.parent);
    let n = placed.len();
    let ghost before = placed_views(placed@);
    let ghost had = index@;
    let mut bucket = match index.remove(&key) {
        Some(bucket) => bucket,
        None => Vec::new(),
    };
    let ghost old_bucket = bucket@;
    bucket.push(n);
    let ghost new_bucket = bucket@;
    index.insert(key, bucket);
    placed.push(p);
    proof {
        let after = placed_views(placed@);
        assert(after =~= before.push(p@));
        assert(after.len() == placed.len());
        assert forall|k: u64| #[trigger] index@.contains_key(k) implies ascending(index@[k]@)
            && forall|i: int|
            0 <= i < index@[k]@.len() ==> (#[trigger] index@[k]@[i]) < after.len() by {
            if k == key {
                assert(index@[k]@ == new_bucket);
                if had.contains_key(key) {
                    assert(old_bucket == had[key]@);
                }
                assert forall|i: int| 0 <= i < old_bucket.len() implies old_bucket[i] < n by {
                    assert(had.contains_key(key));
                    assert(had[key]@[i] < before.len());
                }
                assert forall|i: int, j: int| 0 <= i < j < new_bucket.len() implies new_bucket[i]
                    < new_bucket[j] by {
                    if j < old_bucket.len() {
                        assert(had.contains_key(key));
                        assert(ascending(had[key]@));
                    }
                }
            } else {
                assert(had.contains_key(k));
                assert(index@[k] == had[k]);
                assert forall|i: int| 0 <= i < index@[k]@.len() implies (#[trigger] index@[k]@[i])
                    < after.len() by {
                    assert(had[k]@[i] < before.len());
                }
            }
        }
        assert forall|m: int| 0 <= m < after.len() implies index@.contains_key(
            dir_key((#[trigger] after[m]).parent),
        ) && index@[dir_key(after[m].parent)]@.contains(m as usize) by {
            if m < n {
                assert(after[m] == before[m]);
                let k = dir_key(before[m].parent);
                assert(had.contains_key(k) && had[k]@.contains(m as usize));
                if k == key {
                    let i = choose|i: int| 0 <= i < old_bucket.len() && old_bucket[i] == m as usize;
                    assert(new_bucket[i] == m as usize);
                }
            } else {
                assert(new_bucket[old_bucket.len() as int] == n);
            }
        }
    }
}

/// The objects placed under `dir`, found by the index.
fn children_by_index(
    placed: &Vec<Placed>,
    index: &HashMap<u64, Vec<usize>>,
    dir: &RelativePath,
) -> (children: Vec<Object>)
    requires
        indexed(index@, placed_views(placed@)),
    ensures
        object_views(children@) == children_of(placed_views(placed@), dir@),
{
    let key = key_of(dir);
    let ghost all = placed_views(placed@);
    let mut children: Vec<Object> = Vec::new();
    match index.get(&key) {
        None => {
            proof {
                assert forall|n: int| 0 <= n < all.len() implies (#[trigger] all[n]).parent
                    != dir@ by {
                    assert(index@.contains_key(dir_key(all[n].parent)));
                }
                lemma_children_of_elsewhere(all, dir@);
                assert(object_views(children@) =~= Seq::empty());
            }
        },
        Some(bucket) => {
            proof {
                assert(index@.contains_key(key) && index@[key] == *bucket);
                assert forall|n: int| 0 <= n < all.len() && (#[trigger] all[n]).parent
                    == dir@ implies bucket@.contains(n as usize) by {
                    assert(index@[dir_key(all[n].parent)]@.contains(n as usize));
                }
                lemma_picked_is_children(all, bucket@, dir@);
                assert(bucket@.take(0) =~= Seq::empty());
                assert(object_views(children@) =~= Seq::empty());
            }
            let mut i: usize = 0;
            while i < bucket.len()
                invariant
                    i <= bucket.len(),
                    all == placed_views(placed@),
                    forall|j: int| 0 <= j < bucket.len() ==> bucket@[j] < placed.len(),
                    object_views(children@) == picked(all, bucket@.take(i as int), dir@),
                decreases bucket.len() - i,
            {
                assert(bucket@.take(i + 1).drop_last() =~= bucket@.take(i as int));
                assert(bucket@.take(i + 1).last() == bucket@[i as int]);
                let n = bucket[i];
                assert(all[n as int] == placed[n as int]@);
                if placed[n].parent.equals(dir) {
                    let ghost had = object_views(children@);
                    let o = placed[n].object.clone();
                    children.push(o);
                    assert(object_views(children@) =~= had.push(o@));
                }
                i = i + 1;
            }
            assert(bucket@.take(bucket.len() as int) =~= bucket@);
        },
    }
    children
}

/// Folds the children of one directory into its tree object.  A directory
/// under which nothing is placed has no tree object.
pub fn process_tree_content(placed: &Vec<Placed>, entry: &FileEntry) -> (r: Option<TreeWrite>)
    ensures
        match tree_write(placed_views(placed@), entry.path@) {
            Some(w) => r matches Some(write) && write@ == w,
            None => r is None,
        },
{
    let children = collect_children(placed, &entry.path);
    if children.len() == 0 {
        return None;
    }
    let (id, payload) = tree_contents(&children);
    let object = Object::with_basename(ObjectKind::Tree, id, entry.path.base());
    Some(TreeWrite { placed: Placed { parent: entry.path.parent(), object }, payload })
}

/// As `process_tree_content`, with the help of the index.
fn fold_directory(placed: &Vec<Placed>, index: &HashMap<u64, Vec<usize>>, entry: &FileEntry) -> (r:
    Option<TreeWrite>)
    requires
        indexed(index@, placed_views(placed@)),
    ensures
        match tree_write(placed_views(placed@), entry.path@) {
            Some(w) => r matches Some(write) && write@ == w,
            None => r is None,
        },
{
    let children = children_by_index(placed, index, &entry.path);
    if children.len() == 0 {
        return None;
    }
    let (id, payload) = tree_contents(&children);
    let object = Object::with_basename(ObjectKind::Tree, id, entry.path.base());
    Some(TreeWrite { placed: Placed { parent: entry.path.parent(), object }, payload })
}

/// The tree objects of the directory entries at the given depth.
fn build_layer(
    placed: &Vec<Placed>,
    index: &HashMap<u64, Vec<usize>>,
    entries: &[FileEntry],
    depth: usize,
) -> (fresh: Vec<TreeWrite>)
    requires
        indexed(index@, placed_views(placed@)),
    ensures
        write_views(fresh@) == layer_writes(
            placed_views(placed@),
            entry_views(entries@),
            depth as nat,
        ),
{
    let mut fresh: Vec<TreeWrite> = Vec::new();
    let mut i: usize = 0;
    assert(entry_views(entries@).take(0) =~= Seq::empty());
    assert(write_views(fresh@) =~= Seq::empty());
    while i < entries.len()
        invariant
            i <= entries.len(),
            indexed(index@, placed_views(placed@)),
            write_views(fresh@) == layer_writes(
                placed_views(placed@),
                entry_views(entries@).take(i as int),
                depth as nat,
            ),
        decreases entries.len() - i,
    {
        let ghost before = entry_views(entries@).take(i as int);
        let ghost after = entry_views(entries@).take(i + 1);
        assert(after.drop_last() =~= before);
        assert(after.last() == entries[i as int]@);
        let entry = &entries[i];
        if entry.mode == ObjectKind::Tree && entry.depth == depth {
            match fold_directory(placed, index, entry) {
                Some(w) => {
                    let ghost had = write_views(fresh@);
                    fresh.push(w);
                    assert(write_views(fresh@) =~= had.push(w@));
                },
                None => {},
            }
        }
        i = i + 1;
    }
    assert(entry_views(entries@).take(entries.len() as int) =~= entry_views(entries@));
    fresh
}

/// What a build hands back: the root entry, and every tree object to write,
/// children before parents, the root tree last.
#[derive(Debug, PartialEq, Eq)]
pub struct Built {
    pub root: Object,
    pub writes: Vec<TreeWrite>,
}

/// Folds the file objects into tree objects, layer by layer from the deepest
/// directories up to the root.
///
/// `files` holds the file objects, each under the directory that lists it.
/// The directory entries of `target_entries` are taken by depth, deepest
/// first; a directory with children becomes a tree object that is placed
/// under its own parent, an empty directory leaves no trace.  What is placed
/// under the root at the end makes the root tree.  A target without depth,
/// or without anything under the root, is empty.
///
/// Where the entries and the file objects fit together, the root is the
/// Merkle tree of the target: the tree of the root directory, whose entries
/// are the files in it and the trees of the directories in it.
pub fn build(target_entries: &TargetEntries, files: &Vec<Placed>) -> (r: Result<
    Built,
    ReadContentError,
>)
    ensures
        match build_writes(placed_views(files@), target_entries@) {
            Some(ws) => r matches Ok(b) && write_views(b.writes@) == ws && b.root@
                == ws.last().placed.object,
            None => r == Err::<Built, ReadContentError>(ReadContentError::TargetEmpty),
        },
        consistent(placed_views(files@), target_entries@) ==> match tree_of(
            placed_views(files@),
            target_entries@,
            Seq::empty(),
            max_depth_of(target_entries@),
        ) {
            Some(root) => r matches Ok(b) && b.root@ == root.placed.object,
            None => r == Err::<Built, ReadContentError>(ReadContentError::TargetEmpty),
        },
{
    proof {
        if consistent(placed_views(files@), target_entries@) {
            lemma_build_is_merkle(placed_views(files@), target_entries@);
        }
    }
    let max_depth = target_entries.max_depth();
    if max_depth == 0 {
        return Err(ReadContentError::TargetEmpty);
    }
    let entries = target_entries.iter();
    let mut placed: Vec<Placed> = Vec::new();
    let mut index: HashMap<u64, Vec<usize>> = HashMap::new();
    let mut k: usize = 0;
    assert(placed_views(placed@) =~= placed_views(files@).take(0));
    while k < files.len()
        invariant
            k <= files.len(),
            indexed(index@, placed_views(placed@)),
            placed_views(placed@) == placed_views(files@).take(k as int),
        decreases files.len() - k,
    {
        let p = files[k].clone();
        place(&mut placed, &mut index, p);
        k = k + 1;
        assert(placed_views(placed@) =~= placed_views(files@).take(k as int));
    }
    assert(placed_views(files@).take(files.len() as int) =~= placed_views(files@));
    let mut writes: Vec<TreeWrite> = Vec::new();
    let mut depth: usize = max_depth;
    assert(write_views(writes@) =~= Seq::empty());
    assert(placed_views(placed@) =~= placed_views(files@) + placed_of(write_views(writes@)));
    while depth > 1
        invariant
            1 <= depth <= max_depth,
            indexed(index@, placed_views(placed@)),
            entry_views(entries@) == target_entries@,
            write_views(writes@) == writes_down_to(
                placed_views(files@),
                target_entries@,
                max_depth as nat,
                depth as nat,
            ),
            placed_views(placed@) == placed_views(files@) + placed_of(write_views(writes@)),
        decreases depth,
    {
        depth = depth - 1;
        let mut fresh = build_layer(&placed, &index, entries, depth);
        let ghost deeper = write_views(writes@);
        let ghost layer = write_views(fresh@);
        let ghost had_placed = placed_views(placed@);
        let mut j: usize = 0;
        assert(placed_views(placed@) =~= had_placed + placed_of(layer.take(0)));
        while j < fresh.len()
            invariant
                j <= fresh.len(),
                layer == write_views(fresh@),
                indexed(index@, placed_views(placed@)),
                placed_views(placed@) == had_placed + placed_of(layer.take(j as int)),
            decreases fresh.len() - j,
        {
            let p = fresh[j].placed.clone();
            place(&mut placed, &mut index, p);
            j = j + 1;
            assert(placed_views(placed@) =~= had_placed + placed_of(layer.take(j as int)));
        }
        assert(layer.take(fresh.len() as int) =~= layer);
        writes.append(&mut fresh);
        assert(write_views(writes@) =~= deeper + layer);
        assert(placed_views(placed@) =~= placed_views(files@) + placed_of(write_views(writes@)));
    }
    let root_entry = FileEntry::new(ObjectKind::Tree, RelativePath::Root, 0);
    match fold_directory(&placed, &index, &root_entry) {
        None => Err(ReadContentError::TargetEmpty),
        Some(w) => {
            let root = w.placed.object.clone();
            let ghost had = write_views(writes@);
            writes.push(w);
            assert(write_views(writes@) =~= had.push(w@));
            Ok(Built { root, writes })
        },
    }
}

} // verus!

//! The comparison of two trees, one level at a time.

use similar::Algorithm;
use vstd::prelude::*;

use crate::data::{kind_word, Object, ObjectID, ObjectKind, ObjectView, TAB};
use crate::hash::hex_digits;
use crate::path::{components_lt, join_text, RelativePath};
use crate::tree::object_views;

verus! {

/// One step of an edit script that turns the old entries into the new ones.
/// Each step speaks of a run of old entries, of new entries, or of both, by
/// the index at which the run begins and by its length.
#[derive(Debug, Clone, Copy, PartialEq, Eq, Structural)]
pub enum DiffOp {
    /// The runs are the same.
    Equal { old_index: usize, new_index: usize, len: usize },
    /// The old run is gone.
    Delete { old_index: usize, old_len: usize, new_index: usize },
    /// The new run has come.
    Insert { old_index: usize, new_index: usize, new_len: usize },
    /// The new run stands where the old run stood.
    Replace { old_index: usize, old_len: usize, new_index: usize, new_len: usize },
}

/// What the edit script compares of an entry: its kind (0 for a tree, 1 for
/// a file), its id and the text of its name.
pub open spec fn diff_key(o: ObjectView) -> (u8, u64, Seq<u8>) {
    (
        match o.kind {
            ObjectKind::Tree => 0u8,
            ObjectKind::File => 1u8,
        },
        o.id,
        join_text(o.basename),
    )
}

pub open spec fn diff_keys(entries: Seq<ObjectView>) -> Seq<(u8, u64, Seq<u8>)> {
    Seq::new(entries.len(), |i: int| diff_key(entries[i]))
}

pub open spec fn key_views(keys: Seq<(u8, u64, Vec<u8>)>) -> Seq<(u8, u64, Seq<u8>)> {
    Seq::new(keys.len(), |i: int| (keys[i].0, keys[i].1, keys[i].2@))
}

/// The edit script that the Myers algorithm of the `similar` crate gives for
/// two lists of keys.
pub uninterp spec fn myers_ops(
    old: Seq<(u8, u64, Seq<u8>)>,
    new: Seq<(u8, u64, Seq<u8>)>,
) -> Seq<DiffOp>;

/// Computes the edit script from `old` to `new` with
/// `similar::capture_diff_slices` and the Myers algorithm.  The script is
/// taken to depend on the two lists alone; nothing is claimed of its steps.
#[verifier::external_body]
fn capture_diff(old: &Vec<(u8, u64, Vec<u8>)>, new: &Vec<(u8, u64, Vec<u8>)>) -> (ops: Vec<
    DiffOp,
>)
    ensures
        ops@ == myers_ops(key_views(old@), key_views(new@)),
{
    let ops = similar::capture_diff_slices(Algorithm::Myers, old, new);
    ops.into_iter().map(|op| match op {
        similar::DiffOp::Equal { old_index, new_index, len } => DiffOp::Equal { old_index, new_index, len },
        similar::DiffOp::Delete { old_index, old_len, new_index } => DiffOp::Delete { old_index, old_len, new_index },
        similar::DiffOp::Insert { old_index, new_index, new_len } => DiffOp::Insert { old_index, new_index, new_len },
        similar::DiffOp::Replace { old_index, old_len, new_index, new_len } => DiffOp::Replace { old_index, old_len, new_index, new_len },
    }).collect()
}

/// The keys of the entries.
fn keys_of(entries: &Vec<Object>) -> (keys: Vec<(u8, u64, Vec<u8>)>)
    ensures
        key_views(keys@) == diff_keys(object_views(entries@)),
{
    let mut keys: Vec<(u8, u64, Vec<u8>)> = Vec::new();
    let mut i: usize = 0;
    while i < entries.len()
        invariant
            i <= entries.len(),
            key_views(keys@) == diff_keys(object_views(entries@)).take(i as int),
        decreases entries.len() - i,
    {
        let kind: u8 = match entries[i].kind {
            ObjectKind::Tree => 0,
            ObjectKind::File => 1,
        };
        let ghost had = key_views(keys@);
        let text = entries[i].basename.as_path();
        keys.push((kind, entries[i].id.as_u64(), text));
        assert(key_views(keys@) =~= had.push(diff_key(entries[i as int]@)));
        i = i + 1;
        assert(key_views(keys@) =~= diff_keys(object_views(entries@)).take(i as int));
    }
    assert(diff_keys(object_views(entries@)).take(entries.len() as int) =~= diff_keys(
        object_views(entries@),
    ));
    keys
}

/// One line of a comparison, as contracts see it.
pub struct DiffLineView {
    pub a: Option<ObjectView>,
    pub b: Option<ObjectView>,
    pub descend: bool,
}

/// One line of a comparison: an entry of the old tree that is gone, an entry
/// of the new tree that has come, or both where one took the place of the
/// other under the same name.
#[derive(Debug, PartialEq, Eq)]
pub struct DiffLine {
    /// The entry of the old tree.
    pub a: Option<Object>,
    /// The entry of the new tree.
    pub b: Option<Object>,
    /// Whether both entries are trees, so that the comparison goes on
    /// between them one level down.
    pub descend: bool,
}

pub open spec fn option_view(o: Option<Object>) -> Option<ObjectView> {
    match o {
        Some(x) => Some(x@),
        None => None,
    }
}

impl View for DiffLine {
    type V = DiffLineView;

    open spec fn view(&self) -> DiffLineView {
        DiffLineView { a: option_view(self.a), b: option_view(self.b), descend: self.descend }
    }
}

pub open spec fn line_views(v: Seq<DiffLine>) -> Seq<DiffLineView> {
    Seq::new(v.len(), |i: int| v[i]@)
}

/// The entries of one name in a replaced run, as contracts see them.
pub struct GroupView {
    pub name: Seq<Seq<u8>>,
    pub a: Option<ObjectView>,
    pub b: Option<ObjectView>,
}

/// The entries of one name in a replaced run.
struct Group {
    name: RelativePath,
    a: Option<Object>,
    b: Option<Object>,
}

impl View for Group {
    type V = GroupView;

    closed spec fn view(&self) -> GroupView {
        GroupView { name: self.name@, a: option_view(self.a), b: option_view(self.b) }
    }
}

spec fn group_views(v: Seq<Group>) -> Seq<GroupView> {
    Seq::new(v.len(), |i: int| v[i]@)
}

/// A group with one entry, on the old or on the new side.
pub open spec fn single(new_side: bool, o: ObjectView) -> GroupView {
    if new_side {
        GroupView { name: o.basename, a: None, b: Some(o) }
    } else {
        GroupView { name: o.basename, a: Some(o), b: None }
    }
}

/// The group with `o` on one side; what stood on that side is gone.
pub open spec fn with_entry(g: GroupView, new_side: bool, o: ObjectView) -> GroupView {
    if new_side {
        GroupView { name: g.name, a: g.a, b: Some(o) }
    } else {
        GroupView { name: g.name, a: Some(o), b: g.b }
    }
}

/// Puts an entry into the groups, which stand in ascending order of their
/// names: into the group of its name, or into a new group at its place.
pub open spec fn put(groups: Seq<GroupView>, new_side: bool, o: ObjectView) -> Seq<GroupView>
    decreases groups.len(),
{
    if groups.len() == 0 {
        seq![single(new_side, o)]
    } else if groups.last().name == o.basename {
        groups.drop_last().push(with_entry(groups.last(), new_side, o))
    } else if components_lt(groups.last().name, o.basename) {
        groups.push(single(new_side, o))
    } else {
        put(groups.drop_last(), new_side, o).push(groups.last())
    }
}

/// Puts a run of entries into the groups, one after the other.
pub open spec fn put_all(groups: Seq<GroupView>, new_side: bool, run: Seq<ObjectView>) -> Seq<
    GroupView,
>
    decreases run.len(),
{
    if run.len() == 0 {
        groups
    } else {
        put(put_all(groups, new_side, run.drop_last()), new_side, run.last())
    }
}

/// The line of a group: both entries of the name side by side; the
/// comparison goes on below them where both are trees.
pub open spec fn group_line(g: GroupView) -> DiffLineView {
    DiffLineView {
        a: g.a,
        b: g.b,
        descend: g.a matches Some(a) && g.b matches Some(b) && a.kind == ObjectKind::Tree && b.kind
            == ObjectKind::Tree,
    }
}

/// The lines of a replaced run: one line for each name of the old and the
/// new run, in ascending order of the names, with the last old and the last
/// new entry of that name.
pub open spec fn replaced(old_run: Seq<ObjectView>, new_run: Seq<ObjectView>) -> Seq<
    DiffLineView,
> {
    let groups = put_all(put_all(Seq::empty(), false, old_run), true, new_run);
    Seq::new(groups.len(), |i: int| group_line(groups[i]))
}

/// The lines of a run that is gone: one for each entry, in their order.
pub open spec fn removed(run: Seq<ObjectView>) -> Seq<DiffLineView> {
    Seq::new(run.len(), |i: int| DiffLineView { a: Some(run[i]), b: None, descend: false })
}

/// The lines of a run that has come: one for each entry, in their order.
pub open spec fn added(run: Seq<ObjectView>) -> Seq<DiffLineView> {
    Seq::new(run.len(), |i: int| DiffLineView { a: None, b: Some(run[i]), descend: false })
}

/// A step stays within the two lists.
pub open spec fn op_in_bounds(op: DiffOp, old_len: nat, new_len: nat) -> bool {
    match op {
        DiffOp::Equal { .. } => true,
        DiffOp::Delete { old_index, old_len: n, .. } => old_index + n <= old_len,
        DiffOp::Insert { new_index, new_len: n, .. } => new_index + n <= new_len,
        DiffOp::Replace { old_index, old_len: n, new_index, new_len: m } => old_index + n
            <= old_len && new_index + m <= new_len,
    }
}

pub open spec fn ops_in_bounds(ops: Seq<DiffOp>, old_len: nat, new_len: nat) -> bool {
    forall|i: int| 0 <= i < ops.len() ==> op_in_bounds(#[trigger] ops[i], old_len, new_len)
}

/// The lines of one step: none for equal runs.
pub open spec fn op_lines(old: Seq<ObjectView>, new: Seq<ObjectView>, op: DiffOp) -> Seq<
    DiffLineView,
> {
    match op {
        DiffOp::Equal { .. } => Seq::empty(),
        DiffOp::Delete { old_index, old_len, .. } => removed(
            old.subrange(old_index as int, old_index + old_len),
        ),
        DiffOp::Insert { new_index, new_len, .. } => added(
            new.subrange(new_index as int, new_index + new_len),
        ),
        DiffOp::Replace { old_index, old_len, new_index, new_len } => replaced(
            old.subrange(old_index as int, old_index + old_len),
            new.subrange(new_index as int, new_index + new_len),
        ),
    }
}

/// The lines of an edit script: those of its steps, in their order.
pub open spec fn script_lines(old: Seq<ObjectView>, new: Seq<ObjectView>, ops: Seq<DiffOp>) -> Seq<
    DiffLineView,
>
    decreases ops.len(),
{
    if ops.len() == 0 {
        Seq::empty()
    } else {
        script_lines(old, new, ops.drop_last()) + op_lines(old, new, ops.last())
    }
}

/// Where `put` places an entry: at `at`, into the group before it if that
/// has its name.
proof fn lemma_put_at(groups: Seq<GroupView>, new_side: bool, o: ObjectView, at: int)
    requires
        0 <= at <= groups.len(),
        forall|k: int|
            at <= k < groups.len() ==> groups[k].name != o.basename && !components_lt(
                groups[k].name,
                o.basename,
            ),
        at > 0 ==> groups[at - 1].name == o.basename || components_lt(
            groups[at - 1].name,
            o.basename,
        ),
    ensures
        put(groups, new_side, o) == if at > 0 && groups[at - 1].name == o.basename {
            groups.update(at - 1, with_entry(groups[at - 1], new_side, o))
        } else {
            groups.insert(at, single(new_side, o))
        },
    decreases groups.len(),
{
    if groups.len() == 0 {
        assert(groups.insert(0, single(new_side, o)) =~= seq![single(new_side, o)]);
    } else if at == groups.len() {
        if groups.last().name == o.basename {
            assert(groups.drop_last().push(with_entry(groups.last(), new_side, o))
                =~= groups.update(at - 1, with_entry(groups[at - 1], new_side, o)));
        } else {
            assert(groups.push(single(new_side, o)) =~= groups.insert(at, single(new_side, o)));
        }
    } else {
        let init = groups.drop_last();
        lemma_put_at(init, new_side, o, at);
        if at > 0 && groups[at - 1].name == o.basename {
            assert(init.update(at - 1, with_entry(init[at - 1], new_side, o)).push(groups.last())
                =~= groups.update(at - 1, with_entry(groups[at - 1], new_side, o)));
        } else {
            assert(init.insert(at, single(new_side, o)).push(groups.last()) =~= groups.insert(
                at,
                single(new_side, o),
            ));
        }
    }
}

/// Puts the entries `entries[from..from + len]` into the groups.
fn put_run(groups: &mut Vec<Group>, new_side: bool, entries: &Vec<Object>, from: usize, len: usize)
    requires
        from + len <= entries.len(),
    ensures
        group_views(final(groups)@) == put_all(
            group_views(old(groups)@),
            new_side,
            object_views(entries@).subrange(from as int, from + len),
        ),
{
    let ghost run = object_views(entries@).subrange(from as int, from + len);
    let ghost start = group_views(groups@);
    let mut i: usize = 0;
    assert(run.take(0) =~= Seq::empty());
    while i < len
        invariant
            i <= len,
            from + len <= entries.len(),
            run == object_views(entries@).subrange(from as int, from + len),
            group_views(groups@) == put_all(start, new_side, run.take(i as int)),
        decreases len - i,
    {
        assert(run.take(i + 1).drop_last() =~= run.take(i as int));
        assert(run.take(i + 1).last() == entries[from + i]@);
        let o = entries[from + i].clone();
        let ghost had = group_views(groups@);
        let mut at: usize = groups.len();
        while at > 0 && !groups[at - 1].name.equals(&o.basename) && !groups[at
            - 1].name.is_before(&o.basename)
            invariant
                at <= groups.len(),
                had == group_views(groups@),
                forall|k: int|
                    at <= k < groups.len() ==> had[k].name != o@.basename && !components_lt(
                        had[k].name,
                        o@.basename,
                    ),
            decreases at,
        {
            at = at - 1;
        }
        proof {
            lemma_put_at(had, new_side, o@, at as int);
        }
        if at > 0 && groups[at - 1].name.equals(&o.basename) {
            let g = groups.remove(at - 1);
            let updated = if new_side {
                Group { name: g.name, a: g.a, b: Some(o) }
            } else {
                Group { name: g.name, a: Some(o), b: g.b }
            };
            groups.insert(at - 1, updated);
            assert(group_views(groups@) =~= had.update(
                at - 1,
                with_entry(had[at - 1], new_side, o@),
            ));
        } else {
            let name = o.basename.clone();
            let fresh = if new_side {
                Group { name, a: None, b: Some(o) }
            } else {
                Group { name, a: Some(o), b: None }
            };
            groups.insert(at, fresh);
            assert(group_views(groups@) =~= had.insert(at as int, single(new_side, o@)));
        }
        i = i + 1;
    }
    assert(run.take(len as int) =~= run);
}

/// Appends the lines of the run `entries[from..from + len]`, each entry on
/// the old or on the new side of its line.
fn push_run(
    lines: &mut Vec<DiffLine>,
    new_side: bool,
    entries: &Vec<Object>,
    from: usize,
    len: usize,
)
    requires
        from + len <= entries.len(),
    ensures
        line_views(final(lines)@) == line_views(old(lines)@) + if new_side {
            added(object_views(entries@).subrange(from as int, from + len))
        } else {
            removed(object_views(entries@).subrange(from as int, from + len))
        },
{
    let ghost run = object_views(entries@).subrange(from as int, from + len);
    let ghost start = line_views(lines@);
    let ghost all = if new_side {
        added(run)
    } else {
        removed(run)
    };
    let mut i: usize = 0;
    assert(line_views(lines@) =~= start + all.take(0));
    while i < len
        invariant
            i <= len,
            from + len <= entries.len(),
            run == object_views(entries@).subrange(from as int, from + len),
            all == if new_side {
                added(run)
            } else {
                removed(run)
            },
            line_views(lines@) == start + all.take(i as int),
        decreases len - i,
    {
        let o = entries[from + i].clone();
        assert(run[i as int] == entries[from + i]@);
        let line = if new_side {
            DiffLine { a: None, b: Some(o), descend: false }
        } else {
            DiffLine { a: Some(o), b: None, descend: false }
        };
        let ghost had = line_views(lines@);
        lines.push(line);
        assert(line_views(lines@) =~= had.push(line@));
        i = i + 1;
        assert(line_views(lines@) =~= start + all.take(i as int));
    }
    assert(all.take(len as int) =~= all);
}

/// The lines of a comparison of the entries of two trees along an edit
/// script: nothing for equal runs; a line for each entry that is gone and for
/// each that has come; for a replaced run a line for each of its names, in
/// ascending order, with the old and the new entry of the name.
pub fn diff_lines(old: &Vec<Object>, new: &Vec<Object>, ops: &Vec<DiffOp>) -> (lines: Vec<
    DiffLine,
>)
    requires
        ops_in_bounds(ops@, old@.len(), new@.len()),
    ensures
        line_views(lines@) == script_lines(object_views(old@), object_views(new@), ops@),
{
    let mut lines: Vec<DiffLine> = Vec::new();
    let mut i: usize = 0;
    assert(ops@.take(0) =~= Seq::empty());
    assert(line_views(lines@) =~= Seq::empty());
    while i < ops.len()
        invariant
            i <= ops.len(),
            ops_in_bounds(ops@, old@.len(), new@.len()),
            line_views(lines@) == script_lines(
                object_views(old@),
                object_views(new@),
                ops@.take(i as int),
            ),
        decreases ops.len() - i,
    {
        assert(ops@.take(i + 1).drop_last() =~= ops@.take(i as int));
        assert(ops@.take(i + 1).last() == ops@[i as int]);
        assert(op_in_bounds(ops@[i as int], old@.len(), new@.len()));
        let ghost had = line_views(lines@);
        match ops[i] {
            DiffOp::Equal { .. } => {
                assert(had + Seq::<DiffLineView>::empty() =~= had);
            },
            DiffOp::Delete { old_index, old_len, .. } => {
                push_run(&mut lines, false, old, old_index, old_len);
            },
            DiffOp::Insert { new_index, new_len, .. } => {
                push_run(&mut lines, true, new, new_index, new_len);
            },
            DiffOp::Replace { old_index, old_len, new_index, new_len } => {
                let mut groups: Vec<Group> = Vec::new();
                assert(group_views(groups@) =~= Seq::empty());
                put_run(&mut groups, false, old, old_index, old_len);
                put_run(&mut groups, true, new, new_index, new_len);
                let ghost gs = group_views(groups@);
                let ghost all = Seq::new(gs.len(), |k: int| group_line(gs[k]));
                assert(all == replaced(
                    object_views(old@).subrange(old_index as int, old_index + old_len),
                    object_views(new@).subrange(new_index as int, new_index + new_len),
                ));
                let count = groups.len();
                let mut k: usize = 0;
                assert(line_views(lines@) =~= had + all.take(0));
                while k < count
                    invariant
                        k <= count == groups.len(),
                        gs == group_views(groups@),
                        all == Seq::new(gs.len(), |k: int| group_line(gs[k])),
                        line_views(lines@) == had + all.take(k as int),
                    decreases count - k,
                {
                    let g = &groups[k];
                    let a = match &g.a {
                        Some(o) => Some(o.clone()),
                        None => None,
                    };
                    let b = match &g.b {
                        Some(o) => Some(o.clone()),
                        None => None,
                    };
                    let descend = match (&g.a, &g.b) {
                        (Some(x), Some(y)) => x.is_tree() && y.is_tree(),
                        _ => false,
                    };
                    let line = DiffLine { a, b, descend };
                    assert(line@ == group_line(gs[k as int]));
                    let ghost before = line_views(lines@);
                    lines.push(line);
                    assert(line_views(lines@) =~= before.push(line@));
                    k = k + 1;
                    assert(line_views(lines@) =~= had + all.take(k as int));
                }
                assert(all.take(count as int) =~= all);
            },
        }
        i = i + 1;
    }
    assert(ops@.take(ops.len() as int) =~= ops@);
    lines
}

/// Whether every step of the script stays within the two lists.
pub fn ops_fit(ops: &Vec<DiffOp>, old_len: usize, new_len: usize) -> (ok: bool)
    ensures
        ok == ops_in_bounds(ops@, old_len as nat, new_len as nat),
{
    let mut i: usize = 0;
    while i < ops.len()
        invariant
            i <= ops.len(),
            forall|k: int|
                0 <= k < i ==> op_in_bounds(#[trigger] ops@[k], old_len as nat, new_len as nat),
        decreases ops.len() - i,
    {
        let ok = match ops[i] {
            DiffOp::Equal { .. } => true,
            DiffOp::Delete { old_index, old_len: n, .. } => n <= old_len && old_index <= old_len
                - n,
            DiffOp::Insert { new_index, new_len: n, .. } => n <= new_len && new_index <= new_len
                - n,
            DiffOp::Replace { old_index, old_len: n, new_index, new_len: m } => n <= old_len
                && old_index <= old_len - n && m <= new_len && new_index <= new_len - m,
        };
        if !ok {
            assert(!op_in_bounds(ops@[i as int], old_len as nat, new_len as nat));
            return false;
        }
        i = i + 1;
    }
    true
}

/// Compares the entries of two trees: the edit script of the Myers algorithm
/// between them, turned into lines.  Trees with the same entries give no
/// line.  `None` says that the script reached outside the trees, which no
/// line can show.
pub fn diff_trees(old: &Vec<Object>, new: &Vec<Object>) -> (r: Option<Vec<DiffLine>>)
    ensures
        ({
            let ops = myers_ops(
                diff_keys(object_views(old@)),
                diff_keys(object_views(new@)),
            );
            if ops_in_bounds(ops, old@.len(), new@.len()) {
                r matches Some(lines) && line_views(lines@) == script_lines(
                    object_views(old@),
                    object_views(new@),
                    ops,
                )
            } else {
                r is None
            }
        }),
{
    let old_keys = keys_of(old);
    let new_keys = keys_of(new);
    let ops = capture_diff(&old_keys, &new_keys);
    if ops_fit(&ops, old.len(), new.len()) {
        Some(diff_lines(old, new, &ops))
    } else {
        None
    }
}

/// How a piece of a line is to be shown.
#[derive(Debug, Clone, Copy, PartialEq, Eq, Structural)]
pub enum Tone {
    /// As it is.
    Plain,
    /// As something of the old tree that is gone or has changed.
    Removed,
    /// As something of the new tree that has come or has changed.
    Added,
}

/// A piece of a line, as contracts see it.
pub struct SpanView {
    pub text: Seq<u8>,
    pub tone: Tone,
}

/// A piece of a line with the tone in which to show it.
#[derive(Debug, PartialEq, Eq)]
pub struct Span {
    pub text: Vec<u8>,
    pub tone: Tone,
}

impl View for Span {
    type V = SpanView;

    open spec fn view(&self) -> SpanView {
        SpanView { text: self.text@, tone: self.tone }
    }
}

pub open spec fn span_views(v: Seq<Span>) -> Seq<SpanView> {
    Seq::new(v.len(), |i: int| v[i]@)
}

/// `n` blanks.
pub open spec fn blanks(n: nat) -> Seq<u8> {
    Seq::new(n, |i: int| 0x20u8)
}

pub open spec fn plain(text: Seq<u8>) -> SpanView {
    SpanView { text, tone: Tone::Plain }
}

/// The tone of one of two things side by side: plain where they are the
/// same, else that of its side.
pub open spec fn side_tone(same: bool, side: Tone) -> Tone {
    if same {
        Tone::Plain
    } else {
        side
    }
}

/// The pieces of the line that shows an entry of the old tree beside one of
/// the new tree, below the directory `parent`: the marks of both sides, the
/// kinds, the ids and the path, with a tab before the ids and before the
/// path.  What is missing on one side is blank; what differs between the
/// sides, or stands on one side only, has the tone of its side.
pub open spec fn rendered(line: DiffLineView, parent: Seq<Seq<u8>>) -> Seq<SpanView> {
    let slash = plain(seq![0x2fu8]);
    let tab = plain(seq![TAB]);
    match (line.a, line.b) {
        (Some(a), Some(b)) => seq![
            SpanView { text: seq![0x2du8], tone: Tone::Removed },
            slash,
            SpanView { text: seq![0x2bu8], tone: Tone::Added },
            plain(blanks(1)),
            SpanView { text: kind_word(a.kind), tone: side_tone(a.kind == b.kind, Tone::Removed) },
            slash,
            SpanView { text: kind_word(b.kind), tone: side_tone(a.kind == b.kind, Tone::Added) },
            tab,
            SpanView {
                text: hex_digits(a.id as nat, 16),
                tone: side_tone(a.id == b.id, Tone::Removed),
            },
            slash,
            SpanView {
                text: hex_digits(b.id as nat, 16),
                tone: side_tone(a.id == b.id, Tone::Added),
            },
            tab,
            plain(join_text(parent + a.basename)),
        ],
        (Some(a), None) => seq![
            SpanView { text: seq![0x2du8], tone: Tone::Removed },
            slash,
            plain(blanks(2)),
            SpanView { text: kind_word(a.kind), tone: Tone::Removed },
            slash,
            plain(blanks(4)),
            tab,
            SpanView { text: hex_digits(a.id as nat, 16), tone: Tone::Removed },
            slash,
            plain(blanks(16)),
            tab,
            SpanView { text: join_text(parent + a.basename), tone: Tone::Removed },
        ],
        (None, Some(b)) => seq![
            plain(blanks(1)),
            slash,
            SpanView { text: seq![0x2bu8], tone: Tone::Added },
            plain(blanks(1)),
            plain(blanks(4)),
            slash,
            SpanView { text: kind_word(b.kind), tone: Tone::Added },
            tab,
            plain(blanks(16)),
            slash,
            SpanView { text: hex_digits(b.id as nat, 16), tone: Tone::Added },
            tab,
            SpanView { text: join_text(parent + b.basename), tone: Tone::Added },
        ],
        (None, None) => Seq::empty(),
    }
}

fn blank_text(n: usize) -> (text: Vec<u8>)
    ensures
        text@ == blanks(n as nat),
{
    let mut text: Vec<u8> = Vec::new();
    let mut i: usize = 0;
    while i < n
        invariant
            i <= n,
            text@ == blanks(i as nat),
        decreases n - i,
    {
        text.push(0x20u8);
        i = i + 1;
        assert(text@ =~= blanks(i as nat));
    }
    text
}

fn piece(text: Vec<u8>, tone: Tone) -> (s: Span)
    ensures
        s@ == (SpanView { text: text@, tone }),
{
    Span { text, tone }
}

fn mark(byte: u8, tone: Tone) -> (s: Span)
    ensures
        s@ == (SpanView { text: seq![byte], tone }),
{
    let mut text: Vec<u8> = Vec::new();
    text.push(byte);
    assert(text@ =~= seq![byte]);
    Span { text, tone }
}

/// Lays out one line of a comparison for showing.
pub fn render(line: &DiffLine, parent: &RelativePath) -> (spans: Vec<Span>)
    ensures
        span_views(spans@) == rendered(line@, parent@),
{
    let mut spans: Vec<Span> = Vec::new();
    match (&line.a, &line.b) {
        (Some(a), Some(b)) => {
            let same_kind = a.kind == b.kind;
            let same_id = a.id.as_u64() == b.id.as_u64();
            spans.push(mark(0x2du8, Tone::Removed));
            spans.push(mark(0x2fu8, Tone::Plain));
            spans.push(mark(0x2bu8, Tone::Added));
            spans.push(piece(blank_text(1), Tone::Plain));
            spans.push(
                piece(a.kind.as_bytes(), if same_kind { Tone::Plain } else { Tone::Removed }),
            );
            spans.push(mark(0x2fu8, Tone::Plain));
            spans.push(piece(b.kind.as_bytes(), if same_kind { Tone::Plain } else { Tone::Added }));
            spans.push(mark(TAB, Tone::Plain));
            spans.push(
                piece(a.id.to_hex_bytes(), if same_id { Tone::Plain } else { Tone::Removed }),
            );
            spans.push(mark(0x2fu8, Tone::Plain));
            spans.push(piece(b.id.to_hex_bytes(), if same_id { Tone::Plain } else { Tone::Added }));
            spans.push(mark(TAB, Tone::Plain));
            spans.push(piece(parent.concat(&a.basename).as_path(), Tone::Plain));
            assert(span_views(spans@) =~= rendered(line@, parent@));
        },
        (Some(a), None) => {
            spans.push(mark(0x2du8, Tone::Removed));
            spans.push(mark(0x2fu8, Tone::Plain));
            spans.push(piece(blank_text(2), Tone::Plain));
            spans.push(piece(a.kind.as_bytes(), Tone::Removed));
            spans.push(mark(0x2fu8, Tone::Plain));
            spans.push(piece(blank_text(4), Tone::Plain));
            spans.push(mark(TAB, Tone::Plain));
            spans.push(piece(a.id.to_hex_bytes(), Tone::Removed));
            spans.push(mark(0x2fu8, Tone::Plain));
            spans.push(piece(blank_text(16), Tone::Plain));
            spans.push(mark(TAB, Tone::Plain));
            spans.push(piece(parent.concat(&a.basename).as_path(), Tone::Removed));
            assert(span_views(spans@) =~= rendered(line@, parent@));
        },
        (None, Some(b)) => {
            spans.push(piece(blank_text(1), Tone::Plain));
            spans.push(mark(0x2fu8, Tone::Plain));
            spans.push(mark(0x2bu8, Tone::Added));
            spans.push(piece(blank_text(1), Tone::Plain));
            spans.push(piece(blank_text(4), Tone::Plain));
            spans.push(mark(0x2fu8, Tone::Plain));
            spans.push(piece(b.kind.as_bytes(), Tone::Added));
            spans.push(mark(TAB, Tone::Plain));
            spans.push(piece(blank_text(16), Tone::Plain));
            spans.push(mark(0x2fu8, Tone::Plain));
            spans.push(piece(b.id.to_hex_bytes(), Tone::Added));
            spans.push(mark(TAB, Tone::Plain));
            spans.push(piece(parent.concat(&b.basename).as_path(), Tone::Added));
            assert(span_views(spans@) =~= rendered(line@, parent@));
        },
        (None, None) => {
            assert(span_views(spans@) =~= rendered(line@, parent@));
        },
    }
    spans
}

/// The line at the head of a comparison of two trees: both roots side by
/// side, with the comparison to go on below them.  One and the same tree has
/// no such line: identical trees show nothing.
pub open spec fn head_line(a: u64, b: u64) -> Option<DiffLineView> {
    if a == b {
        None
    } else {
        Some(
            DiffLineView {
                a: Some(ObjectView { kind: ObjectKind::Tree, id: a, basename: Seq::empty() }),
                b: Some(ObjectView { kind: ObjectKind::Tree, id: b, basename: Seq::empty() }),
                descend: true,
            },
        )
    }
}

/// The line at the head of the comparison of the trees `a` and `b`.
pub fn root_line(a: ObjectID, b: ObjectID) -> (r: Option<DiffLine>)
    ensures
        match head_line(a.0.xxh3, b.0.xxh3) {
            Some(line) => r matches Some(l) && l@ == line,
            None => r is None,
        },
{
    if a.as_u64() == b.as_u64() {
        return None;
    }
    let old = Object::with_basename(ObjectKind::Tree, a, RelativePath::Root);
    let new = Object::with_basename(ObjectKind::Tree, b, RelativePath::Root);
    Some(DiffLine { a: Some(old), b: Some(new), descend: true })
}

/// Whether the comparison goes on between two trees at the given depth: not
/// where they are the same tree, and not at or below the greatest depth
/// asked for.
pub fn goes_on(a: &ObjectID, b: &ObjectID, max_depth: Option<usize>, depth: usize) -> (on: bool)
    ensures
        on == (a.0.xxh3 != b.0.xxh3 && match max_depth {
            Some(limit) => depth < limit,
            None => true,
        }),
{
    if a.as_u64() == b.as_u64() {
        return false;
    }
    match max_depth {
        Some(limit) => depth < limit,
        None => true,
    }
}

} // verus!

//! Tree objects: the entries of one directory, their order and their text.

use vstd::prelude::*;

use vstd::utf8::{decode_utf8, valid_utf8};

use crate::data::{
    entry_line, kind_of_word, Object, ObjectID, ObjectKind, ObjectView, NEWLINE, TAB,
};
use crate::error::{ParseError, ParseHashError};
use crate::hash::{parse_hash, xxh3_64};
use crate::hash::hex_digits;
use crate::path::{
    components_lt, join_text, lemma_components_lt_irreflexive, lemma_components_lt_total,
    lemma_components_lt_transitive, path_components, RelativePath, SEPARATOR,
};
use crate::text::{lossy_text, split, split_on, utf8_lossy, views};

verus! {

/// The entries that a vector of objects holds, as contracts see them.
pub open spec fn object_views(v: Seq<Object>) -> Seq<ObjectView> {
    Seq::new(v.len(), |i: int| v[i]@)
}

/// Strict order of entries: by name alone.
pub open spec fn entry_lt(a: ObjectView, b: ObjectView) -> bool {
    components_lt(a.basename, b.basename)
}

/// No entry is followed, anywhere behind it, by one that sorts before it.
pub open spec fn is_sorted(s: Seq<ObjectView>) -> bool {
    forall|i: int, j: int| 0 <= i < j < s.len() ==> !entry_lt(s[j], s[i])
}

/// Every entry sorts strictly before the next: the order that a tree object
/// must have.
pub open spec fn strictly_ascending(s: Seq<ObjectView>) -> bool {
    forall|i: int, j: int| 0 <= i < j < s.len() ==> entry_lt(s[i], s[j])
}

/// `s` with `x` put behind the last entry that does not sort after it.
pub open spec fn insert_sorted(s: Seq<ObjectView>, x: ObjectView) -> Seq<ObjectView>
    decreases s.len(),
{
    if s.len() > 0 && entry_lt(x, s.last()) {
        insert_sorted(s.drop_last(), x).push(s.last())
    } else {
        s.push(x)
    }
}

/// The entries of `s` in ascending order of their names; entries with equal
/// names keep the order they had.
pub open spec fn sorted_entries(s: Seq<ObjectView>) -> Seq<ObjectView>
    decreases s.len(),
{
    if s.len() == 0 {
        Seq::empty()
    } else {
        insert_sorted(sorted_entries(s.drop_last()), s.last())
    }
}

/// The text of a tree object: one line per entry, each ended by a newline.
pub open spec fn serialize(entries: Seq<ObjectView>) -> Seq<u8>
    decreases entries.len(),
{
    if entries.len() == 0 {
        Seq::empty()
    } else {
        serialize(entries.drop_last()) + entry_line(entries.last()) + seq![NEWLINE]
    }
}

/// The payload of the tree object with the given children: their lines in
/// ascending order of their names.
pub open spec fn tree_payload(children: Seq<ObjectView>) -> Seq<u8> {
    serialize(sorted_entries(children))
}

/// The id of the tree object with the given children.
pub open spec fn tree_id(children: Seq<ObjectView>) -> u64 {
    xxh3_64(tree_payload(children))
}

/// Where `insert_sorted` puts `x`: behind `s[..at]`, before `s[at..]`.
pub proof fn lemma_insert_sorted_at(s: Seq<ObjectView>, x: ObjectView, at: int)
    requires
        0 <= at <= s.len(),
        forall|k: int| at <= k < s.len() ==> entry_lt(x, s[k]),
        at > 0 ==> !entry_lt(x, s[at - 1]),
    ensures
        insert_sorted(s, x) == s.take(at) + seq![x] + s.skip(at),
    decreases s.len(),
{
    if s.len() > 0 && entry_lt(x, s.last()) {
        let init = s.drop_last();
        assert(at < s.len());
        lemma_insert_sorted_at(init, x, at);
        assert(init.take(at) =~= s.take(at));
        assert((init.take(at) + seq![x] + init.skip(at)).push(s.last()) =~= s.take(at) + seq![x]
            + s.skip(at));
    } else {
        assert(at == s.len());
        assert(s.push(x) =~= s.take(at) + seq![x] + s.skip(at));
    }
}

/// No two entries have the same name.
pub open spec fn distinct_names(s: Seq<ObjectView>) -> bool {
    forall|i: int, j: int| 0 <= i < j < s.len() ==> s[i].basename != s[j].basename
}

/// Where `insert_sorted` puts `x` in `s`.
pub open spec fn insert_position(s: Seq<ObjectView>, x: ObjectView) -> int
    decreases s.len(),
{
    if s.len() > 0 && entry_lt(x, s.last()) {
        insert_position(s.drop_last(), x)
    } else {
        s.len() as int
    }
}

/// `x` goes behind the last entry that does not sort after it.
pub proof fn lemma_insert_position(s: Seq<ObjectView>, x: ObjectView)
    ensures
        0 <= insert_position(s, x) <= s.len(),
        forall|k: int| insert_position(s, x) <= k < s.len() ==> entry_lt(x, s[k]),
        insert_position(s, x) > 0 ==> !entry_lt(x, s[insert_position(s, x) - 1]),
        insert_sorted(s, x) == s.insert(insert_position(s, x), x),
    decreases s.len(),
{
    let at = insert_position(s, x);
    if s.len() > 0 && entry_lt(x, s.last()) {
        let init = s.drop_last();
        lemma_insert_position(init, x);
        assert forall|k: int| at <= k < s.len() implies entry_lt(x, s[k]) by {
            if k < s.len() - 1 {
                assert(init[k] == s[k]);
            }
        }
        if at > 0 {
            assert(init[at - 1] == s[at - 1]);
        }
    }
    lemma_insert_sorted_at(s, x, at);
    assert(s.insert(at, x) =~= s.take(at) + seq![x] + s.skip(at));
}

/// Where `a` sorts before `c`, any `b` has `a` before it or is before `c`.
pub proof fn lemma_entry_lt_between(a: ObjectView, b: ObjectView, c: ObjectView)
    requires
        entry_lt(a, c),
    ensures
        entry_lt(a, b) || entry_lt(b, c),
{
    lemma_components_lt_total(a.basename, b.basename);
    if entry_lt(b, a) {
        lemma_components_lt_transitive(b.basename, a.basename, c.basename);
    }
}

/// Putting an entry into a sorted list leaves it sorted.
pub proof fn lemma_insert_sorted_is_sorted(s: Seq<ObjectView>, x: ObjectView)
    requires
        is_sorted(s),
    ensures
        is_sorted(insert_sorted(s, x)),
{
    lemma_insert_position(s, x);
    let at = insert_position(s, x);
    let t = s.insert(at, x);
    assert forall|i: int, j: int| 0 <= i < j < t.len() implies !entry_lt(t[j], t[i]) by {
        if j == at {
            // t[j] is x, t[i] == s[i] with i < at
            if entry_lt(x, s[i]) {
                lemma_entry_lt_between(x, s[at - 1], s[i]);
            }
        } else if i == at {
            // t[i] is x, t[j] == s[j - 1] with j - 1 >= at
            assert(t[j] == s[j - 1]);
            assert(entry_lt(x, s[j - 1]));
            if entry_lt(s[j - 1], x) {
                lemma_components_lt_transitive(x.basename, s[j - 1].basename, x.basename);
                lemma_components_lt_irreflexive(x.basename);
            }
        } else {
            let a = if i < at { i } else { i - 1 };
            let b = if j < at { j } else { j - 1 };
            assert(t[i] == s[a] && t[j] == s[b]);
        }
    }
}

/// What sorting returns is sorted.
pub proof fn lemma_sorted_entries_is_sorted(s: Seq<ObjectView>)
    ensures
        is_sorted(sorted_entries(s)),
        sorted_entries(s).len() == s.len(),
    decreases s.len(),
{
    if s.len() > 0 {
        lemma_sorted_entries_is_sorted(s.drop_last());
        lemma_insert_sorted_is_sorted(sorted_entries(s.drop_last()), s.last());
        lemma_insert_position(sorted_entries(s.drop_last()), s.last());
    }
}

/// Sorting keeps the entries: each as often as it was there.
pub proof fn lemma_sorted_entries_multiset(s: Seq<ObjectView>)
    ensures
        sorted_entries(s).to_multiset() == s.to_multiset(),
    decreases s.len(),
{
    if s.len() > 0 {
        let init = s.drop_last();
        lemma_sorted_entries_multiset(init);
        let sorted = sorted_entries(init);
        lemma_insert_position(sorted, s.last());
        vstd::seq_lib::to_multiset_insert(sorted, insert_position(sorted, s.last()), s.last());
        vstd::seq_lib::to_multiset_build(init, s.last());
        assert(init.push(s.last()) =~= s);
    } else {
        assert(sorted_entries(s) =~= s);
    }
}

/// A sorted list of entries with distinct names ascends strictly.
pub proof fn lemma_sorted_distinct_ascends(s: Seq<ObjectView>)
    requires
        is_sorted(s),
        distinct_names(s),
    ensures
        strictly_ascending(s),
{
    assert forall|i: int, j: int| 0 <= i < j < s.len() implies entry_lt(s[i], s[j]) by {
        lemma_components_lt_total(s[i].basename, s[j].basename);
        assert(!entry_lt(s[j], s[i]));
        assert(s[i].basename != s[j].basename);
    }
}

/// Entries with the same members have distinct names together.
pub proof fn lemma_distinct_names_of_same_members(a: Seq<ObjectView>, b: Seq<ObjectView>)
    requires
        a.to_multiset() == b.to_multiset(),
        distinct_names(a),
    ensures
        distinct_names(b),
        a.len() == b.len(),
{
    a.to_multiset_ensures();
    b.to_multiset_ensures();
    assert forall|i: int, j: int| 0 <= i < j < b.len() implies b[i].basename
        != b[j].basename by {
        if b[i].basename == b[j].basename {
            assert(b.contains(b[i]));
            assert(b.contains(b[j]));
            assert(b.to_multiset().count(b[i]) > 0);
            assert(b.to_multiset().count(b[j]) > 0);
            assert(a.to_multiset().count(b[i]) > 0);
            assert(a.to_multiset().count(b[j]) > 0);
            assert(a.contains(b[i]));
            assert(a.contains(b[j]));
            let m = choose|m: int| 0 <= m < a.len() && a[m] == b[i];
            let n = choose|n: int| 0 <= n < a.len() && a[n] == b[j];
            // distinct names in `a` make both the same member of `a`
            assert(m == n);
            assert(b[i] == b[j]);
            // which `b` would then hold twice, and `a` only once
            lemma_count_at_least_two(b, i, j);
            lemma_count_of_distinct(a, m);
        }
    }
}

/// An entry that stands at two places is counted twice at least.
proof fn lemma_count_at_least_two(s: Seq<ObjectView>, i: int, j: int)
    requires
        0 <= i < j < s.len(),
        s[i] == s[j],
    ensures
        s.to_multiset().count(s[i]) >= 2,
{
    let t = s.remove(j);
    vstd::seq_lib::to_multiset_remove(s, j);
    t.to_multiset_ensures();
    assert(t[i] == s[i]);
    assert(t.contains(s[i]));
    assert(t.to_multiset().count(s[i]) >= 1);
    broadcast use vstd::multiset::group_multiset_axioms;

}

/// Among entries with distinct names each is counted once.
proof fn lemma_count_of_distinct(s: Seq<ObjectView>, m: int)
    requires
        0 <= m < s.len(),
        distinct_names(s),
    ensures
        s.to_multiset().count(s[m]) == 1,
{
    let t = s.remove(m);
    vstd::seq_lib::to_multiset_remove(s, m);
    t.to_multiset_ensures();
    s.to_multiset_ensures();
    assert(s.contains(s[m]));
    if t.contains(s[m]) {
        let k = choose|k: int| 0 <= k < t.len() && t[k] == s[m];
        let orig = if k < m { k } else { k + 1 };
        assert(t[k] == s[orig]);
        assert(false);
    }
    assert(t.to_multiset().count(s[m]) == 0);
    broadcast use vstd::multiset::group_multiset_axioms;

}

/// There is one way only to sort entries with distinct names: two sorted
/// lists with the same members are the same list.
pub proof fn lemma_sorted_unique(a: Seq<ObjectView>, b: Seq<ObjectView>)
    requires
        is_sorted(a),
        is_sorted(b),
        distinct_names(a),
        a.to_multiset() == b.to_multiset(),
    ensures
        a == b,
    decreases a.len(),
{
    lemma_distinct_names_of_same_members(a, b);
    a.to_multiset_ensures();
    b.to_multiset_ensures();
    if a.len() == 0 {
        assert(a =~= b);
    } else {
        lemma_sorted_distinct_ascends(a);
        lemma_sorted_distinct_ascends(b);
        let x = a.last();
        let y = b.last();
        assert(a.contains(x));
        assert(b.contains(y));
        assert(a.to_multiset().count(x) > 0);
        assert(b.to_multiset().count(y) > 0);
        assert(b.to_multiset().count(x) > 0);
        assert(a.to_multiset().count(y) > 0);
        assert(b.contains(x));
        assert(a.contains(y));
        let i = choose|i: int| 0 <= i < a.len() && a[i] == y;
        let j = choose|j: int| 0 <= j < b.len() && b[j] == x;
        if x != y {
            assert(i < a.len() - 1);
            assert(j < b.len() - 1);
            assert(entry_lt(y, x));
            assert(entry_lt(x, y));
            lemma_components_lt_transitive(x.basename, y.basename, x.basename);
            lemma_components_lt_irreflexive(x.basename);
        }
        let a0 = a.drop_last();
        let b0 = b.drop_last();
        assert(a0 =~= a.remove(a.len() - 1));
        assert(b0 =~= b.remove(b.len() - 1));
        vstd::seq_lib::to_multiset_remove(a, a.len() - 1);
        vstd::seq_lib::to_multiset_remove(b, b.len() - 1);
        assert(is_sorted(a0)) by {
            assert forall|p: int, q: int| 0 <= p < q < a0.len() implies !entry_lt(a0[q], a0[p]) by {
                assert(a0[p] == a[p] && a0[q] == a[q]);
            }
        }
        assert(is_sorted(b0)) by {
            assert forall|p: int, q: int| 0 <= p < q < b0.len() implies !entry_lt(b0[q], b0[p]) by {
                assert(b0[p] == b[p] && b0[q] == b[q]);
            }
        }
        assert(distinct_names(a0)) by {
            assert forall|p: int, q: int| 0 <= p < q < a0.len() implies a0[p].basename
                != a0[q].basename by {
                assert(a0[p] == a[p] && a0[q] == a[q]);
            }
        }
        lemma_sorted_unique(a0, b0);
        assert(a =~= a0.push(x));
        assert(b =~= b0.push(y));
    }
}

/// The order in which the children of a directory are handed over does not
/// matter: children with distinct names, in any two orders, give the same
/// payload and so the same tree id.
pub proof fn lemma_tree_id_ignores_order(a: Seq<ObjectView>, b: Seq<ObjectView>)
    requires
        a.to_multiset() == b.to_multiset(),
        distinct_names(a),
    ensures
        sorted_entries(a) == sorted_entries(b),
        tree_payload(a) == tree_payload(b),
        tree_id(a) == tree_id(b),
{
    lemma_sorted_entries_is_sorted(a);
    lemma_sorted_entries_is_sorted(b);
    lemma_sorted_entries_multiset(a);
    lemma_sorted_entries_multiset(b);
    lemma_distinct_names_of_same_members(a, sorted_entries(a));
    lemma_sorted_unique(sorted_entries(a), sorted_entries(b));
}

/// The entries of a written tree ascend strictly by name, where the children
/// have distinct names.
pub proof fn lemma_tree_payload_ascends(children: Seq<ObjectView>)
    requires
        distinct_names(children),
    ensures
        strictly_ascending(sorted_entries(children)),
{
    lemma_sorted_entries_is_sorted(children);
    lemma_sorted_entries_multiset(children);
    lemma_distinct_names_of_same_members(children, sorted_entries(children));
    lemma_sorted_distinct_ascends(sorted_entries(children));
}

/// Writes the lines of `entries`, in the order given.
pub fn serialize_entries(entries: &Vec<Object>) -> (out: Vec<u8>)
    ensures
        out@ == serialize(object_views(entries@)),
{
    let mut out: Vec<u8> = Vec::new();
    let mut i: usize = 0;
    while i < entries.len()
        invariant
            i <= entries.len(),
            out@ == serialize(object_views(entries@).take(i as int)),
        decreases entries.len() - i,
    {
        let ghost before = object_views(entries@).take(i as int);
        let ghost after = object_views(entries@).take(i + 1);
        assert(after.drop_last() =~= before);
        assert(after.last() == entries[i as int]@);
        let mut line = entries[i].line();
        out.append(&mut line);
        out.push(NEWLINE);
        assert(out@ =~= serialize(after));
        i = i + 1;
    }
    assert(object_views(entries@).take(entries.len() as int) =~= object_views(entries@));
    out
}

/// Where `x` goes in the sorted list `sorted`: behind the last entry that
/// does not sort after it.  The place is found by halving.
fn find_place(sorted: &Vec<Object>, x: &Object) -> (at: usize)
    requires
        is_sorted(object_views(sorted@)),
    ensures
        at == insert_position(object_views(sorted@), x@),
        at <= sorted.len(),
{
    let ghost s = object_views(sorted@);
    let mut lo: usize = 0;
    let mut hi: usize = sorted.len();
    while lo < hi
        invariant
            lo <= hi <= sorted.len(),
            s == object_views(sorted@),
            is_sorted(s),
            lo > 0 ==> !entry_lt(x@, s[lo - 1]),
            forall|k: int| hi <= k < s.len() ==> entry_lt(x@, s[k]),
        decreases hi - lo,
    {
        let mid = lo + (hi - lo) / 2;
        assert(s[mid as int] == sorted[mid as int]@);
        if x.is_before(&sorted[mid]) {
            assert forall|k: int| mid <= k < s.len() implies entry_lt(x@, s[k]) by {
                if k > mid {
                    assert(!entry_lt(s[k], s[mid as int]));
                    lemma_entry_lt_between(x@, s[k], s[mid as int]);
                }
            }
            hi = mid;
        } else {
            lo = mid + 1;
        }
    }
    proof {
        lemma_insert_sorted_at(s, x@, lo as int);
        lemma_insert_position(s, x@);
        lemma_insert_sorted_one_place(s, x@, lo as int, insert_position(s, x@));
    }
    lo
}

/// There is one place only behind the last entry that does not sort after
/// `x`.
proof fn lemma_insert_sorted_one_place(s: Seq<ObjectView>, x: ObjectView, a: int, b: int)
    requires
        0 <= a <= s.len(),
        0 <= b <= s.len(),
        forall|k: int| a <= k < s.len() ==> entry_lt(x, s[k]),
        a > 0 ==> !entry_lt(x, s[a - 1]),
        forall|k: int| b <= k < s.len() ==> entry_lt(x, s[k]),
        b > 0 ==> !entry_lt(x, s[b - 1]),
    ensures
        a == b,
{
    if a < b {
        assert(entry_lt(x, s[b - 1]));
    }
    if b < a {
        assert(entry_lt(x, s[a - 1]));
    }
}

/// Sorts entries by name; entries with equal names keep their order.
pub fn sort_entries(entries: &Vec<Object>) -> (out: Vec<Object>)
    ensures
        object_views(out@) == sorted_entries(object_views(entries@)),
{
    let mut out: Vec<Object> = Vec::new();
    let mut i: usize = 0;
    assert(object_views(entries@).take(0) =~= Seq::empty());
    assert(object_views(out@) =~= Seq::empty());
    while i < entries.len()
        invariant
            i <= entries.len(),
            object_views(out@) == sorted_entries(object_views(entries@).take(i as int)),
        decreases entries.len() - i,
    {
        let ghost before = object_views(entries@).take(i as int);
        let ghost after = object_views(entries@).take(i + 1);
        assert(after.drop_last() =~= before);
        assert(after.last() == entries[i as int]@);
        let x = entries[i].clone();
        let ghost sorted = object_views(out@);
        proof {
            lemma_sorted_entries_is_sorted(before);
            lemma_insert_position(sorted, x@);
        }
        let at = find_place(&out, &x);
        out.insert(at, x);
        assert(object_views(out@) =~= sorted.insert(at as int, x@));
        i = i + 1;
    }
    assert(object_views(entries@).take(entries.len() as int) =~= object_views(entries@));
    out
}

/// The id and the payload of the tree object with the given children.  The
/// children may come in any order: they are sorted by name before they are
/// written.
pub fn tree_contents(children: &Vec<Object>) -> (r: (ObjectID, Vec<u8>))
    ensures
        r.1@ == tree_payload(object_views(children@)),
        r.0.0.xxh3 == xxh3_64(r.1@),
        r.0.0.xxh3 == tree_id(object_views(children@)),
{
    let sorted = sort_entries(children);
    let payload = serialize_entries(&sorted);
    let id = ObjectID::from_contents(payload.as_slice());
    (id, payload)
}

/// The line that lists an entry below the directory `parent`: the word of
/// its kind, a blank, its id, a tab and its path; a `/` ends the line of a
/// tree.
pub open spec fn listing_line(o: ObjectView, parent: Seq<Seq<u8>>) -> Seq<u8> {
    crate::data::kind_word(o.kind) + seq![0x20u8] + hex_digits(o.id as nat, 16) + seq![TAB]
        + join_text(parent + o.basename) + if o.kind == ObjectKind::Tree {
        seq![SEPARATOR]
    } else {
        Seq::empty()
    }
}

/// Lists an entry of the tree at `parent`.  The line is there if `kind` asks
/// for every kind or for the kind of the entry; the path of the entry comes
/// with it, which is where the listing goes on below a tree.
pub fn list_entry(object: &Object, parent: &RelativePath, kind: Option<ObjectKind>) -> (r: (
    Option<Vec<u8>>,
    RelativePath,
))
    ensures
        r.1@ == parent@ + object@.basename,
        match r.0 {
            Some(line) => (kind is None || kind == Some(object.kind)) && line@ == listing_line(
                object@,
                parent@,
            ),
            None => kind is Some && kind != Some(object.kind),
        },
{
    let path = parent.concat(&object.basename);
    let shown = match kind {
        None => true,
        Some(k) => k == object.kind,
    };
    if !shown {
        return (None, path);
    }
    let mut line = object.kind.as_bytes();
    line.push(0x20u8);
    let mut hex = object.id.to_hex_bytes();
    line.append(&mut hex);
    line.push(TAB);
    let mut text = path.as_path();
    line.append(&mut text);
    if object.is_tree() {
        line.push(SEPARATOR);
    }
    assert(line@ =~= listing_line(object@, parent@));
    (Some(line), path)
}

/// Whether a listing or a comparison that has come to `depth` goes on:
/// below the greatest depth asked for, or always where none is.
pub fn within_depth(max_depth: Option<usize>, depth: usize) -> (on: bool)
    ensures
        on == match max_depth {
            Some(limit) => depth < limit,
            None => true,
        },
{
    match max_depth {
        Some(limit) => depth < limit,
        None => true,
    }
}

/// Why a line of a tree object does not parse.
pub enum EntryFault {
    /// The kind is empty, or the id or the name is missing.
    EmptyToken,
    /// The kind is the given token, which is none of the two words.
    InvalidToken(Seq<u8>),
    /// The id does not parse.
    Hash(ParseHashError),
}

/// The entry that a line stands for.  Its fields are separated by tabs: the
/// kind, the id, the name; fields behind the third are not read.  The name of
/// the entry is the last component of the third field.
pub open spec fn parse_entry(line: Seq<u8>) -> Result<ObjectView, EntryFault> {
    let fields = split_on(line, TAB);
    match kind_of_word(fields[0]) {
        None => if fields[0].len() == 0 {
            Err(EntryFault::EmptyToken)
        } else {
            Err(EntryFault::InvalidToken(fields[0]))
        },
        Some(kind) => if fields.len() < 2 {
            Err(EntryFault::EmptyToken)
        } else {
            match parse_hash(fields[1]) {
                Err(e) => Err(EntryFault::Hash(e)),
                Ok(h) => if fields.len() < 3 {
                    Err(EntryFault::EmptyToken)
                } else {
                    Ok(
                        ObjectView {
                            kind,
                            id: h.xxh3,
                            basename: crate::path::name_of(path_components(fields[2])),
                        },
                    )
                },
            }
        },
    }
}

/// The lines of a payload: its segments between newlines; the newline that
/// ends the last line is optional.
pub open spec fn lines_of(payload: Seq<u8>) -> Seq<Seq<u8>> {
    let segments = split_on(payload, NEWLINE);
    if segments.last().len() == 0 {
        segments.drop_last()
    } else {
        segments
    }
}

/// The entries that the lines stand for, or the fault of the first line that
/// does not parse.
pub open spec fn parse_lines(lines: Seq<Seq<u8>>) -> Result<Seq<ObjectView>, EntryFault>
    decreases lines.len(),
{
    if lines.len() == 0 {
        Ok(Seq::empty())
    } else {
        match parse_lines(lines.drop_last()) {
            Err(e) => Err(e),
            Ok(entries) => match parse_entry(lines.last()) {
                Err(e) => Err(e),
                Ok(entry) => Ok(entries.push(entry)),
            },
        }
    }
}

/// The entries of a tree payload.
pub open spec fn parse_tree(payload: Seq<u8>) -> Result<Seq<ObjectView>, EntryFault> {
    parse_lines(lines_of(payload))
}

/// The error `e` reports the fault `f`.  An invalid token is carried as the
/// text that shows it: the token itself where it is UTF-8.
pub open spec fn reports(e: ParseError, f: EntryFault) -> bool {
    match f {
        EntryFault::EmptyToken => e is EmptyToken,
        EntryFault::InvalidToken(token) => e matches ParseError::InvalidToken(t) && t@
            == utf8_lossy(token) && (valid_utf8(token) ==> t@ == decode_utf8(token)),
        EntryFault::Hash(h) => e == ParseError::Hash(h),
    }
}

/// Parses one line of a tree object.
pub fn parse_entry_line(line: &[u8]) -> (r: Result<Object, ParseError>)
    ensures
        match parse_entry(line@) {
            Ok(entry) => r matches Ok(o) && o@ == entry,
            Err(f) => r matches Err(e) && reports(e, f),
        },
{
    let fields = split(line, TAB);
    proof {
        crate::path::lemma_split_segments(line@, TAB);
        assert(views(fields@).len() == fields.len());
        assert(forall|i: int| 0 <= i < fields.len() ==> views(fields@)[i] == fields[i]@);
    }
    let kind = match ObjectKind::from_bytes(fields[0].as_slice()) {
        Some(kind) => kind,
        None => {
            if fields[0].len() == 0 {
                return Err(ParseError::EmptyToken);
            }
            return Err(ParseError::InvalidToken(lossy_text(fields[0].as_slice())));
        },
    };
    if fields.len() < 2 {
        return Err(ParseError::EmptyToken);
    }
    let id = match ObjectID::from_hex_bytes(fields[1].as_slice()) {
        Ok(id) => id,
        Err(e) => {
            return Err(e);
        },
    };
    if fields.len() < 3 {
        return Err(ParseError::EmptyToken);
    }
    let basename = RelativePath::from_bytes(fields[2].as_slice());
    Ok(Object::with_basename(kind, id, basename))
}

/// Parses the payload of a tree object into its entries, in the order in
/// which they stand.  The first line that does not parse decides the error.
pub fn parse_tree_contents(payload: &[u8]) -> (r: Result<Vec<Object>, ParseError>)
    ensures
        match parse_tree(payload@) {
            Ok(entries) => r matches Ok(v) && object_views(v@) == entries,
            Err(f) => r matches Err(e) && reports(e, f),
        },
{
    let lines = split(payload, NEWLINE);
    proof {
        crate::path::lemma_split_segments(payload@, NEWLINE);
        assert(views(lines@).len() == lines.len());
        assert(views(lines@).last() == lines[lines.len() - 1]@);
    }
    let count: usize = if lines[lines.len() - 1].len() == 0 {
        lines.len() - 1
    } else {
        lines.len()
    };
    assert(views(lines@).take(count as int) =~= lines_of(payload@));
    let mut out: Vec<Object> = Vec::new();
    let mut i: usize = 0;
    assert(views(lines@).take(0) =~= Seq::empty());
    assert(object_views(out@) =~= Seq::empty());
    while i < count
        invariant
            i <= count <= lines.len(),
            views(lines@).take(count as int) == lines_of(payload@),
            parse_lines(views(lines@).take(i as int)) == Ok::<Seq<ObjectView>, EntryFault>(
                object_views(out@),
            ),
        decreases count - i,
    {
        let ghost before = views(lines@).take(i as int);
        let ghost after = views(lines@).take(i + 1);
        let ghost done = object_views(out@);
        assert(after.drop_last() =~= before);
        assert(after.last() == lines[i as int]@);
        match parse_entry_line(lines[i].as_slice()) {
            Ok(o) => {
                out.push(o);
                assert(object_views(out@) =~= done.push(o@));
            },
            Err(e) => {
                proof {
                    lemma_parse_lines_fault(views(lines@).take(count as int), i as int);
                    assert(views(lines@).take(count as int).take(i + 1) =~= after);
                }
                return Err(e);
            },
        }
        i = i + 1;
    }
    assert(views(lines@).take(count as int).take(count as int) =~= views(lines@).take(
        count as int,
    ));
    Ok(out)
}

/// An entry that a line can carry: its name is made of valid components, and
/// the component that is written holds neither a tab nor a newline.
pub open spec fn writable(o: ObjectView) -> bool {
    &&& crate::path::valid_components(o.basename)
    &&& crate::text::free_of(crate::data::last_or_empty(o.basename), TAB)
    &&& crate::text::free_of(crate::data::last_or_empty(o.basename), NEWLINE)
}

/// An entry as its line shows it: with the last component of its name only.
pub open spec fn as_listed(o: ObjectView) -> ObjectView {
    ObjectView { kind: o.kind, id: o.id, basename: crate::path::name_of(o.basename) }
}

/// The lines of the entries.
pub open spec fn lines(entries: Seq<ObjectView>) -> Seq<Seq<u8>> {
    Seq::new(entries.len(), |i: int| entry_line(entries[i]))
}

/// The line of an entry reads back as the entry.
pub proof fn lemma_entry_round_trip(o: ObjectView)
    requires
        writable(o),
    ensures
        parse_entry(entry_line(o)) == Ok::<ObjectView, EntryFault>(as_listed(o)),
        crate::text::free_of(entry_line(o), NEWLINE),
{
    let word = crate::data::kind_word(o.kind);
    let hex = hex_digits(o.id as nat, 16);
    let name = crate::data::last_or_empty(o.basename);
    let segs = seq![word, hex, name];
    crate::hash::lemma_hex_digits(o.id as nat, 16);
    assert forall|i: int| 0 <= i < hex.len() implies hex[i] != TAB && hex[i] != NEWLINE by {
        assert(crate::hash::hex_digit_value(hex[i]) is Some);
    }
    assert(crate::text::free_of(word, TAB) && crate::text::free_of(word, NEWLINE));
    assert forall|i: int| 0 <= i < segs.len() implies crate::text::free_of(
        #[trigger] segs[i],
        TAB,
    ) by {}
    reveal_with_fuel(crate::text::join_with, 4);
    assert(segs.drop_last() =~= seq![word, hex]);
    assert(segs.drop_last().drop_last() =~= seq![word]);
    assert(crate::text::join_with(segs, TAB) =~= entry_line(o));
    crate::text::lemma_split_join(segs, TAB);
    let fields = crate::text::split_on(entry_line(o), TAB);
    assert(fields[0] == word && fields[1] == hex && fields[2] == name);
    assert(crate::data::kind_word(ObjectKind::Tree)[0] != crate::data::kind_word(
        ObjectKind::File,
    )[0]);
    assert(kind_of_word(word) == Some(o.kind));
    crate::hash::lemma_hash_hex_round_trip(crate::hash::Hash { xxh3: o.id });
    assert(parse_hash(hex) == Ok::<crate::hash::Hash, ParseHashError>(
        crate::hash::Hash { xxh3: o.id },
    ));
    if o.basename.len() == 0 {
        crate::path::lemma_path_text_round_trip(Seq::empty());
        assert(join_text(Seq::<Seq<u8>>::empty()) =~= name);
        assert(path_components(name) =~= crate::path::name_of(o.basename));
    } else {
        let one = seq![o.basename.last()];
        assert(crate::path::valid_component(o.basename[o.basename.len() - 1]));
        crate::path::lemma_path_text_round_trip(one);
        assert(join_text(one) == name);
        assert(path_components(name) =~= crate::path::name_of(o.basename));
    }
    assert(fields.len() == 3);
    assert(crate::path::name_of(path_components(fields[2])) =~= crate::path::name_of(
        o.basename,
    ));
    assert(crate::text::free_of(entry_line(o), NEWLINE));
}

/// A written tree with entries is their lines, joined by newlines and ended
/// by one.
pub proof fn lemma_serialize_joins(entries: Seq<ObjectView>)
    requires
        entries.len() > 0,
    ensures
        serialize(entries) == crate::text::join_with(lines(entries), NEWLINE) + seq![NEWLINE],
    decreases entries.len(),
{
    let init = entries.drop_last();
    assert(lines(entries).drop_last() =~= lines(init));
    assert(lines(entries).last() == entry_line(entries.last()));
    if init.len() > 0 {
        lemma_serialize_joins(init);
        assert(serialize(entries) =~= crate::text::join_with(lines(entries), NEWLINE)
            + seq![NEWLINE]);
    } else {
        assert(serialize(init) =~= Seq::<u8>::empty());
        assert(serialize(entries) =~= crate::text::join_with(lines(entries), NEWLINE)
            + seq![NEWLINE]);
    }
}

/// The lines of entries parse to the entries, as listed.
pub proof fn lemma_lines_round_trip(entries: Seq<ObjectView>)
    requires
        forall|i: int| 0 <= i < entries.len() ==> writable(#[trigger] entries[i]),
    ensures
        parse_lines(lines(entries)) == Ok::<Seq<ObjectView>, EntryFault>(
            Seq::new(entries.len(), |i: int| as_listed(entries[i])),
        ),
    decreases entries.len(),
{
    if entries.len() > 0 {
        let init = entries.drop_last();
        assert forall|i: int| 0 <= i < init.len() implies writable(#[trigger] init[i]) by {
            assert(init[i] == entries[i]);
        }
        lemma_lines_round_trip(init);
        assert(writable(entries[entries.len() - 1]));
        lemma_entry_round_trip(entries.last());
        assert(lines(entries).drop_last() =~= lines(init));
        assert(lines(entries).last() == entry_line(entries.last()));
        assert(Seq::new(init.len(), |i: int| as_listed(init[i])).push(as_listed(entries.last()))
            =~= Seq::new(entries.len(), |i: int| as_listed(entries[i])));
    } else {
        assert(Seq::new(entries.len(), |i: int| as_listed(entries[i])) =~= Seq::<
            ObjectView,
        >::empty());
    }
}

/// What is written is read back: the payload of entries parses to those
/// entries, each with the last component of its name, which is the name as
/// it stands in the payload.
pub proof fn lemma_tree_round_trip(entries: Seq<ObjectView>)
    requires
        forall|i: int| 0 <= i < entries.len() ==> writable(#[trigger] entries[i]),
    ensures
        parse_tree(serialize(entries)) == Ok::<Seq<ObjectView>, EntryFault>(
            Seq::new(entries.len(), |i: int| as_listed(entries[i])),
        ),
{
    let ls = lines(entries);
    let empty = Seq::<u8>::empty();
    if entries.len() == 0 {
        assert(serialize(entries) =~= empty);
        crate::text::lemma_split_whole(empty, NEWLINE);
        assert(seq![empty].drop_last() =~= ls);
    } else {
        lemma_serialize_joins(entries);
        assert forall|i: int| 0 <= i < ls.len() implies crate::text::free_of(
            #[trigger] ls[i],
            NEWLINE,
        ) by {
            assert(writable(entries[i]));
            lemma_entry_round_trip(entries[i]);
        }
        crate::text::lemma_split_join(ls, NEWLINE);
        crate::text::lemma_split_push(crate::text::join_with(ls, NEWLINE), NEWLINE, empty);
        assert(crate::text::join_with(ls, NEWLINE) + seq![NEWLINE] + empty =~= serialize(
            entries,
        ));
        assert(ls.push(empty).drop_last() =~= ls);
    }
    assert(lines_of(serialize(entries)) == ls);
    lemma_lines_round_trip(entries);
}

/// A fault in a prefix of the lines is the fault of the whole.
pub proof fn lemma_parse_lines_fault(lines: Seq<Seq<u8>>, at: int)
    requires
        0 <= at < lines.len(),
        parse_lines(lines.take(at + 1)) is Err,
    ensures
        parse_lines(lines) == parse_lines(lines.take(at + 1)),
    decreases lines.len(),
{
    if at + 1 == lines.len() {
        assert(lines.take(at + 1) =~= lines);
    } else {
        let init = lines.drop_last();
        assert(init.take(at + 1) =~= lines.take(at + 1));
        lemma_parse_lines_fault(init, at);
    }
}

} // verus!

//! Garbage collection: marking the trees that the roots reach, and picking
//! the objects to sweep.

use std::collections::{HashMap, HashSet};

use vstd::prelude::*;

use crate::data::{Object, ObjectID, ObjectKind, ObjectView};
use crate::tree::object_views;

verus! {

broadcast use vstd::std_specs::hash::group_hash_axioms;

/// The state of a marking, as contracts see it.
pub struct MarkerView {
    /// The ids that are marked as used.
    pub marked: Set<u64>,
    /// The ids of the trees that are marked and still to be read, the next
    /// one last.
    pub pending: Seq<u64>,
}

/// Marks `id`: an id that was not marked becomes marked and pending.
pub open spec fn mark(m: MarkerView, id: u64) -> MarkerView {
    if m.marked.contains(id) {
        m
    } else {
        MarkerView { marked: m.marked.insert(id), pending: m.pending.push(id) }
    }
}

/// Marks the trees among `entries`, in their order.  File entries are left
/// alone: the content of a file is no object of the store.
pub open spec fn mark_trees(m: MarkerView, entries: Seq<ObjectView>) -> MarkerView
    decreases entries.len(),
{
    if entries.len() == 0 {
        m
    } else {
        let before = mark_trees(m, entries.drop_last());
        if entries.last().kind == ObjectKind::Tree {
            mark(before, entries.last().id)
        } else {
            before
        }
    }
}

/// The ids of `all` that are not marked, in their order.
pub open spec fn unmarked(marked: Set<u64>, all: Seq<u64>) -> Seq<u64>
    decreases all.len(),
{
    if all.len() == 0 {
        Seq::empty()
    } else if marked.contains(all.last()) {
        unmarked(marked, all.drop_last())
    } else {
        unmarked(marked, all.drop_last()).push(all.last())
    }
}

pub open spec fn id_views(ids: Seq<ObjectID>) -> Seq<u64> {
    Seq::new(ids.len(), |i: int| ids[i].0.xxh3)
}

/// The mark phase of a collection.  The caller marks the roots, then takes
/// pending trees one by one, reads each and hands its entries back, until
/// none is pending.
pub struct Marker {
    marked: HashSet<u64>,
    pending: Vec<ObjectID>,
}

impl View for Marker {
    type V = MarkerView;

    closed spec fn view(&self) -> MarkerView {
        MarkerView { marked: self.marked@, pending: id_views(self.pending@) }
    }
}

impl Marker {
    /// Nothing marked, nothing pending.
    pub fn new() -> (m: Self)
        ensures
            m@ == (MarkerView { marked: Set::empty(), pending: Seq::empty() }),
    {
        let m = Self { marked: HashSet::new(), pending: Vec::new() };
        assert(id_views(m.pending@) =~= Seq::empty());
        m
    }

    /// Marks a root, or any other tree, as used.
    pub fn mark_used_object(&mut self, id: ObjectID)
        ensures
            final(self)@ == mark(old(self)@, id.0.xxh3),
    {
        let key = id.as_u64();
        if !self.marked.contains(&key) {
            let ghost had = id_views(self.pending@);
            self.marked.insert(key);
            self.pending.push(id);
            assert(id_views(self.pending@) =~= had.push(key));
        }
    }

    /// Whether `id` is marked.
    pub fn is_marked(&self, id: &ObjectID) -> (b: bool)
        ensures
            b == self@.marked.contains(id.0.xxh3),
    {
        let key = id.as_u64();
        self.marked.contains(&key)
    }

    /// Takes the next pending tree, if there is one.
    pub fn next(&mut self) -> (r: Option<ObjectID>)
        ensures
            final(self)@.marked == old(self)@.marked,
            match r {
                Some(id) => old(self)@.pending.len() > 0 && id.0.xxh3 == old(self)@.pending.last()
                    && final(self)@.pending == old(self)@.pending.drop_last(),
                None => old(self)@.pending.len() == 0 && final(self)@.pending == old(self)@.pending,
            },
    {
        let ghost had = id_views(self.pending@);
        let r = self.pending.pop();
        proof {
            if r is Some {
                assert(id_views(self.pending@) =~= had.drop_last());
            }
        }
        r
    }

    /// Takes in the entries of a tree that was pending: the trees among them
    /// become marked, and pending where they were not marked before.
    pub fn visit(&mut self, entries: &Vec<Object>)
        ensures
            final(self)@ == mark_trees(old(self)@, object_views(entries@)),
    {
        let mut i: usize = 0;
        assert(object_views(entries@).take(0) =~= Seq::empty());
        while i < entries.len()
            invariant
                i <= entries.len(),
                self@ == mark_trees(old(self)@, object_views(entries@).take(i as int)),
            decreases entries.len() - i,
        {
            assert(object_views(entries@).take(i + 1).drop_last() =~= object_views(
                entries@,
            ).take(i as int));
            assert(object_views(entries@).take(i + 1).last() == entries[i as int]@);
            if entries[i].is_tree() {
                self.mark_used_object(entries[i].id);
            }
            i = i + 1;
        }
        assert(object_views(entries@).take(entries.len() as int) =~= object_views(entries@));
    }

    /// Marks on as far as the trees at hand lead.  `read` holds trees that
    /// were read, each under its id.  Pending trees are taken one by one and
    /// their entries are taken in, until nothing is pending or the next
    /// pending tree is not among the trees at hand; that tree is handed out,
    /// to be read.  A marking that is in order stays in order.
    pub fn advance(&mut self, read: &HashMap<u64, Vec<Object>>) -> (r: Option<ObjectID>)
        ensures
            old(self)@.marked.subset_of(final(self)@.marked),
            match r {
                Some(id) => final(self)@.pending.len() > 0 && final(self)@.pending.last()
                    == id.0.xxh3 && !read@.contains_key(id.0.xxh3),
                None => final(self)@.pending.len() == 0,
            },
            forall|trees: Trees, roots: Set<u64>|
                #![trigger in_order(final(self)@, trees, roots)]
                extends(table(read@), trees) && in_order(old(self)@, trees, roots) ==> in_order(
                    final(self)@,
                    trees,
                    roots,
                ),
    {
        let ghost at_hand = table(read@);
        let mut done: HashSet<u64> = HashSet::new();
        let mut count: usize = 0;
        let mut next: Option<ObjectID> = None;
        proof {
            vstd::std_specs::hash::axiom_hashmap_view_finite_dom(*read);
        }
        loop
            invariant
                at_hand == table(read@),
                read@.dom().finite(),
                done@.finite(),
                done@.subset_of(read@.dom()),
                count == done@.len(),
                count <= read.len(),
                old(self)@.marked.subset_of(self@.marked),
                forall|d: u64, c: u64|
                    done@.contains(d) && #[trigger] is_tree_child(at_hand[d], c)
                        ==> self@.marked.contains(c),
                forall|trees: Trees, roots: Set<u64>|
                    #![trigger in_order(self@, trees, roots)]
                    extends(at_hand, trees) && in_order(old(self)@, trees, roots) ==> in_order(
                        self@,
                        trees,
                        roots,
                    ),
            ensures
                old(self)@.marked.subset_of(self@.marked),
                match next {
                    Some(id) => self@.pending.len() > 0 && self@.pending.last() == id.0.xxh3
                        && !read@.contains_key(id.0.xxh3),
                    None => self@.pending.len() == 0,
                },
                forall|trees: Trees, roots: Set<u64>|
                    #![trigger in_order(self@, trees, roots)]
                    extends(at_hand, trees) && in_order(old(self)@, trees, roots) ==> in_order(
                        self@,
                        trees,
                        roots,
                    ),
            decreases read.len() - count, self.pending.len(),
        {
            let ghost before = self@;
            assert(before.pending.len() == self.pending.len());
            if self.pending.len() == 0 {
                next = None;
                break ;
            }
            let id = self.pending[self.pending.len() - 1];
            let key = id.as_u64();
            assert(before.pending.last() == key);
            match read.get(&key) {
                None => {
                    next = Some(id);
                    break ;
                },
                Some(entries) => {
                    assert(at_hand.contains_key(key) && at_hand[key] == object_views(entries@));
                    let taken = self.next();
                    let ghost popped = self@;
                    assert(popped.pending.len() == self.pending.len());
                    assert(self.pending.len() + 1 == before.pending.len());
                    if done.contains(&key) {
                        // the entries of this tree were taken in before
                        proof {
                            assert forall|trees: Trees, roots: Set<u64>|
                                #![trigger in_order(self@, trees, roots)]
                                extends(at_hand, trees) && in_order(
                                    old(self)@,
                                    trees,
                                    roots,
                                ) implies in_order(self@, trees, roots) by {
                                assert(in_order(before, trees, roots));
                                lemma_drop_done_in_order(before, trees, roots);
                            }
                        }
                    } else {
                        self.visit(entries);
                        proof {
                            assert(!done@.contains(key));
                            vstd::set::axiom_set_insert_len(done@, key);
                            vstd::set::axiom_set_insert_finite(done@, key);
                            assert(done@.insert(key).subset_of(read@.dom()));
                            vstd::set_lib::lemma_len_subset(done@.insert(key), read@.dom());
                            assert(read.len() == read@.dom().len());
                            lemma_mark_trees_keeps(popped, object_views(entries@));
                            assert forall|trees: Trees, roots: Set<u64>|
                                #![trigger in_order(self@, trees, roots)]
                                extends(at_hand, trees) && in_order(
                                    old(self)@,
                                    trees,
                                    roots,
                                ) implies in_order(self@, trees, roots) by {
                                assert(in_order(before, trees, roots));
                                assert(trees.contains_key(key) && trees[key] == at_hand[key]);
                                lemma_visit_in_order(before, trees, roots);
                            }
                        }
                        done.insert(key);
                        count = count + 1;
                    }
                },
            }
        }
        next
    }

    /// The objects to sweep: those of `all` that are not marked.
    pub fn sweep(&self, all: &Vec<ObjectID>) -> (unused: Vec<ObjectID>)
        ensures
            id_views(unused@) == unmarked(self@.marked, id_views(all@)),
    {
        let mut unused: Vec<ObjectID> = Vec::new();
        let mut i: usize = 0;
        assert(id_views(all@).take(0) =~= Seq::empty());
        assert(id_views(unused@) =~= Seq::empty());
        while i < all.len()
            invariant
                i <= all.len(),
                id_views(unused@) == unmarked(self@.marked, id_views(all@).take(i as int)),
            decreases all.len() - i,
        {
            assert(id_views(all@).take(i + 1).drop_last() =~= id_views(all@).take(i as int));
            assert(id_views(all@).take(i + 1).last() == all[i as int].0.xxh3);
            if !self.is_marked(&all[i]) {
                let ghost had = id_views(unused@);
                unused.push(all[i]);
                assert(id_views(unused@) =~= had.push(all[i as int].0.xxh3));
            }
            i = i + 1;
        }
        assert(id_views(all@).take(all.len() as int) =~= id_views(all@));
        unused
    }
}

/// The trees of a store, as a collection sees them: the entries of every
/// tree that can be read, by its id.
pub type Trees = Map<u64, Seq<ObjectView>>;

/// The trees that a table of read trees holds.
pub open spec fn table(read: Map<u64, Vec<Object>>) -> Trees {
    Map::new(|k: u64| read.contains_key(k), |k: u64| object_views(read[k]@))
}

/// `more` holds every tree of `trees`, as `trees` holds it.
pub open spec fn extends(trees: Trees, more: Trees) -> bool {
    forall|k: u64| #[trigger] trees.contains_key(k) ==> more.contains_key(k) && more[k] == trees[k]
}

/// `child` is the id of a tree among `entries`.
pub open spec fn is_tree_child(entries: Seq<ObjectView>, child: u64) -> bool {
    exists|i: int|
        0 <= i < entries.len() && (#[trigger] entries[i]).kind == ObjectKind::Tree && entries[i].id
            == child
}

/// The ids that the roots reach in `n` steps or fewer: the roots, and the
/// trees among the entries of what is reached with a step less.
pub open spec fn reached(trees: Trees, roots: Set<u64>, n: nat) -> Set<u64>
    decreases n,
{
    if n == 0 {
        roots
    } else {
        let before = reached(trees, roots, (n - 1) as nat);
        Set::new(
            |x: u64|
                before.contains(x) || exists|p: u64|
                    before.contains(p) && trees.contains_key(p) && #[trigger] is_tree_child(
                        trees[p],
                        x,
                    ),
        )
    }
}

/// The roots reach `x`.
pub open spec fn reachable(trees: Trees, roots: Set<u64>, x: u64) -> bool {
    exists|n: nat| #[trigger] reached(trees, roots, n).contains(x)
}

/// A marking in progress is in order: what is pending is marked, nothing is
/// pending twice, every marked tree that is not pending has the trees among
/// its entries marked, and everything marked is reached by the roots.
pub open spec fn in_order(m: MarkerView, trees: Trees, roots: Set<u64>) -> bool {
    &&& forall|i: int| 0 <= i < m.pending.len() ==> m.marked.contains(#[trigger] m.pending[i])
    &&& forall|i: int, j: int|
        0 <= i < j < m.pending.len() ==> m.pending[i] != m.pending[j]
    &&& forall|p: u64, c: u64|
        m.marked.contains(p) && !m.pending.contains(p) && trees.contains_key(p)
            && #[trigger] is_tree_child(trees[p], c) ==> m.marked.contains(c)
    &&& forall|x: u64| m.marked.contains(x) ==> reachable(trees, roots, x)
}

/// A marking that has not begun is in order.
pub proof fn lemma_new_in_order(trees: Trees, roots: Set<u64>)
    ensures
        in_order(MarkerView { marked: Set::empty(), pending: Seq::empty() }, trees, roots),
{
}

/// Marking something that the roots reach keeps the marking in order.
pub proof fn lemma_mark_in_order(m: MarkerView, trees: Trees, roots: Set<u64>, id: u64)
    requires
        in_order(m, trees, roots),
        reachable(trees, roots, id),
    ensures
        in_order(mark(m, id), trees, roots),
{
    let after = mark(m, id);
    if !m.marked.contains(id) {
        assert forall|i: int| 0 <= i < after.pending.len() implies after.marked.contains(
            #[trigger] after.pending[i],
        ) by {
            if i < m.pending.len() {
                assert(after.pending[i] == m.pending[i]);
            }
        }
        assert forall|i: int, j: int| 0 <= i < j < after.pending.len() implies after.pending[i]
            != after.pending[j] by {
            if j < m.pending.len() {
                assert(after.pending[i] == m.pending[i] && after.pending[j] == m.pending[j]);
            } else {
                assert(after.pending[i] == m.pending[i]);
                assert(m.marked.contains(m.pending[i]));
            }
        }
        assert forall|p: u64, c: u64|
            after.marked.contains(p) && !after.pending.contains(p) && trees.contains_key(p)
                && #[trigger] is_tree_child(trees[p], c) implies after.marked.contains(c) by {
            assert(after.pending[m.pending.len() as int] == id);
            if p != id {
                if m.pending.contains(p) {
                    let i = choose|i: int| 0 <= i < m.pending.len() && m.pending[i] == p;
                    assert(after.pending[i] == p);
                }
            }
        }
    }
}

/// A root is reached, and so is every tree among the entries of what is
/// reached.
pub proof fn lemma_reachable_steps(trees: Trees, roots: Set<u64>)
    ensures
        forall|r: u64| roots.contains(r) ==> reachable(trees, roots, r),
        forall|p: u64, c: u64|
            reachable(trees, roots, p) && trees.contains_key(p) && #[trigger] is_tree_child(
                trees[p],
                c,
            ) ==> reachable(trees, roots, c),
{
    assert forall|r: u64| roots.contains(r) implies reachable(trees, roots, r) by {
        assert(reached(trees, roots, 0).contains(r));
    }
    assert forall|p: u64, c: u64|
        reachable(trees, roots, p) && trees.contains_key(p) && #[trigger] is_tree_child(
            trees[p],
            c,
        ) implies reachable(trees, roots, c) by {
        let n = choose|n: nat| #[trigger] reached(trees, roots, n).contains(p);
        assert(reached(trees, roots, (n + 1) as nat).contains(c));
    }
}

/// Taking in the entries of the pending tree that was taken keeps the
/// marking in order.
pub proof fn lemma_visit_in_order(m: MarkerView, trees: Trees, roots: Set<u64>)
    requires
        in_order(m, trees, roots),
        m.pending.len() > 0,
        trees.contains_key(m.pending.last()),
    ensures
        in_order(
            mark_trees(
                MarkerView { marked: m.marked, pending: m.pending.drop_last() },
                trees[m.pending.last()],
            ),
            trees,
            roots,
        ),
{
    let id = m.pending.last();
    let taken = MarkerView { marked: m.marked, pending: m.pending.drop_last() };
    let entries = trees[id];
    assert(m.pending[m.pending.len() - 1] == id);
    lemma_mark_some_in_order(m, taken, trees, roots, id, entries, entries.len() as int);
    assert(entries.take(entries.len() as int) =~= entries);
    let after = mark_trees(taken, entries);
    assert forall|p: u64, c: u64|
        after.marked.contains(p) && !after.pending.contains(p) && trees.contains_key(p)
            && #[trigger] is_tree_child(trees[p], c) implies after.marked.contains(c) by {
        if p == id {
            let i = choose|i: int|
                0 <= i < entries.len() && (#[trigger] entries[i]).kind == ObjectKind::Tree
                    && entries[i].id == c;
            assert(after.marked.contains(entries[i].id));
        }
    }
}

/// The marking while the entries of the taken tree are taken in: in order
/// but for the taken tree, of whose entries the first `k` are marked.
proof fn lemma_mark_some_in_order(
    m: MarkerView,
    taken: MarkerView,
    trees: Trees,
    roots: Set<u64>,
    id: u64,
    entries: Seq<ObjectView>,
    k: int,
)
    requires
        in_order(m, trees, roots),
        m.pending.len() > 0,
        id == m.pending.last(),
        taken == (MarkerView { marked: m.marked, pending: m.pending.drop_last() }),
        trees.contains_key(id),
        entries == trees[id],
        0 <= k <= entries.len(),
    ensures
        ({
            let after = mark_trees(taken, entries.take(k));
            &&& m.marked.subset_of(after.marked)
            &&& !after.pending.contains(id)
            &&& forall|i: int|
                0 <= i < after.pending.len() ==> after.marked.contains(#[trigger] after.pending[i])
            &&& forall|i: int, j: int|
                0 <= i < j < after.pending.len() ==> after.pending[i] != after.pending[j]
            &&& forall|p: u64, c: u64|
                p != id && after.marked.contains(p) && !after.pending.contains(p)
                    && trees.contains_key(p) && #[trigger] is_tree_child(trees[p], c)
                    ==> after.marked.contains(c)
            &&& forall|x: u64| after.marked.contains(x) ==> reachable(trees, roots, x)
            &&& forall|i: int|
                0 <= i < k && (#[trigger] entries[i]).kind == ObjectKind::Tree
                    ==> after.marked.contains(entries[i].id)
        }),
    decreases k,
{
    assert(m.pending[m.pending.len() - 1] == id);
    lemma_reachable_steps(trees, roots);
    if k == 0 {
        assert(entries.take(0) =~= Seq::<ObjectView>::empty());
        let after = mark_trees(taken, entries.take(0));
        assert(after == taken);
        assert(!taken.pending.contains(id)) by {
            if taken.pending.contains(id) {
                let i = choose|i: int| 0 <= i < taken.pending.len() && taken.pending[i] == id;
                assert(m.pending[i] == id);
            }
        }
        assert forall|i: int| 0 <= i < taken.pending.len() implies taken.marked.contains(
            #[trigger] taken.pending[i],
        ) by {
            assert(taken.pending[i] == m.pending[i]);
        }
        assert forall|i: int, j: int| 0 <= i < j < taken.pending.len() implies taken.pending[i]
            != taken.pending[j] by {
            assert(taken.pending[i] == m.pending[i] && taken.pending[j] == m.pending[j]);
        }
        assert forall|p: u64, c: u64|
            p != id && taken.marked.contains(p) && !taken.pending.contains(p)
                && trees.contains_key(p) && #[trigger] is_tree_child(
                trees[p],
                c,
            ) implies taken.marked.contains(c) by {
            if m.pending.contains(p) {
                let i = choose|i: int| 0 <= i < m.pending.len() && m.pending[i] == p;
                assert(taken.pending[i] == p);
            }
        }
    } else {
        lemma_mark_some_in_order(m, taken, trees, roots, id, entries, k - 1);
        let before = mark_trees(taken, entries.take(k - 1));
        let after = mark_trees(taken, entries.take(k));
        assert(entries.take(k).drop_last() =~= entries.take(k - 1));
        assert(entries.take(k).last() == entries[k - 1]);
        let e = entries[k - 1];
        if e.kind == ObjectKind::Tree {
            assert(after == mark(before, e.id));
            assert(is_tree_child(entries, e.id));
            assert(m.marked.contains(id));
            assert(reachable(trees, roots, e.id));
            if !before.marked.contains(e.id) {
                assert(e.id != id);
                assert forall|i: int| 0 <= i < after.pending.len() implies after.marked.contains(
                    #[trigger] after.pending[i],
                ) by {
                    if i < before.pending.len() {
                        assert(after.pending[i] == before.pending[i]);
                    }
                }
                assert forall|i: int, j: int|
                    0 <= i < j < after.pending.len() implies after.pending[i]
                    != after.pending[j] by {
                    assert(after.pending[i] == before.pending[i]);
                    if j < before.pending.len() {
                        assert(after.pending[j] == before.pending[j]);
                    } else {
                        assert(before.marked.contains(before.pending[i]));
                    }
                }
                assert(!after.pending.contains(id)) by {
                    if after.pending.contains(id) {
                        let i = choose|i: int| 0 <= i < after.pending.len() && after.pending[i] == id;
                        if i < before.pending.len() {
                            assert(before.pending[i] == id);
                        }
                    }
                }
                assert forall|p: u64, c: u64|
                    p != id && after.marked.contains(p) && !after.pending.contains(p)
                        && trees.contains_key(p) && #[trigger] is_tree_child(
                        trees[p],
                        c,
                    ) implies after.marked.contains(c) by {
                    assert(after.pending[before.pending.len() as int] == e.id);
                    if before.pending.contains(p) {
                        let i = choose|i: int| 0 <= i < before.pending.len() && before.pending[i] == p;
                        assert(after.pending[i] == p);
                    }
                }
            }
        }
    }
}

/// Taking the entries of trees in marks the trees among them and unmarks
/// nothing.
proof fn lemma_mark_trees_keeps(m: MarkerView, entries: Seq<ObjectView>)
    ensures
        m.marked.subset_of(mark_trees(m, entries).marked),
        forall|c: u64| #[trigger]
            is_tree_child(entries, c) ==> mark_trees(m, entries).marked.contains(c),
    decreases entries.len(),
{
    if entries.len() > 0 {
        let init = entries.drop_last();
        lemma_mark_trees_keeps(m, init);
        let after = mark_trees(m, entries);
        assert forall|c: u64| #[trigger] is_tree_child(entries, c) implies after.marked.contains(
            c,
        ) by {
            let i = choose|i: int|
                0 <= i < entries.len() && (#[trigger] entries[i]).kind == ObjectKind::Tree
                    && entries[i].id == c;
            if i < entries.len() - 1 {
                assert(init[i] == entries[i]);
                assert(is_tree_child(init, c));
            }
        }
    }
}

/// Taking a pending tree whose entries are marked already keeps the marking
/// in order.
proof fn lemma_drop_done_in_order(m: MarkerView, trees: Trees, roots: Set<u64>)
    requires
        in_order(m, trees, roots),
        m.pending.len() > 0,
        forall|c: u64|
            trees.contains_key(m.pending.last()) && #[trigger] is_tree_child(
                trees[m.pending.last()],
                c,
            ) ==> m.marked.contains(c),
    ensures
        in_order(MarkerView { marked: m.marked, pending: m.pending.drop_last() }, trees, roots),
{
    let id = m.pending.last();
    let after = MarkerView { marked: m.marked, pending: m.pending.drop_last() };
    assert forall|i: int| 0 <= i < after.pending.len() implies after.marked.contains(
        #[trigger] after.pending[i],
    ) by {
        assert(after.pending[i] == m.pending[i]);
    }
    assert forall|i: int, j: int| 0 <= i < j < after.pending.len() implies after.pending[i]
        != after.pending[j] by {
        assert(after.pending[i] == m.pending[i] && after.pending[j] == m.pending[j]);
    }
    assert forall|p: u64, c: u64|
        after.marked.contains(p) && !after.pending.contains(p) && trees.contains_key(p)
            && #[trigger] is_tree_child(trees[p], c) implies after.marked.contains(c) by {
        if p != id {
            if m.pending.contains(p) {
                let i = choose|i: int| 0 <= i < m.pending.len() && m.pending[i] == p;
                assert(after.pending[i] == p);
            }
        }
    }
}

/// Once nothing is pending, everything that the roots reach is marked,
/// where the roots themselves are.
pub proof fn lemma_marked_is_reachable(m: MarkerView, trees: Trees, roots: Set<u64>)
    requires
        in_order(m, trees, roots),
        m.pending.len() == 0,
        roots.subset_of(m.marked),
    ensures
        forall|x: u64| m.marked.contains(x) <==> reachable(trees, roots, x),
{
    assert forall|x: u64| reachable(trees, roots, x) implies m.marked.contains(x) by {
        let n = choose|n: nat| #[trigger] reached(trees, roots, n).contains(x);
        lemma_reached_is_marked(m, trees, roots, n);
    }
}

/// What the roots reach in any number of steps is marked, once nothing is
/// pending.
proof fn lemma_reached_is_marked(m: MarkerView, trees: Trees, roots: Set<u64>, n: nat)
    requires
        in_order(m, trees, roots),
        m.pending.len() == 0,
        roots.subset_of(m.marked),
    ensures
        reached(trees, roots, n).subset_of(m.marked),
    decreases n,
{
    if n > 0 {
        lemma_reached_is_marked(m, trees, roots, (n - 1) as nat);
        let before = reached(trees, roots, (n - 1) as nat);
        assert forall|x: u64| reached(trees, roots, n).contains(x) implies m.marked.contains(
            x,
        ) by {
            if !before.contains(x) {
                let p = choose|p: u64|
                    before.contains(p) && trees.contains_key(p) && #[trigger] is_tree_child(
                        trees[p],
                        x,
                    );
                assert(m.marked.contains(p));
                assert(!m.pending.contains(p));
            }
        }
    }
}

/// Garbage collection is safe and complete.  After a marking that began
/// with the roots and went on in order until nothing was pending, the
/// objects to sweep are those of the store that the roots do not reach.
pub proof fn lemma_sweep_is_unreachable(
    m: MarkerView,
    trees: Trees,
    roots: Set<u64>,
    all: Seq<u64>,
)
    requires
        in_order(m, trees, roots),
        m.pending.len() == 0,
        roots.subset_of(m.marked),
    ensures
        forall|id: u64| #[trigger]
            unmarked(m.marked, all).contains(id) <==> all.contains(id) && !reachable(
                trees,
                roots,
                id,
            ),
{
    lemma_unmarked(m.marked, all);
    lemma_marked_is_reachable(m, trees, roots);
}

/// The ids of a list, as a set.
pub open spec fn id_set(ids: Seq<u64>) -> Set<u64> {
    Set::new(|x: u64| ids.contains(x))
}

/// A whole collection over trees at hand: marks from the roots, and hands
/// out the objects to sweep, those of `all` that the roots do not reach, in
/// the order of `all`.  Where a tree that the roots reach is not among the
/// trees at hand, nothing is swept, and that tree is handed out to be read.
pub fn garbage(roots: &Vec<ObjectID>, read: &HashMap<u64, Vec<Object>>, all: &Vec<ObjectID>) -> (r:
    Result<Vec<ObjectID>, ObjectID>)
    ensures
        match r {
            Ok(unused) => forall|id: u64|
                #![trigger id_views(unused@).contains(id)]
                id_views(unused@).contains(id) <==> id_views(all@).contains(id) && !reachable(
                    table(read@),
                    id_set(id_views(roots@)),
                    id,
                ),
            Err(missing) => !read@.contains_key(missing.0.xxh3) && reachable(
                table(read@),
                id_set(id_views(roots@)),
                missing.0.xxh3,
            ),
        },
{
    let ghost trees = table(read@);
    let ghost root_set = id_set(id_views(roots@));
    let mut marker = Marker::new();
    let mut i: usize = 0;
    proof {
        lemma_new_in_order(trees, root_set);
    }
    while i < roots.len()
        invariant
            i <= roots.len(),
            trees == table(read@),
            root_set == id_set(id_views(roots@)),
            in_order(marker@, trees, root_set),
            forall|k: int| 0 <= k < i ==> marker@.marked.contains(#[trigger] id_views(roots@)[k]),
        decreases roots.len() - i,
    {
        let ghost before = marker@;
        proof {
            lemma_reachable_steps(trees, root_set);
            assert(id_views(roots@)[i as int] == roots[i as int].0.xxh3);
            assert(id_views(roots@).contains(roots[i as int].0.xxh3));
            assert(root_set.contains(roots[i as int].0.xxh3));
            assert(reached(trees, root_set, 0).contains(roots[i as int].0.xxh3));
            lemma_mark_in_order(before, trees, root_set, roots[i as int].0.xxh3);
        }
        marker.mark_used_object(roots[i]);
        i = i + 1;
    }
    proof {
        assert(extends(trees, trees));
    }
    let ghost marked_roots = marker@;
    match marker.advance(read) {
        Some(missing) => {
            proof {
                assert(in_order(marker@, trees, root_set));
                assert(marker@.pending[marker@.pending.len() - 1] == missing.0.xxh3);
            }
            Err(missing)
        },
        None => {
            let unused = marker.sweep(all);
            proof {
                assert(in_order(marker@, trees, root_set));
                assert forall|x: u64| root_set.contains(x) implies marker@.marked.contains(x) by {
                    let k = choose|k: int|
                        0 <= k < id_views(roots@).len() && id_views(roots@)[k] == x;
                    assert(marked_roots.marked.contains(id_views(roots@)[k]));
                }
                lemma_sweep_is_unreachable(marker@, trees, root_set, id_views(all@));
            }
            Ok(unused)
        },
    }
}

/// Marking never unmarks, and what is pending is marked.
pub proof fn lemma_mark_trees_grows(m: MarkerView, entries: Seq<ObjectView>)
    requires
        forall|i: int| 0 <= i < m.pending.len() ==> m.marked.contains(m.pending[i]),
    ensures
        m.marked.subset_of(mark_trees(m, entries).marked),
        forall|i: int|
            0 <= i < entries.len() && entries[i].kind == ObjectKind::Tree ==> mark_trees(
                m,
                entries,
            ).marked.contains(entries[i].id),
        forall|i: int|
            0 <= i < mark_trees(m, entries).pending.len() ==> mark_trees(
                m,
                entries,
            ).marked.contains(mark_trees(m, entries).pending[i]),
    decreases entries.len(),
{
    if entries.len() > 0 {
        lemma_mark_trees_grows(m, entries.drop_last());
        let before = mark_trees(m, entries.drop_last());
        let after = mark_trees(m, entries);
        assert forall|i: int| 0 <= i < entries.len() && entries[i].kind
            == ObjectKind::Tree implies after.marked.contains(entries[i].id) by {
            if i < entries.len() - 1 {
                assert(entries.drop_last()[i] == entries[i]);
            }
        }
    }
}

/// Nothing that is marked is swept, and everything else of the store is.
pub proof fn lemma_unmarked(marked: Set<u64>, all: Seq<u64>)
    ensures
        forall|id: u64| #[trigger]
            unmarked(marked, all).contains(id) <==> all.contains(id) && !marked.contains(id),
    decreases all.len(),
{
    let u = unmarked(marked, all);
    if all.len() > 0 {
        let init = all.drop_last();
        let last = all.last();
        lemma_unmarked(marked, init);
        let u0 = unmarked(marked, init);
        assert forall|id: u64| #[trigger] u.contains(id) implies all.contains(id)
            && !marked.contains(id) by {
            let k = choose|k: int| 0 <= k < u.len() && u[k] == id;
            if k < u0.len() {
                assert(u0[k] == id);
                assert(u0.contains(id));
                assert(init.contains(id));
                let j = choose|j: int| 0 <= j < init.len() && init[j] == id;
                assert(all[j] == id);
            } else {
                assert(id == last);
                assert(all[all.len() - 1] == id);
            }
        }
        assert forall|id: u64| all.contains(id) && !marked.contains(id) implies #[trigger]
            u.contains(id) by {
            let j = choose|j: int| 0 <= j < all.len() && all[j] == id;
            if j < all.len() - 1 {
                assert(init[j] == id);
                assert(init.contains(id));
                assert(u0.contains(id));
                let k = choose|k: int| 0 <= k < u0.len() && u0[k] == id;
                assert(u[k] == id);
            } else {
                assert(u[u.len() - 1] == id);
            }
        }
    } else {
        assert forall|id: u64| !(#[trigger] u.contains(id)) by {}
        assert forall|id: u64| !all.contains(id) by {}
    }
}

} // verus!

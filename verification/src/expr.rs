//! Object expressions: a reference or an id, and a path to walk down from it.

use std::collections::HashMap;
use std::str::FromStr;

use vstd::prelude::*;
use vstd::string::{StringExecFns, StringSliceAdditionalSpecFns};
use vstd::utf8::{
    encode_utf8, encode_utf8_valid_utf8, is_char_boundary_iff_not_is_continuation_byte,
    is_char_boundary_start_end_of_seq,
};

use crate::data::{parse_object_id, Object, ObjectID, ObjectRef, ObjectView};
use crate::error::ReadContentError;
use crate::gc::table;
use crate::path::{path_components, RelativePath};
use crate::text::{
    bytes_eq, copy_range, find_byte, first_index_of, lemma_first_index_of,
    lemma_first_index_of_bounds, views,
};
use crate::tree::object_views;

verus! {

broadcast use vstd::std_specs::hash::group_hash_axioms;

/// The byte between the reference and the path of an expression.
pub const COLON: u8 = 0x3a;

/// The part of an expression that names the object to start from: all that
/// stands before the first colon.
pub open spec fn expr_ref_text(s: Seq<u8>) -> Seq<u8> {
    s.subrange(0, first_index_of(s, COLON))
}

/// The components of the path of an expression: those of what stands behind
/// the first colon; none without a colon.
pub open spec fn expr_path(s: Seq<u8>) -> Seq<Seq<u8>> {
    let n = first_index_of(s, COLON);
    if 0 <= n < s.len() {
        path_components(s.subrange(n + 1, s.len() as int))
    } else {
        Seq::empty()
    }
}

/// The reference that a text stands for: the id that it spells, or else the
/// reference of that name.
pub open spec fn is_ref_of(r: ObjectRef, text: Seq<u8>) -> bool {
    match parse_object_id(text) {
        Ok(id) => r == ObjectRef::ID(id),
        Err(_) => r matches ObjectRef::Reference(name) && encode_utf8(name@) == text,
    }
}

/// An expression `<ref-or-id>[:<subpath>]`.
#[derive(Debug, Clone, PartialEq, Eq)]
pub struct ObjectExpr {
    /// The object to start from.
    pub object_ref: ObjectRef,
    /// The path to walk down; `None` stands for the object itself.
    pub path: Option<RelativePath>,
}

impl ObjectExpr {
    /// Reads an expression.  The text is split at its first colon; what
    /// stands before it is an id, if it parses as one, and else the name of a
    /// reference; what stands behind it is the path.  A path without
    /// components is no path.
    pub fn parse(s: &str) -> (e: Self)
        ensures
            is_ref_of(e.object_ref, expr_ref_text(s.spec_bytes())),
            match e.path {
                Some(p) => p@ == expr_path(s.spec_bytes()) && p@.len() > 0,
                None => expr_path(s.spec_bytes()).len() == 0,
            },
    {
        let bytes = s.as_bytes();
        let at = find_byte(bytes, 0, COLON);
        proof {
            assert(bytes@.subrange(0, bytes.len() as int) =~= bytes@);
            lemma_first_index_of_bounds(bytes@, COLON);
            encode_utf8_valid_utf8(s@);
            if at < bytes.len() {
                is_char_boundary_iff_not_is_continuation_byte(bytes@, at as int);
            } else {
                is_char_boundary_start_end_of_seq(bytes@);
            }
        }
        let (head, _) = s.split_at(at);
        let object_ref = ObjectRef::parse(head);
        let path = if at < bytes.len() {
            let text = copy_range(bytes, at + 1, bytes.len());
            let p = RelativePath::from_bytes(text.as_slice());
            if p.is_root() {
                None
            } else {
                Some(p)
            }
        } else {
            None
        };
        Self { object_ref, path }
    }

    /// The expression as text: the reference, and the path behind a colon
    /// where there is one.
    pub fn to_string(&self) -> (s: String)
        ensures
            match self.path {
                None => shows_ref(self.object_ref, s@),
                Some(p) => exists|r: Seq<char>, t: Seq<char>|
                    #![trigger shows_ref(self.object_ref, r), shows_path(p@, t)]
                    shows_ref(self.object_ref, r) && shows_path(p@, t) && s@ == r + ":"@ + t,
            },
    {
        let mut s = self.object_ref.to_string();
        let ghost r = s@;
        match &self.path {
            Some(p) => {
                s.append(":");
                let text = p.to_string();
                s.append(text.as_str());
                assert(shows_ref(self.object_ref, r) && shows_path(p@, text@));
            },
            None => {},
        }
        s
    }
}

/// `text` is how the path with the components `p` is shown.
pub open spec fn shows_path(p: Seq<Seq<u8>>, text: Seq<char>) -> bool {
    text == crate::text::utf8_lossy(crate::path::join_text(p))
}

/// `text` is how the reference `r` is written.
pub open spec fn shows_ref(r: ObjectRef, text: Seq<char>) -> bool {
    match r {
        ObjectRef::Reference(name) => text == name@,
        ObjectRef::ID(id) => text == crate::text::ascii_chars(
            crate::hash::hex_digits(id.0.xxh3 as nat, 16),
        ),
    }
}

impl FromStr for ObjectExpr {
    type Err = String;

    /// Reads an expression, as `parse` does; it never fails.
    fn from_str(s: &str) -> (r: Result<Self, String>)
        ensures
            r matches Ok(e) && is_ref_of(e.object_ref, expr_ref_text(s.spec_bytes())) && match e.path {
                Some(p) => p@ == expr_path(s.spec_bytes()) && p@.len() > 0,
                None => expr_path(s.spec_bytes()).len() == 0,
            },
    {
        Ok(ObjectExpr::parse(s))
    }
}

/// An expression that ends in its colon says what it says without it.
pub proof fn lemma_expr_trailing_colon(s: Seq<u8>)
    requires
        forall|i: int| 0 <= i < s.len() ==> s[i] != COLON,
    ensures
        expr_ref_text(s.push(COLON)) == expr_ref_text(s),
        expr_path(s.push(COLON)) == expr_path(s),
        expr_path(s).len() == 0,
{
    let t = s.push(COLON);
    lemma_first_index_of(s, COLON, s.len() as int);
    lemma_first_index_of(t, COLON, s.len() as int);
    assert(t.subrange(0, s.len() as int) =~= s.subrange(0, s.len() as int));
    let rest = t.subrange(s.len() as int + 1, t.len() as int);
    assert(rest =~= Seq::<u8>::empty());
    assert(crate::text::split_on(rest, crate::path::SEPARATOR) =~= seq![rest]);
    reveal_with_fuel(crate::path::kept, 2);
    assert(seq![rest].drop_last() =~= Seq::<Seq<u8>>::empty());
}

/// The id of the first entry of the given name; an entry without a name has
/// none.
pub open spec fn child_of(entries: Seq<ObjectView>, name: Seq<u8>) -> Option<u64>
    decreases entries.len(),
{
    if entries.len() == 0 {
        None
    } else if entries[0].basename.len() > 0 && entries[0].basename.last() == name {
        Some(entries[0].id)
    } else {
        child_of(entries.drop_first(), name)
    }
}

/// Looks an entry up by name: the match is exact, byte for byte.
pub fn find_child(entries: &Vec<Object>, name: &[u8]) -> (r: Option<ObjectID>)
    ensures
        match child_of(object_views(entries@), name@) {
            Some(id) => r matches Some(found) && found.0.xxh3 == id,
            None => r is None,
        },
{
    let mut i: usize = 0;
    assert(object_views(entries@).subrange(0, entries.len() as int) =~= object_views(entries@));
    while i < entries.len()
        invariant
            i <= entries.len(),
            child_of(object_views(entries@), name@) == child_of(
                object_views(entries@).subrange(i as int, entries.len() as int),
                name@,
            ),
        decreases entries.len() - i,
    {
        let ghost rest = object_views(entries@).subrange(i as int, entries.len() as int);
        assert(rest[0] == entries[i as int]@);
        assert(rest.drop_first() =~= object_views(entries@).subrange(
            i + 1,
            entries.len() as int,
        ));
        match entries[i].basename.file_name() {
            Some(n) => {
                if bytes_eq(n.as_slice(), name) {
                    return Some(entries[i].id);
                }
            },
            None => {},
        }
        i = i + 1;
    }
    None
}

/// How a walk ends.
pub enum Walk {
    /// The walk comes to its end: the ids of the objects it passes, in the
    /// order of the components.
    Found(Seq<u64>),
    /// The walk stands before a tree that is not among the trees at hand.
    Missing(u64),
    /// A tree on the way has no entry of the name of the next component.
    NotFound,
}

/// The end of a walk behind the objects `passed`.
pub open spec fn behind(passed: Seq<u64>, walk: Walk) -> Walk {
    match walk {
        Walk::Found(ids) => Walk::Found(passed + ids),
        other => other,
    }
}

/// How the walk from the object `at` along `path` ends, with the trees at
/// hand: at every component it goes into the first entry of that name.
pub open spec fn walk(trees: crate::gc::Trees, at: u64, path: Seq<Seq<u8>>) -> Walk
    decreases path.len(),
{
    if path.len() == 0 {
        Walk::Found(Seq::empty())
    } else if !trees.contains_key(at) {
        Walk::Missing(at)
    } else {
        match child_of(trees[at], path[0]) {
            Some(child) => behind(seq![child], walk(trees, child, path.drop_first())),
            None => Walk::NotFound,
        }
    }
}

/// A walk along components that are all there comes to the last of them.
/// Let `way` hold the object to start from and then, for every component of
/// `path`, the object that the entry of that name in the tree before it
/// stands for; then the walk passes those objects, and ends at the last.
pub proof fn lemma_walk_along(trees: crate::gc::Trees, way: Seq<u64>, path: Seq<Seq<u8>>)
    requires
        way.len() == path.len() + 1,
        forall|i: int|
            0 <= i < path.len() ==> trees.contains_key(#[trigger] way[i]) && child_of(
                trees[way[i]],
                path[i],
            ) == Some(way[i + 1]),
    ensures
        walk(trees, way[0], path) == Walk::Found(way.drop_first()),
    decreases path.len(),
{
    if path.len() == 0 {
        assert(way.drop_first() =~= Seq::<u64>::empty());
    } else {
        let rest = way.drop_first();
        assert forall|i: int| 0 <= i < path.drop_first().len() implies trees.contains_key(
            #[trigger] rest[i],
        ) && child_of(trees[rest[i]], path.drop_first()[i]) == Some(rest[i + 1]) by {
            assert(trees.contains_key(way[i + 1]));
            assert(rest[i] == way[i + 1] && rest[i + 1] == way[i + 2]);
        }
        lemma_walk_along(trees, rest, path.drop_first());
        assert(trees.contains_key(way[0]));
        assert(rest[0] == way[1]);
        assert(seq![way[1]] + rest.drop_first() =~= rest);
    }
}

/// A walk fails at the first tree that has no entry of the name that leads
/// on.  Let the first `n` components be there, as in `lemma_walk_along`, and
/// let the tree that they lead to have no entry of the name of the next
/// component; then nothing is found.
pub proof fn lemma_walk_fails(trees: crate::gc::Trees, way: Seq<u64>, path: Seq<Seq<u8>>, n: int)
    requires
        0 <= n < path.len(),
        way.len() == n + 1,
        forall|i: int|
            0 <= i < n ==> trees.contains_key(#[trigger] way[i]) && child_of(
                trees[way[i]],
                path[i],
            ) == Some(way[i + 1]),
        trees.contains_key(way[n]),
        child_of(trees[way[n]], path[n]) is None,
    ensures
        walk(trees, way[0], path) == Walk::NotFound,
    decreases n,
{
    if n > 0 {
        let rest = way.drop_first();
        assert forall|i: int| 0 <= i < n - 1 implies trees.contains_key(#[trigger] rest[i])
            && child_of(trees[rest[i]], path.drop_first()[i]) == Some(rest[i + 1]) by {
            assert(trees.contains_key(way[i + 1]));
            assert(rest[i] == way[i + 1] && rest[i + 1] == way[i + 2]);
        }
        assert(rest[n - 1] == way[n]);
        assert(path.drop_first()[n - 1] == path[n]);
        lemma_walk_fails(trees, rest, path.drop_first(), n - 1);
        assert(trees.contains_key(way[0]));
        assert(rest[0] == way[1]);
    }
}

/// More trees at hand do not change a walk that did not miss one.
pub proof fn lemma_walk_with_more(
    trees: crate::gc::Trees,
    more: crate::gc::Trees,
    at: u64,
    path: Seq<Seq<u8>>,
)
    requires
        crate::gc::extends(trees, more),
        !(walk(trees, at, path) is Missing),
    ensures
        walk(more, at, path) == walk(trees, at, path),
    decreases path.len(),
{
    if path.len() > 0 {
        assert(trees.contains_key(at));
        match child_of(trees[at], path[0]) {
            Some(child) => {
                lemma_walk_with_more(trees, more, child, path.drop_first());
            },
            None => {},
        }
    }
}

/// Standing behind some objects and then some more is standing behind all
/// of them.
pub proof fn lemma_behind_twice(a: Seq<u64>, b: Seq<u64>, w: Walk)
    ensures
        behind(a, behind(b, w)) == behind(a + b, w),
{
    match w {
        Walk::Found(ids) => {
            assert(a + (b + ids) =~= (a + b) + ids);
        },
        _ => {},
    }
}

/// A walk down from an object along the components of a path.
pub struct Search {
    /// The components still to walk, the next one last.
    remaining: Vec<Vec<u8>>,
    /// The objects passed so far, the first child first.
    routes: Vec<ObjectID>,
    /// The object that the walk has reached.
    at: ObjectID,
}

/// What a walk asks for next.
#[derive(Debug, PartialEq, Eq)]
pub enum SearchStep {
    /// Read the tree with this id; its entries lead the walk on.
    Read(ObjectID),
    /// The walk is over: the objects on the way, the target first and the
    /// first child last.  A walk without components passes no object.
    Found(Vec<ObjectID>),
}

impl Search {
    /// The components still to walk, in their order.
    pub closed spec fn remaining(&self) -> Seq<Seq<u8>> {
        views(self.remaining@).reverse()
    }

    /// The ids of the objects passed so far, in their order.
    pub closed spec fn passed(&self) -> Seq<u64> {
        crate::gc::id_views(self.routes@)
    }

    /// The id of the object that the walk has reached.
    pub closed spec fn position(&self) -> u64 {
        self.at.0.xxh3
    }

    /// How the walk ends from where it stands, with the trees at hand: the
    /// objects passed so far, and then the walk along what remains.
    pub open spec fn outcome(&self, trees: crate::gc::Trees) -> Walk {
        behind(self.passed(), walk(trees, self.position(), self.remaining()))
    }

    /// Walks on as far as the trees at hand lead.  `read` holds trees that
    /// were read, each under its id.  The walk ends where no component is
    /// left; it fails where a tree has no entry of the name that leads on; it
    /// stops before the first tree that `read` does not hold, and asks for it.
    /// Wherever it stops, it goes on to the same end when it is called again
    /// with more trees.
    pub fn advance(&mut self, read: &HashMap<u64, Vec<Object>>) -> (r: Result<
        SearchStep,
        ReadContentError,
    >)
        ensures
            match old(self).outcome(table(read@)) {
                Walk::Found(ids) => {
                    &&& r matches Ok(SearchStep::Found(routes)) && crate::gc::id_views(routes@)
                        == ids.reverse()
                    &&& final(self).remaining().len() == 0
                    &&& final(self).passed() == ids
                },
                Walk::Missing(id) => {
                    &&& r matches Ok(SearchStep::Read(tree)) && tree.0.xxh3 == id
                    &&& !read@.contains_key(id)
                    &&& final(self).position() == id
                    &&& final(self).remaining().len() > 0
                },
                Walk::NotFound => r == Err::<SearchStep, ReadContentError>(
                    ReadContentError::ObjectNotFound,
                ),
            },
            forall|more: crate::gc::Trees|
                crate::gc::extends(table(read@), more) ==> #[trigger] final(self).outcome(more)
                    == old(self).outcome(more),
    {
        let ghost trees = table(read@);
        while self.remaining.len() > 0
            invariant
                trees == table(read@),
                self.outcome(trees) == old(self).outcome(trees),
                forall|more: crate::gc::Trees|
                    crate::gc::extends(trees, more) ==> #[trigger] self.outcome(more) == old(
                        self,
                    ).outcome(more),
            decreases self.remaining(),
        {
            let ghost before = *self;
            assert(self.remaining().len() > 0) by {
                assert(views(self.remaining@).reverse().len() == self.remaining.len());
            }
            let key = self.at.as_u64();
            match read.get(&key) {
                None => {
                    assert(!trees.contains_key(key));
                    return Ok(SearchStep::Read(self.at));
                },
                Some(entries) => {
                    assert(trees.contains_key(key) && trees[key] == object_views(entries@));
                    match self.step(entries) {
                        Err(e) => {
                            proof {
                                assert forall|more: crate::gc::Trees|
                                    crate::gc::extends(trees, more) implies #[trigger] self.outcome(
                                    more,
                                ) == old(self).outcome(more) by {
                                    assert(self.outcome(more) == before.outcome(more));
                                }
                            }
                            return Err(e);
                        },
                        Ok(()) => {
                            proof {
                                let child = self.position();
                                assert(before.passed().push(child) =~= before.passed() + seq![
                                    child,
                                ]);
                                assert forall|more: crate::gc::Trees|
                                    crate::gc::extends(trees, more) implies #[trigger] self.outcome(
                                    more,
                                ) == before.outcome(more) by {
                                    assert(trees.contains_key(key));
                                    assert(more.contains_key(key) && more[key] == trees[key]);
                                    lemma_behind_twice(
                                        before.passed(),
                                        seq![child],
                                        walk(more, child, self.remaining()),
                                    );
                                }
                                assert(crate::gc::extends(trees, trees));
                            }
                        },
                    }
                },
            }
        }
        proof {
            assert(views(self.remaining@).reverse().len() == self.remaining.len());
            assert(self.passed() + Seq::<u64>::empty() =~= self.passed());
        }
        Ok(self.next())
    }

    /// A walk from `base` down `path`.
    pub fn new(base: ObjectID, path: &RelativePath) -> (s: Self)
        ensures
            s.remaining() == path@,
            s.passed() == Seq::<u64>::empty(),
            s.position() == base.0.xxh3,
    {
        let mut remaining: Vec<Vec<u8>> = Vec::new();
        let mut rest = path.clone();
        assert(views(remaining@).reverse() =~= Seq::empty());
        assert(rest@ + views(remaining@).reverse() =~= path@);
        while rest.is_path()
            invariant
                rest@ + views(remaining@).reverse() == path@,
            decreases rest@.len(),
        {
            let ghost before = rest@;
            let ghost had = views(remaining@);
            let name = rest.file_name().unwrap();
            remaining.push(name);
            rest = rest.parent();
            assert(views(remaining@) =~= had.push(before.last()));
            assert(views(remaining@).reverse() =~= seq![before.last()] + had.reverse());
            assert(rest@ + views(remaining@).reverse() =~= before + had.reverse());
        }
        assert(rest@ + views(remaining@).reverse() =~= views(remaining@).reverse());
        let s = Self { remaining, routes: Vec::new(), at: base };
        assert(crate::gc::id_views(s.routes@) =~= Seq::empty());
        s
    }

    /// What to do next: read the tree that the walk has reached, or stop
    /// where no component is left.
    pub fn next(&self) -> (r: SearchStep)
        ensures
            match r {
                SearchStep::Read(id) => self.remaining().len() > 0 && id.0.xxh3
                    == self.position(),
                SearchStep::Found(routes) => self.remaining().len() == 0 && crate::gc::id_views(
                    routes@,
                ) == self.passed().reverse(),
            },
    {
        if self.remaining.len() > 0 {
            assert(views(self.remaining@).reverse().len() == self.remaining.len());
            SearchStep::Read(self.at)
        } else {
            assert(views(self.remaining@).reverse().len() == self.remaining.len());
            let mut routes: Vec<ObjectID> = Vec::new();
            let mut i: usize = self.routes.len();
            let ghost all = crate::gc::id_views(self.routes@);
            assert(crate::gc::id_views(routes@) =~= all.reverse().take(0));
            while i > 0
                invariant
                    i <= self.routes.len(),
                    all == crate::gc::id_views(self.routes@),
                    crate::gc::id_views(routes@) == all.reverse().take(self.routes.len() - i),
                decreases i,
            {
                i = i - 1;
                let ghost had = crate::gc::id_views(routes@);
                routes.push(self.routes[i]);
                assert(crate::gc::id_views(routes@) =~= had.push(all[i as int]));
                assert(crate::gc::id_views(routes@) =~= all.reverse().take(
                    self.routes.len() - i,
                ));
            }
            assert(all.reverse().take(self.routes.len() as int) =~= all.reverse());
            SearchStep::Found(routes)
        }
    }

    /// Takes the entries of the tree that the walk has reached and goes one
    /// component down.  The walk fails where no entry has the name of the
    /// component.
    pub fn step(&mut self, entries: &Vec<Object>) -> (r: Result<(), ReadContentError>)
        ensures
            old(self).remaining().len() == 0 ==> {
                &&& r is Ok
                &&& final(self).remaining() == old(self).remaining()
                &&& final(self).passed() == old(self).passed()
                &&& final(self).position() == old(self).position()
            },
            old(self).remaining().len() > 0 ==> match child_of(
                object_views(entries@),
                old(self).remaining()[0],
            ) {
                Some(id) => {
                    &&& r is Ok
                    &&& final(self).position() == id
                    &&& final(self).remaining() == old(self).remaining().drop_first()
                    &&& final(self).passed() == old(self).passed().push(id)
                },
                None => {
                    &&& r == Err::<(), ReadContentError>(ReadContentError::ObjectNotFound)
                    &&& final(self).remaining() == old(self).remaining()
                    &&& final(self).passed() == old(self).passed()
                    &&& final(self).position() == old(self).position()
                },
            },
    {
        let ghost had = views(self.remaining@);
        assert(had.reverse().len() == had.len());
        if self.remaining.len() == 0 {
            return Ok(());
        }
        assert(had.reverse()[0] == had.last());
        let name = &self.remaining[self.remaining.len() - 1];
        match find_child(entries, name.as_slice()) {
            None => Err(ReadContentError::ObjectNotFound),
            Some(id) => {
                let ghost passed = crate::gc::id_views(self.routes@);
                self.remaining.pop();
                self.routes.push(id);
                self.at = id;
                assert(views(self.remaining@) =~= had.drop_last());
                assert(views(self.remaining@).reverse() =~= had.reverse().drop_first());
                assert(crate::gc::id_views(self.routes@) =~= passed.push(id.0.xxh3));
                Ok(())
            },
        }
    }
}

} // verus!

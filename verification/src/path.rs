//! Relative paths: the root of the tree, or a non-empty list of components.

use vstd::prelude::*;
use vstd::string::StringSliceAdditionalSpecFns;
use vstd::utf8::{decode_utf8, valid_utf8};

use crate::text::{
    bytes_eq, bytes_less, bytes_lt, copy_range, first_index_of, join_with,
    lemma_bytes_lt_irreflexive, lemma_bytes_lt_total, lemma_bytes_lt_transitive,
    lemma_first_index_of_bounds, lossy_text, split, split_on, utf8_lossy, views,
};

verus! {

/// The byte that separates the components of a path.
pub const SEPARATOR: u8 = 0x2f;

/// A segment of a path text counts as a component unless it is empty or `.`.
pub open spec fn keeps(seg: Seq<u8>) -> bool {
    seg.len() > 0 && seg != seq![0x2eu8]
}

/// A component is a kept segment without a separator in it.
pub open spec fn valid_component(c: Seq<u8>) -> bool {
    keeps(c) && forall|i: int| 0 <= i < c.len() ==> c[i] != SEPARATOR
}

pub open spec fn valid_components(cs: Seq<Seq<u8>>) -> bool {
    forall|i: int| 0 <= i < cs.len() ==> valid_component(#[trigger] cs[i])
}

/// The segments that count, in their order.
pub open spec fn kept(segs: Seq<Seq<u8>>) -> Seq<Seq<u8>>
    decreases segs.len(),
{
    if segs.len() == 0 {
        Seq::empty()
    } else if keeps(segs.last()) {
        kept(segs.drop_last()).push(segs.last())
    } else {
        kept(segs.drop_last())
    }
}

/// The components of a path text: its segments between separators, without
/// the empty ones and without `.`.
pub open spec fn path_components(text: Seq<u8>) -> Seq<Seq<u8>> {
    kept(split_on(text, SEPARATOR))
}

/// The text of a list of components: the components with one separator
/// between neighbours.
pub open spec fn join_text(cs: Seq<Seq<u8>>) -> Seq<u8> {
    join_with(cs, SEPARATOR)
}

/// Strict order of component lists: component by component, each compared as
/// a byte string; a proper prefix comes first, so the empty list is least.
pub open spec fn components_lt(a: Seq<Seq<u8>>, b: Seq<Seq<u8>>) -> bool
    decreases a.len(),
{
    if b.len() == 0 {
        false
    } else if a.len() == 0 {
        true
    } else if a[0] != b[0] {
        bytes_lt(a[0], b[0])
    } else {
        components_lt(a.drop_first(), b.drop_first())
    }
}

/// No path sorts before itself.
pub proof fn lemma_components_lt_irreflexive(a: Seq<Seq<u8>>)
    ensures
        !components_lt(a, a),
    decreases a.len(),
{
    if a.len() > 0 {
        lemma_components_lt_irreflexive(a.drop_first());
    }
}

/// The order of paths is transitive.
pub proof fn lemma_components_lt_transitive(a: Seq<Seq<u8>>, b: Seq<Seq<u8>>, c: Seq<Seq<u8>>)
    requires
        components_lt(a, b),
        components_lt(b, c),
    ensures
        components_lt(a, c),
    decreases a.len(),
{
    if a.len() > 0 && b.len() > 0 && c.len() > 0 {
        if a[0] == b[0] && b[0] == c[0] {
            lemma_components_lt_transitive(a.drop_first(), b.drop_first(), c.drop_first());
        } else if a[0] != b[0] && b[0] != c[0] {
            lemma_bytes_lt_transitive(a[0], b[0], c[0]);
            lemma_bytes_lt_irreflexive(a[0]);
        }
    }
}

/// Of two different paths one sorts before the other: the order is total.
pub proof fn lemma_components_lt_total(a: Seq<Seq<u8>>, b: Seq<Seq<u8>>)
    ensures
        a == b || components_lt(a, b) || components_lt(b, a),
    decreases a.len(),
{
    if a.len() > 0 && b.len() > 0 {
        if a[0] == b[0] {
            lemma_components_lt_total(a.drop_first(), b.drop_first());
            if a.drop_first() == b.drop_first() {
                assert(a =~= seq![a[0]] + a.drop_first());
                assert(b =~= seq![b[0]] + b.drop_first());
            }
        } else {
            lemma_bytes_lt_total(a[0], b[0]);
        }
    } else if a.len() == 0 && b.len() == 0 {
        assert(a =~= b);
    }
}

/// The root is its own parent, and the only path that is.
pub proof fn lemma_parent_fixed_point(path: Seq<Seq<u8>>)
    ensures
        parent_of(path) == path <==> path.len() == 0,
{
}

/// The root sorts before every other path.
pub proof fn lemma_root_is_least(a: Seq<Seq<u8>>)
    ensures
        a.len() > 0 ==> components_lt(Seq::empty(), a),
        !components_lt(a, Seq::empty()),
{
}

/// Valid components are all kept.
pub proof fn lemma_kept_all(cs: Seq<Seq<u8>>)
    requires
        valid_components(cs),
    ensures
        kept(cs) == cs,
    decreases cs.len(),
{
    if cs.len() > 0 {
        let init = cs.drop_last();
        assert forall|i: int| 0 <= i < init.len() implies valid_component(#[trigger] init[i]) by {
            assert(init[i] == cs[i]);
        }
        lemma_kept_all(init);
        assert(valid_component(cs[cs.len() - 1]));
        assert(init.push(cs.last()) =~= cs);
    }
}

/// Reading the text of a path gives the path back: the components of the
/// text of valid components are those components.
pub proof fn lemma_path_text_round_trip(cs: Seq<Seq<u8>>)
    requires
        valid_components(cs),
    ensures
        path_components(join_text(cs)) == cs,
{
    if cs.len() == 0 {
        let e = Seq::<u8>::empty();
        crate::text::lemma_split_whole(e, SEPARATOR);
        reveal_with_fuel(kept, 2);
        assert(seq![e].drop_last() =~= Seq::<Seq<u8>>::empty());
        assert(kept(seq![e]) =~= cs);
    } else {
        assert forall|i: int| 0 <= i < cs.len() implies crate::text::free_of(
            #[trigger] cs[i],
            SEPARATOR,
        ) by {
            assert(valid_component(cs[i]));
        }
        crate::text::lemma_split_join(cs, SEPARATOR);
        lemma_kept_all(cs);
    }
}

/// `base` is `path` or one of the directories above it.
pub open spec fn is_prefix(base: Seq<Seq<u8>>, path: Seq<Seq<u8>>) -> bool {
    base.len() <= path.len() && path.take(base.len() as int) == base
}

/// `text` is the text of a well-formed path.
pub open spec fn is_path_text(text: Seq<u8>) -> bool {
    exists|cs: Seq<Seq<u8>>| valid_components(cs) && text == #[trigger] join_text(cs)
}

/// The components of a path without the last; the root stays the root.
pub open spec fn parent_of(path: Seq<Seq<u8>>) -> Seq<Seq<u8>> {
    if path.len() == 0 {
        path
    } else {
        path.drop_last()
    }
}

/// The last component of a path, as a path; the root stays the root.
pub open spec fn name_of(path: Seq<Seq<u8>>) -> Seq<Seq<u8>> {
    if path.len() == 0 {
        path
    } else {
        seq![path.last()]
    }
}

/// No segment of a split holds the separator.
pub proof fn lemma_split_segments(s: Seq<u8>, sep: u8)
    ensures
        split_on(s, sep).len() >= 1,
        forall|i: int, j: int|
            0 <= i < split_on(s, sep).len() && 0 <= j < split_on(s, sep)[i].len() ==> split_on(
                s,
                sep,
            )[i][j] != sep,
    decreases s.len(),
{
    lemma_first_index_of_bounds(s, sep);
    let n = first_index_of(s, sep);
    if 0 <= n < s.len() {
        let rest = s.subrange(n + 1, s.len() as int);
        lemma_split_segments(rest, sep);
        let all = split_on(s, sep);
        assert forall|i: int, j: int| 0 <= i < all.len() && 0 <= j < all[i].len() implies all[i][j]
            != sep by {
            if i > 0 {
                assert(all[i] == split_on(rest, sep)[i - 1]);
            }
        }
    }
}

/// What is kept of valid segments is a list of valid components.
pub proof fn lemma_kept_valid(segs: Seq<Seq<u8>>)
    requires
        forall|i: int, j: int| 0 <= i < segs.len() && 0 <= j < segs[i].len() ==> segs[i][j] != SEPARATOR,
    ensures
        valid_components(kept(segs)),
        kept(segs).len() <= segs.len(),
    decreases segs.len(),
{
    if segs.len() > 0 {
        let init = segs.drop_last();
        assert forall|i: int, j: int| 0 <= i < init.len() && 0 <= j < init[i].len() implies init[i][j]
            != SEPARATOR by {
            assert(init[i] == segs[i]);
        }
        lemma_kept_valid(init);
    }
}

/// The components of any text are valid.
pub proof fn lemma_path_components_valid(text: Seq<u8>)
    ensures
        valid_components(path_components(text)),
{
    lemma_split_segments(text, SEPARATOR);
    lemma_kept_valid(split_on(text, SEPARATOR));
}

/// The non-empty list of components of a path below the root.
#[derive(Debug, PartialEq, Eq, Hash, PartialOrd, Ord)]
pub struct Components {
    parts: Vec<Vec<u8>>,
}

impl View for Components {
    type V = Seq<Seq<u8>>;

    closed spec fn view(&self) -> Seq<Seq<u8>> {
        views(self.parts@)
    }
}

impl Components {
    #[verifier::type_invariant]
    pub closed spec fn inv(self) -> bool {
        self.parts.len() > 0 && valid_components(views(self.parts@))
    }
}

/// A path relative to the root of the tree.
#[derive(Debug, PartialEq, Eq, Hash, PartialOrd, Ord)]
pub enum RelativePath {
    /// The root of the tree: the empty path.
    Root,
    /// A path of one component or more.
    Path(Components),
}

impl View for RelativePath {
    type V = Seq<Seq<u8>>;

    /// The components of the path; the root has none.
    open spec fn view(&self) -> Seq<Seq<u8>> {
        match self {
            RelativePath::Root => Seq::empty(),
            RelativePath::Path(c) => c@,
        }
    }
}

/// A copy of a list of byte strings.
fn clone_parts(parts: &Vec<Vec<u8>>, upto: usize) -> (out: Vec<Vec<u8>>)
    requires
        upto <= parts.len(),
    ensures
        views(out@) == views(parts@).take(upto as int),
{
    let mut out: Vec<Vec<u8>> = Vec::new();
    let mut i: usize = 0;
    while i < upto
        invariant
            i <= upto <= parts.len(),
            views(out@) == views(parts@).take(i as int),
        decreases upto - i,
    {
        let c = copy_range(parts[i].as_slice(), 0, parts[i].len());
        assert(c@ =~= parts[i as int]@);
        let ghost before = views(out@);
        out.push(c);
        i = i + 1;
        assert(views(out@) =~= before.push(c@));
        assert(views(out@) =~= views(parts@).take(i as int));
    }
    out
}

/// The components of a path text.
fn parse_components(text: &[u8]) -> (out: Vec<Vec<u8>>)
    ensures
        views(out@) == path_components(text@),
        valid_components(views(out@)),
{
    let segs = split(text, SEPARATOR);
    let mut out: Vec<Vec<u8>> = Vec::new();
    let mut i: usize = 0;
    while i < segs.len()
        invariant
            i <= segs.len(),
            views(segs@) == split_on(text@, SEPARATOR),
            views(out@) == kept(views(segs@).take(i as int)),
        decreases segs.len() - i,
    {
        let seg = &segs[i];
        let ghost before = views(segs@).take(i as int);
        let ghost after = views(segs@).take(i + 1);
        assert(after.drop_last() =~= before);
        assert(after.last() == seg@);
        let is_dot = seg.len() == 1 && seg[0] == 0x2e;
        assert(is_dot == (seg@ =~= seq![0x2eu8]));
        if seg.len() > 0 && !is_dot {
            let c = copy_range(seg.as_slice(), 0, seg.len());
            assert(c@ =~= seg@);
            out.push(c);
            assert(views(out@) =~= kept(before).push(seg@));
        }
        i = i + 1;
    }
    proof {
        assert(views(segs@).take(segs.len() as int) =~= views(segs@));
        lemma_path_components_valid(text@);
    }
    out
}

impl RelativePath {
    /// Well-formed paths: below the root there is at least one component, and
    /// every component is valid.  Every value that the library hands out is
    /// well-formed.
    pub open spec fn wf(&self) -> bool {
        match self {
            RelativePath::Root => true,
            RelativePath::Path(c) => c@.len() > 0 && valid_components(c@),
        }
    }

    /// The path with the given components; the root where there are none.
    fn from_parts(parts: Vec<Vec<u8>>) -> (p: Self)
        requires
            valid_components(views(parts@)),
        ensures
            p@ == views(parts@),
            p.wf(),
            p is Root <==> parts.len() == 0,
    {
        if parts.len() == 0 {
            assert(views(parts@) =~= Seq::empty());
            RelativePath::Root
        } else {
            RelativePath::Path(Components { parts })
        }
    }

    /// Reads a path from its text: the segments between `/`, without the
    /// empty ones and without `.`.  A text without components is the root.
    pub fn from_bytes(text: &[u8]) -> (p: Self)
        ensures
            p@ == path_components(text@),
            p.wf(),
            p is Root <==> path_components(text@).len() == 0,
    {
        Self::from_parts(parse_components(text))
    }

    /// Reads a path from its text, as `from_bytes` does.
    pub fn from_str(text: &str) -> (p: Self)
        ensures
            p@ == path_components(text.spec_bytes()),
            p.wf(),
            p is Root <==> path_components(text.spec_bytes()).len() == 0,
    {
        Self::from_bytes(text.as_bytes())
    }

    pub fn is_root(&self) -> (b: bool)
        ensures
            b == (self is Root),
            b == (self@.len() == 0),
    {
        match self {
            RelativePath::Root => true,
            RelativePath::Path(c) => {
                proof {
                    use_type_invariant(c);
                }
                false
            },
        }
    }

    pub fn is_path(&self) -> (b: bool)
        ensures
            b == (self is Path),
            b == (self@.len() > 0),
    {
        !self.is_root()
    }

    /// The path without its last component.  The root is its own parent, and
    /// the only path that is.
    pub fn parent(&self) -> (p: Self)
        ensures
            p.wf(),
            p@ == parent_of(self@),
    {
        match self {
            RelativePath::Root => RelativePath::Root,
            RelativePath::Path(c) => {
                proof {
                    use_type_invariant(c);
                }
                let parts = clone_parts(&c.parts, c.parts.len() - 1);
                assert(views(parts@) =~= c@.drop_last());
                Self::from_parts(parts)
            },
        }
    }

    /// The last component; the root has none.
    pub fn file_name(&self) -> (name: Option<Vec<u8>>)
        ensures
            self@.len() == 0 <==> name is None,
            name matches Some(n) ==> n@ == self@.last() && valid_component(n@),
    {
        match self {
            RelativePath::Root => None,
            RelativePath::Path(c) => {
                proof {
                    use_type_invariant(c);
                }
                let last = &c.parts[c.parts.len() - 1];
                let n = copy_range(last.as_slice(), 0, last.len());
                assert(n@ =~= c@.last());
                Some(n)
            },
        }
    }

    /// The first component; the root has none.
    pub fn first_name(&self) -> (name: Option<Vec<u8>>)
        ensures
            self@.len() == 0 <==> name is None,
            name matches Some(n) ==> n@ == self@[0] && valid_component(n@),
    {
        match self {
            RelativePath::Root => None,
            RelativePath::Path(c) => {
                proof {
                    use_type_invariant(c);
                }
                let first = &c.parts[0];
                let n = copy_range(first.as_slice(), 0, first.len());
                assert(n@ =~= c@[0]);
                Some(n)
            },
        }
    }

    /// The last component as a path of its own; the root for the root.
    pub fn base(&self) -> (p: Self)
        ensures
            p.wf(),
            p@ == name_of(self@),
    {
        match self {
            RelativePath::Root => RelativePath::Root,
            RelativePath::Path(c) => {
                proof {
                    use_type_invariant(c);
                }
                let last = &c.parts[c.parts.len() - 1];
                let n = copy_range(last.as_slice(), 0, last.len());
                assert(n@ =~= c@.last());
                let mut parts: Vec<Vec<u8>> = Vec::new();
                parts.push(n);
                assert(views(parts@) =~= seq![c@.last()]);
                Self::from_parts(parts)
            },
        }
    }

    /// Whether this path is `base` or lies below it.
    pub fn starts_with(&self, base: &Self) -> (b: bool)
        ensures
            b == is_prefix(base@, self@),
    {
        match (self, base) {
            (_, RelativePath::Root) => {
                assert(self@.take(0) =~= base@);
                true
            },
            (RelativePath::Root, RelativePath::Path(b)) => {
                proof {
                    use_type_invariant(b);
                    assert(b@.len() > 0);
                }
                false
            },
            (RelativePath::Path(a), RelativePath::Path(b)) => {
                if b.parts.len() > a.parts.len() {
                    assert(b@.len() > a@.len());
                    return false;
                }
                let mut i: usize = 0;
                assert(a@.take(0) =~= b@.take(0));
                while i < b.parts.len()
                    invariant
                        i <= b.parts.len() <= a.parts.len(),
                        self@ == a@,
                        base@ == b@,
                        a@.take(i as int) == b@.take(i as int),
                    decreases b.parts.len() - i,
                {
                    assert(a@[i as int] == a.parts[i as int]@);
                    assert(b@[i as int] == b.parts[i as int]@);
                    if !bytes_eq(a.parts[i].as_slice(), b.parts[i].as_slice()) {
                        assert(a@.take(b@.len() as int)[i as int] != b@[i as int]);
                        return false;
                    }
                    i = i + 1;
                    assert(a@.take(i as int) =~= b@.take(i as int)) by {
                        assert forall|k: int| 0 <= k < i implies a@[k] == b@[k] by {
                            if k < i - 1 {
                                assert(a@.take(i - 1)[k] == b@.take(i - 1)[k]);
                            }
                        }
                    }
                }
                assert(b@.take(b.parts.len() as int) =~= b@);
                true
            },
        }
    }

    /// The text of the path: its components with `/` between them; the root
    /// is the empty text.
    pub fn as_path(&self) -> (text: Vec<u8>)
        ensures
            text@ == join_text(self@),
            is_path_text(text@),
    {
        proof {
            match self {
                RelativePath::Root => {},
                RelativePath::Path(c) => {
                    use_type_invariant(c);
                },
            }
        }
        match self {
            RelativePath::Root => {
                let text: Vec<u8> = Vec::new();
                assert(text@ =~= join_text(self@));
                text
            },
            RelativePath::Path(c) => {
                let mut text: Vec<u8> = Vec::new();
                let mut i: usize = 0;
                while i < c.parts.len()
                    invariant
                        i <= c.parts.len(),
                        text@ == join_text(c@.take(i as int)),
                    decreases c.parts.len() - i,
                {
                    let ghost before = c@.take(i as int);
                    let ghost after = c@.take(i + 1);
                    assert(after.drop_last() =~= before);
                    if i > 0 {
                        text.push(SEPARATOR);
                    }
                    let part = &c.parts[i];
                    let mut j: usize = 0;
                    let ghost start = text@;
                    while j < part.len()
                        invariant
                            j <= part.len(),
                            text@ == start + part@.take(j as int),
                        decreases part.len() - j,
                    {
                        text.push(part[j]);
                        j = j + 1;
                        assert(text@ =~= start + part@.take(j as int));
                    }
                    assert(part@.take(part.len() as int) =~= part@);
                    assert(after.last() == part@);
                    assert(text@ =~= join_text(after)) by {
                        if i == 0 {
                            assert(after[0] == part@);
                        }
                    }
                    i = i + 1;
                }
                assert(c@.take(c.parts.len() as int) =~= c@);
                text
            },
        }
    }

    /// This path followed by the components of `name`.
    pub fn join_bytes(&self, name: &[u8]) -> (p: Self)
        ensures
            p.wf(),
            p@ == self@ + path_components(name@),
    {
        let more = parse_components(name);
        let mut parts = match self {
            RelativePath::Root => Vec::new(),
            RelativePath::Path(c) => {
                proof {
                    use_type_invariant(c);
                }
                clone_parts(&c.parts, c.parts.len())
            },
        };
        assert(views(parts@) =~= self@);
        let mut i: usize = 0;
        while i < more.len()
            invariant
                i <= more.len(),
                valid_components(views(more@)),
                valid_components(views(parts@)),
                views(parts@) == self@ + views(more@).take(i as int),
            decreases more.len() - i,
        {
            let c = copy_range(more[i].as_slice(), 0, more[i].len());
            assert(c@ =~= views(more@)[i as int]);
            let ghost before = views(parts@);
            parts.push(c);
            i = i + 1;
            assert(views(parts@) =~= before.push(c@));
            assert(views(parts@) =~= self@ + views(more@).take(i as int));
            assert forall|k: int| 0 <= k < parts.len() implies valid_component(
                #[trigger] views(parts@)[k],
            ) by {
                if k < parts.len() - 1 {
                    assert(views(parts@)[k] == before[k]);
                }
            }
        }
        assert(views(more@).take(more.len() as int) =~= views(more@));
        Self::from_parts(parts)
    }

    /// This path followed by the components of `other`.
    pub fn concat(&self, other: &Self) -> (p: Self)
        ensures
            p.wf(),
            p@ == self@ + other@,
    {
        let mut parts = match self {
            RelativePath::Root => Vec::new(),
            RelativePath::Path(c) => {
                proof {
                    use_type_invariant(c);
                }
                clone_parts(&c.parts, c.parts.len())
            },
        };
        assert(views(parts@) =~= self@);
        match other {
            RelativePath::Root => {
                assert(self@ + other@ =~= self@);
            },
            RelativePath::Path(c) => {
                proof {
                    use_type_invariant(c);
                }
                let mut more = clone_parts(&c.parts, c.parts.len());
                assert(views(more@) =~= other@);
                let ghost before = views(parts@);
                let ghost tail = views(more@);
                parts.append(&mut more);
                assert(views(parts@) =~= before + tail);
            },
        }
        Self::from_parts(parts)
    }

    /// This path followed by the components of `name`.
    pub fn join(&self, name: &str) -> (p: Self)
        ensures
            p.wf(),
            p@ == self@ + path_components(name.spec_bytes()),
    {
        self.join_bytes(name.as_bytes())
    }

    /// The number of components; the root has depth 0.
    pub fn depth(&self) -> (d: usize)
        ensures
            d == self@.len(),
    {
        match self {
            RelativePath::Root => 0,
            RelativePath::Path(c) => c.parts.len(),
        }
    }

    /// Whether both paths have the same components.
    pub fn equals(&self, other: &Self) -> (e: bool)
        ensures
            e == (self@ == other@),
    {
        match (self, other) {
            (RelativePath::Root, RelativePath::Root) => true,
            (RelativePath::Path(a), RelativePath::Path(b)) => {
                if a.parts.len() != b.parts.len() {
                    assert(a@.len() != b@.len());
                    return false;
                }
                let mut i: usize = 0;
                while i < a.parts.len()
                    invariant
                        i <= a.parts.len(),
                        a.parts.len() == b.parts.len(),
                        self@ == a@,
                        other@ == b@,
                        a@.take(i as int) == b@.take(i as int),
                    decreases a.parts.len() - i,
                {
                    assert(a@[i as int] == a.parts[i as int]@);
                    assert(b@[i as int] == b.parts[i as int]@);
                    if !bytes_eq(a.parts[i].as_slice(), b.parts[i].as_slice()) {
                        return false;
                    }
                    i = i + 1;
                    assert(a@.take(i as int) =~= b@.take(i as int)) by {
                        assert forall|k: int| 0 <= k < i implies a@[k] == b@[k] by {
                            if k < i - 1 {
                                assert(a@.take(i - 1)[k] == b@.take(i - 1)[k]);
                            }
                        }
                    }
                }
                assert(a@.take(a.parts.len() as int) =~= a@);
                assert(b@.take(b.parts.len() as int) =~= b@);
                true
            },
            (RelativePath::Root, RelativePath::Path(b)) => {
                proof {
                    use_type_invariant(b);
                    assert(b@.len() > 0);
                }
                false
            },
            (RelativePath::Path(a), RelativePath::Root) => {
                proof {
                    use_type_invariant(a);
                    assert(a@.len() > 0);
                }
                false
            },
        }
    }

    /// Whether this path sorts strictly before `other`: the root first, then
    /// by components.
    pub fn is_before(&self, other: &Self) -> (lt: bool)
        ensures
            lt == components_lt(self@, other@),
    {
        match (self, other) {
            (_, RelativePath::Root) => false,
            (RelativePath::Root, RelativePath::Path(b)) => {
                proof {
                    use_type_invariant(b);
                }
                true
            },
            (RelativePath::Path(a), RelativePath::Path(b)) => {
                let mut i: usize = 0;
                assert(a@.subrange(0, a@.len() as int) =~= a@);
                assert(b@.subrange(0, b@.len() as int) =~= b@);
                while i < a.parts.len() && i < b.parts.len()
                    invariant
                        i <= a.parts.len(),
                        i <= b.parts.len(),
                        self@ == a@,
                        other@ == b@,
                        components_lt(a@, b@) == components_lt(
                            a@.subrange(i as int, a@.len() as int),
                            b@.subrange(i as int, b@.len() as int),
                        ),
                    decreases a.parts.len() - i,
                {
                    let ghost ra = a@.subrange(i as int, a@.len() as int);
                    let ghost rb = b@.subrange(i as int, b@.len() as int);
                    assert(ra[0] == a.parts[i as int]@ && rb[0] == b.parts[i as int]@);
                    if !bytes_eq(a.parts[i].as_slice(), b.parts[i].as_slice()) {
                        return bytes_less(a.parts[i].as_slice(), b.parts[i].as_slice());
                    }
                    assert(ra.drop_first() =~= a@.subrange(i + 1, a@.len() as int));
                    assert(rb.drop_first() =~= b@.subrange(i + 1, b@.len() as int));
                    i = i + 1;
                }
                i < b.parts.len()
            },
        }
    }

    /// The text of the path for display; bytes that are not UTF-8 are shown
    /// by the replacement character.
    pub fn to_string(&self) -> (s: String)
        ensures
            s@ == utf8_lossy(join_text(self@)),
            valid_utf8(join_text(self@)) ==> s@ == decode_utf8(join_text(self@)),
    {
        let text = self.as_path();
        lossy_text(text.as_slice())
    }
}

impl From<&str> for RelativePath {
    /// Reads a path from its text, as `from_str` does.
    fn from(text: &str) -> (p: Self)
        ensures
            p@ == path_components(text.spec_bytes()),
            p.wf(),
    {
        RelativePath::from_str(text)
    }
}

impl vstd::std_specs::convert::FromSpecImpl<&str> for RelativePath {
    open spec fn obeys_from_spec() -> bool {
        false
    }

    open spec fn from_spec(text: &str) -> Self {
        RelativePath::Root
    }
}

impl Clone for RelativePath {
    fn clone(&self) -> (p: Self)
        ensures
            p@ == self@,
            p.wf(),
    {
        match self {
            RelativePath::Root => RelativePath::Root,
            RelativePath::Path(c) => {
                proof {
                    use_type_invariant(c);
                }
                let parts = clone_parts(&c.parts, c.parts.len());
                assert(views(parts@) =~= c@);
                Self::from_parts(parts)
            },
        }
    }
}

} // verus!

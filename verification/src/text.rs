//! Byte-string helpers: splitting at a separator, prefixes, comparison and the
//! conversion of bytes to text for display.

use vstd::prelude::*;
use vstd::utf8::*;

verus! {

/// The position of the first `sep` in `s`, or `s.len()` where there is none.
pub open spec fn first_index_of(s: Seq<u8>, sep: u8) -> int
    decreases s.len(),
{
    if s.len() == 0 {
        0
    } else if s[0] == sep {
        0
    } else {
        1 + first_index_of(s.drop_first(), sep)
    }
}

/// The segments of `s` between occurrences of `sep`: one more than there are
/// separators, so the empty string has the one segment `""`.
pub open spec fn split_on(s: Seq<u8>, sep: u8) -> Seq<Seq<u8>>
    decreases s.len(),
{
    let n = first_index_of(s, sep);
    if 0 <= n < s.len() {
        seq![s.subrange(0, n)] + split_on(s.subrange(n + 1, s.len() as int), sep)
    } else {
        seq![s]
    }
}

/// `first_index_of` is the one position that holds `sep` with none before it.
pub proof fn lemma_first_index_of(s: Seq<u8>, sep: u8, n: int)
    requires
        0 <= n <= s.len(),
        forall|j: int| 0 <= j < n ==> s[j] != sep,
        n < s.len() ==> s[n] == sep,
    ensures
        first_index_of(s, sep) == n,
    decreases s.len(),
{
    if s.len() > 0 && s[0] != sep {
        let t = s.drop_first();
        assert forall|j: int| 0 <= j < n - 1 implies t[j] != sep by {
            assert(t[j] == s[j + 1]);
        }
        lemma_first_index_of(t, sep, n - 1);
    }
}

/// What `first_index_of` returns lies in the string, on a separator, behind
/// bytes that are none.
pub proof fn lemma_first_index_of_bounds(s: Seq<u8>, sep: u8)
    ensures
        0 <= first_index_of(s, sep) <= s.len(),
        forall|j: int| 0 <= j < first_index_of(s, sep) ==> s[j] != sep,
        first_index_of(s, sep) < s.len() ==> s[first_index_of(s, sep)] == sep,
    decreases s.len(),
{
    if s.len() > 0 && s[0] != sep {
        let t = s.drop_first();
        lemma_first_index_of_bounds(t, sep);
        assert forall|j: int| 0 <= j < first_index_of(s, sep) implies s[j] != sep by {
            if j > 0 {
                assert(t[j - 1] == s[j]);
            }
        }
    }
}

/// The segments with one `sep` between neighbours: what `split_on` takes
/// apart again.
pub open spec fn join_with(segs: Seq<Seq<u8>>, sep: u8) -> Seq<u8>
    decreases segs.len(),
{
    if segs.len() == 0 {
        Seq::empty()
    } else if segs.len() == 1 {
        segs[0]
    } else {
        join_with(segs.drop_last(), sep) + seq![sep] + segs.last()
    }
}

/// `sep` does not occur in `s`.
pub open spec fn free_of(s: Seq<u8>, sep: u8) -> bool {
    forall|i: int| 0 <= i < s.len() ==> s[i] != sep
}

/// A string without separator is its own single segment.
pub proof fn lemma_split_whole(t: Seq<u8>, sep: u8)
    requires
        free_of(t, sep),
    ensures
        split_on(t, sep) == seq![t],
{
    lemma_first_index_of(t, sep, t.len() as int);
}

/// A segment put behind a string, after a separator, is one more segment.
pub proof fn lemma_split_push(s: Seq<u8>, sep: u8, t: Seq<u8>)
    requires
        free_of(t, sep),
    ensures
        split_on(s + seq![sep] + t, sep) == split_on(s, sep).push(t),
    decreases s.len(),
{
    let whole = s + seq![sep] + t;
    lemma_first_index_of_bounds(s, sep);
    let n = first_index_of(s, sep);
    if n < s.len() {
        // the first separator lies in `s`
        assert forall|j: int| 0 <= j < n implies whole[j] != sep by {
            assert(whole[j] == s[j]);
        }
        assert(whole[n] == s[n]);
        lemma_first_index_of(whole, sep, n);
        let rest = s.subrange(n + 1, s.len() as int);
        lemma_split_push(rest, sep, t);
        assert(whole.subrange(n + 1, whole.len() as int) =~= rest + seq![sep] + t);
        assert(whole.subrange(0, n) =~= s.subrange(0, n));
        assert(split_on(whole, sep) =~= split_on(s, sep).push(t));
    } else {
        // the first separator is the one behind `s`
        assert forall|j: int| 0 <= j < s.len() implies whole[j] != sep by {
            assert(whole[j] == s[j]);
        }
        assert(whole[s.len() as int] == sep);
        lemma_first_index_of(whole, sep, s.len() as int);
        assert(whole.subrange(0, s.len() as int) =~= s);
        assert(whole.subrange(s.len() as int + 1, whole.len() as int) =~= t);
        lemma_split_whole(t, sep);
        assert(split_on(s, sep) =~= seq![s]);
        assert(split_on(whole, sep) =~= seq![s].push(t));
    }
}

/// Splitting takes apart what joining put together: segments without the
/// separator, one of them at least, come back as they were.
pub proof fn lemma_split_join(segs: Seq<Seq<u8>>, sep: u8)
    requires
        segs.len() > 0,
        forall|i: int| 0 <= i < segs.len() ==> free_of(#[trigger] segs[i], sep),
    ensures
        split_on(join_with(segs, sep), sep) == segs,
    decreases segs.len(),
{
    if segs.len() == 1 {
        lemma_split_whole(segs[0], sep);
        assert(seq![segs[0]] =~= segs);
    } else {
        let init = segs.drop_last();
        assert forall|i: int| 0 <= i < init.len() implies free_of(#[trigger] init[i], sep) by {
            assert(init[i] == segs[i]);
        }
        lemma_split_join(init, sep);
        lemma_split_push(join_with(init, sep), sep, segs.last());
        assert(init.push(segs.last()) =~= segs);
    }
}

/// A copy of `s[from..to]`.
pub fn copy_range(s: &[u8], from: usize, to: usize) -> (out: Vec<u8>)
    requires
        from <= to <= s.len(),
    ensures
        out@ == s@.subrange(from as int, to as int),
{
    let mut out: Vec<u8> = Vec::new();
    let mut i: usize = from;
    while i < to
        invariant
            from <= i <= to <= s.len(),
            out@ == s@.subrange(from as int, i as int),
        decreases to - i,
    {
        out.push(s[i]);
        i = i + 1;
        assert(out@ =~= s@.subrange(from as int, i as int));
    }
    out
}

/// The position of the first `sep` at or after `from`, or `s.len()`.
pub fn find_byte(s: &[u8], from: usize, sep: u8) -> (at: usize)
    requires
        from <= s.len(),
    ensures
        from <= at <= s.len(),
        at == from + first_index_of(s@.subrange(from as int, s.len() as int), sep),
{
    let mut i: usize = from;
    while i < s.len() && s[i] != sep
        invariant
            from <= i <= s.len(),
            forall|j: int| from <= j < i ==> s@[j] != sep,
        decreases s.len() - i,
    {
        i = i + 1;
    }
    proof {
        lemma_first_index_of(s@.subrange(from as int, s.len() as int), sep, i - from);
    }
    i
}

/// The byte strings that a vector of byte vectors holds.
pub open spec fn views(v: Seq<Vec<u8>>) -> Seq<Seq<u8>> {
    Seq::new(v.len(), |i: int| v[i]@)
}

/// Splits `s` at every `sep`.
pub fn split(s: &[u8], sep: u8) -> (out: Vec<Vec<u8>>)
    ensures
        views(out@) == split_on(s@, sep),
{
    let mut out: Vec<Vec<u8>> = Vec::new();
    let mut pos: usize = 0;
    assert(s@.subrange(0, s.len() as int) =~= s@);
    assert(views(out@) + split_on(s@, sep) =~= split_on(s@, sep));
    loop
        invariant_except_break
            pos <= s.len(),
            split_on(s@, sep) == views(out@) + split_on(
                s@.subrange(pos as int, s.len() as int),
                sep,
            ),
        ensures
            views(out@) == split_on(s@, sep),
        decreases s.len() - pos,
    {
        let ghost rest = s@.subrange(pos as int, s.len() as int);
        let ghost before = views(out@);
        let at = find_byte(s, pos, sep);
        let seg = copy_range(s, pos, at);
        out.push(seg);
        assert(views(out@) =~= before.push(seg@));
        if at < s.len() {
            assert(seg@ =~= rest.subrange(0, at - pos));
            assert(s@.subrange(at + 1, s.len() as int) =~= rest.subrange(
                at - pos + 1,
                rest.len() as int,
            ));
            pos = at + 1;
        } else {
            assert(seg@ =~= rest);
            break ;
        }
    }
    out
}

/// `a` starts with `p`.
pub open spec fn has_prefix(a: Seq<u8>, p: Seq<u8>) -> bool {
    p.len() <= a.len() && a.subrange(0, p.len() as int) == p
}

/// Whether `a` starts with `p`.
pub fn starts_with(a: &[u8], p: &[u8]) -> (b: bool)
    ensures
        b == has_prefix(a@, p@),
{
    if p.len() > a.len() {
        return false;
    }
    let mut i: usize = 0;
    while i < p.len()
        invariant
            i <= p.len() <= a.len(),
            a@.subrange(0, i as int) == p@.subrange(0, i as int),
        decreases p.len() - i,
    {
        if a[i] != p[i] {
            assert(a@.subrange(0, p.len() as int)[i as int] != p@[i as int]);
            return false;
        }
        i = i + 1;
        assert(a@.subrange(0, i as int) =~= p@.subrange(0, i as int)) by {
            assert forall|j: int| 0 <= j < i implies a@[j] == p@[j] by {
                if j < i - 1 {
                    assert(a@.subrange(0, i - 1)[j] == p@.subrange(0, i - 1)[j]);
                }
            }
        }
    }
    assert(p@.subrange(0, p.len() as int) =~= p@);
    true
}

/// Whether `a` and `b` hold the same bytes.
pub fn bytes_eq(a: &[u8], b: &[u8]) -> (e: bool)
    ensures
        e == (a@ == b@),
{
    if a.len() != b.len() {
        return false;
    }
    let e = starts_with(a, b);
    assert(a@.subrange(0, a.len() as int) =~= a@);
    e
}

/// Strict lexicographic order of byte strings: a proper prefix comes first.
pub open spec fn bytes_lt(a: Seq<u8>, b: Seq<u8>) -> bool
    decreases a.len(),
{
    if b.len() == 0 {
        false
    } else if a.len() == 0 {
        true
    } else if a[0] != b[0] {
        a[0] < b[0]
    } else {
        bytes_lt(a.drop_first(), b.drop_first())
    }
}

/// No byte string sorts before itself.
pub proof fn lemma_bytes_lt_irreflexive(a: Seq<u8>)
    ensures
        !bytes_lt(a, a),
    decreases a.len(),
{
    if a.len() > 0 {
        lemma_bytes_lt_irreflexive(a.drop_first());
    }
}

/// The order of byte strings is transitive.
pub proof fn lemma_bytes_lt_transitive(a: Seq<u8>, b: Seq<u8>, c: Seq<u8>)
    requires
        bytes_lt(a, b),
        bytes_lt(b, c),
    ensures
        bytes_lt(a, c),
    decreases a.len(),
{
    if a.len() > 0 && b.len() > 0 && c.len() > 0 {
        if a[0] == b[0] && b[0] == c[0] {
            lemma_bytes_lt_transitive(a.drop_first(), b.drop_first(), c.drop_first());
        }
    }
}

/// Of two different byte strings one sorts before the other.
pub proof fn lemma_bytes_lt_total(a: Seq<u8>, b: Seq<u8>)
    ensures
        a == b || bytes_lt(a, b) || bytes_lt(b, a),
    decreases a.len(),
{
    if a.len() > 0 && b.len() > 0 {
        if a[0] == b[0] {
            lemma_bytes_lt_total(a.drop_first(), b.drop_first());
            if a.drop_first() == b.drop_first() {
                assert(a =~= seq![a[0]] + a.drop_first());
                assert(b =~= seq![b[0]] + b.drop_first());
            }
        }
    } else if a.len() == 0 && b.len() == 0 {
        assert(a =~= b);
    }
}

/// Whether `a` sorts strictly before `b`.
pub fn bytes_less(a: &[u8], b: &[u8]) -> (lt: bool)
    ensures
        lt == bytes_lt(a@, b@),
{
    let mut i: usize = 0;
    assert(a@.subrange(0, a.len() as int) =~= a@);
    assert(b@.subrange(0, b.len() as int) =~= b@);
    while i < a.len() && i < b.len()
        invariant
            i <= a.len(),
            i <= b.len(),
            bytes_lt(a@, b@) == bytes_lt(
                a@.subrange(i as int, a.len() as int),
                b@.subrange(i as int, b.len() as int),
            ),
        decreases a.len() - i,
    {
        let ghost ra = a@.subrange(i as int, a.len() as int);
        let ghost rb = b@.subrange(i as int, b.len() as int);
        assert(ra[0] == a@[i as int] && rb[0] == b@[i as int]);
        if a[i] != b[i] {
            return a[i] < b[i];
        }
        assert(ra.drop_first() =~= a@.subrange(i + 1, a.len() as int));
        assert(rb.drop_first() =~= b@.subrange(i + 1, b.len() as int));
        i = i + 1;
    }
    i < b.len()
}

/// The characters that stand for a run of ASCII bytes.
pub open spec fn ascii_chars(b: Seq<u8>) -> Seq<char> {
    Seq::new(b.len(), |i: int| b[i] as char)
}

/// Every byte of `b` is below 128.
pub open spec fn all_ascii(b: Seq<u8>) -> bool {
    forall|i: int| 0 <= i < b.len() ==> b[i] < 128
}

/// The text that stands for a byte string when it is shown: the text that
/// the bytes encode, where they are UTF-8; else a text in which the
/// replacement character stands for what cannot be decoded.
pub uninterp spec fn utf8_lossy(bytes: Seq<u8>) -> Seq<char>;

/// Turns bytes into text for display.  Calls `String::from_utf8_lossy`,
/// which decodes valid UTF-8 as it stands and puts U+FFFD in the place of
/// what it cannot decode; the text depends on the bytes alone.
#[verifier::external_body]
pub(crate) fn lossy_text(bytes: &[u8]) -> (s: String)
    ensures
        s@ == utf8_lossy(bytes@),
        valid_utf8(bytes@) ==> s@ == decode_utf8(bytes@),
{
    String::from_utf8_lossy(bytes).into_owned()
}

/// ASCII bytes are valid UTF-8 and decode to themselves.
pub proof fn lemma_ascii_decodes(b: Seq<u8>)
    requires
        all_ascii(b),
    ensures
        valid_utf8(b),
        decode_utf8(b) == ascii_chars(b),
{
    let chars = ascii_chars(b);
    assert(is_ascii_chars(chars));
    is_ascii_chars_encode_utf8(chars);
    assert(encode_utf8(chars) =~= b);
    encode_utf8_valid_utf8(chars);
    encode_utf8_decode_utf8(chars);
}

/// The text of a run of ASCII bytes.
pub fn ascii_text(bytes: &[u8]) -> (s: String)
    requires
        all_ascii(bytes@),
    ensures
        s@ == ascii_chars(bytes@),
{
    proof {
        lemma_ascii_decodes(bytes@);
    }
    lossy_text(bytes)
}

} // verus!

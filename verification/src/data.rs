//! The object model: kinds, ids, references and the entries of a tree.

use std::str::FromStr;

use byteorder::{ByteOrder, LittleEndian};
use vstd::bytes::{spec_u64_from_le_bytes, spec_u64_to_le_bytes};
use vstd::prelude::*;
use vstd::string::StringSliceAdditionalSpecFns;
use vstd::utf8::{decode_utf8, encode_utf8, valid_utf8};

use crate::error::ParseError;
use crate::hash::{hex_digits, lemma_hex_digits, parse_hash, xxh3_64};
use crate::path::{components_lt, join_text, name_of, path_components, RelativePath};
use crate::text::{ascii_chars, ascii_text, bytes_less, bytes_lt, lossy_text, utf8_lossy};

verus! {

/// The byte between the fields of an entry line.
pub const TAB: u8 = 0x09;

/// The byte that ends an entry line.
pub const NEWLINE: u8 = 0x0a;

/// Whether an object lists children or holds the bytes of a file.
#[derive(Debug, PartialEq, Eq, Structural, Clone, Copy, Hash)]
pub enum ObjectKind {
    Tree,
    File,
}

/// The word that stands for a kind: `tree` or `file`.
pub open spec fn kind_word(kind: ObjectKind) -> Seq<u8> {
    match kind {
        ObjectKind::Tree => seq![0x74u8, 0x72u8, 0x65u8, 0x65u8],
        ObjectKind::File => seq![0x66u8, 0x69u8, 0x6cu8, 0x65u8],
    }
}

/// The kind that a word stands for, if it is one of the two words.
pub open spec fn kind_of_word(word: Seq<u8>) -> Option<ObjectKind> {
    if word == kind_word(ObjectKind::Tree) {
        Some(ObjectKind::Tree)
    } else if word == kind_word(ObjectKind::File) {
        Some(ObjectKind::File)
    } else {
        None
    }
}

impl ObjectKind {
    /// The word of the kind, as bytes.
    pub fn as_bytes(&self) -> (word: Vec<u8>)
        ensures
            word@ == kind_word(*self),
    {
        let word = match self {
            ObjectKind::Tree => vec![0x74u8, 0x72u8, 0x65u8, 0x65u8],
            ObjectKind::File => vec![0x66u8, 0x69u8, 0x6cu8, 0x65u8],
        };
        assert(word@ =~= kind_word(*self));
        word
    }

    /// The word of the kind.
    pub fn to_string(&self) -> (s: String)
        ensures
            s@ == ascii_chars(kind_word(*self)),
    {
        let word = self.as_bytes();
        ascii_text(word.as_slice())
    }

    /// The kind whose word `word` is.
    pub fn from_bytes(word: &[u8]) -> (kind: Option<Self>)
        ensures
            kind == kind_of_word(word@),
    {
        if word.len() != 4 {
            return None;
        }
        if word[0] == 0x74 && word[1] == 0x72 && word[2] == 0x65 && word[3] == 0x65 {
            assert(word@ =~= kind_word(ObjectKind::Tree));
            Some(ObjectKind::Tree)
        } else if word[0] == 0x66 && word[1] == 0x69 && word[2] == 0x6c && word[3] == 0x65 {
            assert(word@ =~= kind_word(ObjectKind::File));
            Some(ObjectKind::File)
        } else {
            None
        }
    }

}

/// The id of an object: the hash of its content.
#[derive(Debug, PartialEq, Eq, Structural, Clone, Copy, Hash, PartialOrd, Ord)]
pub struct ObjectID(pub crate::hash::Hash);

/// What parsing an object id returns: the hash that the text spells, or the
/// error of the hash parser.
pub open spec fn parse_object_id(s: Seq<u8>) -> Result<ObjectID, ParseError> {
    match parse_hash(s) {
        Ok(h) => Ok(ObjectID(h)),
        Err(e) => Err(ParseError::Hash(e)),
    }
}

/// Reads a 64-bit number from the first eight bytes of `data` with
/// `byteorder::LittleEndian::read_u64`: least significant byte first.
#[verifier::external_body]
pub(crate) fn read_u64_le(data: &[u8]) -> (n: u64)
    requires
        data.len() >= 8,
    ensures
        n == spec_u64_from_le_bytes(data@.subrange(0, 8)),
{
    LittleEndian::read_u64(data)
}

impl ObjectID {
    pub fn new(hash: crate::hash::Hash) -> (id: Self)
        ensures
            id.0 == hash,
    {
        ObjectID(hash)
    }

    /// Parses the 16-digit hexadecimal form.
    pub fn from_hex(hex: &str) -> (r: Result<Self, ParseError>)
        ensures
            r == parse_object_id(hex.spec_bytes()),
    {
        Self::from_hex_bytes(hex.as_bytes())
    }

    /// Parses the 16-digit hexadecimal form from bytes.
    pub fn from_hex_bytes(hex: &[u8]) -> (r: Result<Self, ParseError>)
        ensures
            r == parse_object_id(hex@),
    {
        match crate::hash::Hash::from_hex_bytes(hex) {
            Ok(h) => Ok(ObjectID(h)),
            Err(e) => Err(ParseError::Hash(e)),
        }
    }

    /// The id of content: its hash.
    pub fn from_contents(contents: &[u8]) -> (id: Self)
        ensures
            id.0.xxh3 == xxh3_64(contents@),
    {
        ObjectID(crate::hash::Hash::from_contents(contents))
    }

    pub fn as_u64(&self) -> (x: u64)
        ensures
            x == self.0.xxh3,
    {
        self.0.as_u64()
    }

    /// The 16 lower-case hexadecimal digits of the id, as bytes.
    pub fn to_hex_bytes(&self) -> (out: Vec<u8>)
        ensures
            out@ == hex_digits(self.0.xxh3 as nat, 16),
    {
        self.0.to_hex_bytes()
    }

    /// The 16 lower-case hexadecimal digits of the id.
    pub fn to_string(&self) -> (s: String)
        ensures
            s@ == ascii_chars(hex_digits(self.0.xxh3 as nat, 16)),
    {
        self.0.to_string()
    }

    /// The key of the id in the packed table: eight bytes, least significant
    /// first.
    pub fn to_bytes(&self) -> (key: Vec<u8>)
        ensures
            key@ == spec_u64_to_le_bytes(self.0.xxh3),
    {
        self.0.to_bytes()
    }

    /// The id that a key of the packed table stands for.
    pub fn from_bytes(key: &[u8]) -> (id: Self)
        requires
            key.len() >= 8,
        ensures
            id.0.xxh3 == spec_u64_from_le_bytes(key@.subrange(0, 8)),
    {
        ObjectID(crate::hash::Hash::new(read_u64_le(key)))
    }

    /// Whether the key `a` comes before the key `b` in the packed table: keys
    /// are ordered as the numbers they stand for.
    pub fn key_is_before(a: &[u8], b: &[u8]) -> (lt: bool)
        requires
            a.len() >= 8,
            b.len() >= 8,
        ensures
            lt == (spec_u64_from_le_bytes(a@.subrange(0, 8)) < spec_u64_from_le_bytes(
                b@.subrange(0, 8),
            )),
    {
        read_u64_le(a) < read_u64_le(b)
    }
}

impl FromStr for ObjectID {
    type Err = ParseError;

    /// Parses the 16-digit hexadecimal form.
    fn from_str(s: &str) -> (r: Result<Self, ParseError>)
        ensures
            r == parse_object_id(s.spec_bytes()),
    {
        ObjectID::from_hex(s)
    }
}

impl FromStr for ObjectKind {
    type Err = ParseError;

    /// Parses `tree` or `file`.  The empty text is an empty token; any other
    /// text is an invalid token, which the error carries.
    fn from_str(s: &str) -> (r: Result<Self, ParseError>)
        ensures
            match r {
                Ok(kind) => kind_of_word(s.spec_bytes()) == Some(kind),
                Err(ParseError::EmptyToken) => s.spec_bytes().len() == 0,
                Err(ParseError::InvalidToken(t)) => kind_of_word(s.spec_bytes()) is None
                    && s.spec_bytes().len() > 0 && t@ == s@,
                Err(ParseError::Hash(_)) => false,
            },
    {
        let word = s.as_bytes();
        match Self::from_bytes(word) {
            Some(kind) => Ok(kind),
            None => {
                if word.len() == 0 {
                    Err(ParseError::EmptyToken)
                } else {
                    Err(ParseError::InvalidToken(s.to_owned()))
                }
            },
        }
    }
}

/// The binary key of an id reads back as the id.
pub proof fn lemma_object_id_key_round_trip(id: ObjectID)
    ensures
        spec_u64_to_le_bytes(id.0.xxh3).len() == 8,
        spec_u64_from_le_bytes(spec_u64_to_le_bytes(id.0.xxh3)) == id.0.xxh3,
{
    vstd::bytes::lemma_auto_spec_u64_to_from_le_bytes();
}

/// A name for an object: a reference by name, or the id itself.
#[derive(Debug, PartialEq, Eq, Clone, Hash, PartialOrd, Ord)]
pub enum ObjectRef {
    Reference(String),
    ID(ObjectID),
}

/// Strict order of object references: named references first, by the bytes
/// of their names; then ids, by their numbers.
pub open spec fn object_ref_lt(a: ObjectRef, b: ObjectRef) -> bool {
    match (a, b) {
        (ObjectRef::Reference(x), ObjectRef::Reference(y)) => bytes_lt(
            encode_utf8(x@),
            encode_utf8(y@),
        ),
        (ObjectRef::ID(x), ObjectRef::ID(y)) => x.0.xxh3 < y.0.xxh3,
        (ObjectRef::Reference(_), ObjectRef::ID(_)) => true,
        (ObjectRef::ID(_), ObjectRef::Reference(_)) => false,
    }
}

impl ObjectRef {
    pub fn new_reference(reference: &str) -> (r: Self)
        ensures
            r matches ObjectRef::Reference(name) && name@ == reference@,
    {
        ObjectRef::Reference(reference.to_owned())
    }

    pub fn new_id(object_id: ObjectID) -> (r: Self)
        ensures
            r == ObjectRef::ID(object_id),
    {
        ObjectRef::ID(object_id)
    }

    /// Reads a reference: text that parses as an object id is that id, any
    /// other text is a reference name.
    pub fn parse(s: &str) -> (r: Self)
        ensures
            match parse_object_id(s.spec_bytes()) {
                Ok(id) => r == ObjectRef::ID(id),
                Err(_) => r matches ObjectRef::Reference(name) && name@ == s@,
            },
    {
        match ObjectID::from_hex(s) {
            Ok(id) => ObjectRef::ID(id),
            Err(_) => ObjectRef::new_reference(s),
        }
    }

    /// The name of the reference, or the hexadecimal form of the id.
    pub fn to_string(&self) -> (s: String)
        ensures
            match *self {
                ObjectRef::Reference(name) => s@ == name@,
                ObjectRef::ID(id) => s@ == ascii_chars(hex_digits(id.0.xxh3 as nat, 16)),
            },
    {
        match self {
            ObjectRef::Reference(name) => name.clone(),
            ObjectRef::ID(id) => id.to_string(),
        }
    }

    /// Whether this reference sorts strictly before `other`.
    pub fn is_before(&self, other: &Self) -> (lt: bool)
        ensures
            lt == object_ref_lt(*self, *other),
    {
        match (self, other) {
            (ObjectRef::Reference(x), ObjectRef::Reference(y)) => bytes_less(
                x.as_str().as_bytes(),
                y.as_str().as_bytes(),
            ),
            (ObjectRef::ID(x), ObjectRef::ID(y)) => x.as_u64() < y.as_u64(),
            (ObjectRef::Reference(_), ObjectRef::ID(_)) => true,
            (ObjectRef::ID(_), ObjectRef::Reference(_)) => false,
        }
    }
}

/// No reference is followed, anywhere behind it, by one that sorts before
/// it.
pub open spec fn refs_sorted(refs: Seq<ObjectRef>) -> bool {
    forall|i: int, j: int| 0 <= i < j < refs.len() ==> !object_ref_lt(refs[j], refs[i])
}

/// Where `a` sorts before `c`, any `b` has `a` before it or is before `c`.
pub proof fn lemma_object_ref_lt_between(a: ObjectRef, b: ObjectRef, c: ObjectRef)
    requires
        object_ref_lt(a, c),
    ensures
        object_ref_lt(a, b) || object_ref_lt(b, c),
{
    match (a, b, c) {
        (ObjectRef::Reference(x), ObjectRef::Reference(y), ObjectRef::Reference(z)) => {
            crate::text::lemma_bytes_lt_total(encode_utf8(x@), encode_utf8(y@));
            if bytes_lt(encode_utf8(y@), encode_utf8(x@)) {
                crate::text::lemma_bytes_lt_transitive(
                    encode_utf8(y@),
                    encode_utf8(x@),
                    encode_utf8(z@),
                );
            }
        },
        _ => {},
    }
}

/// Sorts references for listing: names first, in the order of their bytes,
/// then ids by their numbers.
pub fn sort_refs(refs: Vec<ObjectRef>) -> (out: Vec<ObjectRef>)
    ensures
        refs_sorted(out@),
        out@.to_multiset() == refs@.to_multiset(),
{
    let mut rest = refs;
    let mut out: Vec<ObjectRef> = Vec::new();
    proof {
        broadcast use vstd::multiset::group_multiset_axioms;

        out@.to_multiset_ensures();
        assert(out@.to_multiset() =~= vstd::multiset::Multiset::empty());
        assert(rest@.to_multiset().add(out@.to_multiset()) =~= refs@.to_multiset());
    }
    while rest.len() > 0
        invariant
            refs_sorted(out@),
            rest@.to_multiset().add(out@.to_multiset()) == refs@.to_multiset(),
        decreases rest.len(),
    {
        let ghost had_rest = rest@;
        let ghost had = out@;
        let x = rest.pop().unwrap();
        let mut at: usize = out.len();
        while at > 0 && x.is_before(&out[at - 1])
            invariant
                at <= out.len(),
                had == out@,
                forall|k: int| at <= k < out.len() ==> object_ref_lt(x, had[k]),
            decreases at,
        {
            at = at - 1;
        }
        out.insert(at, x);
        proof {
            broadcast use vstd::multiset::group_multiset_axioms;

            assert(out@ == had.insert(at as int, x));
            vstd::seq_lib::to_multiset_insert(had, at as int, x);
            assert(had_rest =~= rest@.push(x));
            vstd::seq_lib::to_multiset_build(rest@, x);
            assert(rest@.to_multiset().add(out@.to_multiset()) =~= had_rest.to_multiset().add(
                had.to_multiset(),
            ));
            assert forall|i: int, j: int| 0 <= i < j < out@.len() implies !object_ref_lt(
                out@[j],
                out@[i],
            ) by {
                if j == at {
                    if object_ref_lt(x, had[i]) {
                        lemma_object_ref_lt_between(x, had[at - 1], had[i]);
                    }
                } else if i == at {
                    assert(out@[j] == had[j - 1]);
                    assert(object_ref_lt(x, had[j - 1]));
                    lemma_object_ref_lt_asymmetric(x, had[j - 1]);
                } else {
                    let a = if i < at { i } else { i - 1 };
                    let b = if j < at { j } else { j - 1 };
                    assert(out@[i] == had[a] && out@[j] == had[b]);
                }
            }
        }
    }
    proof {
        broadcast use vstd::multiset::group_multiset_axioms;

        rest@.to_multiset_ensures();
        assert(rest@.to_multiset() =~= vstd::multiset::Multiset::empty());
        assert(rest@.to_multiset().add(out@.to_multiset()) =~= out@.to_multiset());
    }
    out
}

/// Of two references at most one sorts before the other.
pub proof fn lemma_object_ref_lt_asymmetric(a: ObjectRef, b: ObjectRef)
    requires
        object_ref_lt(a, b),
    ensures
        !object_ref_lt(b, a),
{
    match (a, b) {
        (ObjectRef::Reference(x), ObjectRef::Reference(y)) => {
            if bytes_lt(encode_utf8(y@), encode_utf8(x@)) {
                crate::text::lemma_bytes_lt_transitive(
                    encode_utf8(x@),
                    encode_utf8(y@),
                    encode_utf8(x@),
                );
                crate::text::lemma_bytes_lt_irreflexive(encode_utf8(x@));
            }
        },
        _ => {},
    }
}

impl FromStr for ObjectRef {
    type Err = String;

    /// Reads a reference, as `parse` does; it never fails.
    fn from_str(s: &str) -> (r: Result<Self, String>)
        ensures
            r matches Ok(object_ref) && match parse_object_id(s.spec_bytes()) {
                Ok(id) => object_ref == ObjectRef::ID(id),
                Err(_) => object_ref matches ObjectRef::Reference(name) && name@ == s@,
            },
    {
        Ok(ObjectRef::parse(s))
    }
}

/// An entry of a tree, as contracts see it.
pub struct ObjectView {
    pub kind: ObjectKind,
    pub id: u64,
    pub basename: Seq<Seq<u8>>,
}

/// An entry of a tree: a kind, an id and the name under which the parent
/// lists it.
#[derive(Debug, PartialEq, Eq, Hash)]
pub struct Object {
    pub kind: ObjectKind,
    pub id: ObjectID,
    /// The name of the entry in its directory.
    pub basename: RelativePath,
}

impl View for Object {
    type V = ObjectView;

    open spec fn view(&self) -> ObjectView {
        ObjectView { kind: self.kind, id: self.id.0.xxh3, basename: self.basename@ }
    }
}

/// The name of the entry is a single component, or empty.
pub open spec fn single_name(o: ObjectView) -> bool {
    o.basename.len() <= 1
}

/// The last component of a list, or the empty name where there is none.
pub open spec fn last_or_empty(cs: Seq<Seq<u8>>) -> Seq<u8> {
    if cs.len() == 0 {
        Seq::empty()
    } else {
        cs.last()
    }
}

/// The line of an entry, without the newline: the word of the kind, a tab,
/// the 16 digits of the id, a tab, and the last component of the name.
pub open spec fn entry_line(o: ObjectView) -> Seq<u8> {
    kind_word(o.kind) + seq![TAB] + hex_digits(o.id as nat, 16) + seq![TAB] + last_or_empty(
        o.basename,
    )
}

impl Object {
    /// An entry named by the last component of the path text `file_name`;
    /// the name of an entry is a single component, or empty for the root.
    pub fn new(kind: ObjectKind, id: ObjectID, file_name: &str) -> (o: Self)
        ensures
            o@ == (ObjectView {
                kind,
                id: id.0.xxh3,
                basename: name_of(path_components(file_name.spec_bytes())),
            }),
            o.basename.wf(),
            single_name(o@),
    {
        Object { kind, id, basename: RelativePath::from_str(file_name).base() }
    }

    /// An entry named by the last component of `basename`.
    pub fn with_basename(kind: ObjectKind, id: ObjectID, basename: RelativePath) -> (o: Self)
        ensures
            o@ == (ObjectView { kind, id: id.0.xxh3, basename: name_of(basename@) }),
            o.basename.wf(),
            single_name(o@),
    {
        Object { kind, id, basename: basename.base() }
    }

    pub fn new_tree(object_id: ObjectID, file_name: &str) -> (o: Self)
        ensures
            o@ == (ObjectView {
                kind: ObjectKind::Tree,
                id: object_id.0.xxh3,
                basename: name_of(path_components(file_name.spec_bytes())),
            }),
            o.basename.wf(),
            single_name(o@),
    {
        Object::new(ObjectKind::Tree, object_id, file_name)
    }

    pub fn new_file(object_id: ObjectID, file_name: &str) -> (o: Self)
        ensures
            o@ == (ObjectView {
                kind: ObjectKind::File,
                id: object_id.0.xxh3,
                basename: name_of(path_components(file_name.spec_bytes())),
            }),
            o.basename.wf(),
            single_name(o@),
    {
        Object::new(ObjectKind::File, object_id, file_name)
    }

    pub fn is_tree(&self) -> (b: bool)
        ensures
            b == (self.kind == ObjectKind::Tree),
    {
        self.kind == ObjectKind::Tree
    }

    pub fn is_file(&self) -> (b: bool)
        ensures
            b == (self.kind == ObjectKind::File),
    {
        self.kind == ObjectKind::File
    }

    /// The number of bytes that the entry takes in a tree object: 23 for the
    /// kind, the id, two tabs and the newline, and the bytes of the name as
    /// the line of the entry holds it.
    pub fn size(&self) -> (n: usize)
        requires
            23 + last_or_empty(self.basename@).len() <= usize::MAX,
        ensures
            n == 23 + last_or_empty(self.basename@).len(),
            n == entry_line(self@).len() + 1,
    {
        proof {
            lemma_entry_size(self@);
        }
        match self.basename.file_name() {
            Some(name) => 23 + name.len(),
            None => 23,
        }
    }

    pub fn as_object_ref(&self) -> (r: ObjectRef)
        ensures
            r == ObjectRef::ID(self.id),
    {
        ObjectRef::new_id(self.id)
    }

    /// Whether both entries have the same kind, id and name.
    pub fn equals(&self, other: &Self) -> (e: bool)
        ensures
            e == (self@ == other@),
    {
        let e = self.kind == other.kind && self.id == other.id && self.basename.equals(
            &other.basename,
        );
        e
    }

    /// Whether this entry sorts strictly before `other`: entries are ordered
    /// by name alone.
    pub fn is_before(&self, other: &Self) -> (lt: bool)
        ensures
            lt == components_lt(self.basename@, other.basename@),
    {
        self.basename.is_before(&other.basename)
    }

    /// The line of the entry in a tree object, without the newline.
    pub fn line(&self) -> (out: Vec<u8>)
        ensures
            out@ == entry_line(self@),
    {
        let mut out = self.kind.as_bytes();
        out.push(TAB);
        let mut hex = self.id.to_hex_bytes();
        out.append(&mut hex);
        out.push(TAB);
        match self.basename.file_name() {
            Some(name) => {
                let mut name = name;
                out.append(&mut name);
            },
            None => {},
        }
        assert(out@ =~= entry_line(self@));
        out
    }

    /// The line of the entry as text; bytes of the name that are not UTF-8
    /// are shown by the replacement character.
    pub fn to_string(&self) -> (s: String)
        ensures
            s@ == utf8_lossy(entry_line(self@)),
            valid_utf8(entry_line(self@)) ==> s@ == decode_utf8(entry_line(self@)),
    {
        let line = self.line();
        lossy_text(line.as_slice())
    }
}

impl Clone for Object {
    fn clone(&self) -> (o: Self)
        ensures
            o@ == self@,
            o.basename.wf(),
    {
        Object { kind: self.kind, id: self.id, basename: self.basename.clone() }
    }
}

/// An entry takes 23 bytes and the bytes of its name in a tree object: its
/// line and the newline.
pub proof fn lemma_entry_size(o: ObjectView)
    ensures
        entry_line(o).len() + 1 == 23 + last_or_empty(o.basename).len(),
        single_name(o) ==> last_or_empty(o.basename) == join_text(o.basename),
{
    lemma_hex_digits(o.id as nat, 16);
    if o.basename.len() == 1 {
        assert(o.basename.drop_last() =~= Seq::<Seq<u8>>::empty());
    }
    reveal_with_fuel(crate::text::join_with, 2);
}

} // verus!

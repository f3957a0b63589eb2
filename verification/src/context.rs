//! The layout of a repository: where its objects, its references and its
//! caches lie, and how their files are read.

use std::collections::HashSet;

use vstd::prelude::*;
use vstd::string::StringSliceAdditionalSpecFns;
use vstd::utf8::encode_utf8;

use crate::data::{parse_object_id, ObjectID, ObjectRef};
use crate::gc::id_views;
use crate::error::{ParseError, ParseHashError};
use crate::hash::{hex_digits, lemma_hex_digits, parse_hash};
use crate::path::SEPARATOR;
use crate::target::{trim_end, trim_start};
use crate::text::{bytes_eq, copy_range};

verus! {

broadcast use vstd::std_specs::hash::group_hash_axioms;

/// The name of the directory of the repository under its root, `.mtl`.
pub open spec fn mtl() -> Seq<u8> {
    seq![0x2eu8, 0x6du8, 0x74u8, 0x6cu8]
}

/// `objects`.
pub open spec fn objects() -> Seq<u8> {
    seq![0x6fu8, 0x62u8, 0x6au8, 0x65u8, 0x63u8, 0x74u8, 0x73u8]
}

/// `pack`.
pub open spec fn pack() -> Seq<u8> {
    seq![0x70u8, 0x61u8, 0x63u8, 0x6bu8]
}

/// `cache`.
pub open spec fn cache() -> Seq<u8> {
    seq![0x63u8, 0x61u8, 0x63u8, 0x68u8, 0x65u8]
}

/// `refs`.
pub open spec fn refs() -> Seq<u8> {
    seq![0x72u8, 0x65u8, 0x66u8, 0x73u8]
}

/// `HEAD`.
pub open spec fn head() -> Seq<u8> {
    seq![0x48u8, 0x45u8, 0x41u8, 0x44u8]
}

/// `packed.redb`.
pub open spec fn packed_redb() -> Seq<u8> {
    seq![0x70u8, 0x61u8, 0x63u8, 0x6bu8, 0x65u8, 0x64u8, 0x2eu8, 0x72u8, 0x65u8, 0x64u8, 0x62u8]
}

/// `cache.redb`.
pub open spec fn cache_redb() -> Seq<u8> {
    seq![0x63u8, 0x61u8, 0x63u8, 0x68u8, 0x65u8, 0x2eu8, 0x72u8, 0x65u8, 0x64u8, 0x62u8]
}

/// The text of the path `name` under the directory `base`: an absolute
/// `name` stands for itself; else `name` follows `base`, behind a `/` unless
/// `base` is empty or ends in one.
pub open spec fn joined(base: Seq<u8>, name: Seq<u8>) -> Seq<u8> {
    if name.len() > 0 && name[0] == SEPARATOR {
        name
    } else if base.len() == 0 || base.last() == SEPARATOR {
        base + name
    } else {
        base + seq![SEPARATOR] + name
    }
}

/// Joins the texts of two paths.
pub fn join_path(base: &[u8], name: &[u8]) -> (out: Vec<u8>)
    ensures
        out@ == joined(base@, name@),
{
    if name.len() > 0 && name[0] == SEPARATOR {
        let out = copy_range(name, 0, name.len());
        assert(out@ =~= name@);
        return out;
    }
    let mut out = copy_range(base, 0, base.len());
    assert(out@ =~= base@);
    if base.len() > 0 && base[base.len() - 1] != SEPARATOR {
        out.push(SEPARATOR);
    }
    let mut tail = copy_range(name, 0, name.len());
    assert(tail@ =~= name@);
    out.append(&mut tail);
    assert(out@ =~= joined(base@, name@));
    out
}

/// Where a reference is to be looked up.
#[derive(Debug, PartialEq, Eq)]
pub enum RefSource {
    /// The reference is the id itself.
    Id(ObjectID),
    /// The id stands in the file with this path.
    File(Vec<u8>),
}

/// The id that the text of a reference file spells: the file holds the 16
/// digits of the id, with white space around them at most.
pub open spec fn id_file(contents: Seq<u8>) -> Result<ObjectID, ParseError> {
    parse_object_id(trim_end(trim_start(contents)))
}

/// Reads the id out of the contents of `HEAD` or of a reference file.
pub fn read_id_file(contents: &[u8]) -> (r: Result<ObjectID, ParseError>)
    ensures
        r == id_file(contents@),
{
    let n = contents.len();
    let mut start: usize = 0;
    assert(contents@.subrange(0, n as int) =~= contents@);
    while start < n && (contents[start] == 0x20 || (0x09 <= contents[start] && contents[start]
        <= 0x0d))
        invariant
            start <= n == contents.len(),
            trim_start(contents@) == trim_start(contents@.subrange(start as int, n as int)),
        decreases n - start,
    {
        assert(contents@.subrange(start as int, n as int).drop_first() =~= contents@.subrange(
            start + 1,
            n as int,
        ));
        start = start + 1;
    }
    let mut end: usize = n;
    while end > start && (contents[end - 1] == 0x20 || (0x09 <= contents[end - 1]
        && contents[end - 1] <= 0x0d))
        invariant
            start <= end <= n == contents.len(),
            trim_end(trim_start(contents@)) == trim_end(
                contents@.subrange(start as int, end as int),
            ),
        decreases end - start,
    {
        assert(contents@.subrange(start as int, end as int).drop_last() =~= contents@.subrange(
            start as int,
            end - 1,
        ));
        end = end - 1;
    }
    let text = copy_range(contents, start, end);
    ObjectID::from_hex_bytes(text.as_slice())
}

/// The id of the loose object that lies in the directory `dir_name` under
/// the file name `file_name`: the two names one after the other are the 16
/// lower-case digits of the id.
pub open spec fn loose_object_id(dir_name: Seq<u8>, file_name: Seq<u8>) -> Result<
    ObjectID,
    ParseError,
> {
    match parse_hash(dir_name + file_name) {
        Err(e) => Err(ParseError::Hash(e)),
        Ok(h) => if hex_digits(h.xxh3 as nat, 16) == dir_name + file_name {
            Ok(ObjectID(h))
        } else {
            Err(ParseError::Hash(ParseHashError::InvalidFormat))
        },
    }
}

/// The id of a loose object, from the names of its directory and its file.
/// Names that spell an id in any other way than the store writes it are
/// refused.
pub fn object_id_of_file(dir_name: &[u8], file_name: &[u8]) -> (r: Result<ObjectID, ParseError>)
    ensures
        r == loose_object_id(dir_name@, file_name@),
{
    let mut name = copy_range(dir_name, 0, dir_name.len());
    let mut tail = copy_range(file_name, 0, file_name.len());
    name.append(&mut tail);
    assert(name@ =~= dir_name@ + file_name@);
    match ObjectID::from_hex_bytes(name.as_slice()) {
        Err(e) => Err(e),
        Ok(id) => {
            let written = id.to_hex_bytes();
            if bytes_eq(written.as_slice(), name.as_slice()) {
                Ok(id)
            } else {
                Err(ParseError::Hash(ParseHashError::InvalidFormat))
            }
        },
    }
}

/// No id stands twice in the list.
pub open spec fn distinct_ids(ids: Seq<u64>) -> bool {
    forall|i: int, j: int| 0 <= i < j < ids.len() ==> ids[i] != ids[j]
}

/// Adds to `out` the ids of `more` that it does not hold yet.
fn add_new_ids(seen: &mut HashSet<u64>, out: &mut Vec<ObjectID>, more: &Vec<ObjectID>)
    requires
        distinct_ids(id_views(old(out)@)),
        forall|x: u64| old(seen)@.contains(x) <==> id_views(old(out)@).contains(x),
    ensures
        distinct_ids(id_views(final(out)@)),
        forall|x: u64| final(seen)@.contains(x) <==> id_views(final(out)@).contains(x),
        forall|x: u64|
            #![trigger id_views(final(out)@).contains(x)]
            #![trigger id_views(old(out)@).contains(x)]
            #![trigger id_views(more@).contains(x)]
            id_views(final(out)@).contains(x) <==> id_views(old(out)@).contains(x) || id_views(
                more@,
            ).contains(x),
{
    let mut i: usize = 0;
    while i < more.len()
        invariant
            i <= more.len(),
            distinct_ids(id_views(out@)),
            forall|x: u64| seen@.contains(x) <==> id_views(out@).contains(x),
            forall|x: u64|
                id_views(out@).contains(x) <==> id_views(old(out)@).contains(x) || id_views(
                    more@,
                ).take(i as int).contains(x),
        decreases more.len() - i,
    {
        let id = more[i];
        let key = id.as_u64();
        let ghost had = id_views(out@);
        let ghost done = id_views(more@).take(i as int);
        let ghost next = id_views(more@).take(i + 1);
        assert(next.drop_last() =~= done);
        assert(next.last() == key);
        if !seen.contains(&key) {
            seen.insert(key);
            out.push(id);
            assert(id_views(out@) =~= had.push(key));
            assert forall|x: u64| id_views(out@).contains(x) <==> had.contains(x) || x == key by {
                if had.contains(x) {
                    let k = choose|k: int| 0 <= k < had.len() && had[k] == x;
                    assert(id_views(out@)[k] == x);
                }
                if x == key {
                    assert(id_views(out@)[had.len() as int] == x);
                }
            }
        }
        assert forall|x: u64| next.contains(x) <==> done.contains(x) || x == key by {
            if done.contains(x) {
                let k = choose|k: int| 0 <= k < done.len() && done[k] == x;
                assert(next[k] == x);
            }
            if x == key {
                assert(next[i as int] == x);
            }
            if next.contains(x) {
                let k = choose|k: int| 0 <= k < next.len() && next[k] == x;
                if k < i {
                    assert(done[k] == x);
                }
            }
        }
        assert forall|x: u64|
            id_views(out@).contains(x) <==> id_views(old(out)@).contains(x) || next.contains(
                x,
            ) by {
            assert(had.contains(x) <==> id_views(old(out)@).contains(x) || done.contains(x));
            assert(next.contains(x) <==> done.contains(x) || x == key);
            assert(had.contains(key) || id_views(out@).contains(key));
        }
        i = i + 1;
    }
    assert(id_views(more@).take(more.len() as int) =~= id_views(more@));
}

/// The ids of a store: those of its loose objects and those of its packed
/// objects, each once.
pub fn union_ids(loose: &Vec<ObjectID>, packed: &Vec<ObjectID>) -> (all: Vec<ObjectID>)
    ensures
        distinct_ids(id_views(all@)),
        forall|x: u64|
            #![trigger id_views(all@).contains(x)]
            #![trigger id_views(loose@).contains(x)]
            #![trigger id_views(packed@).contains(x)]
            id_views(all@).contains(x) <==> id_views(loose@).contains(x) || id_views(
                packed@,
            ).contains(x),
{
    let mut seen: HashSet<u64> = HashSet::new();
    let mut all: Vec<ObjectID> = Vec::new();
    assert(id_views(all@) =~= Seq::empty());
    add_new_ids(&mut seen, &mut all, loose);
    let ghost first = id_views(all@);
    assert forall|x: u64| first.contains(x) <==> id_views(loose@).contains(x) by {}
    add_new_ids(&mut seen, &mut all, packed);
    assert forall|x: u64|
        id_views(all@).contains(x) <==> id_views(loose@).contains(x) || id_views(
            packed@,
        ).contains(x) by {
        assert(id_views(all@).contains(x) <==> first.contains(x) || id_views(packed@).contains(x));
    }
    all
}

/// A reference reads back as it was written: a file that holds the digits
/// of an id, as a reference is saved, gives that id.
pub proof fn lemma_id_file_round_trip(id: ObjectID)
    ensures
        id_file(hex_digits(id.0.xxh3 as nat, 16)) == Ok::<ObjectID, ParseError>(id),
{
    let hex = hex_digits(id.0.xxh3 as nat, 16);
    lemma_hex_digits(id.0.xxh3 as nat, 16);
    crate::hash::lemma_hash_hex_round_trip(id.0);
    assert(crate::hash::hex_digit_value(hex[0]) is Some);
    assert(crate::hash::hex_digit_value(hex[15]) is Some);
    assert(hex.last() == hex[15]);
    assert(trim_start(hex) == hex);
    assert(trim_end(hex) == hex);
}

/// A loose object is found again under its id: the names of the directory
/// and of the file under which an object is written spell its id.
pub proof fn lemma_loose_name_round_trip(id: ObjectID)
    ensures
        loose_object_id(
            hex_digits(id.0.xxh3 as nat, 16).subrange(0, 2),
            hex_digits(id.0.xxh3 as nat, 16).subrange(2, 16),
        ) == Ok::<ObjectID, ParseError>(id),
{
    let hex = hex_digits(id.0.xxh3 as nat, 16);
    lemma_hex_digits(id.0.xxh3 as nat, 16);
    crate::hash::lemma_hash_hex_round_trip(id.0);
    assert(hex.subrange(0, 2) + hex.subrange(2, 16) =~= hex);
}

/// The places of a repository, from the directory that holds it.
#[derive(Debug, PartialEq, Eq)]
pub struct Context {
    root_dir: Vec<u8>,
}

fn word_mtl() -> (w: Vec<u8>)
    ensures
        w@ == mtl(),
{
    let w: Vec<u8> = vec![0x2eu8, 0x6du8, 0x74u8, 0x6cu8];
    assert(w@ =~= mtl());
    w
}

fn word_objects() -> (w: Vec<u8>)
    ensures
        w@ == objects(),
{
    let w: Vec<u8> = vec![0x6fu8, 0x62u8, 0x6au8, 0x65u8, 0x63u8, 0x74u8, 0x73u8];
    assert(w@ =~= objects());
    w
}

fn word_pack() -> (w: Vec<u8>)
    ensures
        w@ == pack(),
{
    let w: Vec<u8> = vec![0x70u8, 0x61u8, 0x63u8, 0x6bu8];
    assert(w@ =~= pack());
    w
}

fn word_cache() -> (w: Vec<u8>)
    ensures
        w@ == cache(),
{
    let w: Vec<u8> = vec![0x63u8, 0x61u8, 0x63u8, 0x68u8, 0x65u8];
    assert(w@ =~= cache());
    w
}

fn word_refs() -> (w: Vec<u8>)
    ensures
        w@ == refs(),
{
    let w: Vec<u8> = vec![0x72u8, 0x65u8, 0x66u8, 0x73u8];
    assert(w@ =~= refs());
    w
}

fn word_head() -> (w: Vec<u8>)
    ensures
        w@ == head(),
{
    let w: Vec<u8> = vec![0x48u8, 0x45u8, 0x41u8, 0x44u8];
    assert(w@ =~= head());
    w
}

fn word_packed_redb() -> (w: Vec<u8>)
    ensures
        w@ == packed_redb(),
{
    let w: Vec<u8> = vec![
        0x70u8,
        0x61u8,
        0x63u8,
        0x6bu8,
        0x65u8,
        0x64u8,
        0x2eu8,
        0x72u8,
        0x65u8,
        0x64u8,
        0x62u8,
    ];
    assert(w@ =~= packed_redb());
    w
}

fn word_cache_redb() -> (w: Vec<u8>)
    ensures
        w@ == cache_redb(),
{
    let w: Vec<u8> = vec![
        0x63u8,
        0x61u8,
        0x63u8,
        0x68u8,
        0x65u8,
        0x2eu8,
        0x72u8,
        0x65u8,
        0x64u8,
        0x62u8,
    ];
    assert(w@ =~= cache_redb());
    w
}

impl Context {
    /// The repository of the directory `root_dir`.
    pub fn new(root_dir: &[u8]) -> (ctx: Self)
        ensures
            ctx.root() == root_dir@,
    {
        let copy = copy_range(root_dir, 0, root_dir.len());
        assert(copy@ =~= root_dir@);
        Self { root_dir: copy }
    }

    /// The text of the path of the root.
    pub closed spec fn root(&self) -> Seq<u8> {
        self.root_dir@
    }

    /// The directory of the repository: `.mtl` under the root.
    pub open spec fn mtl_dir(&self) -> Seq<u8> {
        joined(self.root(), mtl())
    }

    pub fn root_dir(&self) -> (path: &[u8])
        ensures
            path@ == self.root(),
    {
        self.root_dir.as_slice()
    }

    fn in_mtl(&self, name: &[u8]) -> (path: Vec<u8>)
        ensures
            path@ == joined(self.mtl_dir(), name@),
    {
        let dir = join_path(self.root_dir.as_slice(), word_mtl().as_slice());
        join_path(dir.as_slice(), name)
    }

    /// The directory of the loose objects.
    pub fn objects_dir(&self) -> (path: Vec<u8>)
        ensures
            path@ == joined(self.mtl_dir(), objects()),
    {
        self.in_mtl(word_objects().as_slice())
    }

    /// The directory of the packed objects.
    pub fn pack_dir(&self) -> (path: Vec<u8>)
        ensures
            path@ == joined(self.mtl_dir(), pack()),
    {
        self.in_mtl(word_pack().as_slice())
    }

    /// The directory of the metadata cache.
    pub fn cache_dir(&self) -> (path: Vec<u8>)
        ensures
            path@ == joined(self.mtl_dir(), cache()),
    {
        self.in_mtl(word_cache().as_slice())
    }

    /// The file of the packed objects.
    pub fn pack_file(&self) -> (path: Vec<u8>)
        ensures
            path@ == joined(joined(self.mtl_dir(), pack()), packed_redb()),
    {
        join_path(self.pack_dir().as_slice(), word_packed_redb().as_slice())
    }

    /// The file of the metadata cache.
    pub fn cache_db_file(&self) -> (path: Vec<u8>)
        ensures
            path@ == joined(joined(self.mtl_dir(), cache()), cache_redb()),
    {
        join_path(self.cache_dir().as_slice(), word_cache_redb().as_slice())
    }

    /// The directory of a loose object: named by the first two digits of the
    /// id.
    pub fn object_dir(&self, object_id: &ObjectID) -> (path: Vec<u8>)
        ensures
            path@ == joined(
                joined(self.mtl_dir(), objects()),
                hex_digits(object_id.0.xxh3 as nat, 16).subrange(0, 2),
            ),
    {
        let hex = object_id.to_hex_bytes();
        proof {
            lemma_hex_digits(object_id.0.xxh3 as nat, 16);
        }
        let first = copy_range(hex.as_slice(), 0, 2);
        join_path(self.objects_dir().as_slice(), first.as_slice())
    }

    /// The file of a loose object: named by the last fourteen digits of the
    /// id, in the directory named by the first two.
    pub fn object_file(&self, object_id: &ObjectID) -> (path: Vec<u8>)
        ensures
            path@ == joined(
                joined(
                    joined(self.mtl_dir(), objects()),
                    hex_digits(object_id.0.xxh3 as nat, 16).subrange(0, 2),
                ),
                hex_digits(object_id.0.xxh3 as nat, 16).subrange(2, 16),
            ),
    {
        let hex = object_id.to_hex_bytes();
        proof {
            lemma_hex_digits(object_id.0.xxh3 as nat, 16);
        }
        let rest = copy_range(hex.as_slice(), 2, 16);
        join_path(self.object_dir(object_id).as_slice(), rest.as_slice())
    }

    /// The file of the reference `HEAD`.
    pub fn head_file(&self) -> (path: Vec<u8>)
        ensures
            path@ == joined(self.mtl_dir(), head()),
    {
        self.in_mtl(word_head().as_slice())
    }

    /// The directory of the named references.
    pub fn reference_dir(&self) -> (path: Vec<u8>)
        ensures
            path@ == joined(self.mtl_dir(), refs()),
    {
        self.in_mtl(word_refs().as_slice())
    }

    /// The file of the reference with the given name.
    pub fn reference_file(&self, reference: &str) -> (path: Vec<u8>)
        ensures
            path@ == joined(joined(self.mtl_dir(), refs()), reference.spec_bytes()),
    {
        join_path(self.reference_dir().as_slice(), reference.as_bytes())
    }

    /// Where to look a reference up: an id is itself; `HEAD` lies in the
    /// file of the head; any other name lies in the directory of the
    /// references.
    pub fn ref_source(&self, object_ref: &ObjectRef) -> (source: RefSource)
        ensures
            match *object_ref {
                ObjectRef::ID(id) => source == RefSource::Id(id),
                ObjectRef::Reference(name) => source matches RefSource::File(path) && path@
                    == if encode_utf8(name@) == head() {
                    joined(self.mtl_dir(), head())
                } else {
                    joined(joined(self.mtl_dir(), refs()), encode_utf8(name@))
                },
            },
    {
        match object_ref {
            ObjectRef::ID(id) => RefSource::Id(*id),
            ObjectRef::Reference(name) => {
                if bytes_eq(name.as_str().as_bytes(), word_head().as_slice()) {
                    RefSource::File(self.head_file())
                } else {
                    RefSource::File(self.reference_file(name.as_str()))
                }
            },
        }
    }
}

} // verus!

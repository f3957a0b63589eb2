//! The metadata cache: what is kept of a file, when a kept entry may stand
//! for the file, and when the writer flushes.

use byteorder::{ByteOrder, LittleEndian};
use vstd::bytes::{
    spec_u128_from_le_bytes, spec_u128_to_le_bytes, spec_u64_from_le_bytes, spec_u64_to_le_bytes,
};
use vstd::prelude::*;

use crate::data::{read_u64_le, ObjectID};
use crate::hash::{write_u64_le, xxh3_64};
use crate::text::{bytes_less, bytes_lt, copy_range};

verus! {

/// The key of a cache entry: the bytes of the path of the file.
#[derive(Debug, PartialEq, Eq)]
pub struct CacheKey {
    pub path: Vec<u8>,
}

impl CacheKey {
    pub fn new(path: &[u8]) -> (k: Self)
        ensures
            k.path@ == path@,
    {
        let copy = copy_range(path, 0, path.len());
        assert(copy@ =~= path@);
        Self { path: copy }
    }

    /// The key as it is stored: the bytes of the path.
    pub fn as_bytes(&self) -> (bytes: Vec<u8>)
        ensures
            bytes@ == self.path@,
    {
        let copy = copy_range(self.path.as_slice(), 0, self.path.len());
        assert(copy@ =~= self.path@);
        copy
    }

    /// The key that stored bytes stand for.
    pub fn from_bytes(data: &[u8]) -> (k: Self)
        ensures
            k.path@ == data@,
    {
        Self::new(data)
    }

    /// Whether the stored key `a` comes before the stored key `b`: keys are
    /// ordered as byte strings.
    pub fn key_is_before(a: &[u8], b: &[u8]) -> (lt: bool)
        ensures
            lt == bytes_lt(a@, b@),
    {
        bytes_less(a, b)
    }
}

impl Clone for CacheKey {
    fn clone(&self) -> (k: Self)
        ensures
            k.path@ == self.path@,
    {
        Self { path: self.as_bytes() }
    }
}

/// What the cache keeps of a file: the time of its last change in
/// microseconds, its size, and the id of its content.
#[derive(Debug, Clone, Copy, PartialEq, Eq, Structural)]
pub struct CacheValue {
    pub mtime: u128,
    pub size: u64,
    pub object_id: ObjectID,
}

/// The 32 bytes of a cache value: the time, the size and the id, each least
/// significant byte first.
pub open spec fn cache_value_bytes(v: CacheValue) -> Seq<u8> {
    spec_u128_to_le_bytes(v.mtime) + spec_u64_to_le_bytes(v.size) + spec_u64_to_le_bytes(
        v.object_id.0.xxh3,
    )
}

/// The cache value that 32 bytes stand for.
pub open spec fn cache_value_of(data: Seq<u8>) -> CacheValue {
    CacheValue {
        mtime: spec_u128_from_le_bytes(data.subrange(0, 16)),
        size: spec_u64_from_le_bytes(data.subrange(16, 24)),
        object_id: ObjectID(
            crate::hash::Hash { xxh3: spec_u64_from_le_bytes(data.subrange(24, 32)) },
        ),
    }
}

/// Writes `n` into `buf[at..at + 16]` with
/// `byteorder::LittleEndian::write_u128`: the sixteen bytes of `n`, least
/// significant first; the rest of `buf` stays.
#[verifier::external_body]
fn write_u128_le(buf: &mut Vec<u8>, at: usize, n: u128)
    requires
        at + 16 <= old(buf).len(),
    ensures
        final(buf)@ == old(buf)@.subrange(0, at as int) + spec_u128_to_le_bytes(n)
            + old(buf)@.subrange(at + 16, old(buf).len() as int),
{
    LittleEndian::write_u128(&mut buf[at..], n)
}

/// Reads a 128-bit number from the first sixteen bytes of `data` with
/// `byteorder::LittleEndian::read_u128`: least significant byte first.
#[verifier::external_body]
fn read_u128_le(data: &[u8]) -> (n: u128)
    requires
        data.len() >= 16,
    ensures
        n == spec_u128_from_le_bytes(data@.subrange(0, 16)),
{
    LittleEndian::read_u128(data)
}

impl CacheValue {
    /// The number of bytes of a stored value.
    pub fn fixed_width() -> (w: usize)
        ensures
            w == 32,
    {
        16 + 8 + crate::hash::Hash::fixed_width()
    }

    /// The value as it is stored.
    pub fn as_bytes(&self) -> (data: Vec<u8>)
        ensures
            data@ == cache_value_bytes(*self),
            data@.len() == 32,
    {
        let mut data: Vec<u8> = vec![0u8; 32];
        proof {
            vstd::bytes::lemma_auto_spec_u64_to_from_le_bytes();
            vstd::bytes::lemma_auto_spec_u128_to_from_le_bytes();
        }
        write_u128_le(&mut data, 0, self.mtime);
        write_u64_le(&mut data, 16, self.size);
        write_u64_le(&mut data, 24, self.object_id.as_u64());
        assert(data@ =~= cache_value_bytes(*self));
        data
    }

    /// The value that stored bytes stand for.
    pub fn from_bytes(data: &[u8]) -> (v: Self)
        requires
            data.len() >= 32,
        ensures
            v == cache_value_of(data@),
    {
        let time = copy_range(data, 0, 16);
        let size = copy_range(data, 16, 24);
        let id = copy_range(data, 24, 32);
        assert(time@.subrange(0, 16) =~= data@.subrange(0, 16));
        assert(size@.subrange(0, 8) =~= data@.subrange(16, 24));
        assert(id@.subrange(0, 8) =~= data@.subrange(24, 32));
        let mtime = read_u128_le(time.as_slice());
        let size = read_u64_le(size.as_slice());
        let object_id = ObjectID::new(crate::hash::Hash::new(read_u64_le(id.as_slice())));
        Self { mtime, size, object_id }
    }

    /// Whether the entry still stands for a file with the given time of last
    /// change and size: both must be the same.
    pub fn matches(&self, mtime: u128, size: u64) -> (hit: bool)
        ensures
            hit == (self.mtime == mtime && self.size == size),
    {
        self.mtime == mtime && self.size == size
    }

    /// The entry of a file with the given content.
    pub fn of_contents(contents: &[u8], mtime: u128, size: u64) -> (v: Self)
        ensures
            v.mtime == mtime,
            v.size == size,
            v.object_id.0.xxh3 == xxh3_64(contents@),
    {
        Self { mtime, size, object_id: ObjectID::from_contents(contents) }
    }
}

/// The id to take from the cache for a file with the given time of last
/// change and size: that of the entry, if there is one and it matches both.
pub open spec fn cache_hit(cached: Option<CacheValue>, mtime: u128, size: u64) -> Option<
    ObjectID,
> {
    match cached {
        Some(v) => if v.mtime == mtime && v.size == size {
            Some(v.object_id)
        } else {
            None
        },
        None => None,
    }
}

/// Looks a file up in what the cache returned for its path.  On `None` the
/// file has to be read and hashed.
pub fn cached_id(cached: Option<CacheValue>, mtime: u128, size: u64) -> (id: Option<ObjectID>)
    ensures
        id == cache_hit(cached, mtime, size),
{
    match cached {
        Some(v) => if v.matches(mtime, size) {
            Some(v.object_id)
        } else {
            None
        },
        None => None,
    }
}

/// A stored value reads back as it was written.
pub proof fn lemma_cache_value_round_trip(v: CacheValue)
    ensures
        cache_value_bytes(v).len() == 32,
        cache_value_of(cache_value_bytes(v)) == v,
{
    vstd::bytes::lemma_auto_spec_u64_to_from_le_bytes();
    vstd::bytes::lemma_auto_spec_u128_to_from_le_bytes();
    let data = cache_value_bytes(v);
    assert(data.subrange(0, 16) =~= spec_u128_to_le_bytes(v.mtime));
    assert(data.subrange(16, 24) =~= spec_u64_to_le_bytes(v.size));
    assert(data.subrange(24, 32) =~= spec_u64_to_le_bytes(v.object_id.0.xxh3));
}

/// A cache whose entries hold the ids of the contents they were made from
/// changes no result: where an entry matches a file whose content is still
/// the content the entry was made from, the id taken from the cache is the
/// id that hashing the file gives.
pub proof fn lemma_cache_hit_is_sound(
    cached: CacheValue,
    contents: Seq<u8>,
    mtime: u128,
    size: u64,
)
    requires
        cached.object_id.0.xxh3 == xxh3_64(contents),
        cached.mtime == mtime,
        cached.size == size,
    ensures
        cache_hit(Some(cached), mtime, size) == Some(
            ObjectID(crate::hash::Hash { xxh3: xxh3_64(contents) }),
        ),
{
}

/// A request to the writer of the cache.
#[derive(Debug, PartialEq, Eq)]
pub enum WriteRequest {
    Insert(CacheKey, CacheValue),
    Shutdown,
}

/// What the writer got from its queue.
#[derive(Debug, PartialEq, Eq)]
pub enum Received {
    /// A request arrived.
    Request(WriteRequest),
    /// Every sender is gone.
    Disconnected,
    /// Nothing arrived in the time the writer waited.
    Timeout,
}

/// What the writer does after an event.
#[derive(Debug, PartialEq, Eq)]
pub struct WriterStep {
    /// The entries to write in one transaction; nothing is written where
    /// there are none.
    pub batch: Vec<(CacheKey, CacheValue)>,
    /// Whether the time of the last flush becomes now.
    pub flushed: bool,
    /// Whether the writer ends.
    pub exit: bool,
}

/// An entry of the buffer, as contracts see it.
pub open spec fn pair_views(v: Seq<(CacheKey, CacheValue)>) -> Seq<(Seq<u8>, CacheValue)> {
    Seq::new(v.len(), |i: int| (v[i].0.path@, v[i].1))
}

/// The buffer of the writer of the cache.
#[derive(Debug)]
pub struct CacheWriter {
    threshold: usize,
    buffer: Vec<(CacheKey, CacheValue)>,
}

impl CacheWriter {
    /// A writer that flushes when it holds more than `threshold` entries, or
    /// when the interval has gone by.
    pub fn new(threshold: usize) -> (w: Self)
        ensures
            w.pending() == Seq::<(Seq<u8>, CacheValue)>::empty(),
            w.threshold() == threshold,
    {
        let w = Self { threshold, buffer: Vec::new() };
        assert(pair_views(w.buffer@) =~= Seq::empty());
        w
    }

    /// The entries that wait to be written, oldest first.
    pub closed spec fn pending(&self) -> Seq<(Seq<u8>, CacheValue)> {
        pair_views(self.buffer@)
    }

    pub closed spec fn threshold(&self) -> usize {
        self.threshold
    }

    /// The time to wait for the next request: what is left of the interval
    /// since the last flush, and nothing once it has gone by.
    pub fn remaining(interval: u128, elapsed: u128) -> (wait: u128)
        ensures
            wait == if elapsed >= interval {
                0
            } else {
                interval - elapsed
            },
    {
        if elapsed >= interval {
            0
        } else {
            interval - elapsed
        }
    }

    /// Takes an event and says what to do.  An insert joins the buffer.  A
    /// shutdown, or the loss of every sender, hands out all that waits and
    /// ends the writer.  Otherwise all that waits is handed out when the
    /// interval since the last flush has gone by or more entries wait than
    /// the threshold allows; the buffer is empty afterwards.
    pub fn step(&mut self, received: Received, interval_elapsed: bool) -> (s: WriterStep)
        ensures
            final(self).threshold() == old(self).threshold(),
            ({
                let waiting = match received {
                    Received::Request(WriteRequest::Insert(k, v)) => old(self).pending().push(
                        (k.path@, v),
                    ),
                    _ => old(self).pending(),
                };
                let exit = received == Received::Disconnected || received == Received::Request(
                    WriteRequest::Shutdown,
                );
                let flush = exit || interval_elapsed || waiting.len() > old(self).threshold();
                &&& s.exit == exit
                &&& s.flushed == (flush && !exit)
                &&& pair_views(s.batch@) == if flush {
                    waiting
                } else {
                    Seq::empty()
                }
                &&& final(self).pending() == if flush {
                    Seq::empty()
                } else {
                    waiting
                }
            }),
    {
        let exit = match received {
            Received::Request(WriteRequest::Insert(k, v)) => {
                let ghost had = pair_views(self.buffer@);
                self.buffer.push((k, v));
                assert(pair_views(self.buffer@) =~= had.push((k.path@, v)));
                false
            },
            Received::Request(WriteRequest::Shutdown) => true,
            Received::Disconnected => true,
            Received::Timeout => false,
        };
        let flush = exit || interval_elapsed || self.buffer.len() > self.threshold;
        let mut batch: Vec<(CacheKey, CacheValue)> = Vec::new();
        if flush {
            let ghost waiting = pair_views(self.buffer@);
            batch.append(&mut self.buffer);
            assert(pair_views(batch@) =~= waiting);
            assert(pair_views(self.buffer@) =~= Seq::empty());
        } else {
            assert(pair_views(batch@) =~= Seq::empty());
        }
        WriterStep { batch, flushed: flush && !exit, exit }
    }
}

} // verus!

//! The 64-bit content fingerprint, its 16-character hexadecimal form and its
//! 8-byte little-endian form.

use byteorder::{ByteOrder, LittleEndian};
use vstd::bytes::spec_u64_to_le_bytes;
use vstd::prelude::*;
use vstd::string::StringSliceAdditionalSpecFns;

use crate::error::ParseHashError;
use crate::text::{all_ascii, ascii_chars, ascii_text};

verus! {

/// The XXH3 hash (64 bits, seed 0, default secret) of a byte string.
pub uninterp spec fn xxh3_64(bytes: Seq<u8>) -> u64;

/// Hashes `contents` with `xxhash_rust::xxh3::xxh3_64`.  The result is taken
/// to depend on the bytes alone.
#[verifier::external_body]
pub fn xxh3_contents(contents: &[u8]) -> (h: u64)
    ensures
        h == xxh3_64(contents@),
{
    xxhash_rust::xxh3::xxh3_64(contents)
}

/// Writes `n` into `buf[at..at + 8]` with `byteorder::LittleEndian::write_u64`:
/// the eight bytes of `n`, least significant first; the rest of `buf` stays.
#[verifier::external_body]
pub(crate) fn write_u64_le(buf: &mut Vec<u8>, at: usize, n: u64)
    requires
        at + 8 <= old(buf).len(),
    ensures
        final(buf)@ == old(buf)@.subrange(0, at as int) + spec_u64_to_le_bytes(n)
            + old(buf)@.subrange(at + 8, old(buf).len() as int),
{
    LittleEndian::write_u64(&mut buf[at..], n)
}

/// The value of a hexadecimal digit, of either case.
pub open spec fn hex_digit_value(c: u8) -> Option<nat> {
    if 0x30 <= c <= 0x39 {
        Some((c - 0x30) as nat)
    } else if 0x61 <= c <= 0x66 {
        Some((c - 0x61 + 10) as nat)
    } else if 0x41 <= c <= 0x46 {
        Some((c - 0x41 + 10) as nat)
    } else {
        None
    }
}

/// Every byte of `s` is a hexadecimal digit.
pub open spec fn is_hex(s: Seq<u8>) -> bool {
    forall|i: int| 0 <= i < s.len() ==> (#[trigger] hex_digit_value(s[i])) is Some
}

/// The number that the digits of `s` spell in base 16, most significant first.
pub open spec fn hex_value(s: Seq<u8>) -> nat
    decreases s.len(),
{
    if s.len() == 0 {
        0
    } else {
        hex_value(s.drop_last()) * 16 + hex_digit_value(s.last()).unwrap_or(0)
    }
}

/// The lower-case digit for a value below 16.
pub open spec fn hex_char(d: nat) -> u8 {
    if d < 10 {
        (0x30 + d) as u8
    } else {
        (0x61 + d - 10) as u8
    }
}

/// The last `n` hexadecimal digits of `x`, lower case, padded with zeros.
pub open spec fn hex_digits(x: nat, n: nat) -> Seq<u8>
    decreases n,
{
    if n == 0 {
        Seq::empty()
    } else {
        hex_digits(x / 16, (n - 1) as nat).push(hex_char(x % 16))
    }
}

/// 16 to the power `n`.
pub open spec fn pow16(n: nat) -> nat
    decreases n,
{
    if n == 0 {
        1
    } else {
        16 * pow16((n - 1) as nat)
    }
}

/// What parsing a hash from text returns: exactly 16 bytes, each of them a
/// hexadecimal digit, give the number they spell.
pub open spec fn parse_hash(s: Seq<u8>) -> Result<Hash, ParseHashError> {
    if s.len() != 16 {
        Err(ParseHashError::InvalidFormat)
    } else if !is_hex(s) {
        Err(ParseHashError::IntError)
    } else {
        Ok(Hash { xxh3: hex_value(s) as u64 })
    }
}

/// Digits spell a number below 16 to the power of their count.
pub proof fn lemma_hex_value_bound(s: Seq<u8>)
    ensures
        hex_value(s) < pow16(s.len()),
    decreases s.len(),
{
    if s.len() > 0 {
        lemma_hex_value_bound(s.drop_last());
    }
}

/// Sixteen digits fit in 64 bits.
pub proof fn lemma_pow16_16()
    ensures
        pow16(16) == 0x1_0000_0000_0000_0000,
{
    reveal_with_fuel(pow16, 17);
}

pub proof fn lemma_pow16_monotonic(a: nat, b: nat)
    requires
        a <= b,
    ensures
        pow16(a) <= pow16(b),
    decreases b,
{
    if a < b {
        lemma_pow16_monotonic(a, (b - 1) as nat);
    }
}

/// The digits written for a number are `n` lower-case hexadecimal digits.
pub proof fn lemma_hex_digits(x: nat, n: nat)
    ensures
        hex_digits(x, n).len() == n,
        is_hex(hex_digits(x, n)),
        all_ascii(hex_digits(x, n)),
    decreases n,
{
    if n > 0 {
        lemma_hex_digits(x / 16, (n - 1) as nat);
    }
}

/// Reading back the digits written for `x` gives `x`, up to the digits kept.
pub proof fn lemma_hex_round_trip(x: nat, n: nat)
    ensures
        hex_value(hex_digits(x, n)) == x % pow16(n),
    decreases n,
{
    if n > 0 {
        let s = hex_digits(x, n);
        let m = (n - 1) as nat;
        lemma_hex_round_trip(x / 16, m);
        assert(s.drop_last() =~= hex_digits(x / 16, m));
        assert(hex_digit_value(hex_char(x % 16)) == Some(x % 16));
        let p = pow16(m);
        assert(p > 0) by {
            lemma_pow16_monotonic(0, m);
        }
        vstd::arithmetic::div_mod::lemma_mod_breakdown(x as int, 16, p as int);
    }
}

/// A 64-bit content hash.
#[derive(Debug, PartialEq, Eq, Structural, Clone, Copy, Hash, PartialOrd, Ord)]
pub struct Hash {
    pub xxh3: u64,
}

impl Hash {
    pub fn new(xxh3: u64) -> (h: Self)
        ensures
            h.xxh3 == xxh3,
    {
        Hash { xxh3 }
    }

    /// The hash of a byte string.
    pub fn from_contents(contents: &[u8]) -> (h: Self)
        ensures
            h.xxh3 == xxh3_64(contents@),
    {
        Hash::new(xxh3_contents(contents))
    }

    /// Parses the 16-digit hexadecimal form; digits of either case are read.
    pub fn from_hex(hex: &str) -> (r: Result<Self, ParseHashError>)
        ensures
            r == parse_hash(hex.spec_bytes()),
    {
        Self::from_hex_bytes(hex.as_bytes())
    }

    /// Parses the 16-digit hexadecimal form from bytes.
    pub fn from_hex_bytes(s: &[u8]) -> (r: Result<Self, ParseHashError>)
        ensures
            r == parse_hash(s@),
    {
        if s.len() != 16 {
            return Err(ParseHashError::InvalidFormat);
        }
        let mut acc: u64 = 0;
        let mut i: usize = 0;
        while i < 16
            invariant
                i <= 16,
                s.len() == 16,
                is_hex(s@.take(i as int)),
                acc == hex_value(s@.take(i as int)),
            decreases 16 - i,
        {
            let c: u8 = s[i];
            let d: u64 = if 0x30 <= c && c <= 0x39 {
                (c - 0x30) as u64
            } else if 0x61 <= c && c <= 0x66 {
                (c - 0x61 + 10) as u64
            } else if 0x41 <= c && c <= 0x46 {
                (c - 0x41 + 10) as u64
            } else {
                assert(hex_digit_value(s@[i as int]) is None);
                return Err(ParseHashError::IntError);
            };
            proof {
                let t = s@.take(i as int);
                let u = s@.take(i + 1);
                assert(u.drop_last() =~= t);
                assert(u.last() == c);
                lemma_hex_value_bound(t);
                lemma_pow16_monotonic(i as nat, 15);
                lemma_pow16_monotonic((i + 1) as nat, 16);
                lemma_pow16_16();
                assert forall|j: int| 0 <= j < u.len() implies (#[trigger] hex_digit_value(
                    u[j],
                )) is Some by {
                    if j < i {
                        assert(t[j] == u[j]);
                    }
                }
            }
            acc = acc * 16 + d;
            i = i + 1;
        }
        proof {
            assert(s@.take(16) =~= s@);
            lemma_hex_value_bound(s@);
            lemma_pow16_16();
        }
        Ok(Hash::new(acc))
    }

    /// The 16 lower-case hexadecimal digits of the hash, as bytes.
    pub fn to_hex_bytes(&self) -> (out: Vec<u8>)
        ensures
            out@ == hex_digits(self.xxh3 as nat, 16),
    {
        let mut out: Vec<u8> = Vec::new();
        push_hex(&mut out, self.xxh3, 16);
        out
    }

    /// The 16 lower-case hexadecimal digits of the hash.
    pub fn to_string(&self) -> (s: String)
        ensures
            s@ == ascii_chars(hex_digits(self.xxh3 as nat, 16)),
    {
        let bytes = self.to_hex_bytes();
        proof {
            lemma_hex_digits(self.xxh3 as nat, 16);
        }
        ascii_text(bytes.as_slice())
    }

    /// The eight bytes of the hash, least significant first.
    pub fn to_bytes(&self) -> (buf: Vec<u8>)
        ensures
            buf@ == spec_u64_to_le_bytes(self.xxh3),
    {
        let mut buf: Vec<u8> = vec![0u8; 8];
        write_u64_le(&mut buf, 0, self.xxh3);
        assert(buf@ =~= spec_u64_to_le_bytes(self.xxh3)) by {
            vstd::bytes::lemma_auto_spec_u64_to_from_le_bytes();
        }
        buf
    }

    /// The number of bytes of the binary form.
    pub fn fixed_width() -> (w: usize)
        ensures
            w == 8,
    {
        8
    }

    pub fn as_u64(&self) -> (x: u64)
        ensures
            x == self.xxh3,
    {
        self.xxh3
    }
}

/// Appends the last `n` hexadecimal digits of `x` to `buf`.
fn push_hex(buf: &mut Vec<u8>, x: u64, n: usize)
    ensures
        final(buf)@ == old(buf)@ + hex_digits(x as nat, n as nat),
    decreases n,
{
    if n > 0 {
        push_hex(buf, x / 16, n - 1);
        let d: u8 = (x % 16) as u8;
        let c: u8 = if d < 10 {
            0x30 + d
        } else {
            0x61 + (d - 10)
        };
        buf.push(c);
        assert(buf@ =~= old(buf)@ + hex_digits(x as nat, n as nat));
    } else {
        assert(buf@ =~= old(buf)@ + hex_digits(x as nat, n as nat));
    }
}

/// Parsing the written form of a hash gives the hash back.
pub proof fn lemma_hash_hex_round_trip(h: Hash)
    ensures
        parse_hash(hex_digits(h.xxh3 as nat, 16)) == Ok::<Hash, ParseHashError>(h),
{
    lemma_hex_digits(h.xxh3 as nat, 16);
    lemma_hex_round_trip(h.xxh3 as nat, 16);
    lemma_pow16_16();
}

} // verus!

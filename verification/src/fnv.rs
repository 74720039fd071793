//! FNV-1a: a small stable hash for the partition's content identity —
//! the standard library's hasher keys are not guaranteed stable across
//! releases, and this identity must be.

use vstd::prelude::*;
use crate::text::chars_of;

verus! {

/// The FNV-1a 64-bit offset basis.
pub const FNV_OFFSET: u64 = 0xcbf29ce484222325u64;

/// The FNV-1a 64-bit prime.
pub const FNV_PRIME: u64 = 0x100000001b3u64;

/// One FNV-1a step: fold the byte in, then multiply by the prime,
/// wrapping at 2^64.
pub open spec fn fnv_step(h: u64, x: u8) -> u64 {
    vstd::wrapping::u64_specs::wrapping_mul(h ^ (x as u64), FNV_PRIME)
}

/// The hash state after folding in `bs`, first byte first.
pub open spec fn fnv_bytes(h: u64, bs: Seq<u8>) -> u64
    decreases bs.len(),
{
    if bs.len() == 0 {
        h
    } else {
        fnv_step(fnv_bytes(h, bs.drop_last()), bs.last())
    }
}

/// `u64::to_be_bytes`: most significant byte first.
pub open spec fn be_bytes(x: u64) -> Seq<u8> {
    seq![
        (x >> 56u64) as u8,
        (x >> 48u64) as u8,
        (x >> 40u64) as u8,
        (x >> 32u64) as u8,
        (x >> 24u64) as u8,
        (x >> 16u64) as u8,
        (x >> 8u64) as u8,
        x as u8,
    ]
}

/// The characters of a text as the hash folds them in: each one's
/// scalar value as eight big-endian bytes, first character first.
pub open spec fn name_stream(s: Seq<char>) -> Seq<u8>
    decreases s.len(),
{
    if s.len() == 0 {
        Seq::empty()
    } else {
        name_stream(s.drop_last()) + be_bytes(s.last() as u32 as u64)
    }
}

/// A text as the hash folds it in: its length in characters, then its
/// characters. The length keeps two texts in a row apart.
pub open spec fn text_bytes(s: Seq<char>) -> Seq<u8> {
    be_bytes(s.len() as u64) + name_stream(s)
}

/// Hashing in pieces is hashing the whole: folding in `a` and then `b`
/// gives the state that folding in `a + b` does.
pub proof fn law_fnv_streams(h: u64, a: Seq<u8>, b: Seq<u8>)
    ensures
        fnv_bytes(fnv_bytes(h, a), b) == fnv_bytes(h, a + b),
    decreases b.len(),
{
    if b.len() > 0 {
        law_fnv_streams(h, a, b.drop_last());
        assert((a + b).drop_last() =~= a + b.drop_last());
        assert((a + b).last() == b.last());
    } else {
        assert(a + b =~= a);
    }
}

/// A running FNV-1a hash.
pub struct Fnv(u64);

impl View for Fnv {
    type V = u64;

    closed spec fn view(&self) -> u64 {
        self.0
    }
}

impl Fnv {
    /// A hash of nothing yet: the offset basis.
    pub fn new() -> (h: Fnv)
        ensures
            h@ == FNV_OFFSET,
    {
        Fnv(FNV_OFFSET)
    }

    /// Folds in `b`, first byte first.
    pub fn bytes(&mut self, b: &[u8]) -> (r: &mut Self)
        ensures
            (*r)@ == fnv_bytes(old(self)@, b@),
            *final(self) == *final(r),
    {
        let ghost h0 = self.0;
        let mut i: usize = 0;
        while i < b.len()
            invariant
                i <= b@.len(),
                self.0 == fnv_bytes(h0, b@.take(i as int)),
            decreases b@.len() - i,
        {
            proof {
                assert(b@.take(i + 1).drop_last() =~= b@.take(i as int));
            }
            let x = b[i];
            self.0 = (self.0 ^ (x as u64)).wrapping_mul(FNV_PRIME);
            i += 1;
        }
        proof {
            assert(b@.take(b@.len() as int) =~= b@);
        }
        self
    }

    /// Folds in `x` as its eight big-endian bytes.
    pub fn u64(&mut self, x: u64) -> (r: &mut Self)
        ensures
            (*r)@ == fnv_bytes(old(self)@, be_bytes(x)),
            *final(self) == *final(r),
    {
        let bs: [u8; 8] = [
            (x >> 56u64) as u8,
            (x >> 48u64) as u8,
            (x >> 40u64) as u8,
            (x >> 32u64) as u8,
            (x >> 24u64) as u8,
            (x >> 16u64) as u8,
            (x >> 8u64) as u8,
            x as u8,
        ];
        assert(bs@ =~= be_bytes(x));
        self.bytes(&bs)
    }

    /// Folds in `s` as its length in characters, then each character's
    /// scalar value, all as big-endian `u64`s.
    pub fn text(&mut self, s: &str) -> (r: &mut Self)
        ensures
            (*r)@ == fnv_bytes(old(self)@, text_bytes(s@)),
            *final(self) == *final(r),
    {
        let ghost h0 = self@;
        let cs = chars_of(s);
        self.u64(cs.len() as u64);
        let ghost lead = be_bytes(s@.len() as u64);
        let mut i: usize = 0;
        proof {
            assert(cs@.take(0) =~= Seq::<char>::empty());
            assert(lead + name_stream(cs@.take(0)) =~= lead);
        }
        while i < cs.len()
            invariant
                cs@ == s@,
                lead == be_bytes(s@.len() as u64),
                i <= cs@.len(),
                self@ == fnv_bytes(h0, lead + name_stream(cs@.take(i as int))),
            decreases cs@.len() - i,
        {
            let c = cs[i];
            self.u64(c as u32 as u64);
            proof {
                let pre = lead + name_stream(cs@.take(i as int));
                law_fnv_streams(h0, pre, be_bytes(c as u32 as u64));
                assert(cs@.take(i + 1).drop_last() =~= cs@.take(i as int));
                assert(cs@.take(i + 1).last() == c);
                assert(lead + name_stream(cs@.take(i + 1)) =~= pre + be_bytes(c as u32 as u64));
            }
            i += 1;
        }
        proof {
            assert(cs@.take(cs@.len() as int) =~= cs@);
        }
        self
    }

    /// The hash so far.
    pub fn finish(&self) -> (h: u64)
        ensures
            h == self@,
    {
        self.0
    }
}

impl Default for Fnv {
    fn default() -> (h: Fnv)
        ensures
            h@ == FNV_OFFSET,
    {
        Fnv::new()
    }
}

} // verus!

//! A deterministic 64-bit FNV-1a hash, used to fingerprint simulation state.
//!
//! Replay and rollback tests hash the whole world after each tick and compare
//! the sequence against a reference run; a mismatch pinpoints the exact tick a
//! desync was introduced.
use crate::fixed::Fx;
use crate::vec2::Vec2;
use vstd::prelude::*;

verus! {

/// The FNV-1a 64-bit offset basis.
pub const FNV_OFFSET_BASIS: u64 = 0xcbf2_9ce4_8422_2325;

/// The FNV-1a 64-bit prime.
pub const FNV_PRIME: u64 = 0x0000_0100_0000_01b3;

/// One FNV-1a step: xor the byte in, then multiply by the prime modulo 2^64.
pub open spec fn fnv_step(hash: u64, byte: u8) -> u64 {
    vstd::wrapping::u64_specs::wrapping_mul(hash ^ (byte as u64), FNV_PRIME)
}

/// FNV-1a of `bytes`, continuing from `hash`.
pub open spec fn fnv_fold(hash: u64, bytes: Seq<u8>) -> u64
    decreases bytes.len(),
{
    if bytes.len() == 0 {
        hash
    } else {
        fnv_step(fnv_fold(hash, bytes.drop_last()), bytes.last())
    }
}

/// The little-endian bytes of the low `n` bytes of `value`.
pub open spec fn le_bytes(value: u64, n: nat) -> Seq<u8> {
    Seq::new(n, |i: int| (value >> ((8 * i) as u64)) as u8)
}

/// Folds `bytes` into `hash` with FNV-1a.
pub fn fnv_extend(hash: u64, bytes: &[u8]) -> (r: u64)
    ensures
        r == fnv_fold(hash, bytes@),
{
    let mut h = hash;
    let mut i: usize = 0;
    while i < bytes.len()
        invariant
            i <= bytes@.len(),
            h == fnv_fold(hash, bytes@.take(i as int)),
        decreases bytes@.len() - i,
    {
        proof {
            assert(bytes@.take(i + 1).drop_last() =~= bytes@.take(i as int));
        }
        h = (h ^ bytes[i] as u64).wrapping_mul(FNV_PRIME);
        i = i + 1;
    }
    proof {
        assert(bytes@.take(i as int) =~= bytes@);
    }
    h
}

/// Folds the low `n` bytes of `value`, least significant first.
fn fnv_extend_le(hash: u64, value: u64, n: u64) -> (r: u64)
    requires
        n <= 8,
    ensures
        r == fnv_fold(hash, le_bytes(value, n as nat)),
{
    let mut h = hash;
    let mut i: u64 = 0;
    while i < n
        invariant
            i <= n <= 8,
            h == fnv_fold(hash, le_bytes(value, i as nat)),
        decreases n - i,
    {
        proof {
            assert(le_bytes(value, (i + 1) as nat).drop_last() =~= le_bytes(value, i as nat));
        }
        let byte = (value >> (8 * i)) as u8;
        h = (h ^ byte as u64).wrapping_mul(FNV_PRIME);
        i = i + 1;
    }
    h
}

/// An incremental FNV-1a hasher over the exact bits of simulation state.
#[derive(Clone, Copy, PartialEq, Eq, Structural, Debug)]
pub struct StateHasher {
    hash: u64,
}

impl View for StateHasher {
    type V = u64;

    /// The hash accumulated so far.
    closed spec fn view(&self) -> u64 {
        self.hash
    }
}

impl StateHasher {
    /// Starts a new hash at the FNV-1a offset basis.
    pub fn new() -> (r: StateHasher)
        ensures
            r@ == FNV_OFFSET_BASIS,
    {
        StateHasher { hash: FNV_OFFSET_BASIS }
    }

    /// Folds a byte slice into the hash.
    pub fn write(&mut self, bytes: &[u8])
        ensures
            final(self)@ == fnv_fold(old(self)@, bytes@),
    {
        self.hash = fnv_extend(self.hash, bytes);
    }

    /// Folds a `u64` into the hash, little-endian.
    pub fn write_u64(&mut self, value: u64)
        ensures
            final(self)@ == fnv_fold(old(self)@, le_bytes(value, 8)),
    {
        self.hash = fnv_extend_le(self.hash, value, 8);
    }

    /// Folds an `i64` into the hash, by its two's-complement bytes.
    pub fn write_i64(&mut self, value: i64)
        ensures
            final(self)@ == fnv_fold(old(self)@, le_bytes(value as u64, 8)),
    {
        self.hash = fnv_extend_le(self.hash, value as u64, 8);
    }

    /// Folds a `u32` into the hash, little-endian.
    pub fn write_u32(&mut self, value: u32)
        ensures
            final(self)@ == fnv_fold(old(self)@, le_bytes(value as u64, 4)),
    {
        self.hash = fnv_extend_le(self.hash, value as u64, 4);
    }

    /// Folds a fixed-point value into the hash by its exact raw bits.
    pub fn write_fx(&mut self, value: Fx)
        ensures
            final(self)@ == fnv_fold(old(self)@, le_bytes(value.0 as u64, 8)),
    {
        self.write_i64(value.to_raw());
    }

    /// Folds a vector into the hash, x then y.
    pub fn write_vec2(&mut self, value: Vec2)
        ensures
            final(self)@ == fnv_fold(
                fnv_fold(old(self)@, le_bytes(value.x.0 as u64, 8)),
                le_bytes(value.y.0 as u64, 8),
            ),
    {
        self.write_fx(value.x);
        self.write_fx(value.y);
    }

    /// The hash accumulated so far.
    pub fn finish(&self) -> (r: u64)
        ensures
            r == self@,
    {
        self.hash
    }
}

impl Default for StateHasher {
    fn default() -> (r: StateHasher)
        ensures
            r@ == FNV_OFFSET_BASIS,
    {
        StateHasher::new()
    }
}

/// Hashing a concatenation is hashing the first part and then the second:
/// the hash is incremental.
pub proof fn lemma_fnv_fold_append(hash: u64, a: Seq<u8>, b: Seq<u8>)
    ensures
        fnv_fold(hash, a + b) == fnv_fold(fnv_fold(hash, a), b),
    decreases b.len(),
{
    if b.len() == 0 {
        assert(a + b =~= a);
    } else {
        assert((a + b).drop_last() =~= a + b.drop_last());
        assert((a + b).last() == b.last());
        lemma_fnv_fold_append(hash, a, b.drop_last());
    }
}

} // verus!

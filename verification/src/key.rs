//! The closed set of primitive integer types usable as map keys, and the
//! capabilities the table needs from them: bitwise AND with a widened
//! power-of-two mask (which yields the key's home slot), equality, and
//! conversion from a 32-bit unsigned value.

use vstd::prelude::*;

verus! {

/// Marker sealing the set of key types: only the primitive integer
/// implementations in this module exist.
pub trait SealedKey {}

/// A primitive integer key. The home slot of a key under a power-of-two
/// capacity is the key's value AND `capacity - 1`: its low bits, read on
/// signed types from the two's-complement bit pattern.
pub trait IntKey: SealedKey + Sized + Copy {
    /// The home index of this key under `mask`: the key AND the mask,
    /// widened to `Self` first, read as a non-negative integer.
    spec fn spec_home(self, mask: u32) -> int;

    /// Computes the home index. The mask is at most `2^30 - 1`, the largest
    /// index mask a table can be built with.
    fn home(self, mask: u32) -> (r: usize)
        requires
            mask <= 0x3fff_ffff,
        ensures
            r as int == self.spec_home(mask),
            r <= mask as usize,
    ;

    fn eq_key(&self, other: &Self) -> (r: bool)
        ensures
            r == (*self == *other),
    ;

    /// The home index under a legal mask lies within the mask's range.
    proof fn lemma_home_bounded(self, mask: u32)
        requires
            mask <= 0x3fff_ffff,
        ensures
            0 <= self.spec_home(mask) <= mask as int,
    ;

    /// The key holding the value `v`.
    spec fn spec_from_u32(v: u32) -> Self;

    /// Converts a small unsigned value to a key; used to fill key slots that
    /// no entry occupies yet.
    fn from_u32(v: u32) -> (r: Self)
        requires
            v <= 0x7fff_ffff,
        ensures
            r == Self::spec_from_u32(v),
    ;
}

impl SealedKey for u32 {}

impl IntKey for u32 {
    open spec fn spec_home(self, mask: u32) -> int {
        (self & mask) as int
    }

    fn home(self, mask: u32) -> (r: usize) {
        proof {
            assert(self & mask <= mask) by (bit_vector);
        }
        (self & mask) as usize
    }

    fn eq_key(&self, other: &Self) -> (r: bool) {
        *self == *other
    }

    proof fn lemma_home_bounded(self, mask: u32) {
        assert(self & mask <= mask) by (bit_vector);
    }

    open spec fn spec_from_u32(v: u32) -> Self {
        v
    }

    fn from_u32(v: u32) -> (r: Self) {
        v
    }
}

impl SealedKey for u64 {}

impl IntKey for u64 {
    open spec fn spec_home(self, mask: u32) -> int {
        (self & (mask as u64)) as int
    }

    fn home(self, mask: u32) -> (r: usize) {
        proof {
            assert(self & (mask as u64) <= (mask as u64)) by (bit_vector);
        }
        (self & (mask as u64)) as usize
    }

    fn eq_key(&self, other: &Self) -> (r: bool) {
        *self == *other
    }

    proof fn lemma_home_bounded(self, mask: u32) {
        assert(self & (mask as u64) <= (mask as u64)) by (bit_vector);
    }

    open spec fn spec_from_u32(v: u32) -> Self {
        v as u64
    }

    fn from_u32(v: u32) -> (r: Self) {
        v as u64
    }
}

impl SealedKey for u128 {}

impl IntKey for u128 {
    open spec fn spec_home(self, mask: u32) -> int {
        (self & (mask as u128)) as int
    }

    fn home(self, mask: u32) -> (r: usize) {
        proof {
            assert(self & (mask as u128) <= (mask as u128)) by (bit_vector);
        }
        (self & (mask as u128)) as usize
    }

    fn eq_key(&self, other: &Self) -> (r: bool) {
        *self == *other
    }

    proof fn lemma_home_bounded(self, mask: u32) {
        assert(self & (mask as u128) <= (mask as u128)) by (bit_vector);
    }

    open spec fn spec_from_u32(v: u32) -> Self {
        v as u128
    }

    fn from_u32(v: u32) -> (r: Self) {
        v as u128
    }
}

impl SealedKey for usize {}

impl IntKey for usize {
    open spec fn spec_home(self, mask: u32) -> int {
        (self & (mask as usize)) as int
    }

    fn home(self, mask: u32) -> (r: usize) {
        proof {
            assert(self & (mask as usize) <= (mask as usize)) by (bit_vector);
        }
        self & (mask as usize)
    }

    fn eq_key(&self, other: &Self) -> (r: bool) {
        *self == *other
    }

    proof fn lemma_home_bounded(self, mask: u32) {
        assert(self & (mask as usize) <= (mask as usize)) by (bit_vector);
    }

    open spec fn spec_from_u32(v: u32) -> Self {
        v as usize
    }

    fn from_u32(v: u32) -> (r: Self) {
        v as usize
    }
}

impl SealedKey for i32 {}

impl IntKey for i32 {
    open spec fn spec_home(self, mask: u32) -> int {
        (self & (mask as i32)) as int
    }

    fn home(self, mask: u32) -> (r: usize) {
        proof {
            assert(0 <= self & (mask as i32) && self & (mask as i32) <= (mask as i32))
                by (bit_vector)
                requires mask <= 0x3fff_ffff;
        }
        (self & (mask as i32)) as usize
    }

    fn eq_key(&self, other: &Self) -> (r: bool) {
        *self == *other
    }

    proof fn lemma_home_bounded(self, mask: u32) {
        assert(0 <= self & (mask as i32) && self & (mask as i32) <= (mask as i32))
            by (bit_vector)
            requires mask <= 0x3fff_ffff;
    }

    open spec fn spec_from_u32(v: u32) -> Self {
        v as i32
    }

    fn from_u32(v: u32) -> (r: Self) {
        v as i32
    }
}

impl SealedKey for i64 {}

impl IntKey for i64 {
    open spec fn spec_home(self, mask: u32) -> int {
        (self & (mask as i64)) as int
    }

    fn home(self, mask: u32) -> (r: usize) {
        proof {
            assert(0 <= self & (mask as i64) && self & (mask as i64) <= (mask as i64))
                by (bit_vector)
                requires mask <= 0x3fff_ffff;
        }
        (self & (mask as i64)) as usize
    }

    fn eq_key(&self, other: &Self) -> (r: bool) {
        *self == *other
    }

    proof fn lemma_home_bounded(self, mask: u32) {
        assert(0 <= self & (mask as i64) && self & (mask as i64) <= (mask as i64))
            by (bit_vector)
            requires mask <= 0x3fff_ffff;
    }

    open spec fn spec_from_u32(v: u32) -> Self {
        v as i64
    }

    fn from_u32(v: u32) -> (r: Self) {
        v as i64
    }
}

impl SealedKey for i128 {}

impl IntKey for i128 {
    open spec fn spec_home(self, mask: u32) -> int {
        (self & (mask as i128)) as int
    }

    fn home(self, mask: u32) -> (r: usize) {
        proof {
            assert(0 <= self & (mask as i128) && self & (mask as i128) <= (mask as i128))
                by (bit_vector)
                requires mask <= 0x3fff_ffff;
        }
        (self & (mask as i128)) as usize
    }

    fn eq_key(&self, other: &Self) -> (r: bool) {
        *self == *other
    }

    proof fn lemma_home_bounded(self, mask: u32) {
        assert(0 <= self & (mask as i128) && self & (mask as i128) <= (mask as i128))
            by (bit_vector)
            requires mask <= 0x3fff_ffff;
    }

    open spec fn spec_from_u32(v: u32) -> Self {
        v as i128
    }

    fn from_u32(v: u32) -> (r: Self) {
        v as i128
    }
}

/// A signed 32-bit key is homed by its two's-complement bit pattern: it lands
/// exactly where the unsigned key with the same bits does.
pub proof fn lemma_signed_home_as_bits_i32(k: i32, u: u32, mask: u32)
    requires
        u == k as u32,
        mask <= 0x3fff_ffff,
    ensures
        k.spec_home(mask) == u.spec_home(mask),
{
    assert(k & (mask as i32) == ((u & mask) as i32) && 0 <= k & (mask as i32) && u & mask
        <= 0x3fff_ffff)
        by (bit_vector)
        requires u == k as u32, mask <= 0x3fff_ffff;
}

/// A signed 64-bit key is homed by its two's-complement bit pattern.
pub proof fn lemma_signed_home_as_bits_i64(k: i64, u: u64, mask: u32)
    requires
        u == k as u64,
        mask <= 0x3fff_ffff,
    ensures
        k.spec_home(mask) == u.spec_home(mask),
{
    assert(k & (mask as i64) == ((u & (mask as u64)) as i64) && 0 <= k & (mask as i64) && u & (
    mask as u64) <= 0x3fff_ffff)
        by (bit_vector)
        requires u == k as u64, mask <= 0x3fff_ffff;
}

/// A signed 128-bit key is homed by its two's-complement bit pattern.
pub proof fn lemma_signed_home_as_bits_i128(k: i128, u: u128, mask: u32)
    requires
        u == k as u128,
        mask <= 0x3fff_ffff,
    ensures
        k.spec_home(mask) == u.spec_home(mask),
{
    assert(k & (mask as i128) == ((u & (mask as u128)) as i128) && 0 <= k & (mask as i128) && u & (
    mask as u128) <= 0x3fff_ffff)
        by (bit_vector)
        requires u == k as u128, mask <= 0x3fff_ffff;
}

} // verus!

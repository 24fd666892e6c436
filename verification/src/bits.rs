//! Fixed-width occupancy bitsets.
//!
//! Each bucket level of the wheel keeps one bit per bucket position;
//! the bit at position `i` records that bucket `i` may be non-empty.
//! The spec functions `set16`/`clear16` (and the wider variants) give
//! the exact word an operation produces, and the lemmas translate
//! that word back into per-position facts.

use vstd::prelude::*;

verus! {

/// An occupancy bitset backed by a single machine word.
pub struct Bitset<T>(pub T);

/// Bit `i` of a `u16` word, for a word-sized index.
pub open spec fn word_bit16(b: u16, i: u16) -> bool {
    (b >> i) & 1u16 == 1u16
}

/// Bit `i` of a `u32` word, for a word-sized index.
pub open spec fn word_bit32(b: u32, i: u32) -> bool {
    (b >> i) & 1u32 == 1u32
}

/// Bit `i` of a `u64` word, for a word-sized index.
pub open spec fn word_bit64(b: u64, i: u64) -> bool {
    (b >> i) & 1u64 == 1u64
}

/// Bit `i` of a `u16` word, false outside the word's width.
pub open spec fn bit16(b: u16, i: int) -> bool {
    0 <= i < 16 && word_bit16(b, i as u16)
}

/// Bit `i` of a `u32` word, false outside the word's width.
pub open spec fn bit32(b: u32, i: int) -> bool {
    0 <= i < 32 && word_bit32(b, i as u32)
}

/// Bit `i` of a `u64` word, false outside the word's width.
pub open spec fn bit64(b: u64, i: int) -> bool {
    0 <= i < 64 && word_bit64(b, i as u64)
}

/// The word with bit `i` set.
pub open spec fn set16(b: u16, i: int) -> u16 {
    b | (1u16 << (i as u16))
}

/// The word with bit `i` cleared.
pub open spec fn clear16(b: u16, i: int) -> u16 {
    b & !(1u16 << (i as u16))
}

/// The word with bit `i` set.
pub open spec fn set32(b: u32, i: int) -> u32 {
    b | (1u32 << (i as u32))
}

/// The word with bit `i` cleared.
pub open spec fn clear32(b: u32, i: int) -> u32 {
    b & !(1u32 << (i as u32))
}

/// The word with bit `i` set.
pub open spec fn set64(b: u64, i: int) -> u64 {
    b | (1u64 << (i as u64))
}

/// The word with bit `i` cleared.
pub open spec fn clear64(b: u64, i: int) -> u64 {
    b & !(1u64 << (i as u64))
}

proof fn lemma_word16_set(b: u16, i: u16)
    by (bit_vector)
    requires
        i < 16,
    ensures
        forall|j: u16|
            j < 16 ==> #[trigger] word_bit16(b | (1u16 << i), j) == (word_bit16(b, j) || j == i),
{
}

proof fn lemma_word16_clear(b: u16, i: u16)
    by (bit_vector)
    requires
        i < 16,
    ensures
        forall|j: u16|
            j < 16 ==> #[trigger] word_bit16(b & !(1u16 << i), j) == (word_bit16(b, j) && j != i),
{
}

proof fn lemma_word32_set(b: u32, i: u32)
    by (bit_vector)
    requires
        i < 32,
    ensures
        forall|j: u32|
            j < 32 ==> #[trigger] word_bit32(b | (1u32 << i), j) == (word_bit32(b, j) || j == i),
{
}

proof fn lemma_word32_clear(b: u32, i: u32)
    by (bit_vector)
    requires
        i < 32,
    ensures
        forall|j: u32|
            j < 32 ==> #[trigger] word_bit32(b & !(1u32 << i), j) == (word_bit32(b, j) && j != i),
{
}

proof fn lemma_word64_set(b: u64, i: u64)
    by (bit_vector)
    requires
        i < 64,
    ensures
        forall|j: u64|
            j < 64 ==> #[trigger] word_bit64(b | (1u64 << i), j) == (word_bit64(b, j) || j == i),
{
}

proof fn lemma_word64_clear(b: u64, i: u64)
    by (bit_vector)
    requires
        i < 64,
    ensures
        forall|j: u64|
            j < 64 ==> #[trigger] word_bit64(b & !(1u64 << i), j) == (word_bit64(b, j) && j != i),
{
}

/// Setting bit `i` raises exactly that position.
pub proof fn lemma_set16_bit(b: u16, i: int)
    requires
        0 <= i < 16,
    ensures
        forall|j: int| #[trigger] bit16(set16(b, i), j) == (bit16(b, j) || j == i),
{
    lemma_word16_set(b, i as u16);
    assert forall|j: int| #[trigger] bit16(set16(b, i), j) == (bit16(b, j) || j == i) by {
        if 0 <= j < 16 {
            assert(word_bit16(b | (1u16 << (i as u16)), j as u16) == (word_bit16(b, j as u16) || j
                as u16 == i as u16));
        }
    }
}

/// Clearing bit `i` lowers exactly that position.
pub proof fn lemma_clear16_bit(b: u16, i: int)
    requires
        0 <= i < 16,
    ensures
        forall|j: int| #[trigger] bit16(clear16(b, i), j) == (bit16(b, j) && j != i),
{
    lemma_word16_clear(b, i as u16);
    assert forall|j: int| #[trigger] bit16(clear16(b, i), j) == (bit16(b, j) && j != i) by {
        if 0 <= j < 16 {
            assert(word_bit16(b & !(1u16 << (i as u16)), j as u16) == (word_bit16(b, j as u16) && j
                as u16 != i as u16));
        }
    }
}

/// Setting bit `i` raises exactly that position.
pub proof fn lemma_set32_bit(b: u32, i: int)
    requires
        0 <= i < 32,
    ensures
        forall|j: int| #[trigger] bit32(set32(b, i), j) == (bit32(b, j) || j == i),
{
    lemma_word32_set(b, i as u32);
    assert forall|j: int| #[trigger] bit32(set32(b, i), j) == (bit32(b, j) || j == i) by {
        if 0 <= j < 32 {
            assert(word_bit32(b | (1u32 << (i as u32)), j as u32) == (word_bit32(b, j as u32) || j
                as u32 == i as u32));
        }
    }
}

/// Clearing bit `i` lowers exactly that position.
pub proof fn lemma_clear32_bit(b: u32, i: int)
    requires
        0 <= i < 32,
    ensures
        forall|j: int| #[trigger] bit32(clear32(b, i), j) == (bit32(b, j) && j != i),
{
    lemma_word32_clear(b, i as u32);
    assert forall|j: int| #[trigger] bit32(clear32(b, i), j) == (bit32(b, j) && j != i) by {
        if 0 <= j < 32 {
            assert(word_bit32(b & !(1u32 << (i as u32)), j as u32) == (word_bit32(b, j as u32) && j
                as u32 != i as u32));
        }
    }
}

/// Setting bit `i` raises exactly that position.
pub proof fn lemma_set64_bit(b: u64, i: int)
    requires
        0 <= i < 64,
    ensures
        forall|j: int| #[trigger] bit64(set64(b, i), j) == (bit64(b, j) || j == i),
{
    lemma_word64_set(b, i as u64);
    assert forall|j: int| #[trigger] bit64(set64(b, i), j) == (bit64(b, j) || j == i) by {
        if 0 <= j < 64 {
            assert(word_bit64(b | (1u64 << (i as u64)), j as u64) == (word_bit64(b, j as u64) || j
                as u64 == i as u64));
        }
    }
}

/// Clearing bit `i` lowers exactly that position.
pub proof fn lemma_clear64_bit(b: u64, i: int)
    requires
        0 <= i < 64,
    ensures
        forall|j: int| #[trigger] bit64(clear64(b, i), j) == (bit64(b, j) && j != i),
{
    lemma_word64_clear(b, i as u64);
    assert forall|j: int| #[trigger] bit64(clear64(b, i), j) == (bit64(b, j) && j != i) by {
        if 0 <= j < 64 {
            assert(word_bit64(b & !(1u64 << (i as u64)), j as u64) == (word_bit64(b, j as u64) && j
                as u64 != i as u64));
        }
    }
}

impl Bitset<u16> {
    /// Bit `i` of this bitset.
    pub open spec fn occupied(&self, i: int) -> bool {
        bit16(self.0, i)
    }

    pub fn set(&mut self, idx: usize)
        requires
            idx < 16,
        ensures
            final(self).0 == set16(old(self).0, idx as int),
            forall|j: int|
                #[trigger] final(self).occupied(j) == (old(self).occupied(j) || j == idx as int),
    {
        proof {
            lemma_word16_set(self.0, idx as u16);
        }
        self.0 = self.0 | (1u16 << (idx as u16));
        proof {
            assert((idx as int) as u16 == idx as u16);
            assert(self.0 == set16(old(self).0, idx as int));
            assert forall|j: int|
                #[trigger] self.occupied(j) == (old(self).occupied(j) || j == idx as int) by {
                if 0 <= j < 16 {
                    assert(word_bit16(self.0, j as u16) == (word_bit16(old(self).0, j as u16)
                        || j as u16 == idx as u16));
                }
            }
        }
    }

    pub fn clear(&mut self, idx: usize)
        requires
            idx < 16,
        ensures
            final(self).0 == clear16(old(self).0, idx as int),
            forall|j: int|
                #[trigger] final(self).occupied(j) == (old(self).occupied(j) && j != idx as int),
    {
        proof {
            lemma_word16_clear(self.0, idx as u16);
        }
        self.0 = self.0 & !(1u16 << (idx as u16));
        proof {
            assert((idx as int) as u16 == idx as u16);
            assert(self.0 == clear16(old(self).0, idx as int));
            assert forall|j: int|
                #[trigger] self.occupied(j) == (old(self).occupied(j) && j != idx as int) by {
                if 0 <= j < 16 {
                    assert(word_bit16(self.0, j as u16) == (word_bit16(old(self).0, j as u16)
                        && j as u16 != idx as u16));
                }
            }
        }
    }

    pub fn is_set(&self, idx: usize) -> (r: bool)
        requires
            idx < 16,
        ensures
            r == self.occupied(idx as int),
    {
        (self.0 >> (idx as u16)) & 1u16 == 1u16
    }
}

impl Bitset<u32> {
    /// Bit `i` of this bitset.
    pub open spec fn occupied(&self, i: int) -> bool {
        bit32(self.0, i)
    }

    pub fn set(&mut self, idx: usize)
        requires
            idx < 32,
        ensures
            final(self).0 == set32(old(self).0, idx as int),
            forall|j: int|
                #[trigger] final(self).occupied(j) == (old(self).occupied(j) || j == idx as int),
    {
        proof {
            lemma_word32_set(self.0, idx as u32);
        }
        self.0 = self.0 | (1u32 << (idx as u32));
        proof {
            assert((idx as int) as u32 == idx as u32);
            assert(self.0 == set32(old(self).0, idx as int));
            assert forall|j: int|
                #[trigger] self.occupied(j) == (old(self).occupied(j) || j == idx as int) by {
                if 0 <= j < 32 {
                    assert(word_bit32(self.0, j as u32) == (word_bit32(old(self).0, j as u32)
                        || j as u32 == idx as u32));
                }
            }
        }
    }

    pub fn clear(&mut self, idx: usize)
        requires
            idx < 32,
        ensures
            final(self).0 == clear32(old(self).0, idx as int),
            forall|j: int|
                #[trigger] final(self).occupied(j) == (old(self).occupied(j) && j != idx as int),
    {
        proof {
            lemma_word32_clear(self.0, idx as u32);
        }
        self.0 = self.0 & !(1u32 << (idx as u32));
        proof {
            assert((idx as int) as u32 == idx as u32);
            assert(self.0 == clear32(old(self).0, idx as int));
            assert forall|j: int|
                #[trigger] self.occupied(j) == (old(self).occupied(j) && j != idx as int) by {
                if 0 <= j < 32 {
                    assert(word_bit32(self.0, j as u32) == (word_bit32(old(self).0, j as u32)
                        && j as u32 != idx as u32));
                }
            }
        }
    }

    pub fn is_set(&self, idx: usize) -> (r: bool)
        requires
            idx < 32,
        ensures
            r == self.occupied(idx as int),
    {
        (self.0 >> (idx as u32)) & 1u32 == 1u32
    }
}

impl Bitset<u64> {
    /// Bit `i` of this bitset.
    pub open spec fn occupied(&self, i: int) -> bool {
        bit64(self.0, i)
    }

    pub fn set(&mut self, idx: usize)
        requires
            idx < 64,
        ensures
            final(self).0 == set64(old(self).0, idx as int),
            forall|j: int|
                #[trigger] final(self).occupied(j) == (old(self).occupied(j) || j == idx as int),
    {
        proof {
            lemma_word64_set(self.0, idx as u64);
        }
        self.0 = self.0 | (1u64 << (idx as u64));
        proof {
            assert((idx as int) as u64 == idx as u64);
            assert(self.0 == set64(old(self).0, idx as int));
            assert forall|j: int|
                #[trigger] self.occupied(j) == (old(self).occupied(j) || j == idx as int) by {
                if 0 <= j < 64 {
                    assert(word_bit64(self.0, j as u64) == (word_bit64(old(self).0, j as u64)
                        || j as u64 == idx as u64));
                }
            }
        }
    }

    pub fn clear(&mut self, idx: usize)
        requires
            idx < 64,
        ensures
            final(self).0 == clear64(old(self).0, idx as int),
            forall|j: int|
                #[trigger] final(self).occupied(j) == (old(self).occupied(j) && j != idx as int),
    {
        proof {
            lemma_word64_clear(self.0, idx as u64);
        }
        self.0 = self.0 & !(1u64 << (idx as u64));
        proof {
            assert((idx as int) as u64 == idx as u64);
            assert(self.0 == clear64(old(self).0, idx as int));
            assert forall|j: int|
                #[trigger] self.occupied(j) == (old(self).occupied(j) && j != idx as int) by {
                if 0 <= j < 64 {
                    assert(word_bit64(self.0, j as u64) == (word_bit64(old(self).0, j as u64)
                        && j as u64 != idx as u64));
                }
            }
        }
    }

    pub fn is_set(&self, idx: usize) -> (r: bool)
        requires
            idx < 64,
        ensures
            r == self.occupied(idx as int),
    {
        (self.0 >> (idx as u64)) & 1u64 == 1u64
    }
}

} // verus!

//! A bitmap that threads may share: each word is an atomic cell, and every
//! access names the memory ordering it uses.
//!
//! `set` reads the word and then writes it back as two atomic steps, so two
//! writers of one word at the same time may lose an update. It is sound for
//! any number of readers, for writers that touch disjoint words, or for one
//! writer beside any number of readers.
use vstd::prelude::*;

use std::sync::atomic::{AtomicU64, Ordering};

use crate::handle::Handle;
use crate::words::{bit_in_word, mask_covered, word_bit, word_with_bit, words_for, WORD_BITS};

verus! {

/// The ordering policy of one access.
#[derive(Clone, Copy, Debug, PartialEq, Eq)]
pub enum Mode {
    /// Loads and stores are relaxed: atomic, with no ordering between threads.
    Relaxed,
    /// Loads acquire and stores release.
    Strict,
}

/// The ordering that a load under `mode` uses.
pub open spec fn load_ordering(mode: Mode) -> Ordering {
    match mode {
        Mode::Relaxed => Ordering::Relaxed,
        Mode::Strict => Ordering::Acquire,
    }
}

/// The ordering that a store under `mode` uses.
pub open spec fn store_ordering(mode: Mode) -> Ordering {
    match mode {
        Mode::Relaxed => Ordering::Relaxed,
        Mode::Strict => Ordering::Release,
    }
}

fn load_order(mode: Mode) -> (r: Ordering)
    ensures
        r == load_ordering(mode),
{
    match mode {
        Mode::Relaxed => Ordering::Relaxed,
        Mode::Strict => Ordering::Acquire,
    }
}

fn store_order(mode: Mode) -> (r: Ordering)
    ensures
        r == store_ordering(mode),
{
    match mode {
        Mode::Relaxed => Ordering::Relaxed,
        Mode::Strict => Ordering::Release,
    }
}

/// A fixed-capacity set of bits in atomic 64-bit words.
pub struct AtomicBitmap {
    data: Vec<AtomicU64>,
    bit_capacity: usize,
}

impl AtomicBitmap {
    /// One word per started group of 64 bits.
    pub closed spec fn wf(&self) -> bool {
        &&& self.data.len() == words_for(self.bit_capacity as nat)
        &&& self.data.len() * 64 <= usize::MAX
    }

    /// Number of addressable bits.
    pub closed spec fn spec_bit_capacity(&self) -> nat {
        self.bit_capacity as nat
    }

    /// Number of storage words.
    pub closed spec fn spec_capacity(&self) -> nat {
        self.data.len() as nat
    }

    /// A bitmap of `bit_count` bits, all clear, in `ceil(bit_count / 64)` words.
    pub fn new(bit_count: usize) -> (r: AtomicBitmap)
        requires
            bit_count + 63 <= usize::MAX,
        ensures
            r.wf(),
            r.spec_bit_capacity() == bit_count,
            r.spec_capacity() == words_for(bit_count as nat),
    {
        let words: usize = bit_count / WORD_BITS + if bit_count % WORD_BITS == 0 {
            0
        } else {
            1
        };
        let mut data: Vec<AtomicU64> = Vec::with_capacity(words);
        while data.len() < words
            invariant
                data.len() <= words,
            decreases words - data.len(),
        {
            data.push(AtomicU64::new(0));
        }
        AtomicBitmap { data, bit_capacity: bit_count }
    }

    /// Number of addressable bits.
    pub fn bit_capacity(&self) -> (r: usize)
        ensures
            r == self.spec_bit_capacity(),
    {
        self.bit_capacity
    }

    /// Number of storage words: `ceil(bit_capacity / 64)`.
    pub fn capacity(&self) -> (r: usize)
        requires
            self.wf(),
        ensures
            r == self.spec_capacity(),
            r == words_for(self.spec_bit_capacity()),
    {
        self.data.len()
    }

    /// Loads word `w` with the ordering of `mode`.
    fn load_word(&self, w: usize, mode: Mode) -> u64
        requires
            w < self.data.len(),
    {
        self.data[w].load(load_order(mode))
    }

    /// The bit at `bit_index`, or `None` past the bit capacity.
    pub fn get(&self, bit_index: usize, mode: Mode) -> (r: Option<bool>)
        requires
            self.wf(),
        ensures
            r is Some <==> bit_index < self.spec_bit_capacity(),
    {
        if bit_index >= self.bit_capacity {
            return None;
        }
        Some(self.get_unchecked(bit_index, mode))
    }

    /// The bit at `bit_index`, which must be below the bit capacity: bit
    /// `bit_index % 64` of the word loaded from word `bit_index / 64`.
    pub fn get_unchecked(&self, bit_index: usize, mode: Mode) -> bool
        requires
            self.wf(),
            bit_index < self.spec_bit_capacity(),
    {
        let word = self.load_word(bit_index / WORD_BITS, mode);
        bit_in_word(word, (bit_index % WORD_BITS) as u64)
    }

    /// Sets the bit at `bit_index`, which must be below the bit capacity, to
    /// `value`: loads its word, and stores it back with that bit replaced.
    pub fn set(&self, bit_index: usize, value: bool, mode: Mode)
        requires
            self.wf(),
            bit_index < self.spec_bit_capacity(),
    {
        self.set_unchecked(bit_index, value, mode)
    }

    /// Same as `set`: the caller guarantees that `bit_index` is below the bit
    /// capacity.
    pub fn set_unchecked(&self, bit_index: usize, value: bool, mode: Mode)
        requires
            self.wf(),
            bit_index < self.spec_bit_capacity(),
    {
        let w = bit_index / WORD_BITS;
        let word = self.load_word(w, mode);
        let next = word_with_bit(word, (bit_index % WORD_BITS) as u64, value);
        self.data[w].store(next, store_order(mode));
    }

    /// Indices in `[0, bit_capacity)`, ascending, whose bit was read as `v`.
    fn indices_of(&self, v: bool, mode: Mode) -> (r: Vec<usize>)
        requires
            self.wf(),
        ensures
            forall|a: int, b: int| 0 <= a < b < r.len() ==> r@[a] < r@[b],
            forall|a: int| 0 <= a < r.len() ==> r@[a] < self.spec_bit_capacity(),
    {
        let mut indices: Vec<usize> = Vec::new();
        let mut i: usize = 0;
        while i < self.bit_capacity
            invariant
                self.wf(),
                i <= self.spec_bit_capacity(),
                forall|a: int, b: int| 0 <= a < b < indices.len() ==> indices@[a] < indices@[b],
                forall|a: int| 0 <= a < indices.len() ==> indices@[a] < i,
            decreases self.spec_bit_capacity() - i,
        {
            if self.get_unchecked(i, mode) == v {
                indices.push(i);
            }
            i = i + 1;
        }
        indices
    }

    /// Indices, ascending, of the bits read as set.
    pub fn to_indices_true(&self, mode: Mode) -> (r: Vec<usize>)
        requires
            self.wf(),
        ensures
            forall|a: int, b: int| 0 <= a < b < r.len() ==> r@[a] < r@[b],
            forall|a: int| 0 <= a < r.len() ==> r@[a] < self.spec_bit_capacity(),
    {
        self.indices_of(true, mode)
    }

    /// Indices, ascending, of the bits read as clear.
    pub fn to_indices_false(&self, mode: Mode) -> (r: Vec<usize>)
        requires
            self.wf(),
        ensures
            forall|a: int, b: int| 0 <= a < b < r.len() ==> r@[a] < r@[b],
            forall|a: int| 0 <= a < r.len() ==> r@[a] < self.spec_bit_capacity(),
    {
        self.indices_of(false, mode)
    }

    /// Whether every handle names a word of this bitmap whose loaded value
    /// has every bit of the handle's mask set. Stops at the first handle
    /// that fails; a handle past the last word fails. A batch whose handles
    /// all name words of this bitmap and ask for no bit holds whatever the
    /// loads return, the empty batch among them.
    pub fn check_batch(&self, handles: &[Handle], mode: Mode) -> (r: bool)
        requires
            self.wf(),
        ensures
            r ==> forall|j: int| 0 <= j < handles@.len() ==> #[trigger] handles@[j].chunk < self.spec_capacity(),
            (forall|j: int|
                0 <= j < handles@.len() ==> #[trigger] handles@[j].chunk < self.spec_capacity()
                    && handles@[j].bit_mask == 0) ==> r,
    {
        let mut j: usize = 0;
        while j < handles.len()
            invariant
                self.wf(),
                j <= handles@.len(),
                forall|a: int| 0 <= a < j ==> #[trigger] handles@[a].chunk < self.spec_capacity(),
            decreases handles@.len() - j,
        {
            let h = handles[j];
            if h.chunk >= self.data.len() {
                return false;
            }
            let word = self.load_word(h.chunk, mode);
            if !mask_covered(word, h.bit_mask) {
                proof {
                    assert(h.bit_mask != 0) by {
                        if h.bit_mask == 0 {
                            assert forall|k: u64| k < 64 implies !#[trigger] word_bit(h.bit_mask, k) by {
                                assert((0u64 >> k) & 1u64 == 0u64) by (bit_vector);
                            }
                        }
                    }
                }
                return false;
            }
            j = j + 1;
        }
        true
    }
}

/// Under either mode, a word stored by `set` reads back, at the bit that was
/// set, the value written, and keeps every other bit: the mode changes only
/// the ordering of the load and the store, never the word computed.
pub proof fn lemma_write_read_back(word: u64, offset: u64, value: bool, next: u64)
    requires
        offset < 64,
        forall|k: u64|
            k < 64 ==> #[trigger] word_bit(next, k) == if k == offset {
                value
            } else {
                word_bit(word, k)
            },
    ensures
        word_bit(next, offset) == value,
        forall|k: u64| k < 64 && k != offset ==> #[trigger] word_bit(next, k) == word_bit(word, k),
{
}

} // verus!

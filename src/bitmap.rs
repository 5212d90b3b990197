//! A single-owner bitmap of fixed bit capacity over a buffer of 64-bit words.
use vstd::prelude::*;

use crate::handle::{encodes_batch, has_chunk, Handle};
use crate::words::{
    bit_in_word, buffer_bit, count_in_word, count_value, fill_below, keep_from, lemma_count_bound,
    lemma_count_shift, lemma_count_split, lemma_index_parts, mask_covered, word_bit, word_bits,
    word_with_bit, words_for, WORD_BITS,
};

verus! {

/// A fixed-capacity set of bits, packed into 64-bit words.
pub struct Bitmap {
    data: Vec<u64>,
    bit_capacity: usize,
}

impl View for Bitmap {
    type V = Seq<bool>;

    /// The addressable bits, bit `i` at position `i`.
    closed spec fn view(&self) -> Seq<bool> {
        Seq::new(self.bit_capacity as nat, |i: int| buffer_bit(self.data@, i))
    }
}

/// `r` answers a scan of `s` over `[from, to)` for the value `v`: `Some(i)`
/// for the smallest such position holding `v`, `None` when none does.
pub open spec fn is_first(s: Seq<bool>, from: int, to: int, v: bool, r: Option<usize>) -> bool {
    match r {
        Some(i) => {
            &&& from <= i < to
            &&& s[i as int] == v
            &&& forall|j: int| from <= j < i ==> s[j] != v
        },
        None => forall|j: int| from <= j < to ==> s[j] != v,
    }
}

/// The positions of `s` that hold `v`, ascending.
pub open spec fn indices_where(s: Seq<bool>, v: bool) -> Seq<usize>
    decreases s.len(),
{
    if s.len() == 0 {
        Seq::empty()
    } else {
        let before = indices_where(s.drop_last(), v);
        if s.last() == v {
            before.push((s.len() - 1) as usize)
        } else {
            before
        }
    }
}

/// `r` lists, in strictly ascending order, exactly the positions of `s`
/// that hold `v`.
pub open spec fn lists_indices(r: Seq<usize>, s: Seq<bool>, v: bool) -> bool {
    &&& forall|a: int, b: int| 0 <= a < b < r.len() ==> r[a] < r[b]
    &&& forall|a: int| 0 <= a < r.len() ==> r[a] < s.len() && s[r[a] as int] == v
    &&& forall|i: int| 0 <= i < s.len() && s[i] == v ==> r.contains(i as usize)
}

/// The handle names one of `capacity` words, and every bit of its mask is
/// an addressable bit of `bits` that is set.
pub open spec fn handle_holds(bits: Seq<bool>, capacity: nat, h: Handle) -> bool {
    &&& h.chunk < capacity
    &&& forall|k: u64|
        k < 64 && #[trigger] word_bit(h.bit_mask, k) ==> h.chunk * 64 + k < bits.len() && bits[h.chunk
            * 64 + k]
}

/// Every handle of `hs` holds of `bits`.
pub open spec fn batch_holds(bits: Seq<bool>, capacity: nat, hs: Seq<Handle>) -> bool {
    forall|j: int| 0 <= j < hs.len() ==> handle_holds(bits, capacity, #[trigger] hs[j])
}

/// Setting bit `i` to `v` makes it read back as `v`, and every other bit
/// reads as before.
pub proof fn lemma_set_then_get(bits: Seq<bool>, i: int, v: bool)
    requires
        0 <= i < bits.len(),
    ensures
        bits.update(i, v)[i] == v,
        bits.update(i, v).len() == bits.len(),
        forall|j: int| 0 <= j < bits.len() && j != i ==> bits.update(i, v)[j] == bits[j],
{
}

/// The set indices and the clear indices of a bitmap are both strictly
/// ascending, lie within `[0, bits.len())`, and between them hold every
/// index of that range exactly once.
pub proof fn lemma_indices_partition(bits: Seq<bool>, ones: Seq<usize>, zeros: Seq<usize>)
    requires
        lists_indices(ones, bits, true),
        lists_indices(zeros, bits, false),
    ensures
        forall|a: int, b: int| 0 <= a < b < ones.len() ==> ones[a] < ones[b],
        forall|a: int, b: int| 0 <= a < b < zeros.len() ==> zeros[a] < zeros[b],
        forall|a: int| 0 <= a < ones.len() ==> ones[a] < bits.len(),
        forall|a: int| 0 <= a < zeros.len() ==> zeros[a] < bits.len(),
        forall|i: usize| i < bits.len() ==> ones.contains(i) != zeros.contains(i),
{
    assert forall|i: usize| i < bits.len() implies ones.contains(i) != zeros.contains(i) by {
        if ones.contains(i) {
            let a = choose|a: int| 0 <= a < ones.len() && ones[a] == i;
            assert(bits[i as int]);
            if zeros.contains(i) {
                let b = choose|b: int| 0 <= b < zeros.len() && zeros[b] == i;
                assert(!bits[i as int]);
            }
        } else {
            assert(!bits[i as int]);
        }
    }
}

/// The set indices and the clear indices of a bitmap number, together,
/// exactly its bits.
pub proof fn lemma_indices_count(bits: Seq<bool>)
    ensures
        indices_where(bits, true).len() + indices_where(bits, false).len() == bits.len(),
    decreases bits.len(),
{
    if bits.len() > 0 {
        lemma_indices_count(bits.drop_last());
    }
}

/// A batch packed from `offsets` holds of a bitmap exactly when every one
/// of the offsets is an addressable bit that is set.
pub proof fn lemma_batch_membership(
    bits: Seq<bool>,
    capacity: nat,
    offsets: Seq<usize>,
    hs: Seq<Handle>,
)
    requires
        encodes_batch(offsets, hs),
        capacity == words_for(bits.len()),
    ensures
        batch_holds(bits, capacity, hs) <==> forall|i: int|
            0 <= i < offsets.len() ==> offsets[i] < bits.len() && bits[offsets[i] as int],
{
    if batch_holds(bits, capacity, hs) {
        assert forall|i: int| 0 <= i < offsets.len() implies offsets[i] < bits.len()
            && bits[offsets[i] as int] by {
            let o = offsets[i];
            assert(has_chunk(hs, (o / 64) as int));
            let j = choose|j: int| 0 <= j < hs.len() && #[trigger] hs[j].chunk == (o / 64) as int;
            let k = (o % 64) as u64;
            assert(offsets[i] == hs[j].chunk * 64 + k);
            assert(word_bit(hs[j].bit_mask, k));
            assert(handle_holds(bits, capacity, hs[j]));
        }
    }
    if forall|i: int| 0 <= i < offsets.len() ==> offsets[i] < bits.len() && bits[offsets[i] as int] {
        assert forall|j: int| 0 <= j < hs.len() implies handle_holds(bits, capacity, #[trigger] hs[j]) by {
            let h = hs[j];
            assert forall|k: u64| k < 64 && #[trigger] word_bit(h.bit_mask, k) implies h.chunk * 64 + k
                < bits.len() && bits[h.chunk * 64 + k] by {
                let p = choose|p: int| 0 <= p < offsets.len() && #[trigger] offsets[p] == h.chunk * 64 + k;
                assert(offsets[p] < bits.len());
            }
            crate::words::lemma_nonzero_has_bit(h.bit_mask);
            let k = choose|k: u64| k < 64 && #[trigger] word_bit(h.bit_mask, k);
            assert(h.chunk * 64 + k < bits.len());
            assert(h.chunk < capacity);
        }
    }
}

/// Where bit `i` is stored: word `i / 64`, which a buffer of `words_for(n)`
/// words holds whenever `i < n`.
proof fn lemma_word_of(i: int, n: int)
    requires
        0 <= i < n,
    ensures
        i / 64 < words_for(n as nat),
        0 <= i % 64 < 64,
{
}

impl Bitmap {
    /// The buffer has one word per started group of 64 bits, and the bits
    /// past `bit_capacity` in the last word stay clear.
    pub closed spec fn wf(&self) -> bool {
        &&& self.data.len() == words_for(self.bit_capacity as nat)
        &&& self.data.len() * 64 <= usize::MAX
        &&& forall|i: int|
            self.bit_capacity <= i < self.data.len() * 64 ==> !#[trigger] buffer_bit(
                self.data@,
                i,
            )
    }

    /// Number of storage words.
    pub closed spec fn spec_capacity(&self) -> nat {
        self.data.len() as nat
    }

    /// A bitmap of `bit_count` bits, all clear, in `ceil(bit_count / 64)` words.
    pub fn new(bit_count: usize) -> (r: Bitmap)
        requires
            bit_count + 63 <= usize::MAX,
        ensures
            r.wf(),
            r@ == Seq::new(bit_count as nat, |i: int| false),
            r.spec_capacity() == words_for(bit_count as nat),
    {
        let words: usize = bit_count / WORD_BITS + if bit_count % WORD_BITS == 0 {
            0
        } else {
            1
        };
        let mut data: Vec<u64> = Vec::with_capacity(words);
        while data.len() < words
            invariant
                data.len() <= words,
                forall|j: int| 0 <= j < data.len() ==> data@[j] == 0u64,
            decreases words - data.len(),
        {
            data.push(0u64);
        }
        let r = Bitmap { data, bit_capacity: bit_count };
        proof {
            assert forall|i: int| 0 <= i < words * 64 implies !#[trigger] buffer_bit(
                r.data@,
                i,
            ) by {
                let k = (i % 64) as u64;
                assert((0u64 >> k) & 1u64 == 0u64) by (bit_vector);
            }
            assert(r@ =~= Seq::new(bit_count as nat, |i: int| false));
        }
        r
    }

    /// Number of addressable bits.
    pub fn bit_capacity(&self) -> (r: usize)
        ensures
            r == self@.len(),
    {
        self.bit_capacity
    }

    /// Number of storage words: `ceil(bit_capacity / 64)`.
    pub fn capacity(&self) -> (r: usize)
        requires
            self.wf(),
        ensures
            r == self.spec_capacity(),
            r == words_for(self@.len()),
    {
        self.data.len()
    }

    /// The bit at `bit_index`, or `None` past the bit capacity.
    pub fn get(&self, bit_index: usize) -> (r: Option<bool>)
        requires
            self.wf(),
        ensures
            r == if bit_index < self@.len() {
                Some(self@[bit_index as int])
            } else {
                None::<bool>
            },
    {
        if bit_index >= self.bit_capacity {
            return None;
        }
        Some(self.get_unchecked(bit_index))
    }

    /// The bit at `bit_index`, which must be below the bit capacity.
    pub fn get_unchecked(&self, bit_index: usize) -> (r: bool)
        requires
            self.wf(),
            bit_index < self@.len(),
        ensures
            r == self@[bit_index as int],
    {
        proof {
            lemma_word_of(bit_index as int, self.bit_capacity as int);
        }
        bit_in_word(self.data[bit_index / WORD_BITS], (bit_index % WORD_BITS) as u64)
    }

    /// Sets the bit at `bit_index`, which must be below the bit capacity, to
    /// `value`; every other bit is kept.
    pub fn set(&mut self, bit_index: usize, value: bool)
        requires
            old(self).wf(),
            bit_index < old(self)@.len(),
        ensures
            final(self).wf(),
            final(self)@ == old(self)@.update(bit_index as int, value),
            final(self).spec_capacity() == old(self).spec_capacity(),
    {
        self.set_unchecked(bit_index, value)
    }

    /// Same as `set`: the caller guarantees that `bit_index` is below the bit
    /// capacity.
    pub fn set_unchecked(&mut self, bit_index: usize, value: bool)
        requires
            old(self).wf(),
            bit_index < old(self)@.len(),
        ensures
            final(self).wf(),
            final(self)@ == old(self)@.update(bit_index as int, value),
            final(self).spec_capacity() == old(self).spec_capacity(),
    {
        proof {
            lemma_word_of(bit_index as int, self.bit_capacity as int);
        }
        let w = bit_index / WORD_BITS;
        let offset = (bit_index % WORD_BITS) as u64;
        let word = word_with_bit(self.data[w], offset, value);
        self.data.set(w, word);
        proof {
            let old_data = old(self).data@;
            assert forall|j: int| 0 <= j < self.data.len() * 64 implies #[trigger] buffer_bit(
                self.data@,
                j,
            ) == if j == bit_index {
                value
            } else {
                buffer_bit(old_data, j)
            } by {
                lemma_index_parts(j / 64, j % 64);
                lemma_index_parts(w as int, offset as int);
                if j / 64 == w as int {
                    assert(word_bit(word, (j % 64) as u64) == if (j % 64) as u64 == offset {
                        value
                    } else {
                        word_bit(old_data[w as int], (j % 64) as u64)
                    });
                }
            }
            assert(self@ =~= old(self)@.update(bit_index as int, value));
        }
    }

    /// Counting `v` over bits `[w * 64 + a, w * 64 + b)` of the bitmap is
    /// counting it over positions `[a, b)` of word `w`.
    proof fn lemma_word_count(&self, w: int, a: int, b: int, v: bool)
        requires
            self.wf(),
            0 <= w,
            0 <= a <= b <= 64,
            w * 64 + b <= self@.len(),
        ensures
            count_value(self@, w * 64 + a, w * 64 + b, v) == count_value(
                word_bits(self.data@[w]),
                a,
                b,
                v,
            ),
    {
        if a < b {
            lemma_word_of(w * 64 + a, self@.len() as int);
            lemma_index_parts(w, a);
        }
        assert forall|k: int| a <= k < b implies self@[w * 64 + k] == word_bits(
            self.data@[w],
        )[k] by {
            lemma_index_parts(w, k);
        }
        lemma_count_shift(self@, word_bits(self.data@[w]), w * 64, a, b, v);
    }

    /// Index of the first bit at or after `from` in the whole word buffer,
    /// padding included, that equals `v`; `capacity * 64` when there is none.
    fn scan_from(&self, from: usize, v: bool) -> (r: usize)
        requires
            self.wf(),
            from < self@.len(),
        ensures
            from <= r <= self.data.len() * 64,
            forall|i: int| from <= i < r ==> buffer_bit(self.data@, i) != v,
            r < self.data.len() * 64 ==> buffer_bit(self.data@, r as int) == v,
    {
        proof {
            lemma_word_of(from as int, self.bit_capacity as int);
            lemma_index_parts((from / 64) as int, (from % 64) as int);
            assert(from == (from / 64) * 64 + from % 64);
        }
        let last = self.data.len() - 1;
        let mut w = from / WORD_BITS;
        let offset = (from % WORD_BITS) as u64;
        let mut word = if v {
            keep_from(self.data[w], offset)
        } else {
            fill_below(self.data[w], offset)
        };
        let mut none = if v {
            word == 0
        } else {
            word == u64::MAX
        };
        proof {
            assert forall|k: u64| k < 64 implies #[trigger] word_bit(word, k) == if w * 64 + k
                < from {
                !v
            } else {
                buffer_bit(self.data@, w * 64 + k)
            } by {
                lemma_index_parts(w as int, k as int);
            }
        }
        while none && w < last
            invariant
                self.wf(),
                from < self@.len(),
                last == self.data.len() - 1,
                w <= last,
                from / 64 <= w,
                forall|k: u64|
                    k < 64 ==> #[trigger] word_bit(word, k) == if w * 64 + k < from {
                        !v
                    } else {
                        buffer_bit(self.data@, w * 64 + k)
                    },
                none == if v {
                    word == 0
                } else {
                    word == u64::MAX
                },
                forall|i: int| from <= i < w * 64 ==> buffer_bit(self.data@, i) != v,
            decreases last - w,
        {
            assert forall|i: int| from <= i < (w + 1) * 64 implies buffer_bit(self.data@, i) != v by {
                if i >= w * 64 {
                    let k = (i - w * 64) as u64;
                    lemma_index_parts(w as int, k as int);
                    assert(word == 0u64 ==> (word >> k) & 1u64 == 0u64) by (bit_vector);
                    assert(word == u64::MAX ==> (word >> k) & 1u64 == 1u64) by (bit_vector)
                        requires
                            k < 64,
                    ;
                    assert(word_bit(word, k) != v);
                }
            }
            assert((w + 1) * 64 > from) by (nonlinear_arith)
                requires
                    from / 64 <= w,
                    from == (from / 64) * 64 + from % 64,
                    from % 64 < 64,
            ;
            w = w + 1;
            word = self.data[w];
            none = if v {
                word == 0
            } else {
                word == u64::MAX
            };
            proof {
                assert forall|k: u64| k < 64 implies #[trigger] word_bit(word, k) == if w * 64 + k
                    < from {
                    !v
                } else {
                    buffer_bit(self.data@, w * 64 + k)
                } by {
                    lemma_index_parts(w as int, k as int);
                }
            }
        }
        let t = if v {
            word.trailing_zeros()
        } else {
            word.trailing_ones()
        };
        proof {
            vstd::std_specs::bits::axiom_u64_trailing_zeros(word);
            vstd::std_specs::bits::axiom_u64_trailing_ones(word);
            assert(t <= 64);
            assert forall|j: u64| j < t implies word_bit(word, j) != v by {}
            if t < 64 {
                assert(word_bit(word, t as u64) == v);
            } else {
                assert(!none ==> t < 64) by {
                    assert(word != 0u64 ==> word.trailing_zeros() < 64);
                    assert(word != u64::MAX ==> word.trailing_ones() < 64) by {
                        assert(!0xffff_ffff_ffff_ffffu64 == 0u64) by (bit_vector);
                    }
                }
            }
            assert forall|i: int| from <= i < w * 64 + t implies buffer_bit(self.data@, i) != v by {
                if i >= w * 64 {
                    let k = (i - w * 64) as u64;
                    lemma_index_parts(w as int, k as int);
                    assert(word_bit(word, k) != v);
                }
            }
            if t < 64 {
                lemma_index_parts(w as int, t as int);
                assert(w * 64 + t >= from) by {
                    if w * 64 + t < from {
                        assert(word_bit(word, t as u64) == !v);
                    }
                }
            }
        }
        w * WORD_BITS + t as usize
    }

    /// The first set bit at or after `from`, which must be below the bit
    /// capacity; a value at or past the bit capacity when there is none.
    pub fn first_one_unchecked(&self, from: usize) -> (r: usize)
        requires
            self.wf(),
            from < self@.len(),
        ensures
            from <= r <= self.spec_capacity() * 64,
            forall|i: int| from <= i < r && i < self@.len() ==> !self@[i],
            r < self@.len() ==> self@[r as int],
    {
        self.scan_from(from, true)
    }

    /// The first clear bit at or after `from`, which must be below the bit
    /// capacity; a value at or past the bit capacity when there is none.
    pub fn first_zero_unchecked(&self, from: usize) -> (r: usize)
        requires
            self.wf(),
            from < self@.len(),
        ensures
            from <= r <= self.spec_capacity() * 64,
            forall|i: int| from <= i < r && i < self@.len() ==> self@[i],
            r < self@.len() ==> !self@[r as int],
    {
        self.scan_from(from, false)
    }

    /// The smallest index `i >= from` whose bit is set, if any.
    pub fn first_one(&self, from: usize) -> (r: Option<usize>)
        requires
            self.wf(),
        ensures
            is_first(self@, from as int, self@.len() as int, true, r),
    {
        if from >= self.bit_capacity {
            return None;
        }
        self.first_one_bounds(from, self.bit_capacity)
    }

    /// The smallest index `i >= from` whose bit is clear, if any.
    pub fn first_zero(&self, from: usize) -> (r: Option<usize>)
        requires
            self.wf(),
        ensures
            is_first(self@, from as int, self@.len() as int, false, r),
    {
        if from >= self.bit_capacity {
            return None;
        }
        self.first_zero_bounds(from, self.bit_capacity)
    }

    /// The smallest index `i` with `from <= i < to` whose bit is set, if any.
    pub fn first_one_bounds(&self, from: usize, to: usize) -> (r: Option<usize>)
        requires
            self.wf(),
            from <= self@.len(),
            to <= self@.len(),
        ensures
            is_first(self@, from as int, to as int, true, r),
    {
        if from >= self.bit_capacity {
            return None;
        }
        let index = self.first_one_unchecked(from);
        if index >= to {
            None
        } else {
            Some(index)
        }
    }

    /// The smallest index `i` with `from <= i < to` whose bit is clear, if any.
    pub fn first_zero_bounds(&self, from: usize, to: usize) -> (r: Option<usize>)
        requires
            self.wf(),
            from <= self@.len(),
            to <= self@.len(),
        ensures
            is_first(self@, from as int, to as int, false, r),
    {
        if from >= self.bit_capacity {
            return None;
        }
        let index = self.first_zero_unchecked(from);
        if index >= to {
            None
        } else {
            Some(index)
        }
    }

    /// All indices whose bit equals `v`, ascending.
    fn indices_of(&self, v: bool) -> (r: Vec<usize>)
        requires
            self.wf(),
        ensures
            lists_indices(r@, self@, v),
            r@ == indices_where(self@, v),
    {
        let mut indices: Vec<usize> = Vec::new();
        let mut i: usize = 0;
        while i < self.bit_capacity
            invariant
                self.wf(),
                i <= self@.len(),
                forall|a: int, b: int| 0 <= a < b < indices.len() ==> indices@[a] < indices@[b],
                forall|a: int|
                    0 <= a < indices.len() ==> indices@[a] < i && self@[indices@[a] as int] == v,
                forall|j: int| 0 <= j < i && self@[j] == v ==> indices@.contains(j as usize),
                indices@ == indices_where(self@.take(i as int), v),
            decreases self@.len() - i,
        {
            assert(self@.take(i + 1).drop_last() =~= self@.take(i as int));
            if self.get_unchecked(i) == v {
                let ghost before = indices@;
                indices.push(i);
                proof {
                    assert(indices@[indices.len() - 1] == i);
                    assert forall|j: int| 0 <= j <= i && self@[j] == v implies indices@.contains(
                        j as usize,
                    ) by {
                        if j < i {
                            let a = choose|a: int| 0 <= a < before.len() && before[a] == j as usize;
                            assert(indices@[a] == j as usize);
                        }
                    }
                }
            }
            i = i + 1;
        }
        assert(self@.take(i as int) =~= self@);
        indices
    }

    /// All indices whose bit is set, ascending.
    pub fn to_indices_true(&self) -> (r: Vec<usize>)
        requires
            self.wf(),
        ensures
            lists_indices(r@, self@, true),
            r@ == indices_where(self@, true),
    {
        self.indices_of(true)
    }

    /// All indices whose bit is clear, ascending.
    pub fn to_indices_false(&self) -> (r: Vec<usize>)
        requires
            self.wf(),
        ensures
            lists_indices(r@, self@, false),
            r@ == indices_where(self@, false),
    {
        self.indices_of(false)
    }


    /// Number of bits equal to `v` in the inclusive range `[lower, upper]`.
    fn count_range(&self, lower: usize, upper: usize, v: bool) -> (r: usize)
        requires
            self.wf(),
            lower <= upper < self@.len(),
        ensures
            r == count_value(self@, lower as int, upper + 1, v),
    {
        let lw = lower / WORD_BITS;
        let lb = (lower % WORD_BITS) as u64;
        let uw = upper / WORD_BITS;
        let ub = (upper % WORD_BITS) as u64;
        proof {
            lemma_word_of(upper as int, self@.len() as int);
            assert(lower == lw * 64 + lb);
            assert(upper == uw * 64 + ub);
        }
        if lw == uw {
            proof {
                self.lemma_word_count(lw as int, lb as int, ub + 1, v);
            }
            return count_in_word(self.data[lw], lb, ub, v) as usize;
        }
        let mut counter: usize = count_in_word(self.data[lw], lb, 63, v) as usize;
        proof {
            self.lemma_word_count(lw as int, lb as int, 64, v);
        }
        let mut w = lw + 1;
        while w < uw
            invariant
                self.wf(),
                lower <= upper < self@.len(),
                lower == lw * 64 + lb,
                upper == uw * 64 + ub,
                lb < 64,
                ub < 64,
                lw < w <= uw,
                uw < self.data.len(),
                counter == count_value(self@, lower as int, w * 64, v),
            decreases uw - w,
        {
            proof {
                assert(lower < w * 64 && w * 64 + 64 <= uw * 64) by (nonlinear_arith)
                    requires
                        lw < w < uw,
                        lower == lw * 64 + lb,
                        lb < 64,
                ;
                self.lemma_word_count(w as int, 0, 64, v);
                lemma_count_split(self@, lower as int, w * 64, w * 64 + 64, v);
                lemma_count_bound(self@, lower as int, w * 64 + 64, v);
            }
            let full = if v {
                self.data[w].count_ones()
            } else {
                self.data[w].count_zeros()
            };
            counter = counter + full as usize;
            w = w + 1;
        }
        proof {
            assert(lower <= uw * 64) by (nonlinear_arith)
                requires
                    lw < uw,
                    lower == lw * 64 + lb,
                    lb < 64,
            ;
            self.lemma_word_count(uw as int, 0, ub + 1, v);
            lemma_count_split(self@, lower as int, uw * 64, upper + 1, v);
            lemma_count_bound(self@, lower as int, upper + 1, v);
        }
        counter + count_in_word(self.data[uw], 0, ub, v) as usize
    }

    /// Number of set bits in the inclusive range `[lower, upper]`, which the
    /// caller keeps within the bit capacity.
    pub fn count_ones_unchecked(&self, lower: usize, upper: usize) -> (r: usize)
        requires
            self.wf(),
            lower <= upper < self@.len(),
        ensures
            r == count_value(self@, lower as int, upper + 1, true),
    {
        self.count_range(lower, upper, true)
    }

    /// Number of clear bits in the inclusive range `[lower, upper]`, which the
    /// caller keeps within the bit capacity.
    pub fn count_zeros_unchecked(&self, lower: usize, upper: usize) -> (r: usize)
        requires
            self.wf(),
            lower <= upper < self@.len(),
        ensures
            r == count_value(self@, lower as int, upper + 1, false),
    {
        self.count_range(lower, upper, false)
    }

    /// Number of set bits in the half-open range `[lower, upper)`.
    pub fn count_ones(&self, lower: usize, upper: usize) -> (r: usize)
        requires
            self.wf(),
            lower <= upper <= self@.len(),
        ensures
            r == count_value(self@, lower as int, upper as int, true),
    {
        if lower == upper {
            return 0;
        }
        self.count_ones_unchecked(lower, upper - 1)
    }

    /// Number of clear bits in the half-open range `[lower, upper)`.
    pub fn count_zeros(&self, lower: usize, upper: usize) -> (r: usize)
        requires
            self.wf(),
            lower <= upper <= self@.len(),
        ensures
            r == count_value(self@, lower as int, upper as int, false),
    {
        if lower == upper {
            return 0;
        }
        self.count_zeros_unchecked(lower, upper - 1)
    }


    /// Word `c` of the buffer reads as bits `[c * 64, c * 64 + 64)` of the
    /// bitmap, with clear bits past the bit capacity.
    proof fn lemma_word_view(&self, c: int)
        requires
            self.wf(),
            0 <= c < self.data.len(),
        ensures
            forall|k: u64|
                k < 64 ==> #[trigger] word_bit(self.data@[c], k) == (c * 64 + k < self@.len()
                    && self@[c * 64 + k]),
    {
        assert forall|k: u64| k < 64 implies #[trigger] word_bit(self.data@[c], k) == (c * 64 + k
            < self@.len() && self@[c * 64 + k]) by {
            lemma_index_parts(c, k as int);
            assert(c * 64 + k < self.data.len() * 64) by (nonlinear_arith)
                requires
                    c < self.data.len(),
                    k < 64,
            ;
            assert(buffer_bit(self.data@, c * 64 + k) == word_bit(self.data@[c], k));
        }
    }

    /// Whether word `h.chunk` has every bit of `h.bit_mask` set.
    fn word_has_mask(&self, h: Handle) -> (r: bool)
        requires
            self.wf(),
            h.chunk < self.spec_capacity(),
        ensures
            r == handle_holds(self@, self.spec_capacity(), h),
    {
        let r = mask_covered(self.data[h.chunk], h.bit_mask);
        proof {
            self.lemma_word_view(h.chunk as int);
        }
        r
    }

    /// Whether every handle holds: its word is one of this bitmap's, and each
    /// bit of its mask is set. Stops at the first handle that fails.
    pub fn check_batch(&self, handles: &[Handle]) -> (r: bool)
        requires
            self.wf(),
        ensures
            r == batch_holds(self@, self.spec_capacity(), handles@),
    {
        let mut j: usize = 0;
        while j < handles.len()
            invariant
                self.wf(),
                j <= handles@.len(),
                forall|a: int|
                    0 <= a < j ==> handle_holds(self@, self.spec_capacity(), #[trigger] handles@[a]),
            decreases handles@.len() - j,
        {
            let h = handles[j];
            if h.chunk >= self.data.len() {
                return false;
            }
            if !self.word_has_mask(h) {
                return false;
            }
            j = j + 1;
        }
        true
    }


    /// Checking a batch packed from `offsets` against this bitmap succeeds
    /// exactly when every one of the offsets is an addressable bit that is
    /// set.
    pub proof fn lemma_batch_of_offsets(&self, offsets: Seq<usize>, hs: Seq<Handle>)
        requires
            self.wf(),
            encodes_batch(offsets, hs),
        ensures
            batch_holds(self@, self.spec_capacity(), hs) <==> forall|i: int|
                0 <= i < offsets.len() ==> offsets[i] < self@.len() && self@[offsets[i] as int],
    {
        lemma_batch_membership(self@, self.spec_capacity(), offsets, hs);
    }
}

} // verus!

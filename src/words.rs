//! The word layout shared by both bitmaps: bit `i` lives in word `i / 64` at
//! offset `i % 64`, bit 0 being the least significant bit of word 0.
use vstd::prelude::*;

verus! {

/// Number of bits held by one storage word.
pub const WORD_BITS: usize = 64;

/// Bit `k` of the word `w`, bit 0 being the least significant.
pub open spec fn word_bit(w: u64, k: u64) -> bool {
    (w >> k) & 1u64 == 1u64
}

/// The 64 bits of `w`, least significant first.
pub open spec fn word_bits(w: u64) -> Seq<bool> {
    Seq::new(64, |k: int| word_bit(w, k as u64))
}

/// Bit `i` of a buffer of words, counted across word boundaries.
pub open spec fn buffer_bit(words: Seq<u64>, i: int) -> bool {
    word_bit(words[i / 64], (i % 64) as u64)
}

/// Number of words needed to hold `n` bits: `ceil(n / 64)`.
pub open spec fn words_for(n: nat) -> nat {
    if n % 64 == 0 {
        n / 64
    } else {
        n / 64 + 1
    }
}

/// `words_for(n)` is `ceil(n / 64)`: the fewest words whose bits cover `n`.
pub proof fn lemma_words_for_is_ceiling(n: nat)
    ensures
        words_for(n) == (n + 63) / 64,
        n <= words_for(n) * 64,
        words_for(n) == 0 || (words_for(n) - 1) * 64 < n,
{
}

/// Number of positions `i` in `[lo, hi)` at which `s[i] == v`.
pub open spec fn count_value(s: Seq<bool>, lo: int, hi: int, v: bool) -> nat
    decreases hi - lo,
{
    if hi <= lo {
        0
    } else {
        count_value(s, lo, hi - 1, v) + if s[hi - 1] == v {
            1nat
        } else {
            0nat
        }
    }
}

/// Relies on `u64::count_ones`: the number of one bits of the word.
pub assume_specification[ u64::count_ones ](i: u64) -> (r: u32)
    ensures
        r == count_value(word_bits(i), 0, 64, true),
;

/// Relies on `u64::count_zeros`: the number of zero bits of the word.
pub assume_specification[ u64::count_zeros ](i: u64) -> (r: u32)
    ensures
        r == count_value(word_bits(i), 0, 64, false),
;

/// Reads bit `offset` of `word`.
pub fn bit_in_word(word: u64, offset: u64) -> (r: bool)
    requires
        offset < 64,
    ensures
        r == word_bit(word, offset),
{
    (word >> offset) & 1u64 == 1u64
}

/// Returns `word` with bit `offset` cleared and then set to `value`; every
/// other bit is kept.
pub fn word_with_bit(word: u64, offset: u64, value: bool) -> (r: u64)
    requires
        offset < 64,
    ensures
        forall|k: u64|
            k < 64 ==> #[trigger] word_bit(r, k) == if k == offset {
                value
            } else {
                word_bit(word, k)
            },
{
    let v: u64 = if value {
        1
    } else {
        0
    };
    let r = (word & !(1u64 << offset)) | (v << offset);
    assert forall|k: u64| k < 64 implies #[trigger] word_bit(r, k) == if k == offset {
        value
    } else {
        word_bit(word, k)
    } by {
        assert(k == offset ==> ((r >> k) & 1u64 == 1u64 <==> v == 1u64)) by (bit_vector)
            requires
                r == (word & !(1u64 << offset)) | (v << offset),
                offset < 64,
                v == 0u64 || v == 1u64,
        ;
        assert(k != offset ==> ((r >> k) & 1u64 == (word >> k) & 1u64)) by (bit_vector)
            requires
                r == (word & !(1u64 << offset)) | (v << offset),
                offset < 64,
                k < 64,
                v == 0u64 || v == 1u64,
        ;
    }
    r
}

/// The word whose bits below `offset` are set and whose other bits are clear.
fn low_bits(offset: u64) -> (r: u64)
    requires
        offset < 64,
    ensures
        r == ((1u64 << offset) - 1) as u64,
{
    let bit = 1u64 << offset;
    assert(bit >= 1) by (bit_vector)
        requires
            bit == 1u64 << offset,
            offset < 64,
    ;
    bit - 1
}

/// Clears the bits of `word` below `offset`.
pub fn keep_from(word: u64, offset: u64) -> (r: u64)
    requires
        offset < 64,
    ensures
        forall|k: u64| k < 64 ==> #[trigger] word_bit(r, k) == (offset <= k && word_bit(word, k)),
{
    let low = low_bits(offset);
    let r = word & !low;
    assert forall|k: u64| k < 64 implies #[trigger] word_bit(r, k) == (offset <= k && word_bit(
        word,
        k,
    )) by {
        assert(((r >> k) & 1u64 == 1u64) == (offset <= k && (word >> k) & 1u64 == 1u64))
            by (bit_vector)
            requires
                r == word & !low,
                low == ((1u64 << offset) - 1) as u64,
                offset < 64,
                k < 64,
        ;
    }
    r
}

/// Sets the bits of `word` below `offset`.
pub fn fill_below(word: u64, offset: u64) -> (r: u64)
    requires
        offset < 64,
    ensures
        forall|k: u64| k < 64 ==> #[trigger] word_bit(r, k) == (k < offset || word_bit(word, k)),
{
    let low = low_bits(offset);
    let r = word | low;
    assert forall|k: u64| k < 64 implies #[trigger] word_bit(r, k) == (k < offset || word_bit(
        word,
        k,
    )) by {
        assert(((r >> k) & 1u64 == 1u64) == (k < offset || (word >> k) & 1u64 == 1u64))
            by (bit_vector)
            requires
                r == word | low,
                low == ((1u64 << offset) - 1) as u64,
                offset < 64,
                k < 64,
        ;
    }
    r
}

/// Clears the bits of `word` above `offset`.
pub fn keep_through(word: u64, offset: u64) -> (r: u64)
    requires
        offset < 64,
    ensures
        forall|k: u64| k < 64 ==> #[trigger] word_bit(r, k) == (k <= offset && word_bit(word, k)),
{
    let low = low_bits(offset);
    let r = word & (low | (1u64 << offset));
    assert forall|k: u64| k < 64 implies #[trigger] word_bit(r, k) == (k <= offset && word_bit(
        word,
        k,
    )) by {
        assert(((r >> k) & 1u64 == 1u64) == (k <= offset && (word >> k) & 1u64 == 1u64))
            by (bit_vector)
            requires
                r == word & (low | (1u64 << offset)),
                low == ((1u64 << offset) - 1) as u64,
                offset < 64,
                k < 64,
        ;
    }
    r
}

/// Sets the bits of `word` above `offset`.
pub fn fill_above(word: u64, offset: u64) -> (r: u64)
    requires
        offset < 64,
    ensures
        forall|k: u64| k < 64 ==> #[trigger] word_bit(r, k) == (offset < k || word_bit(word, k)),
{
    let low = low_bits(offset);
    let r = word | !(low | (1u64 << offset));
    assert forall|k: u64| k < 64 implies #[trigger] word_bit(r, k) == (offset < k || word_bit(
        word,
        k,
    )) by {
        assert(((r >> k) & 1u64 == 1u64) == (offset < k || (word >> k) & 1u64 == 1u64))
            by (bit_vector)
            requires
                r == word | !(low | (1u64 << offset)),
                low == ((1u64 << offset) - 1) as u64,
                offset < 64,
                k < 64,
        ;
    }
    r
}

/// Counts the positions in `[lo, hi]` of `word` that hold `v`, by masking the
/// others to `!v` and counting the whole word.
pub fn count_in_word(word: u64, lo: u64, hi: u64, v: bool) -> (r: u32)
    requires
        lo <= hi < 64,
    ensures
        r == count_value(word_bits(word), lo as int, hi + 1, v),
{
    let r = if v {
        let m = keep_through(keep_from(word, lo), hi);
        proof {
            lemma_masked_count(word, m, lo as int, hi + 1, v);
        }
        m.count_ones()
    } else {
        let m = fill_above(fill_below(word, lo), hi);
        proof {
            lemma_masked_count(word, m, lo as int, hi + 1, v);
        }
        m.count_zeros()
    };
    r
}

/// When `m` agrees with `w` on `[lo, hi)` and holds `!v` everywhere else,
/// counting `v` over all of `m` counts it over `[lo, hi)` of `w`.
pub proof fn lemma_masked_count(w: u64, m: u64, lo: int, hi: int, v: bool)
    requires
        0 <= lo <= hi <= 64,
        forall|k: u64|
            k < 64 ==> #[trigger] word_bit(m, k) == if lo <= k < hi {
                word_bit(w, k)
            } else {
                !v
            },
    ensures
        count_value(word_bits(m), 0, 64, v) == count_value(word_bits(w), lo, hi, v),
{
    let sm = word_bits(m);
    let sw = word_bits(w);
    assert forall|i: int| 0 <= i < 64 implies sm[i] == if lo <= i < hi {
        sw[i]
    } else {
        !v
    } by {
        assert(word_bit(m, i as u64) == if lo <= i < hi {
            word_bit(w, i as u64)
        } else {
            !v
        });
    }
    lemma_count_split(sm, 0, lo, 64, v);
    lemma_count_split(sm, lo, hi, 64, v);
    lemma_count_none(sm, 0, lo, v);
    lemma_count_none(sm, hi, 64, v);
    lemma_count_agree(sm, sw, lo, hi, v);
}

/// Whether every bit set in `mask` is also set in `word`.
pub fn mask_covered(word: u64, mask: u64) -> (r: bool)
    ensures
        r == (forall|k: u64| k < 64 && #[trigger] word_bit(mask, k) ==> word_bit(word, k)),
{
    let r = word & mask == mask;
    proof {
        if r {
            assert forall|k: u64| k < 64 && #[trigger] word_bit(mask, k) implies word_bit(word, k) by {
                assert(word & mask == mask && (mask >> k) & 1u64 == 1u64 ==> (word >> k) & 1u64
                    == 1u64) by (bit_vector);
            }
        } else {
            let miss = mask & !word;
            assert(word & mask != mask ==> miss != 0) by (bit_vector)
                requires
                    miss == mask & !word,
            ;
            vstd::std_specs::bits::axiom_u64_trailing_zeros(miss);
            let t = vstd::std_specs::bits::u64_trailing_zeros(miss) as u64;
            assert((miss >> t) & 1u64 == 1u64 ==> (mask >> t) & 1u64 == 1u64 && (word >> t) & 1u64
                == 0u64) by (bit_vector)
                requires
                    miss == mask & !word,
            ;
            assert(word_bit(mask, t) && !word_bit(word, t));
        }
    }
    r
}

/// A word other than zero has a set bit.
pub proof fn lemma_nonzero_has_bit(w: u64)
    requires
        w != 0,
    ensures
        exists|k: u64| k < 64 && #[trigger] word_bit(w, k),
{
    vstd::std_specs::bits::axiom_u64_trailing_zeros(w);
    let t = vstd::std_specs::bits::u64_trailing_zeros(w) as u64;
    assert(word_bit(w, t));
}

/// Splitting a bit index into its word and its offset.
pub proof fn lemma_index_parts(w: int, k: int)
    requires
        0 <= w,
        0 <= k < 64,
    ensures
        (w * 64 + k) / 64 == w,
        (w * 64 + k) % 64 == k,
{
    vstd::arithmetic::div_mod::lemma_fundamental_div_mod_converse(w * 64 + k, 64, w, k);
}

/// Counting over two sequences that agree on the range gives the same number.
pub proof fn lemma_count_agree(s: Seq<bool>, t: Seq<bool>, lo: int, hi: int, v: bool)
    requires
        forall|i: int| lo <= i < hi ==> s[i] == t[i],
    ensures
        count_value(s, lo, hi, v) == count_value(t, lo, hi, v),
    decreases hi - lo,
{
    if hi > lo {
        lemma_count_agree(s, t, lo, hi - 1, v);
    }
}

/// Counting over a range of `s` equals counting over `t` where `t` is `s`
/// read from position `off` on.
pub proof fn lemma_count_shift(s: Seq<bool>, t: Seq<bool>, off: int, lo: int, hi: int, v: bool)
    requires
        forall|k: int| lo <= k < hi ==> s[off + k] == t[k],
    ensures
        count_value(s, off + lo, off + hi, v) == count_value(t, lo, hi, v),
    decreases hi - lo,
{
    if hi > lo {
        lemma_count_shift(s, t, off, lo, hi - 1, v);
        assert(off + hi - 1 == off + (hi - 1));
    }
}

/// A count over `[a, c)` is the count over `[a, b)` plus the count over `[b, c)`.
pub proof fn lemma_count_split(s: Seq<bool>, a: int, b: int, c: int, v: bool)
    requires
        a <= b <= c,
    ensures
        count_value(s, a, c, v) == count_value(s, a, b, v) + count_value(s, b, c, v),
    decreases c - b,
{
    if c > b {
        lemma_count_split(s, a, b, c - 1, v);
    }
}

/// A range holding no position equal to `v` counts zero.
pub proof fn lemma_count_none(s: Seq<bool>, lo: int, hi: int, v: bool)
    requires
        forall|i: int| lo <= i < hi ==> s[i] != v,
    ensures
        count_value(s, lo, hi, v) == 0,
    decreases hi - lo,
{
    if hi > lo {
        lemma_count_none(s, lo, hi - 1, v);
    }
}

/// A count never exceeds the length of its range.
pub proof fn lemma_count_bound(s: Seq<bool>, lo: int, hi: int, v: bool)
    requires
        lo <= hi,
    ensures
        count_value(s, lo, hi, v) <= hi - lo,
    decreases hi - lo,
{
    if hi > lo {
        lemma_count_bound(s, lo, hi - 1, v);
    }
}

/// Over any range, the positions holding `true` and those holding `false`
/// together number exactly the length of the range.
pub proof fn lemma_count_complement(s: Seq<bool>, lo: int, hi: int)
    requires
        lo <= hi,
    ensures
        count_value(s, lo, hi, true) + count_value(s, lo, hi, false) == hi - lo,
    decreases hi - lo,
{
    if hi > lo {
        lemma_count_complement(s, lo, hi - 1);
    }
}

} // verus!

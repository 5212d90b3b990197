//! Batches of bit offsets packed into one mask per storage word, so that a
//! fixed set of bits can be tested a word at a time.
use vstd::prelude::*;

use std::collections::HashMap;

use crate::array::Array;
use crate::words::{word_bit, word_with_bit, WORD_BITS};

verus! {

broadcast use vstd::std_specs::hash::group_hash_axioms;

/// The bits of one storage word that a batch asks for: word `chunk`, and a
/// mask with one bit per requested offset in that word.
#[derive(Clone, Copy, Debug, PartialEq, Eq)]
pub struct Handle {
    pub bit_mask: u64,
    pub chunk: usize,
}

/// `hs` packs `offsets`: one handle per distinct word that an offset falls
/// in, in the order in which the words are first met, each mask holding
/// exactly the offsets of its word.
pub open spec fn encodes_batch(offsets: Seq<usize>, hs: Seq<Handle>) -> bool {
    &&& forall|a: int, b: int| 0 <= a < b < hs.len() ==> hs[a].chunk != hs[b].chunk
    &&& forall|i: int|
        #![trigger offsets[i]]
        0 <= i < offsets.len() ==> has_chunk(hs, (offsets[i] / 64) as int)
    &&& forall|j: int, k: u64|
        0 <= j < hs.len() && k < 64 ==> (#[trigger] word_bit(hs[j].bit_mask, k) <==> exists|i: int|
            0 <= i < offsets.len() && #[trigger] offsets[i] == hs[j].chunk * 64 + k)
    &&& forall|j: int| 0 <= j < hs.len() ==> #[trigger] hs[j].bit_mask != 0
    &&& forall|a: int, b: int, i: int|
        #![trigger hs[a], hs[b], offsets[i]]
        0 <= a < b < hs.len() && 0 <= i < offsets.len() && offsets[i] / 64 == hs[b].chunk
            ==> met_before(offsets, i, hs[a].chunk as int)
}

/// Some handle of `hs` is for word `c`.
pub open spec fn has_chunk(hs: Seq<Handle>, c: int) -> bool {
    exists|j: int| 0 <= j < hs.len() && #[trigger] hs[j].chunk == c
}

/// Some offset before position `i` falls in word `c`.
pub open spec fn met_before(offsets: Seq<usize>, i: int, c: int) -> bool {
    exists|p: int| 0 <= p < i && #[trigger] offsets[p] / 64 == c
}

impl Handle {
    /// Packs `offsets` into one handle per distinct word, in the order in
    /// which the words are first met.
    pub fn new_batch(offsets: &[usize]) -> (r: Array<Handle>)
        ensures
            encodes_batch(offsets@, r@),
    {
        let mut handles: Vec<Handle> = Vec::new();
        let mut chunk_table: HashMap<usize, usize> = HashMap::new();
        let ghost mut firsts: Seq<int> = Seq::empty();
        let mut i: usize = 0;
        while i < offsets.len()
            invariant
                i <= offsets@.len(),
                firsts.len() == handles.len(),
                forall|a: int, b: int|
                    0 <= a < b < handles.len() ==> handles@[a].chunk != handles@[b].chunk,
                forall|a: int, b: int| 0 <= a < b < firsts.len() ==> firsts[a] < firsts[b],
                forall|j: int|
                    0 <= j < handles.len() ==> 0 <= #[trigger] firsts[j] < i && offsets@[firsts[j]]
                        / 64 == handles@[j].chunk,
                forall|j: int, p: int|
                    #![trigger handles@[j].chunk, offsets@[p]]
                    0 <= j < handles.len() && 0 <= p < firsts[j] ==> offsets@[p] / 64
                        != handles@[j].chunk,
                forall|j: int|
                    0 <= j < handles.len() ==> chunk_table@.contains_key(#[trigger] handles@[j].chunk)
                        && chunk_table@[handles@[j].chunk] == j,
                forall|c: usize|
                    #[trigger] chunk_table@.contains_key(c) ==> chunk_table@[c] < handles.len()
                        && handles@[chunk_table@[c] as int].chunk == c,
                forall|p: int|
                    0 <= p < i ==> chunk_table@.contains_key(#[trigger] offsets@[p] / 64),
                forall|j: int, k: u64|
                    0 <= j < handles.len() && k < 64 ==> (#[trigger] word_bit(
                        handles@[j].bit_mask,
                        k,
                    ) <==> exists|p: int|
                        0 <= p < i && #[trigger] offsets@[p] == handles@[j].chunk * 64 + k),
                forall|j: int| 0 <= j < handles.len() ==> #[trigger] handles@[j].bit_mask != 0,
            decreases offsets@.len() - i,
        {
            let offset = offsets[i];
            let chunk = offset / WORD_BITS;
            let bit = (offset % WORD_BITS) as u64;
            assert(offset == chunk * 64 + bit);
            let ghost before = handles@;
            match chunk_table.get(&chunk) {
                Some(index) => {
                    let index = *index;
                    let h = handles[index];
                    let mask = word_with_bit(h.bit_mask, bit, true);
                    handles.set(index, Handle { bit_mask: mask, chunk });
                    proof {
                        assert forall|j: int, k: u64|
                            0 <= j < handles.len() && k < 64 implies (#[trigger] word_bit(
                            handles@[j].bit_mask,
                            k,
                        ) <==> exists|p: int|
                            0 <= p < i + 1 && #[trigger] offsets@[p] == handles@[j].chunk * 64
                                + k) by {
                            if word_bit(handles@[j].bit_mask, k) && !word_bit(before[j].bit_mask, k) {
                                assert(offsets@[i as int] == handles@[j].chunk * 64 + k);
                            }
                            if exists|p: int|
                                0 <= p < i + 1 && #[trigger] offsets@[p] == handles@[j].chunk * 64
                                    + k {
                                let p = choose|p: int|
                                    0 <= p < i + 1 && #[trigger] offsets@[p] == handles@[j].chunk
                                        * 64 + k;
                                if p == i {
                                    vstd::arithmetic::div_mod::lemma_fundamental_div_mod_converse(
                                        offset as int,
                                        64,
                                        handles@[j].chunk as int,
                                        k as int,
                                    );
                                }
                            }
                        }
                        assert(word_bit(mask, bit));
                        assert(mask != 0) by {
                            if mask == 0 {
                                assert((0u64 >> bit) & 1u64 == 0u64) by (bit_vector);
                            }
                        }
                    }
                },
                None => {
                    let mask = word_with_bit(0u64, bit, true);
                    proof {
                        assert(word_bit(mask, bit));
                        assert forall|k: u64| k < 64 && k != bit implies !word_bit(0u64, k) by {
                            assert((0u64 >> k) & 1u64 == 0u64) by (bit_vector);
                        }
                        assert(mask != 0) by {
                            if mask == 0 {
                                assert((0u64 >> bit) & 1u64 == 0u64) by (bit_vector);
                            }
                        }
                    }
                    chunk_table.insert(chunk, handles.len());
                    handles.push(Handle { bit_mask: mask, chunk });
                    proof {
                        firsts = firsts.push(i as int);
                        let n = handles.len() - 1;
                        assert forall|j: int, k: u64|
                            0 <= j < handles.len() && k < 64 implies (#[trigger] word_bit(
                            handles@[j].bit_mask,
                            k,
                        ) <==> exists|p: int|
                            0 <= p < i + 1 && #[trigger] offsets@[p] == handles@[j].chunk * 64
                                + k) by {
                            if j == n {
                                if word_bit(mask, k) {
                                    assert(offsets@[i as int] == handles@[j].chunk * 64 + k);
                                }
                                if exists|p: int|
                                    0 <= p < i + 1 && #[trigger] offsets@[p] == handles@[j].chunk
                                        * 64 + k {
                                    let p = choose|p: int|
                                        0 <= p < i + 1 && #[trigger] offsets@[p]
                                            == handles@[j].chunk * 64 + k;
                                    vstd::arithmetic::div_mod::lemma_fundamental_div_mod_converse(
                                        offsets@[p] as int,
                                        64,
                                        chunk as int,
                                        k as int,
                                    );
                                    assert(chunk_table@.contains_key(offsets@[p] / 64) || p == i);
                                }
                            } else {
                                if exists|p: int|
                                    0 <= p < i + 1 && #[trigger] offsets@[p] == handles@[j].chunk
                                        * 64 + k {
                                    let p = choose|p: int|
                                        0 <= p < i + 1 && #[trigger] offsets@[p]
                                            == handles@[j].chunk * 64 + k;
                                    if p == i {
                                        vstd::arithmetic::div_mod::lemma_fundamental_div_mod_converse(
                                            offset as int,
                                            64,
                                            handles@[j].chunk as int,
                                            k as int,
                                        );
                                    }
                                }
                            }
                        }
                    }
                },
            }
            i = i + 1;
        }
        let r = Array::from_vec(handles);
        proof {
            assert forall|i: int|
                #![trigger offsets@[i]]
                0 <= i < offsets@.len() implies has_chunk(r@, (offsets@[i] / 64) as int) by {
                let c = offsets@[i] / 64;
                assert(chunk_table@.contains_key(c));
                let j = chunk_table@[c] as int;
                assert(r@[j].chunk == c);
            }
            assert forall|a: int, b: int, i: int|
                #![trigger r@[a], r@[b], offsets@[i]]
                0 <= a < b < r@.len() && 0 <= i < offsets@.len() && offsets@[i] / 64
                    == r@[b].chunk implies met_before(offsets@, i, r@[a].chunk as int) by {
                assert(i >= firsts[b]);
                assert(offsets@[firsts[a]] / 64 == r@[a].chunk);
            }
        }
        r
    }
}

} // verus!

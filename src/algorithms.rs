//! Duplicate detection over slices, reported through a bitmap.
use vstd::prelude::*;

use std::collections::{HashMap, HashSet};
use std::hash::Hash;

use crate::array::Array;
use crate::bitmap::{indices_where, Bitmap};
use vstd::std_specs::hash::obeys_key_model;

verus! {

broadcast use vstd::std_specs::hash::group_hash_axioms;

/// The state after `find_uniques` has read the first `i` values, starting
/// from the map `m0`: the map from each value met to the index it was first
/// recorded at, the flags, and the number of values recorded.
///
/// A value not yet in the map is recorded at its index and flags it; a value
/// already in the map clears the flag at the index it was recorded at.
pub open spec fn uniques_after<T>(values: Seq<T>, m0: Map<T, usize>, i: nat) -> (
    Map<T, usize>,
    Seq<bool>,
    nat,
)
    decreases i,
{
    if i == 0 || i > values.len() {
        (m0, Seq::new(values.len(), |j: int| false), 0)
    } else {
        let (m, flags, score) = uniques_after(values, m0, (i - 1) as nat);
        let v = values[i - 1];
        if m.contains_key(v) {
            (m, flags.update(m[v] as int, false), score)
        } else {
            (m.insert(v, (i - 1) as usize), flags.update(i - 1, true), score + 1)
        }
    }
}

/// Flags the values of `values` that occur once, recording in `values_hash`
/// the index at which each new value was first met, and counts the values
/// recorded. A value already in `values_hash` when met clears the flag at
/// the index it maps to.
pub fn find_uniques<T: Copy + Hash + Eq>(values: &[T], values_hash: &mut HashMap<T, usize>) -> (r: (
    u32,
    Bitmap,
))
    requires
        values@.len() <= u32::MAX,
        values@.len() + 63 <= usize::MAX,
        forall|k: T| #[trigger] old(values_hash)@.contains_key(k) ==> old(values_hash)@[k] < values@.len(),
    ensures
        r.1.wf(),
        r.1@.len() == values@.len(),
        obeys_key_model::<T>() ==> {
            let (m, flags, score) = uniques_after(values@, old(values_hash)@, values@.len());
            &&& final(values_hash)@ == m
            &&& r.1@ == flags
            &&& r.0 == score
        },
        obeys_key_model::<T>() && old(values_hash)@ == Map::<T, usize>::empty() ==> {
            &&& forall|j: int|
                0 <= j < values@.len() ==> #[trigger] r.1@[j] == alone_before(
                    values@,
                    values@.len() as int,
                    j,
                )
            &&& final(values_hash)@.dom() == values@.to_set()
            &&& forall|j: int|
                0 <= j < values@.len() ==> final(values_hash)@[#[trigger] values@[j]] <= j
                    && values@[final(values_hash)@[values@[j]] as int] == values@[j]
                    && !occurs_from(values@, 0, final(values_hash)@[values@[j]] as int, values@[j])
            &&& r.0 == values@.to_set().len()
        },
{
    let n = values.len();
    let mut bitmap = Bitmap::new(n);
    let mut score: u32 = 0;
    let mut index: usize = 0;
    while index < n
        invariant
            n == values@.len(),
            n <= u32::MAX,
            index <= n,
            bitmap.wf(),
            bitmap@.len() == n,
            score <= index,
            obeys_key_model::<T>() ==> forall|k: T| #[trigger] values_hash@.contains_key(k)
                ==> values_hash@[k] < n,
            obeys_key_model::<T>() ==> {
                let (m, flags, s) = uniques_after(values@, old(values_hash)@, index as nat);
                &&& values_hash@ == m
                &&& bitmap@ == flags
                &&& score == s
            },
        decreases n - index,
    {
        let value = values[index];
        match values_hash.get(&value) {
            Some(first_index) => {
                let first_index = *first_index;
                proof {
                    if obeys_key_model::<T>() {
                        assert(values_hash@.contains_key(value));
                    }
                }
                // The map only ever holds indices below `n`.
                if first_index < n {
                    bitmap.set(first_index, false);
                }
            },
            None => {
                values_hash.insert(value, index);
                bitmap.set(index, true);
                score = score + 1;
            },
        }
        index = index + 1;
    }
    proof {
        lemma_uniques_from_empty(values@);
    }
    (score, bitmap)
}

/// Some accepted pair has `a` as its first member.
pub open spec fn has_first<T, U>(taken: Seq<(T, U)>, a: T) -> bool {
    exists|k: int| 0 <= k < taken.len() && #[trigger] taken[k].0 == a
}

/// Some accepted pair has `b` as its second member.
pub open spec fn has_second<T, U>(taken: Seq<(T, U)>, b: U) -> bool {
    exists|k: int| 0 <= k < taken.len() && #[trigger] taken[k].1 == b
}

/// The state after `extract_unique_pairs` has read the first `i` pairs:
/// the pairs accepted, in order, and the pending pairs.
///
/// A pair whose first member was accepted before is skipped. Otherwise it is
/// accepted when its second member is new too, and leaves the pending map;
/// when its second member was accepted before it becomes the pending pair
/// of its first member, in place of any earlier one.
pub open spec fn pairs_after<T, U>(primary: Seq<T>, secondary: Seq<U>, i: nat) -> (
    Seq<(T, U)>,
    Map<T, U>,
)
    decreases i,
{
    if i == 0 || i > primary.len() || i > secondary.len() {
        (Seq::empty(), Map::empty())
    } else {
        let (taken, pending) = pairs_after(primary, secondary, (i - 1) as nat);
        let a = primary[i - 1];
        let b = secondary[i - 1];
        if has_first(taken, a) {
            (taken, pending)
        } else if has_second(taken, b) {
            (taken, pending.insert(a, b))
        } else {
            (taken.push((a, b)), pending.remove(a))
        }
    }
}

/// Some position `p` with `lo <= p < hi` of `s` holds `x`.
pub open spec fn occurs_from<T>(s: Seq<T>, lo: int, hi: int, x: T) -> bool {
    exists|p: int| lo <= p < hi && #[trigger] s[p] == x
}

/// Every pending first member was read among the first `i` pairs.
pub proof fn lemma_pending_keys_occur<T, U>(primary: Seq<T>, secondary: Seq<U>, i: nat)
    ensures
        forall|x: T|
            #[trigger] pairs_after(primary, secondary, i).1.contains_key(x) ==> occurs_from(
                primary,
                0,
                i as int,
                x,
            ),
    decreases i,
{
    if i > 0 && i <= primary.len() && i <= secondary.len() {
        lemma_pending_keys_occur(primary, secondary, (i - 1) as nat);
        assert forall|x: T| #[trigger] pairs_after(primary, secondary, i).1.contains_key(x) implies occurs_from(
            primary,
            0,
            i as int,
            x,
        ) by {
            if x != primary[i - 1] {
                assert(pairs_after(primary, secondary, (i - 1) as nat).1.contains_key(x));
                let p = choose|p: int| 0 <= p < i - 1 && #[trigger] primary[p] == x;
                assert(primary[p] == x);
            } else {
                assert(primary[i - 1] == x);
            }
        }
    }
}

/// Pairs up `primary[i]` with `secondary[i]` so that each first member and
/// each second member is used once, keeping the first fitting pair of each
/// first member in order; then appends the pending pairs of the first
/// members that found no fitting pair, once each.
pub fn extract_unique_pairs<T: Copy + Hash + Eq, U: Copy + Hash + Eq>(
    primary: &[T],
    secondary: &[U],
) -> (r: (Vec<T>, Vec<U>))
    ensures
        r.0@.len() == r.1@.len(),
        obeys_key_model::<T>() && obeys_key_model::<U>() ==> {
            let n = if primary@.len() <= secondary@.len() {
                primary@.len()
            } else {
                secondary@.len()
            };
            let (taken, pending) = pairs_after(primary@, secondary@, n);
            &&& taken.len() <= r.0@.len()
            &&& forall|k: int|
                0 <= k < taken.len() ==> r.0@[k] == taken[k].0 && r.1@[k] == taken[k].1
            &&& r.0@.subrange(taken.len() as int, r.0@.len() as int).no_duplicates()
            &&& forall|k: int|
                taken.len() <= k < r.0@.len() ==> pending.contains_key(r.0@[k]) && pending[r.0@[k]]
                    == r.1@[k]
            &&& forall|a: T|
                #[trigger] pending.contains_key(a) ==> r.0@.subrange(
                    taken.len() as int,
                    r.0@.len() as int,
                ).contains(a)
        },
{
    let n = if primary.len() <= secondary.len() {
        primary.len()
    } else {
        secondary.len()
    };
    let mut primary_set = HashSet::<T>::with_capacity(primary.len());
    let mut secondary_set = HashSet::<U>::with_capacity(secondary.len());
    let mut pre_emptive_map = HashMap::<T, U>::with_capacity(primary.len());
    let mut out_primary = Vec::<T>::with_capacity(primary.len());
    let mut out_secondary = Vec::<U>::with_capacity(secondary.len());
    let mut i: usize = 0;
    while i < n
        invariant
            n <= primary@.len(),
            n <= secondary@.len(),
            i <= n,
            out_primary@.len() == out_secondary@.len(),
            obeys_key_model::<T>() && obeys_key_model::<U>() ==> {
                let (taken, pending) = pairs_after(primary@, secondary@, i as nat);
                &&& out_primary@.len() == taken.len()
                &&& forall|k: int|
                    0 <= k < taken.len() ==> out_primary@[k] == taken[k].0 && out_secondary@[k]
                        == taken[k].1
                &&& forall|a: T| #[trigger] primary_set@.contains(a) == has_first(taken, a)
                &&& forall|b: U| #[trigger] secondary_set@.contains(b) == has_second(taken, b)
                &&& pre_emptive_map@ == pending
            },
        decreases n - i,
    {
        let a = primary[i];
        let b = secondary[i];
        let ghost taken = pairs_after(primary@, secondary@, i as nat).0;
        let ghost ps0 = primary_set@;
        let ghost ss0 = secondary_set@;
        if !primary_set.contains(&a) {
            if secondary_set.insert(b) {
                primary_set.insert(a);
                out_primary.push(a);
                out_secondary.push(b);
                pre_emptive_map.remove(&a);
                proof {
                    if obeys_key_model::<T>() && obeys_key_model::<U>() {
                        let next = taken.push((a, b));
                        assert(next[taken.len() as int] == (a, b));
                        assert forall|x: T| #[trigger] primary_set@.contains(x) == has_first(next, x) by {
                            assert(ps0.contains(x) == has_first(taken, x));
                            if x == a {
                                assert(next[taken.len() as int].0 == a);
                            }
                            if has_first(taken, x) {
                                let k = choose|k: int| 0 <= k < taken.len() && #[trigger] taken[k].0 == x;
                                assert(next[k].0 == x);
                            }
                            if has_first(next, x) && x != a {
                                let k = choose|k: int| 0 <= k < next.len() && #[trigger] next[k].0 == x;
                                assert(taken[k].0 == x);
                            }
                        }
                        assert forall|y: U| #[trigger] secondary_set@.contains(y) == has_second(next, y) by {
                            assert(ss0.contains(y) == has_second(taken, y));
                            if y == b {
                                assert(next[taken.len() as int].1 == b);
                            }
                            if has_second(taken, y) {
                                let k = choose|k: int| 0 <= k < taken.len() && #[trigger] taken[k].1 == y;
                                assert(next[k].1 == y);
                            }
                            if has_second(next, y) && y != b {
                                let k = choose|k: int| 0 <= k < next.len() && #[trigger] next[k].1 == y;
                                assert(taken[k].1 == y);
                            }
                        }
                    }
                }
            } else {
                pre_emptive_map.insert(a, b);
            }
        }
        i = i + 1;
    }
    let ghost taken_len = out_primary@.len();
    let ghost pending = pairs_after(primary@, secondary@, n as nat).1;
    proof {
        lemma_pending_keys_occur(primary@, secondary@, n as nat);
    }
    let mut j: usize = 0;
    while j < n
        invariant
            n <= primary@.len(),
            n <= secondary@.len(),
            j <= n,
            pending == pairs_after(primary@, secondary@, n as nat).1,
            out_primary@.len() == out_secondary@.len(),
            taken_len <= out_primary@.len(),
            obeys_key_model::<T>() && obeys_key_model::<U>() ==> {
                &&& taken_len == pairs_after(primary@, secondary@, n as nat).0.len()
                &&& forall|k: int|
                    0 <= k < taken_len ==> out_primary@[k] == pairs_after(
                        primary@,
                        secondary@,
                        n as nat,
                    ).0[k].0 && out_secondary@[k] == pairs_after(primary@, secondary@, n as nat).0[k].1
                &&& forall|k: int|
                    taken_len <= k < out_primary@.len() ==> pending.contains_key(
                        #[trigger] out_primary@[k],
                    ) && pending[out_primary@[k]] == out_secondary@[k]
                        && !pre_emptive_map@.contains_key(out_primary@[k])
                &&& out_primary@.subrange(taken_len as int, out_primary@.len() as int).no_duplicates()
                &&& forall|x: T|
                    #[trigger] pre_emptive_map@.contains_key(x) ==> pending.contains_key(x)
                        && pre_emptive_map@[x] == pending[x] && occurs_from(primary@, j as int, n as int, x)
                &&& forall|x: T|
                    #[trigger] pending.contains_key(x) ==> pre_emptive_map@.contains_key(x)
                        || out_primary@.subrange(taken_len as int, out_primary@.len() as int).contains(x)
            },
        decreases n - j,
    {
        let a = primary[j];
        let ghost before_map = pre_emptive_map@;
        let ghost before_out = out_primary@;
        match pre_emptive_map.remove(&a) {
            Some(b) => {
                out_primary.push(a);
                out_secondary.push(b);
            },
            None => {},
        }
        proof {
            if obeys_key_model::<T>() && obeys_key_model::<U>() {
                let rest = out_primary@.subrange(taken_len as int, out_primary@.len() as int);
                let before_rest = before_out.subrange(taken_len as int, before_out.len() as int);
                if out_primary@.len() > before_out.len() {
                    assert(rest =~= before_rest.push(a));
                    assert(!before_rest.contains(a)) by {
                        if before_rest.contains(a) {
                            let k = choose|k: int| 0 <= k < before_rest.len() && before_rest[k] == a;
                            assert(out_primary@[taken_len + k] == a);
                        }
                    }
                    assert forall|x: T| #[trigger] pending.contains_key(x) implies pre_emptive_map@.contains_key(x)
                        || rest.contains(x) by {
                        if before_rest.contains(x) {
                            let k = choose|k: int| 0 <= k < before_rest.len() && before_rest[k] == x;
                            assert(rest[k] == x);
                        }
                        if x == a {
                            assert(rest[rest.len() - 1] == a);
                        }
                    }
                } else {
                    assert(rest =~= before_rest);
                }
                assert forall|x: T| #[trigger] pre_emptive_map@.contains_key(x) implies occurs_from(
                    primary@,
                    (j + 1) as int,
                    n as int,
                    x,
                ) by {
                    assert(occurs_from(primary@, j as int, n as int, x));
                    let p = choose|p: int| j <= p < n && #[trigger] primary@[p] == x;
                    assert(p != j);
                }
            }
        }
        j = j + 1;
    }
    proof {
        if obeys_key_model::<T>() && obeys_key_model::<U>() {
            assert forall|x: T| #[trigger] pending.contains_key(x) implies out_primary@.subrange(
                taken_len as int,
                out_primary@.len() as int,
            ).contains(x) by {
                if pre_emptive_map@.contains_key(x) {
                    assert(occurs_from(primary@, n as int, n as int, x));
                }
            }
        }
    }
    (out_primary, out_secondary)
}

/// The state after `optimize_diversity` has visited the first `k` free
/// slots: the data, the map from each value placed to its slot, and the
/// position of the next candidate in `values`.
///
/// Candidates are taken from the back of `values`. Once the position
/// reaches zero nothing changes; otherwise the candidate at that position
/// is used up, and it fills the slot when the map does not yet hold it.
pub open spec fn diversity_after<T>(
    values: Seq<T>,
    slots: Seq<usize>,
    data: Seq<T>,
    m: Map<T, usize>,
    top: int,
    k: nat,
) -> (Seq<T>, Map<T, usize>, int)
    decreases k,
{
    if k == 0 || k > slots.len() {
        (data, m, top)
    } else {
        let (d, mm, t) = diversity_after(values, slots, data, m, top, (k - 1) as nat);
        if t <= 0 {
            (d, mm, t)
        } else {
            let candidate = values[t];
            if mm.contains_key(candidate) {
                (d, mm, t - 1)
            } else {
                (d.update(slots[k - 1] as int, candidate), mm.insert(candidate, slots[k - 1]), t - 1)
            }
        }
    }
}

/// Copies `existing_values` and fills the slots of its repeated values with
/// values taken from the back of `values` that it does not hold yet, slot by
/// slot in ascending order; the first value of `values` is never taken.
pub fn optimize_diversity<T: Copy + Hash + Eq>(existing_values: &[T], values: &[T]) -> (r: Array<T>)
    requires
        1 <= values@.len(),
        existing_values@.len() <= u32::MAX,
        existing_values@.len() + 63 <= usize::MAX,
    ensures
        r@.len() == existing_values@.len(),
        obeys_key_model::<T>() ==> {
            let (m, flags, score) = uniques_after(
                existing_values@,
                Map::empty(),
                existing_values@.len(),
            );
            let slots = indices_where(flags, false);
            r@ == diversity_after(
                values@,
                slots,
                existing_values@,
                m,
                values@.len() - 1,
                slots.len(),
            ).0
        },
{
    let mut top = values.len() - 1;
    let mut hash_map: HashMap<T, usize> = HashMap::with_capacity(existing_values.len());
    let (_, bitmap) = find_uniques(existing_values, &mut hash_map);
    let mut new_data = Array::from_slice(existing_values);
    let accessible_indices = bitmap.to_indices_false();
    let ghost slots = accessible_indices@;
    let ghost m0 = hash_map@;
    let mut j: usize = 0;
    while j < accessible_indices.len() && top != 0
        invariant
            j <= accessible_indices@.len(),
            slots == accessible_indices@,
            top < values@.len(),
            new_data@.len() == existing_values@.len(),
            forall|a: int| 0 <= a < slots.len() ==> slots[a] < existing_values@.len(),
            obeys_key_model::<T>() ==> {
                let (d, m, t) = diversity_after(
                    values@,
                    slots,
                    existing_values@,
                    m0,
                    values@.len() - 1,
                    j as nat,
                );
                &&& new_data@ == d
                &&& hash_map@ == m
                &&& top == t
            },
        decreases accessible_indices@.len() - j,
    {
        let accessible_index = accessible_indices[j];
        let new_diversity = values[top];
        top = top - 1;
        if !hash_map.contains_key(&new_diversity) {
            new_data.set(accessible_index, new_diversity);
            hash_map.insert(new_diversity, accessible_index);
        }
        j = j + 1;
    }
    proof {
        if obeys_key_model::<T>() {
            lemma_diversity_settled(
                values@,
                slots,
                existing_values@,
                m0,
                values@.len() - 1,
                j as nat,
                slots.len(),
            );
        }
    }
    new_data
}

/// Once the position of the next candidate has reached zero, visiting more
/// slots changes nothing.
pub proof fn lemma_diversity_settled<T>(
    values: Seq<T>,
    slots: Seq<usize>,
    data: Seq<T>,
    m: Map<T, usize>,
    top: int,
    j: nat,
    k: nat,
)
    requires
        j <= k <= slots.len(),
        j == slots.len() || diversity_after(values, slots, data, m, top, j).2 <= 0,
    ensures
        diversity_after(values, slots, data, m, top, k) == diversity_after(values, slots, data, m, top, j),
    decreases k - j,
{
    if k > j {
        lemma_diversity_settled(values, slots, data, m, top, j, (k - 1) as nat);
    }
}

/// `values[j]` occurs nowhere else among the first `i` values.
pub open spec fn alone_before<T>(values: Seq<T>, i: int, j: int) -> bool {
    forall|q: int| 0 <= q < i && q != j ==> values[q] != values[j]
}

/// What `uniques_after` holds after reading the first `i` values from an
/// empty map: the map sends each value met to the index it first occurs at,
/// the flags mark exactly the values met once so far, and the count is the
/// number of distinct values met.
proof fn lemma_uniques_prefix<T>(values: Seq<T>, i: nat)
    requires
        i <= values.len() <= usize::MAX,
    ensures
        ({
            let (m, flags, score) = uniques_after(values, Map::empty(), i);
            &&& m.dom().finite()
            &&& score == m.dom().len()
            &&& flags.len() == values.len()
            &&& forall|v: T| #[trigger] m.contains_key(v) <==> occurs_from(values, 0, i as int, v)
            &&& forall|v: T|
                #[trigger] m.contains_key(v) ==> m[v] < i && values[m[v] as int] == v && !occurs_from(
                    values,
                    0,
                    m[v] as int,
                    v,
                )
            &&& forall|j: int|
                0 <= j < values.len() ==> #[trigger] flags[j] == (j < i && alone_before(
                    values,
                    i as int,
                    j,
                ))
        }),
    decreases i,
{
    if i > 0 {
        lemma_uniques_prefix(values, (i - 1) as nat);
        let (m, flags, score) = uniques_after(values, Map::empty(), (i - 1) as nat);
        let (m2, flags2, score2) = uniques_after(values, Map::empty(), i);
        let v = values[i - 1];
        if m.contains_key(v) {
            let f = m[v] as int;
            assert forall|w: T| #[trigger] m2.contains_key(w) <==> occurs_from(values, 0, i as int, w) by {
                if occurs_from(values, 0, i as int, w) {
                    let p = choose|p: int| 0 <= p < i && #[trigger] values[p] == w;
                    if p < i - 1 {
                        assert(occurs_from(values, 0, i - 1, w));
                    }
                }
                if occurs_from(values, 0, i - 1, w) {
                    let p = choose|p: int| 0 <= p < i - 1 && #[trigger] values[p] == w;
                    assert(values[p] == w);
                }
            }
            assert forall|j: int| 0 <= j < values.len() implies #[trigger] flags2[j] == (j < i
                && alone_before(values, i as int, j)) by {
                if j < i - 1 && values[j] == v && j != f {
                    assert(!alone_before(values, i - 1, j)) by {
                        assert(values[f] == values[j]);
                    }
                }
                if j == f {
                    assert(values[i - 1] == values[j]);
                }
                if j == i - 1 {
                    assert(values[f] == values[j]);
                }
                if j < i - 1 && values[j] != v {
                    assert(alone_before(values, i as int, j) == alone_before(values, i - 1, j));
                }
            }
        } else {
            assert(m2 == m.insert(v, (i - 1) as usize));
            assert(!occurs_from(values, 0, i - 1, v));
            assert forall|w: T| #[trigger] m2.contains_key(w) <==> occurs_from(values, 0, i as int, w) by {
                if w == v {
                    assert(values[i - 1] == w);
                }
                if occurs_from(values, 0, i as int, w) && w != v {
                    let p = choose|p: int| 0 <= p < i && #[trigger] values[p] == w;
                    assert(occurs_from(values, 0, i - 1, w));
                }
                if occurs_from(values, 0, i - 1, w) {
                    let p = choose|p: int| 0 <= p < i - 1 && #[trigger] values[p] == w;
                    assert(values[p] == w);
                }
            }
            assert forall|w: T| #[trigger] m2.contains_key(w) implies m2[w] < i && values[m2[w] as int]
                == w && !occurs_from(values, 0, m2[w] as int, w) by {
                if w != v {
                    assert(m.contains_key(w));
                } else {
                    assert(m2[w] == i - 1);
                }
            }
            assert forall|j: int| 0 <= j < values.len() implies #[trigger] flags2[j] == (j < i
                && alone_before(values, i as int, j)) by {
                if j == i - 1 {
                    assert forall|q: int| 0 <= q < i && q != j implies values[q] != values[j] by {
                        if values[q] == values[j] {
                            assert(occurs_from(values, 0, i - 1, v));
                        }
                    }
                }
                if j < i - 1 {
                    if values[j] == v {
                        assert(occurs_from(values, 0, i - 1, v));
                    }
                    assert(alone_before(values, i as int, j) == alone_before(values, i - 1, j));
                }
            }
        }
    }
}

/// Read from an empty map, `find_uniques` flags exactly the values that occur
/// once, maps each value to the index it first occurs at, and counts the
/// distinct values.
pub proof fn lemma_uniques_from_empty<T>(values: Seq<T>)
    requires
        values.len() <= usize::MAX,
    ensures
        ({
            let (m, flags, score) = uniques_after(values, Map::empty(), values.len());
            &&& flags.len() == values.len()
            &&& forall|j: int|
                0 <= j < values.len() ==> #[trigger] flags[j] == alone_before(
                    values,
                    values.len() as int,
                    j,
                )
            &&& m.dom() == values.to_set()
            &&& forall|j: int|
                0 <= j < values.len() ==> m[#[trigger] values[j]] <= j && values[m[values[j]] as int]
                    == values[j] && !occurs_from(values, 0, m[values[j]] as int, values[j])
            &&& score == values.to_set().len()
        }),
{
    lemma_uniques_prefix(values, values.len());
    let (m, flags, score) = uniques_after(values, Map::empty(), values.len());
    assert forall|v: T| m.dom().contains(v) <==> values.to_set().contains(v) by {
        if m.contains_key(v) {
            let p = choose|p: int| 0 <= p < values.len() && #[trigger] values[p] == v;
            assert(values.contains(v));
        }
        if values.contains(v) {
            let p = choose|p: int| 0 <= p < values.len() && values[p] == v;
            assert(occurs_from(values, 0, values.len() as int, v));
        }
    }
    assert(m.dom() =~= values.to_set());
    assert forall|j: int| 0 <= j < values.len() implies m[#[trigger] values[j]] <= j
        && values[m[values[j]] as int] == values[j] && !occurs_from(
        values,
        0,
        m[values[j]] as int,
        values[j],
    ) by {
        assert(occurs_from(values, 0, values.len() as int, values[j]));
        assert(m.contains_key(values[j]));
        if m[values[j]] > j {
            assert(occurs_from(values, 0, m[values[j]] as int, values[j]));
        }
    }
}

} // verus!

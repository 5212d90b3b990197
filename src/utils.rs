//! Index arithmetic for ring buffers whose size is a power of two.
use vstd::prelude::*;

verus! {

/// `x` is a power of two.
pub open spec fn is_power_of_two(x: usize) -> bool {
    x != 0 && x & ((x - 1) as usize) == 0
}

/// The index after `val` in a ring of `mask + 1` slots, `mask + 1` being a
/// power of two: `(val + 1) & mask`.
pub fn rotate_inc(val: usize, mask: usize) -> (r: usize)
    requires
        val < usize::MAX,
    ensures
        r == ((val + 1) as usize) & mask,
        val <= mask && is_power_of_two((mask + 1) as usize) ==> r == if val == mask {
            0
        } else {
            val + 1
        },
{
    let next = val + 1;
    proof {
        let size = (mask + 1) as usize;
        assert(val <= mask && size != 0 && size & ((size - 1) as usize) == 0 ==> (next & mask) == if val
            == mask {
            0
        } else {
            next
        }) by (bit_vector)
            requires
                next == val + 1,
                size == (mask + 1) as usize,
        ;
    }
    next & mask
}

/// The index before `val` in a ring of `mask + 1` slots, `mask + 1` being a
/// power of two: `(val - 1) & mask`.
pub fn rotate_dec(val: usize, mask: usize) -> (r: usize)
    requires
        val > 0,
    ensures
        r == ((val - 1) as usize) & mask,
{
    let prev = val - 1;
    prev & mask
}

/// The smallest power of two that is at least `n`.
pub fn closest_pow2(n: usize) -> (r: usize)
    requires
        1 <= n <= usize::MAX / 2 + 1,
    ensures
        is_power_of_two(r),
        n <= r < 2 * n,
{
    let x: u64 = (n - 1) as u64;
    let m1 = x | (x >> 1);
    let m2 = m1 | (m1 >> 2);
    let m3 = m2 | (m2 >> 4);
    let m4 = m3 | (m3 >> 8);
    let m5 = m4 | (m4 >> 16);
    let m6 = m5 | (m5 >> 32);
    let n64 = n as u64;
    assert(m6 < u64::MAX && n64 <= m6 + 1 && m6 + 1 < 2 * n64 && ((m6 + 1) as u64) & m6 == 0)
        by (bit_vector)
        requires
            1 <= n64 <= 0x8000_0000_0000_0000u64,
            x == (n64 - 1) as u64,
            m1 == x | (x >> 1),
            m2 == m1 | (m1 >> 2),
            m3 == m2 | (m2 >> 4),
            m4 == m3 | (m3 >> 8),
            m5 == m4 | (m4 >> 16),
            m6 == m5 | (m5 >> 32),
    ;
    let r = (m6 + 1) as usize;
    assert(r as u64 == m6 + 1);
    assert(r & ((r - 1) as usize) == 0) by (bit_vector)
        requires
            r as u64 == m6 + 1,
            ((m6 + 1) as u64) & m6 == 0,
    ;
    r
}

} // verus!

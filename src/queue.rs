//! A first-in, first-out queue of `Copy` values in a ring of slots whose
//! number is a power of two.
use vstd::prelude::*;

use crate::utils::{closest_pow2, is_power_of_two, rotate_inc};

verus! {

/// A ring buffer of `capacity` slots, `capacity` a power of two.
pub struct Queue<T: Copy> {
    slots: Vec<Option<T>>,
    len: usize,
    front: usize,
    end: usize,
}

impl<T: Copy> Queue<T> {
    /// The slot that holds the value at position `i` from the front.
    closed spec fn slot(&self, i: int) -> int {
        if self.front + i < self.slots.len() {
            self.front + i
        } else {
            self.front + i - self.slots.len()
        }
    }
}

impl<T: Copy> View for Queue<T> {
    type V = Seq<T>;

    /// The values from the front of the queue to its back.
    closed spec fn view(&self) -> Seq<T> {
        Seq::new(self.len as nat, |i: int| self.slots@[self.slot(i)].unwrap())
    }
}

impl<T: Copy> Queue<T> {
    /// The ring has a power-of-two number of slots, and the `len` slots from
    /// `front` on, wrapping round, hold values; `end` is the next free slot.
    pub closed spec fn wf(&self) -> bool {
        &&& is_power_of_two(self.slots.len())
        &&& self.len <= self.slots.len()
        &&& self.front < self.slots.len()
        &&& self.end == self.slot(self.len as int)
        &&& forall|i: int| 0 <= i < self.len ==> #[trigger] self.slots@[self.slot(i)] is Some
    }

    /// Number of slots.
    pub closed spec fn spec_capacity(&self) -> nat {
        self.slots.len() as nat
    }

    /// An empty queue of `closest_pow2(capacity)` slots: the smallest power
    /// of two at least `capacity`.
    pub fn new_pow2_sized(capacity: usize) -> (r: Self)
        requires
            1 <= capacity <= usize::MAX / 2 + 1,
        ensures
            r.wf(),
            r@ == Seq::<T>::empty(),
            is_power_of_two(r.spec_capacity() as usize),
            capacity <= r.spec_capacity() < 2 * capacity,
    {
        let capacity = closest_pow2(capacity);
        let mut slots: Vec<Option<T>> = Vec::with_capacity(capacity);
        while slots.len() < capacity
            invariant
                slots.len() <= capacity,
            decreases capacity - slots.len(),
        {
            slots.push(None);
        }
        let r = Queue { slots, len: 0, front: 0, end: 0 };
        proof {
            assert(r@ =~= Seq::<T>::empty());
        }
        r
    }

    /// Whether the queue holds no value.
    pub fn is_empty(&self) -> (r: bool)
        ensures
            r == (self@.len() == 0),
    {
        self.len == 0
    }

    /// Number of slots.
    pub fn capacity(&self) -> (r: usize)
        ensures
            r == self.spec_capacity(),
    {
        self.slots.len()
    }

    /// Number of values held.
    pub fn len(&self) -> (r: usize)
        ensures
            r == self@.len(),
    {
        self.len
    }

    /// Puts `value` at the back; the queue must not be full.
    pub fn push(&mut self, value: T)
        requires
            old(self).wf(),
            old(self)@.len() < old(self).spec_capacity(),
        ensures
            final(self).wf(),
            final(self)@ == old(self)@.push(value),
            final(self).spec_capacity() == old(self).spec_capacity(),
    {
        let end = self.end;
        let mask = self.slots.len() - 1;
        self.slots.set(end, Some(value));
        self.len = self.len + 1;
        self.end = rotate_inc(end, mask);
        proof {
            assert(self.slot(old(self).len as int) == end);
            assert forall|i: int| 0 <= i < self.len implies #[trigger] self.slots@[self.slot(i)] is Some by {
                if i < old(self).len {
                    assert(self.slot(i) == old(self).slot(i));
                }
            }
            assert(self@ =~= old(self)@.push(value));
        }
    }

    /// The value at the front, if any.
    pub fn front(&self) -> (r: Option<&T>)
        requires
            self.wf(),
        ensures
            r == if self@.len() == 0 {
                None::<&T>
            } else {
                Some(&self@[0])
            },
    {
        if self.len == 0 {
            return None;
        }
        proof {
            assert(self.slot(0) == self.front);
            assert(self.slots@[self.slot(0)] is Some);
        }
        match &self.slots[self.front] {
            Some(v) => Some(v),
            None => None,
        }
    }

    /// Takes the value at the front, if any.
    pub fn dequeue(&mut self) -> (r: Option<T>)
        requires
            old(self).wf(),
        ensures
            final(self).wf(),
            final(self).spec_capacity() == old(self).spec_capacity(),
            old(self)@.len() == 0 ==> r == None::<T> && final(self)@ == old(self)@,
            old(self)@.len() > 0 ==> r == Some(old(self)@[0]) && final(self)@ == old(self)@.drop_first(),
    {
        if self.len == 0 {
            return None;
        }
        proof {
            assert(self.slot(0) == self.front);
            assert(self.slots@[self.slot(0)] is Some);
        }
        let value = self.slots[self.front];
        let mask = self.slots.len() - 1;
        self.len = self.len - 1;
        self.front = rotate_inc(self.front, mask);
        proof {
            assert forall|i: int| 0 <= i < self.len implies self.slot(i) == old(self).slot(i + 1) by {}
            assert forall|i: int| 0 <= i < self.len implies #[trigger] self.slots@[self.slot(i)] is Some by {
                assert(self.slot(i) == old(self).slot(i + 1));
            }
            assert(self@ =~= old(self)@.drop_first());
        }
        value
    }

    /// Grows the ring to `closest_pow2(capacity_pow)` slots, which must be
    /// more than it has; the values keep their order and move to the start
    /// of the new ring.
    pub fn extend_pow2_sized(&mut self, capacity_pow: usize)
        requires
            old(self).wf(),
            old(self).spec_capacity() < capacity_pow <= usize::MAX / 2 + 1,
        ensures
            final(self).wf(),
            final(self)@ == old(self)@,
            is_power_of_two(final(self).spec_capacity() as usize),
            capacity_pow <= final(self).spec_capacity() < 2 * capacity_pow,
    {
        let new_capacity = closest_pow2(capacity_pow);
        let mut slots: Vec<Option<T>> = Vec::with_capacity(new_capacity);
        let mask = self.slots.len() - 1;
        let mut at = self.front;
        let mut i: usize = 0;
        while i < self.len
            invariant
                self.wf(),
                i <= self.len,
                mask == self.slots.len() - 1,
                at == self.slot(i as int),
                slots.len() == i,
                forall|j: int| 0 <= j < i ==> slots@[j] == self.slots@[self.slot(j)],
            decreases self.len - i,
        {
            slots.push(self.slots[at]);
            at = rotate_inc(at, mask);
            i = i + 1;
        }
        while slots.len() < new_capacity
            invariant
                self.len <= slots.len() <= new_capacity,
                forall|j: int| 0 <= j < self.len ==> slots@[j] == self.slots@[self.slot(j)],
            decreases new_capacity - slots.len(),
        {
            slots.push(None);
        }
        let ghost before = *self;
        self.slots = slots;
        self.front = 0;
        self.end = self.len;
        proof {
            assert forall|j: int| 0 <= j < self.len implies #[trigger] self.slots@[self.slot(j)] is Some by {
                assert(self.slot(j) == j);
                assert(before.slots@[before.slot(j)] is Some);
            }
            assert(self@ =~= before@);
        }
    }

    /// Asks for `capacity_pow` more slots, rounded to a power of two. The
    /// guard below returns whenever `capacity_pow` is not zero, so the queue
    /// is left as it was.
    pub fn extend_pow2_sized_by(&mut self, capacity_pow: usize)
        requires
            old(self).wf(),
            0 < capacity_pow,
            old(self).spec_capacity() + capacity_pow <= usize::MAX,
        ensures
            final(self).wf(),
            final(self)@ == old(self)@,
            final(self).spec_capacity() == old(self).spec_capacity(),
    {
        if self.slots.len() < self.slots.len() + capacity_pow {
            return;
        }
        let new_capacity = closest_pow2(self.slots.len() + capacity_pow);
        self.extend_pow2_sized(new_capacity);
    }
}

} // verus!

//! A last-in, first-out stack of `Copy` values with a fixed capacity that
//! grows only on request.
use vstd::prelude::*;

verus! {

/// A stack holding at most `capacity` values.
#[derive(Debug)]
pub struct Stack<T: Copy> {
    data: Vec<T>,
    capacity: usize,
}

impl<T: Copy> View for Stack<T> {
    type V = Seq<T>;

    /// The values from the bottom of the stack to its top.
    closed spec fn view(&self) -> Seq<T> {
        self.data@
    }
}

impl<T: Copy> Stack<T> {
    /// The stack holds no more values than its capacity.
    pub closed spec fn wf(&self) -> bool {
        self.data.len() <= self.capacity
    }

    /// The most values the stack can hold.
    pub closed spec fn spec_capacity(&self) -> nat {
        self.capacity as nat
    }

    /// The most values the stack can hold.
    pub fn capacity(&self) -> (r: usize)
        ensures
            r == self.spec_capacity(),
    {
        self.capacity
    }

    /// Number of values held.
    pub fn len(&self) -> (r: usize)
        ensures
            r == self@.len(),
    {
        self.data.len()
    }

    /// An empty stack able to hold `capacity` values.
    pub fn new(capacity: usize) -> (r: Self)
        ensures
            r.wf(),
            r@ == Seq::<T>::empty(),
            r.spec_capacity() == capacity,
    {
        Stack { data: Vec::with_capacity(capacity), capacity }
    }

    /// Whether the stack holds no value.
    pub fn is_empty(&self) -> (r: bool)
        ensures
            r == (self@.len() == 0),
    {
        self.data.len() == 0
    }

    /// Sets the capacity to `new_capacity`, which must leave room for the
    /// values held; the values are kept.
    pub fn extend(&mut self, new_capacity: usize)
        requires
            old(self)@.len() <= new_capacity,
        ensures
            final(self).wf(),
            final(self)@ == old(self)@,
            final(self).spec_capacity() == new_capacity,
    {
        self.capacity = new_capacity;
    }

    /// Raises the capacity by `additional_capacity`; the values are kept.
    pub fn extend_by(&mut self, additional_capacity: usize)
        requires
            old(self).wf(),
            old(self).spec_capacity() + additional_capacity <= usize::MAX,
        ensures
            final(self).wf(),
            final(self)@ == old(self)@,
            final(self).spec_capacity() == old(self).spec_capacity() + additional_capacity,
    {
        self.extend(self.capacity + additional_capacity);
    }

    /// The value on top, if any.
    pub fn top(&self) -> (r: Option<&T>)
        ensures
            r == if self@.len() == 0 {
                None::<&T>
            } else {
                Some(&self@.last())
            },
    {
        if self.data.len() == 0 {
            return None;
        }
        Some(&self.data[self.data.len() - 1])
    }

    /// The value on top, if any, writable in place.
    pub fn top_mut(&mut self) -> (r: Option<&mut T>)
        requires
            old(self).wf(),
        ensures
            final(self).wf(),
            final(self).spec_capacity() == old(self).spec_capacity(),
            old(self)@.len() == 0 ==> r is None && final(self)@ == old(self)@,
            old(self)@.len() > 0 ==> r is Some && *r.unwrap() == old(self)@.last() && final(self)@
                == old(self)@.update(old(self)@.len() - 1, *final(r.unwrap())),
    {
        self.data.as_mut_slice().last_mut()
    }

    /// Puts `value` on top; the stack must not be full.
    pub fn push(&mut self, value: T)
        requires
            old(self).wf(),
            old(self)@.len() < old(self).spec_capacity(),
        ensures
            final(self).wf(),
            final(self)@ == old(self)@.push(value),
            final(self).spec_capacity() == old(self).spec_capacity(),
    {
        self.data.push(value);
    }

    /// Takes the value on top, if any.
    pub fn pop(&mut self) -> (r: Option<T>)
        requires
            old(self).wf(),
        ensures
            final(self).wf(),
            final(self).spec_capacity() == old(self).spec_capacity(),
            old(self)@.len() == 0 ==> r == None::<T> && final(self)@ == old(self)@,
            old(self)@.len() > 0 ==> r == Some(old(self)@.last()) && final(self)@ == old(self)@.drop_last(),
    {
        self.data.pop()
    }
}

/// `stack[-k]` is the value `k` places below the top: `stack[0]` is the top.
impl<T: Copy> std::ops::Index<isize> for Stack<T> {
    type Output = T;

    fn index(&self, index: isize) -> (r: &T)
        ensures
            *r == self@[self@.len() - 1 + index],
    {
        let depth = (-index) as usize;
        &self.data[self.data.len() - 1 - depth]
    }
}

impl<T: Copy> vstd::std_specs::core::IndexSpecImpl<isize> for Stack<T> {
    open spec fn index_req(&self, index: &isize) -> bool {
        -(self@.len() as int) < *index <= 0 && isize::MIN < *index
    }
}

} // verus!

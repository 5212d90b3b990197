//! A fixed-length array of `Copy` values whose length changes only when the
//! owner asks for it.
use vstd::prelude::*;
use vstd::std_specs::iter::IteratorSpec;

verus! {

broadcast use vstd::std_specs::slice::group_slice_axioms;

/// A run of `Copy` values of a chosen length.
#[derive(Clone, Debug)]
pub struct Array<T: Copy> {
    data: Vec<T>,
}

impl<T: Copy> View for Array<T> {
    type V = Seq<T>;

    closed spec fn view(&self) -> Seq<T> {
        self.data@
    }
}

impl<T: Copy> Array<T> {
    /// Number of elements.
    pub fn capacity(&self) -> (r: usize)
        ensures
            r == self@.len(),
    {
        self.data.len()
    }

    /// An array of `capacity` elements, each the default value of `T`.
    pub fn new(capacity: usize) -> (r: Self) where T: Default
        ensures
            r@.len() == capacity,
            forall|i: int| 0 <= i < capacity ==> call_ensures(T::default, (), #[trigger] r@[i]),
    {
        let mut data: Vec<T> = Vec::with_capacity(capacity);
        while data.len() < capacity
            invariant
                data.len() <= capacity,
                forall|i: int| 0 <= i < data.len() ==> call_ensures(T::default, (), #[trigger] data@[i]),
            decreases capacity - data.len(),
        {
            data.push(T::default());
        }
        Array { data }
    }

    /// An array of `capacity` copies of `default`.
    pub fn new_with_default(capacity: usize, default: T) -> (r: Self)
        ensures
            r@ == Seq::new(capacity as nat, |i: int| default),
    {
        let mut data: Vec<T> = Vec::with_capacity(capacity);
        while data.len() < capacity
            invariant
                data.len() <= capacity,
                forall|i: int| 0 <= i < data.len() ==> data@[i] == default,
            decreases capacity - data.len(),
        {
            data.push(default);
        }
        let r = Array { data };
        proof {
            assert(r@ =~= Seq::new(capacity as nat, |i: int| default));
        }
        r
    }

    /// An array holding the elements of `v`, in order.
    pub fn from_vec(v: Vec<T>) -> (r: Self)
        ensures
            r@ == v@,
    {
        Array { data: v }
    }

    /// An array holding a copy of the elements of `s`, in order.
    pub fn from_slice(s: &[T]) -> (r: Self)
        ensures
            r@ == s@,
    {
        let mut data: Vec<T> = Vec::with_capacity(s.len());
        let mut i: usize = 0;
        while i < s.len()
            invariant
                i <= s@.len(),
                data@ == s@.subrange(0, i as int),
            decreases s@.len() - i,
        {
            data.push(s[i]);
            i = i + 1;
            proof {
                assert(data@ =~= s@.subrange(0, i as int));
            }
        }
        proof {
            assert(data@ =~= s@);
        }
        Array { data }
    }

    /// Sets every element to `value`.
    pub fn fill(&mut self, value: T)
        ensures
            final(self)@ == Seq::new(old(self)@.len(), |i: int| value),
    {
        let mut i: usize = 0;
        while i < self.data.len()
            invariant
                self.data.len() == old(self)@.len(),
                i <= self.data.len(),
                forall|j: int| 0 <= j < i ==> self.data@[j] == value,
            decreases self.data.len() - i,
        {
            self.data.set(i, value);
            i = i + 1;
        }
        proof {
            assert(self@ =~= Seq::new(old(self)@.len(), |i: int| value));
        }
    }

    /// Changes the length to `new_capacity`: the elements below both lengths
    /// are kept, and new ones take the default value of `T`.
    pub fn extend(&mut self, new_capacity: usize) where T: Default
        ensures
            final(self)@.len() == new_capacity,
            forall|i: int|
                0 <= i < new_capacity && i < old(self)@.len() ==> final(self)@[i] == old(self)@[i],
            forall|i: int|
                old(self)@.len() <= i < new_capacity ==> call_ensures(
                    T::default,
                    (),
                    #[trigger] final(self)@[i],
                ),
    {
        self.data.truncate(new_capacity);
        while self.data.len() < new_capacity
            invariant
                self.data.len() <= new_capacity,
                self.data.len() == new_capacity || self.data.len() >= old(self)@.len(),
                forall|i: int|
                    0 <= i < self.data.len() && i < old(self)@.len() ==> self.data@[i] == old(
                        self,
                    )@[i],
                forall|i: int|
                    old(self)@.len() <= i < self.data.len() ==> call_ensures(
                        T::default,
                        (),
                        #[trigger] self.data@[i],
                    ),
            decreases new_capacity - self.data.len(),
        {
            self.data.push(T::default());
        }
    }

    /// Grows the array by `additional_capacity` default elements.
    pub fn extend_by(&mut self, additional_capacity: usize) where T: Default
        requires
            old(self)@.len() + additional_capacity <= usize::MAX,
        ensures
            final(self)@.len() == old(self)@.len() + additional_capacity,
            forall|i: int| 0 <= i < old(self)@.len() ==> final(self)@[i] == old(self)@[i],
            forall|i: int|
                old(self)@.len() <= i < final(self)@.len() ==> call_ensures(
                    T::default,
                    (),
                    #[trigger] final(self)@[i],
                ),
    {
        let n = self.data.len() + additional_capacity;
        self.extend(n);
    }

    /// Replaces the element at `index` with `value`.
    pub fn set(&mut self, index: usize, value: T)
        requires
            index < old(self)@.len(),
        ensures
            final(self)@ == old(self)@.update(index as int, value),
    {
        self.data.set(index, value);
    }

    /// The elements in order, by reference.
    pub fn iter(&self) -> (r: std::slice::Iter<'_, T>)
        ensures
            r.remaining() == self@.as_ref(),
    {
        self.data.as_slice().iter()
    }

    /// The elements from `start` on, at most `count` of them, by reference;
    /// `start` must not pass the length.
    pub fn iter_range(&self, start: usize, count: usize) -> (r: std::slice::Iter<'_, T>)
        requires
            start <= self@.len(),
            start + count <= usize::MAX,
        ensures
            r.remaining() == self@.subrange(
                start as int,
                if start + count <= self@.len() {
                    start + count
                } else {
                    self@.len() as int
                },
            ).as_ref(),
    {
        let len = self.data.len();
        let end = if start + count <= len {
            start + count
        } else {
            len
        };
        let all = self.data.as_slice();
        let part = &all[start..end];
        part.iter()
    }

    /// The elements as a writable slice; writes through it land in the array.
    pub fn as_slice_mut(&mut self) -> (r: &mut [T])
        ensures
            r@ == old(self)@,
            final(self)@ == final(r)@,
    {
        self.data.as_mut_slice()
    }

    /// The element at `index`, which the caller keeps below the length.
    pub fn index_unchecked(&self, index: usize) -> (r: &T)
        requires
            index < self@.len(),
        ensures
            *r == self@[index as int],
    {
        &self.data[index]
    }

    /// The element at `index`, writable in place; the caller keeps `index`
    /// below the length.
    pub fn index_unchecked_mut(&mut self, index: usize) -> (r: &mut T)
        requires
            index < old(self)@.len(),
        ensures
            *r == old(self)@[index as int],
            final(self)@ == old(self)@.update(index as int, *final(r)),
    {
        &mut self.data[index]
    }

    /// The elements as a slice.
    pub fn as_slice(&self) -> (r: &[T])
        ensures
            r@ == self@,
    {
        self.data.as_slice()
    }

    /// The elements before `index` and the elements from `index` on; `index`
    /// must be below the length.
    pub fn split_at(&self, index: usize) -> (r: (&[T], &[T]))
        requires
            index < self@.len(),
        ensures
            r.0@ == self@.subrange(0, index as int),
            r.1@ == self@.subrange(index as int, self@.len() as int),
    {
        self.data.as_slice().split_at(index)
    }

    /// The elements before `index` and the elements from `index` on, both
    /// writable; `index` must be below the length. Writes through the two
    /// halves land in the array.
    pub fn split_at_mut(&mut self, index: usize) -> (r: (&mut [T], &mut [T]))
        requires
            index < old(self)@.len(),
        ensures
            r.0@ == old(self)@.subrange(0, index as int),
            r.1@ == old(self)@.subrange(index as int, old(self)@.len() as int),
            final(self)@ == final(r.0)@ + final(r.1)@,
    {
        self.data.as_mut_slice().split_at_mut(index)
    }

    /// Cuts the array into `parts` runs of `len / parts` elements, the last
    /// run taking the remaining `len % parts` elements as well; `parts` must
    /// be between one and the length.
    pub fn split_into_parts(&self, parts: usize) -> (r: Array<&[T]>)
        requires
            0 < parts <= self@.len(),
        ensures
            r@.len() == parts,
            forall|i: int|
                0 <= i < parts - 1 ==> (#[trigger] r@[i])@ == self@.subrange(
                    i * (self@.len() as int / parts as int),
                    (i + 1) * (self@.len() as int / parts as int),
                ),
            r@[parts - 1]@ == self@.subrange(
                (parts - 1) * (self@.len() as int / parts as int),
                self@.len() as int,
            ),
    {
        let len = self.data.len();
        let chunk_size = len / parts;
        let all = self.data.as_slice();
        let mut out: Vec<&[T]> = Vec::with_capacity(parts);
        let mut start: usize = 0;
        let mut i: usize = 0;
        proof {
            assert((parts - 1) * chunk_size <= len) by (nonlinear_arith)
                requires
                    chunk_size == len / parts,
                    0 < parts,
            ;
        }
        while i < parts - 1
            invariant
                0 < parts <= len,
                len == self@.len(),
                all@ == self@,
                chunk_size == len / parts,
                (parts - 1) * chunk_size <= len,
                i <= parts - 1,
                start == i * chunk_size,
                out@.len() == i,
                forall|k: int|
                    0 <= k < i ==> (#[trigger] out@[k])@ == self@.subrange(
                        k * chunk_size,
                        (k + 1) * chunk_size,
                    ),
            decreases parts - 1 - i,
        {
            proof {
                assert((i + 1) * chunk_size <= (parts - 1) * chunk_size) by (nonlinear_arith)
                    requires
                        i + 1 <= parts - 1,
                        0 <= chunk_size,
                ;
                assert((i + 1) * chunk_size == i * chunk_size + chunk_size) by (nonlinear_arith);
            }
            let end = start + chunk_size;
            out.push(&all[start..end]);
            start = end;
            i = i + 1;
        }
        out.push(&all[start..len]);
        Array::from_vec(out)
    }


    /// Cuts the array into `parts` writable runs of `len / parts` elements,
    /// the last run taking the remaining `len % parts` elements as well;
    /// `parts` must be at least one and below the length.
    pub fn split_into_parts_mut(&mut self, parts: usize) -> (r: Vec<&mut [T]>)
        requires
            0 < parts < old(self)@.len(),
        ensures
            r@.len() == parts,
            forall|i: int|
                0 <= i < parts - 1 ==> #[trigger] r@[i]@ == old(self)@.subrange(
                    i * (old(self)@.len() as int / parts as int),
                    (i + 1) * (old(self)@.len() as int / parts as int),
                ),
            r@[parts - 1]@ == old(self)@.subrange(
                (parts - 1) * (old(self)@.len() as int / parts as int),
                old(self)@.len() as int,
            ),
    {
        let len = self.data.len();
        let chunk_size = len / parts;
        let ghost whole = self@;
        let mut rest: &mut [T] = self.data.as_mut_slice();
        let mut out: Vec<&mut [T]> = Vec::with_capacity(parts);
        let mut i: usize = 0;
        proof {
            assert((parts - 1) * chunk_size <= len) by (nonlinear_arith)
                requires
                    chunk_size == len / parts,
                    0 < parts,
            ;
        }
        while i < parts - 1
            invariant
                0 < parts <= len,
                len == whole.len(),
                chunk_size == len / parts,
                (parts - 1) * chunk_size <= len,
                i <= parts - 1,
                rest@ == whole.subrange(i * chunk_size, len as int),
                out@.len() == i,
                forall|k: int|
                    0 <= k < i ==> #[trigger] out@[k]@ == whole.subrange(
                        k * chunk_size,
                        (k + 1) * chunk_size,
                    ),
            decreases parts - 1 - i,
        {
            proof {
                assert((i + 1) * chunk_size <= (parts - 1) * chunk_size) by (nonlinear_arith)
                    requires
                        i + 1 <= parts - 1,
                        0 <= chunk_size,
                ;
                assert((i + 1) * chunk_size == i * chunk_size + chunk_size) by (nonlinear_arith);
            }
            let (head, tail) = rest.split_at_mut(chunk_size);
            out.push(head);
            rest = tail;
            i = i + 1;
        }
        out.push(rest);
        out
    }
}

/// `array[i]` is the element at `i`, which must be below the length.
impl<T: Copy> std::ops::Index<usize> for Array<T> {
    type Output = T;

    fn index(&self, index: usize) -> (r: &T)
        ensures
            *r == self@[index as int],
    {
        &self.data[index]
    }
}

impl<T: Copy> vstd::std_specs::core::IndexSpecImpl<usize> for Array<T> {
    open spec fn index_req(&self, index: &usize) -> bool {
        *index < self@.len()
    }
}

} // verus!

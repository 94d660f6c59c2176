//! A growable array with an explicit capacity policy: the capacity doubles
//! when an append finds it full and halves when a removal leaves the array
//! at a third of it, never dropping below one slot.

use vstd::prelude::*;

verus! {

/// A dynamic array of `T` with a tracked capacity.
pub struct DynamicArray<T> {
    data: Vec<T>,
    cap: usize,
}

impl<T> View for DynamicArray<T> {
    type V = Seq<T>;

    closed spec fn view(&self) -> Seq<T> {
        self.data@
    }
}

impl<T> DynamicArray<T> {
    /// The tracked capacity.
    pub closed spec fn spec_capacity(&self) -> int {
        self.cap as int
    }

    /// The stored elements never exceed the capacity.
    pub open spec fn wf(&self) -> bool {
        self@.len() <= self.spec_capacity() && self.spec_capacity() >= 1
    }

    /// An empty array with room for two elements.
    pub fn new() -> (a: DynamicArray<T>)
        ensures
            a@ == Seq::<T>::empty(),
            a.spec_capacity() == 2,
            a.wf(),
    {
        DynamicArray { data: Vec::new(), cap: 2 }
    }

    /// The current capacity.
    pub fn capacity(&self) -> (c: usize)
        ensures
            c == self.spec_capacity(),
    {
        self.cap
    }

    /// The number of stored elements.
    pub fn len(&self) -> (l: usize)
        ensures
            l == self@.len(),
    {
        self.data.len()
    }

    /// Appends an element, doubling the capacity when full.
    pub fn append(&mut self, value: T)
        requires
            old(self).wf(),
            old(self)@.len() < usize::MAX / 2,
        ensures
            final(self).wf(),
            final(self)@ == old(self)@.push(value),
            final(self).spec_capacity() == if old(self)@.len() == old(self).spec_capacity() {
                2 * old(self).spec_capacity()
            } else {
                old(self).spec_capacity()
            },
    {
        let size = self.data.len();
        if size == self.cap {
            self.cap = 2 * size;
        }
        self.data.push(value);
    }

    /// Removes and returns the last element; when the array drops to a
    /// third of its capacity the capacity is halved, but never below one.
    pub fn remove(&mut self) -> (r: Option<T>)
        requires
            old(self).wf(),
        ensures
            final(self).wf(),
            old(self)@.len() == 0 ==> r is None && *final(self) == *old(self),
            old(self)@.len() > 0 ==> {
                &&& r == Option::Some(old(self)@.last())
                &&& final(self)@ == old(self)@.drop_last()
                &&& final(self).spec_capacity() == if (old(self)@.len() - 1) * 3 <= old(
                    self,
                ).spec_capacity() {
                    let h = old(self).spec_capacity() / 2;
                    if h < 1 {
                        1int
                    } else {
                        h
                    }
                } else {
                    old(self).spec_capacity()
                }
            },
    {
        if self.data.len() == 0 {
            return Option::None;
        }
        let value = self.data.pop();
        let size = self.data.len();
        if size <= self.cap / 3 {
            let h = self.cap / 2;
            self.cap = if h < 1 {
                1
            } else {
                h
            };
        }
        value
    }

    /// The element at `index`.
    pub fn get(&self, index: usize) -> (r: &T)
        requires
            (index as int) < self@.len(),
        ensures
            *r == self@[index as int],
    {
        &self.data[index]
    }
}

} // verus!

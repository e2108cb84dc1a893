//! A small growable vector with an explicit capacity-doubling policy.
//!
//! The container keeps a logical length `len` beside its storage and
//! grows the capacity on demand: a full container doubles it, an empty
//! one starts at one slot. Its contents are modelled as the sequence of
//! the `len` stored values, oldest first.
use vstd::prelude::*;

verus! {

#[derive(Debug)]
pub struct Myvec<T> {
    items: Vec<T>,
    cap: usize,
    pub len: usize,
}

impl<T> View for Myvec<T> {
    type V = Seq<T>;

    closed spec fn view(&self) -> Seq<T> {
        self.items@
    }
}

impl<T> Myvec<T> {
    /// The capacity the container believes it has reserved.
    pub closed spec fn spec_capacity(&self) -> usize {
        self.cap
    }

    /// The logical length: what the `len` field holds.
    pub closed spec fn spec_len(&self) -> usize {
        self.len
    }

    /// The logical length counts exactly the stored values, and never
    /// exceeds the capacity.
    pub open spec fn wf(&self) -> bool {
        self.spec_len() == self@.len() && self.spec_len() <= self.spec_capacity()
    }

    pub fn new(capacity: usize) -> (r: Self)
        ensures
            r.wf(),
            r@ == Seq::<T>::empty(),
            r.spec_len() == 0,
            r.spec_capacity() == capacity,
    {
        Self { items: Vec::new(), cap: capacity, len: 0 }
    }

    pub fn empty() -> (r: Self)
        ensures
            r.wf(),
            r@ == Seq::<T>::empty(),
            r.spec_len() == 0,
            r.spec_capacity() == 0,
    {
        Self::new(0)
    }

    pub fn capacity(&self) -> (r: usize)
        ensures
            r == self.spec_capacity(),
    {
        self.cap
    }

    /// Append one value at the end, growing the capacity if the
    /// container is full.
    pub fn append(&mut self, item: T)
        requires
            old(self).wf(),
            old(self).spec_capacity() <= usize::MAX / 2,
        ensures
            final(self).wf(),
            final(self)@ == old(self)@.push(item),
            final(self).spec_len() == old(self).spec_len() + 1,
            final(self).spec_capacity() as int == (if old(self).spec_len() < old(self).spec_capacity() {
                old(self).spec_capacity() as int
            } else if old(self).spec_capacity() == 0 {
                1int
            } else {
                2 * old(self).spec_capacity()
            }),
    {
        if self.len >= self.capacity() {
            self.ensure_capacity();
        }
        self.items.push(item);
        self.len = self.len + 1;
    }

    /// Double the capacity, or give an empty container one slot.
    fn ensure_capacity(&mut self)
        requires
            old(self).spec_capacity() <= usize::MAX / 2,
        ensures
            final(self)@ == old(self)@,
            final(self).spec_len() == old(self).spec_len(),
            final(self).spec_capacity() as int == (if old(self).spec_capacity() == 0 {
                1int
            } else {
                2 * old(self).spec_capacity()
            }),
    {
        if self.cap == 0 {
            self.cap = 1;
        } else {
            self.cap = self.cap * 2;
        }
    }

    /// The value at `index`, if one is stored there.
    pub fn fetch(&self, index: usize) -> (r: Option<&T>)
        requires
            self.wf(),
        ensures
            (match r {
                Some(v) => index < self.spec_len() && *v == self@[index as int],
                None => index >= self.spec_len(),
            }),
    {
        if index < self.len {
            Some(&self.items[index])
        } else {
            None
        }
    }

    /// The value at `index`, or `default` when none is stored there.
    pub fn fetch_or<'a>(&'a self, index: usize, default: &'a T) -> (r: &'a T)
        requires
            self.wf(),
        ensures
            *r == (if index < self.spec_len() {
                self@[index as int]
            } else {
                *default
            }),
    {
        match self.fetch(index) {
            Some(item) => item,
            None => default,
        }
    }

    /// Remove and return the last value; the capacity is kept.
    pub fn pop(&mut self) -> (r: Option<T>)
        requires
            old(self).wf(),
        ensures
            final(self).wf(),
            final(self).spec_capacity() == old(self).spec_capacity(),
            (match r {
                Some(v) => old(self).spec_len() > 0 && v == old(self)@.last() && final(self)@
                    == old(self)@.drop_last() && final(self).spec_len() == old(self).spec_len()
                    - 1,
                None => old(self).spec_len() == 0 && *final(self) == *old(self),
            }),
    {
        if self.len == 0 {
            None
        } else {
            self.len = self.len - 1;
            self.items.pop()
        }
    }
}

} // verus!

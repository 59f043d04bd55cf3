//! Append-only storage addressed by typed indices.

use std::marker::PhantomData;
use vstd::prelude::*;
use vstd::std_specs::cmp::PartialEqSpecImpl;

verus! {

/// The index of an item inside an [`Arena`] of `T`.
#[derive(Debug, Hash)]
pub struct Id<T> {
    pub _marker: PhantomData<T>,
    pub id: usize,
}

impl<T> Id<T> {
    /// The index `id`.
    pub open spec fn of(id: usize) -> Self {
        Id { _marker: PhantomData, id }
    }

    pub fn new(id: usize) -> (r: Self)
        ensures
            r == Self::of(id),
            r.id == id,
    {
        Id { _marker: PhantomData, id }
    }
}

impl<T> Clone for Id<T> {
    fn clone(&self) -> (r: Self)
        ensures
            r == *self,
    {
        Id { _marker: PhantomData, id: self.id }
    }
}

impl<T> Copy for Id<T> {}

impl<T> PartialEq for Id<T> {
    fn eq(&self, other: &Self) -> (r: bool) {
        self.id == other.id
    }
}

impl<T> PartialEqSpecImpl for Id<T> {
    open spec fn obeys_eq_spec() -> bool {
        true
    }

    open spec fn eq_spec(&self, other: &Self) -> bool {
        self.id == other.id
    }
}

impl<T> Eq for Id<T> {}

/// Append-only container; items are never removed, so an index stays valid.
#[derive(Debug)]
pub struct Arena<T> {
    items: Vec<T>,
}

impl<T> View for Arena<T> {
    type V = Seq<T>;

    closed spec fn view(&self) -> Seq<T> {
        self.items@
    }
}

impl<T> Default for Arena<T> {
    fn default() -> (r: Self)
        ensures
            r@ == Seq::<T>::empty(),
    {
        Arena::new()
    }
}

impl<T> Arena<T> {
    /// An arena holds no more items than an index can count.
    pub proof fn lemma_len(&self)
        ensures
            self@.len() <= usize::MAX,
    {
        assert(self.items@.len() == self.items.len());
    }

    pub fn new() -> (r: Self)
        ensures
            r@ == Seq::<T>::empty(),
    {
        Arena { items: Vec::new() }
    }

    pub fn allocate(&mut self, item: T) -> (r: Id<T>)
        ensures
            final(self)@ == old(self)@.push(item),
            r.id == old(self)@.len(),
    {
        let id = Id::new(self.items.len());
        self.items.push(item);
        id
    }

    pub fn get(&self, id: &Id<T>) -> (r: &T)
        requires
            id.id < self@.len(),
        ensures
            *r == self@[id.id as int],
    {
        &self.items[id.id]
    }

    pub fn get_mut(&mut self, id: &Id<T>) -> (r: &mut T)
        requires
            id.id < old(self)@.len(),
        ensures
            *r == old(self)@[id.id as int],
            final(self)@ == old(self)@.update(id.id as int, *final(r)),
    {
        &mut self.items[id.id]
    }

    /// The items in the order of their indices.
    pub fn iter(&self) -> (r: Vec<&T>)
        ensures
            r@.len() == self@.len(),
            forall|i: int| 0 <= i < r@.len() ==> *(#[trigger] r@[i]) == self@[i],
    {
        let mut out: Vec<&T> = Vec::new();
        let mut i: usize = 0;
        while i < self.items.len()
            invariant
                i <= self.items@.len(),
                out@.len() == i,
                forall|k: int| 0 <= k < i ==> *(#[trigger] out@[k]) == self.items@[k],
            decreases self.items@.len() - i,
        {
            out.push(&self.items[i]);
            i += 1;
        }
        out
    }

    /// Every item with its index, in the order of the indices.
    pub fn iter_with_ids(&self) -> (r: Vec<(Id<T>, &T)>)
        ensures
            r@.len() == self@.len(),
            forall|i: int| 0 <= i < r@.len() ==> (#[trigger] r@[i]).0.id == i && *r@[i].1 == self@[i],
    {
        let mut out: Vec<(Id<T>, &T)> = Vec::new();
        let mut i: usize = 0;
        while i < self.items.len()
            invariant
                i <= self.items@.len(),
                out@.len() == i,
                forall|k: int| 0 <= k < i ==> (#[trigger] out@[k]).0.id == k && *out@[k].1 == self.items@[k],
            decreases self.items@.len() - i,
        {
            out.push((Id::new(i), &self.items[i]));
            i += 1;
        }
        out
    }

    pub fn len(&self) -> (r: usize)
        ensures
            r == self@.len(),
    {
        self.items.len()
    }

    pub fn is_empty(&self) -> (r: bool)
        ensures
            r == (self@.len() == 0),
    {
        self.items.len() == 0
    }
}

} // verus!

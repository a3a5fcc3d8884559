//! A growable list that keeps its own account of capacity: room for four
//! elements at first, and twice the room whenever it is full.

use vstd::prelude::*;

verus! {

/// A growable list.
pub struct MyVec<T> {
    items: Vec<T>,
    capacity: usize,
}

/// The capacity after a push onto a list of `len` elements with room for `capacity`.
pub open spec fn grown(len: nat, capacity: nat) -> nat {
    if capacity == 0 {
        4
    } else if len < capacity {
        capacity
    } else {
        2 * capacity
    }
}

impl<T> MyVec<T> {
    /// There is never less room than there are elements.
    #[verifier::type_invariant]
    closed spec fn within_room(&self) -> bool {
        self.items@.len() <= self.capacity
    }

    /// The elements, in the order in which they were pushed.
    pub closed spec fn view(&self) -> Seq<T> {
        self.items@
    }

    /// The number of elements there is room for.
    pub closed spec fn room(&self) -> nat {
        self.capacity as nat
    }

    /// An empty list, without room for any element yet.
    pub fn new() -> (v: Self)
        ensures
            v.view().len() == 0,
            v.room() == 0,
    {
        Self { items: Vec::new(), capacity: 0 }
    }

    /// Appends `item`, making room first if the list is full.
    ///
    /// Elements of size zero are not stored, and the doubled capacity must
    /// fit the machine word.
    pub fn push(&mut self, item: T)
        requires
            vstd::layout::size_of::<T>() != 0,
            grown(old(self).view().len(), old(self).room()) <= usize::MAX,
        ensures
            final(self).view() == old(self).view().push(item),
            final(self).room() == grown(old(self).view().len(), old(self).room()),
            final(self).view().len() <= final(self).room(),
    {
        proof {
            use_type_invariant(&*self);
        }
        let mut taken = MyVec { items: Vec::new(), capacity: 0 };
        core::mem::swap(self, &mut taken);
        let MyVec { items, capacity } = taken;
        let mut items = items;
        let capacity = if capacity == 0 {
            4
        } else if items.len() < capacity {
            capacity
        } else {
            capacity * 2
        };
        items.push(item);
        *self = MyVec { items, capacity };
    }

    /// The element at place `index`, if there is one.
    pub fn get(&self, index: usize) -> (r: Option<&T>)
        ensures
            index < self.view().len() ==> r == Some(&self.view()[index as int]),
            index >= self.view().len() ==> r is None,
    {
        if index >= self.items.len() {
            return None;
        }
        Some(&self.items[index])
    }

    /// The number of elements there is room for.
    pub fn capacity(&self) -> (n: usize)
        ensures
            n == self.room(),
            self.view().len() <= n,
    {
        proof {
            use_type_invariant(self);
        }
        self.capacity
    }

    /// The number of elements.
    pub fn len(&self) -> (n: usize)
        ensures
            n == self.view().len(),
            n <= self.room(),
    {
        proof {
            use_type_invariant(self);
        }
        self.items.len()
    }
}

} // verus!

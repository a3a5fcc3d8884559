//! A pool of reusable items: what is handed out is always in its fresh state.

use vstd::prelude::*;

verus! {

/// Something that a pool can hold: it can be made, and made fresh again.
pub trait PoolItem: Sized {
    /// Whether the item is in the state in which it is handed out.
    spec fn is_fresh(&self) -> bool;

    /// A fresh item.
    fn new() -> (item: Self)
        ensures
            item.is_fresh(),
    ;

    /// Whether `after` is what resetting this item leaves.
    spec fn resets_to(&self, after: &Self) -> bool;

    /// Makes the item fresh again.
    fn reset(&mut self)
        ensures
            final(self).is_fresh(),
            old(self).resets_to(final(self)),
    ;
}

/// Items waiting to be used again.
pub struct Pool<T> {
    items: Vec<T>,
}

/// An item on loan from a pool.
pub struct PoolGuard<T> {
    inner: T,
}

impl<T> PoolGuard<T> {
    /// The item on loan.
    pub closed spec fn item(&self) -> T {
        self.inner
    }
}

impl<T> core::ops::Deref for PoolGuard<T> {
    type Target = T;

    fn deref(&self) -> (r: &T)
        ensures
            *r == self.item(),
    {
        &self.inner
    }
}

impl<T> core::ops::DerefMut for PoolGuard<T> {
    fn deref_mut(&mut self) -> (r: &mut T)
        ensures
            *r == old(self).item(),
            final(self).item() == *final(r),
    {
        &mut self.inner
    }
}

impl<T: PoolItem> Pool<T> {
    /// The waiting items, the next to be handed out last.
    pub closed spec fn view(&self) -> Seq<T> {
        self.items@
    }

    /// Whether every waiting item is fresh.
    pub open spec fn all_fresh(&self) -> bool {
        forall|i: int| 0 <= i < self.view().len() ==> (#[trigger] self.view()[i]).is_fresh()
    }

    /// An empty pool.
    pub fn new() -> (pool: Self)
        ensures
            pool.view().len() == 0,
            pool.all_fresh(),
    {
        Self { items: Vec::new() }
    }

    /// Lends an item: the one that was returned last, or a new one if none is waiting.
    pub fn get(&mut self) -> (guard: PoolGuard<T>)
        requires
            old(self).all_fresh(),
        ensures
            final(self).all_fresh(),
            guard.item().is_fresh(),
            old(self).view().len() > 0 ==> guard.item() == old(self).view().last(),
            old(self).view().len() > 0 ==> final(self).view() == old(self).view().drop_last(),
            old(self).view().len() == 0 ==> final(self).view() == old(self).view(),
    {
        let item = match self.items.pop() {
            Some(item) => item,
            None => T::new(),
        };
        PoolGuard { inner: item }
    }

    /// Takes an item back: the guard's own item is reset and waits, last in
    /// line, to be lent again.
    pub fn put(&mut self, guard: PoolGuard<T>)
        requires
            old(self).all_fresh(),
        ensures
            final(self).all_fresh(),
            final(self).view().len() == old(self).view().len() + 1,
            final(self).view().drop_last() == old(self).view(),
            guard.item().resets_to(&final(self).view().last()),
    {
        let mut item = guard.inner;
        item.reset();
        self.items.push(item);
        assert(self.items@.drop_last() =~= old(self).items@);
        assert forall|i: int| 0 <= i < self.view().len() implies (#[trigger] self.view()[i]).is_fresh() by {
            if i < old(self).view().len() {
                assert(self.view()[i] == old(self).view()[i]);
            }
        }
    }
}

} // verus!

//! Sequences that an anchor can gather outputs in.

use crate::collections::persistent::{vector_push, vector_set, vector_view, vector_with_pool, POOL_LIMIT};
use im_rc::Vector;
use smallvec::SmallVec;
use vstd::prelude::*;

verus! {

/// A sequence that is filled from its start to its end.
pub trait Sequence<T>: Sized {
    spec fn items(&self) -> Seq<T>;

    /// An empty sequence, that may keep up to `pool_size` blocks of memory for itself.
    fn with_pool(pool_size: usize) -> (sequence: Self)
        requires
            pool_size <= POOL_LIMIT,
        ensures
            sequence.items() == Seq::<T>::empty(),
    ;

    fn push_item(&mut self, item: T)
        ensures
            final(self).items() == old(self).items().push(item),
    ;

    fn set_item(&mut self, k: usize, item: T)
        requires
            k < old(self).items().len(),
        ensures
            final(self).items() == old(self).items().update(k as int, item),
    ;
}

impl<T> Sequence<T> for Vec<T> {
    open spec fn items(&self) -> Seq<T> {
        self@
    }

    fn with_pool(pool_size: usize) -> (sequence: Self) {
        Vec::new()
    }

    fn push_item(&mut self, item: T) {
        self.push(item);
    }

    fn set_item(&mut self, k: usize, item: T) {
        self.set(k, item);
    }
}

impl Sequence<usize> for Vector<usize> {
    open spec fn items(&self) -> Seq<usize> {
        vector_view(*self)
    }

    fn with_pool(pool_size: usize) -> (sequence: Self) {
        vector_with_pool(pool_size)
    }

    fn push_item(&mut self, item: usize) {
        vector_push(self, item);
    }

    fn set_item(&mut self, k: usize, item: usize) {
        vector_set(self, k, item);
    }
}

/// A vector whose first three items need no memory of their own.
#[verifier::external_body]
pub struct Small {
    inner: SmallVec<[usize; 3]>,
}

/// What a small vector holds.
pub uninterp spec fn small_view(small: Small) -> Seq<usize>;

/// `smallvec::SmallVec::new`: an empty vector.
#[verifier::external_body]
pub(crate) fn small_new() -> (small: Small)
    ensures
        small_view(small) == Seq::<usize>::empty(),
{
    Small { inner: SmallVec::new() }
}

/// `smallvec::SmallVec::push`: puts an item at the end.
#[verifier::external_body]
pub(crate) fn small_push(small: &mut Small, item: usize)
    ensures
        small_view(*final(small)) == small_view(*old(small)).push(item),
{
    small.inner.push(item)
}

/// `to_vec` of the slice that a `smallvec::SmallVec` dereferences to: its items, from the first to the last.
#[verifier::external_body]
fn small_to_vec(small: &Small) -> (items: Vec<usize>)
    ensures
        items@ == small_view(*small),
{
    small.inner.to_vec()
}

impl Clone for Small {
    fn clone(&self) -> (small: Self)
        ensures
            small_view(small) == small_view(*self),
    {
        let items: Vec<usize> = self.to_vec();
        let mut small: Small = small_new();
        let mut k: usize = 0;
        while k < items.len()
            invariant
                k <= items@.len(),
                small_view(small) == items@.take(k as int),
            decreases items@.len() - k,
        {
            small_push(&mut small, items[k]);
            assert(items@.take(k as int + 1) =~= items@.take(k as int).push(items@[k as int]));
            k = k + 1;
        }
        assert(items@.take(k as int) =~= items@);
        small
    }
}

impl Small {
    /// The items, from the first to the last.
    pub fn to_vec(&self) -> (items: Vec<usize>)
        ensures
            items@ == small_view(*self),
    {
        small_to_vec(self)
    }
}

} // verus!

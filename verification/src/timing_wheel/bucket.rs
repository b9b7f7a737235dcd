//! Buckets: the containers that hold the items of one position of one level.

use vstd::prelude::*;
use std::collections::VecDeque;

verus! {

/// The items of a bucket after `i` has entered: at the end, where `pop`
/// takes it first, in a stack; at the front in a queue.
pub open spec fn with_item<A>(items: Seq<A>, i: A, stack: bool) -> Seq<A> {
    if stack {
        items.push(i)
    } else {
        seq![i] + items
    }
}

/// What a level asks of its buckets: push, pop and size.
///
/// A bucket is a sequence of items; `pop` takes the last one, and `push`
/// puts the new item at one of the two ends, so a bucket is either a stack
/// or a queue. A fresh bucket, as `Default` makes it, is empty.
pub trait SlotLike: Sized + Default {
    type Item;

    /// The items in the bucket, the next one to pop last.
    spec fn items(&self) -> Seq<Self::Item>;

    /// Whether the buckets of this type are stacks, and not queues.
    spec fn is_stack() -> bool;

    /// What holds of every bucket that the operations below have produced.
    spec fn inv(&self) -> bool;

    /// Whether the bucket accepts one more item.
    spec fn has_room(&self) -> bool;

    /// A bucket that `Default` has made is valid and empty.
    proof fn lemma_default_is_empty(fresh: Self)
        requires
            call_ensures(<Self as Default>::default, (), fresh),
        ensures
            fresh.inv(),
            fresh.items().len() == 0,
    ;

    /// All buckets of one type have the same capacity: a bucket that holds
    /// fewer items than another one has room.
    proof fn lemma_room_below(&self, other: &Self)
        requires
            self.inv(),
            other.inv(),
            self.items().len() < other.items().len(),
        ensures
            self.has_room(),
    ;

    /// Adds `i`, or hands it back when the bucket has no room.
    fn push(&mut self, i: Self::Item) -> (r: Result<(), Self::Item>)
        requires
            old(self).inv(),
        ensures
            final(self).inv(),
            r is Ok <==> old(self).has_room(),
            r is Ok ==> final(self).items() == with_item(old(self).items(), i, Self::is_stack()),
            r is Err ==> r == Err::<(), Self::Item>(i) && final(self).items() == old(self).items(),
    ;

    /// Takes the last item out, if there is one.
    fn pop(&mut self) -> (r: Option<Self::Item>)
        requires
            old(self).inv(),
        ensures
            final(self).inv(),
            old(self).items().len() == 0 ==> r is None && final(self).items() == old(self).items(),
            old(self).items().len() > 0 ==> r == Some(old(self).items().last())
                && final(self).items() == old(self).items().drop_last(),
    ;

    /// The number of items in the bucket.
    fn size(&self) -> (n: usize)
        requires
            self.inv(),
        ensures
            n == self.items().len(),
    ;
}

/// A bucket that holds at most `N` items and hands them out last in, first
/// out.
pub struct BoundedSlot<T, const N: usize> {
    storage: Vec<T>,
}

impl<T, const N: usize> Default for BoundedSlot<T, N> {
    fn default() -> (fresh: Self)
        ensures
            fresh.inv(),
            fresh.items() == Seq::<T>::empty(),
    {
        BoundedSlot { storage: Vec::new() }
    }
}

impl<T, const N: usize> SlotLike for BoundedSlot<T, N> {
    type Item = T;

    closed spec fn items(&self) -> Seq<T> {
        self.storage@
    }

    open spec fn is_stack() -> bool {
        true
    }

    open spec fn inv(&self) -> bool {
        self.items().len() <= N
    }

    open spec fn has_room(&self) -> bool {
        self.items().len() < N
    }

    proof fn lemma_default_is_empty(fresh: Self) {
    }

    proof fn lemma_room_below(&self, other: &Self) {
    }

    fn push(&mut self, i: T) -> (r: Result<(), T>) {
        if self.storage.len() == N {
            return Err(i);
        }
        self.storage.push(i);
        Ok(())
    }

    fn pop(&mut self) -> (r: Option<T>) {
        self.storage.pop()
    }

    fn size(&self) -> (n: usize) {
        self.storage.len()
    }
}

/// A double-ended buffer as a bucket without a bound: items enter at the
/// front and leave at the back, first in, first out.
impl<T> SlotLike for VecDeque<T> {
    type Item = T;

    open spec fn items(&self) -> Seq<T> {
        self@
    }

    open spec fn is_stack() -> bool {
        false
    }

    open spec fn inv(&self) -> bool {
        true
    }

    open spec fn has_room(&self) -> bool {
        true
    }

    proof fn lemma_default_is_empty(fresh: Self) {
    }

    proof fn lemma_room_below(&self, other: &Self) {
    }

    fn push(&mut self, i: T) -> (r: Result<(), T>) {
        self.push_front(i);
        Ok(())
    }

    fn pop(&mut self) -> (r: Option<T>) {
        self.pop_back()
    }

    fn size(&self) -> (n: usize) {
        self.len()
    }
}

} // verus!

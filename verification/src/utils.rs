//! Placing objects on a heap, and sharing them.

use vstd::prelude::*;

use crate::heap::{Heap, DUMMY, NULL};

verus! {

/// Place an object on the heap.
pub fn allocate<T>(heap: &mut Heap<T>, object: T) -> (ptr: usize)
    requires
        old(heap).wf(),
    ensures
        final(heap).wf(),
        ptr != NULL,
        ptr != DUMMY,
        !old(heap)@.contains_key(ptr),
        final(heap)@ == old(heap)@.insert(ptr, object),
{
    heap.insert(object)
}

/// Free what is at the given address of the heap.
pub fn free<T>(heap: &mut Heap<T>, ptr: usize)
    requires
        old(heap).wf(),
        old(heap)@.contains_key(ptr),
    ensures
        final(heap).wf(),
        final(heap)@ == old(heap)@.remove(ptr),
{
    heap.remove(ptr);
}

/// Gives out nothing but shared references to the value that it holds.
pub struct SharedCell<T>(T);

impl<T> View for SharedCell<T> {
    type V = T;

    /// The value held.
    closed spec fn view(&self) -> T {
        self.0
    }
}

impl<T> SharedCell<T> {
    /// A cell that holds the given value.
    pub fn new(value: T) -> (cell: Self)
        ensures
            cell@ == value,
    {
        SharedCell(value)
    }

    /// A shared reference to the value.
    pub fn get(&self) -> (value: &T)
        ensures
            *value == self@,
    {
        &self.0
    }
}

} // verus!

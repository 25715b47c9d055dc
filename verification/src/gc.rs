//! A writer and its readers, each of which leads to a value on the heap.

use std::marker::PhantomData;

use vstd::prelude::*;

use crate::hazard::{may_acquire, Domain};
use crate::heap::{Heap, DUMMY, NULL};
use crate::interleaving::Task;
use crate::operations::takes_steps;
use crate::utils::allocate;
use crate::value::HzrdValue;

verus! {

/// What a writer and its readers share.
pub struct Inner<T> {
    core: HzrdValue<T>,
    writer: bool,
}

impl<T> Inner<T> {
    /// The value is well-formed.
    pub closed spec fn wf(&self) -> bool {
        self.core.wf()
    }

    /// The value, and the pointers that protect it.
    pub closed spec fn guarded_value(&self) -> HzrdValue<T> {
        self.core
    }

    /// Whether there is a writer.
    pub closed spec fn has_writer(&self) -> bool {
        self.writer
    }
}

/// Leads to a value that can be written.
pub struct HzrdWriter<T> {
    inner: usize,
    marker: PhantomData<T>,
}

/// Leads to a value that can be read.
pub struct HzrdReader<T> {
    inner: usize,
    hzrd_ptr: usize,
    marker: PhantomData<T>,
}

impl<T> HzrdWriter<T> {
    /// The address of the value on the heap.
    pub closed spec fn addr(&self) -> usize {
        self.inner
    }

    /// Place a value on the heap.
    pub fn new(value: T, heap: &mut Heap<Inner<T>>) -> (writer: Self)
        requires
            old(heap).wf(),
        ensures
            final(heap).wf(),
            !old(heap)@.contains_key(writer.addr()),
            ({
                let inner = final(heap)@[writer.addr()];
                &&& final(heap)@ == old(heap)@.insert(writer.addr(), inner)
                &&& inner.wf()
                &&& inner.has_writer()
                &&& inner.guarded_value().value() == value
                &&& inner.guarded_value().state().words == Map::<usize, usize>::empty()
                &&& inner.guarded_value().state().garbage == Set::<usize>::empty()
                &&& inner.guarded_value().state().no_leaks()
                &&& inner.guarded_value().state().cells.dom() == Set::<usize>::empty().insert(
                    inner.guarded_value().location(),
                )
                &&& inner.guarded_value().ptrs().ids() == Seq::<usize>::empty()
                &&& inner.guarded_value().ptrs().retired() == Seq::<usize>::empty()
            }),
    {
        HzrdWriter::from(Box::new(value), heap)
    }

    /// Place a boxed value on the heap.
    pub fn from(boxed: Box<T>, heap: &mut Heap<Inner<T>>) -> (writer: Self)
        requires
            old(heap).wf(),
        ensures
            final(heap).wf(),
            !old(heap)@.contains_key(writer.addr()),
            ({
                let inner = final(heap)@[writer.addr()];
                &&& final(heap)@ == old(heap)@.insert(writer.addr(), inner)
                &&& inner.wf()
                &&& inner.has_writer()
                &&& inner.guarded_value().value() == *boxed
                &&& inner.guarded_value().state().words == Map::<usize, usize>::empty()
                &&& inner.guarded_value().state().garbage == Set::<usize>::empty()
                &&& inner.guarded_value().state().no_leaks()
                &&& inner.guarded_value().state().cells.dom() == Set::<usize>::empty().insert(
                    inner.guarded_value().location(),
                )
                &&& inner.guarded_value().ptrs().ids() == Seq::<usize>::empty()
                &&& inner.guarded_value().ptrs().retired() == Seq::<usize>::empty()
            }),
    {
        let inner = Inner { core: HzrdValue::new(boxed), writer: true };
        HzrdWriter { inner: allocate(heap, inner), marker: PhantomData }
    }
}

impl<T> HzrdReader<T> {
    /// The address of the value on the heap.
    pub closed spec fn addr(&self) -> usize {
        self.inner
    }

    /// The hazard pointer of the reader.
    pub closed spec fn id(&self) -> usize {
        self.hzrd_ptr
    }

    /// A reader for the value of the given writer.
    pub fn from_writer(writer: &HzrdWriter<T>, heap: &mut Heap<Inner<T>>) -> (reader: Self)
        requires
            old(heap).wf(),
            old(heap)@.contains_key(writer.addr()),
            old(heap)@[writer.addr()].wf(),
        ensures
            final(heap).wf(),
            reader.addr() == writer.addr(),
            ({
                let before = old(heap)@[writer.addr()];
                let after = final(heap)@[writer.addr()];
                &&& final(heap)@ == old(heap)@.insert(writer.addr(), after)
                &&& after.wf()
                &&& after.has_writer() == before.has_writer()
                &&& may_acquire(before.guarded_value().state().words, reader.id())
                &&& after.guarded_value().location() == before.guarded_value().location()
                &&& after.guarded_value().ptrs().acquired_from(
                    &before.guarded_value().ptrs(),
                    reader.id(),
                )
                &&& after.guarded_value().state() == before.guarded_value().state().held(
                    reader.id(),
                    DUMMY,
                )
                &&& takes_steps(
                    before.guarded_value().state(),
                    None,
                    after.guarded_value().state(),
                    Some(Task::Owner { id: reader.id() }),
                )
            }),
    {
        let hzrd_ptr = heap.get_mut(writer.inner).core.hzrd_ptr();
        HzrdReader { inner: writer.inner, hzrd_ptr, marker: PhantomData }
    }

    /// Drop the reader, and with it give its hazard pointer up.
    pub fn drop(self, heap: &mut Heap<Inner<T>>)
        requires
            old(heap).wf(),
            old(heap)@.contains_key(self.addr()),
            old(heap)@[self.addr()].wf(),
            old(heap)@[self.addr()].guarded_value().state().words.contains_key(self.id()),
        ensures
            final(heap).wf(),
            ({
                let before = old(heap)@[self.addr()];
                let after = final(heap)@[self.addr()];
                &&& final(heap)@ == old(heap)@.insert(self.addr(), after)
                &&& after.wf()
                &&& after.has_writer() == before.has_writer()
                &&& after.guarded_value().location() == before.guarded_value().location()
                &&& after.guarded_value().ptrs().keeps(&before.guarded_value().ptrs())
                &&& after.guarded_value().state() == before.guarded_value().state().held(
                    self.id(),
                    NULL,
                )
                &&& takes_steps(
                    before.guarded_value().state(),
                    Some(Task::Owner { id: self.id() }),
                    after.guarded_value().state(),
                    None,
                )
            }),
    {
        heap.get_mut(self.inner).core.free(self.hzrd_ptr);
    }
}

} // verus!

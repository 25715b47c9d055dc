//! Cells that are cloned to be shared.
//!
//! Every clone of a [`HzrdCell`] leads to the same value, and has a hazard pointer of its own to read
//! it with. The value goes away with the last clone.
//!
//! Clones may be used by several parties at once. Each of the operations is made of steps, as its
//! contract says, between which the steps of other clones may come: [`HzrdCell::begin_read`],
//! [`HzrdCell::protect`] and [`HzrdCell::validate`] are the steps of a read, and
//! [`HzrdCell::begin_set`] and [`HzrdCell::finish_set`] the halves of a write.

use std::marker::PhantomData;

use vstd::prelude::*;

use crate::hazard::{cleared_from, may_acquire, Action, Domain, Read, ReadHandle, RetiredPtr};
use crate::heap::{Heap, DUMMY, NULL};
use crate::interleaving::Task;
use crate::operations::takes_steps;
use crate::pair::all_available;
use crate::utils::{allocate, free};
use crate::value::HzrdValue;

verus! {

/// Holds a value that can be shared, and mutated, through its clones.
pub struct HzrdCell<T> {
    value: usize,
    hzrd_ptr: usize,
    marker: PhantomData<T>,
}

/// Nothing has changed on the heap but the value at the given address.
pub open spec fn changed_at<T>(
    before: Map<usize, HzrdValue<T>>,
    after: Map<usize, HzrdValue<T>>,
    addr: usize,
) -> bool {
    &&& after == before.insert(addr, after[addr])
    &&& after[addr].wf()
    &&& after[addr].location() == before[addr].location()
}

impl<T> HzrdCell<T> {
    /// The address of the value on the heap.
    pub closed spec fn addr(&self) -> usize {
        self.value
    }

    /// The hazard pointer of this clone.
    pub closed spec fn id(&self) -> usize {
        self.hzrd_ptr
    }

    /// The value is on the heap, and this clone owns one of its hazard pointers.
    pub open spec fn shares(&self, heap: Map<usize, HzrdValue<T>>) -> bool {
        &&& heap.contains_key(self.addr())
        &&& heap[self.addr()].wf()
        &&& heap[self.addr()].state().words.contains_key(self.id())
        &&& heap[self.addr()].state().words[self.id()] != NULL
    }

    /// The current value of the cell.
    pub open spec fn value(&self, heap: Map<usize, HzrdValue<T>>) -> T {
        heap[self.addr()].value()
    }

    /// Construct a new [`HzrdCell`] with the given value.
    pub fn new(val: T, heap: &mut Heap<HzrdValue<T>>) -> (cell: Self)
        requires
            old(heap).wf(),
        ensures
            final(heap).wf(),
            !old(heap)@.contains_key(cell.addr()),
            final(heap)@ == old(heap)@.insert(cell.addr(), final(heap)@[cell.addr()]),
            cell.shares(final(heap)@),
            cell.value(final(heap)@) == val,
            final(heap)@[cell.addr()].state().words == Map::<usize, usize>::empty().insert(
                cell.id(),
                DUMMY,
            ),
            final(heap)@[cell.addr()].state().garbage == Set::<usize>::empty(),
            final(heap)@[cell.addr()].state().no_leaks(),
            final(heap)@[cell.addr()].state().cells.dom() == Set::<usize>::empty().insert(
                final(heap)@[cell.addr()].location(),
            ),
            final(heap)@[cell.addr()].ptrs().ids() == seq![cell.id()],
            final(heap)@[cell.addr()].ptrs().retired() == Seq::<usize>::empty(),
    {
        HzrdCell::from(Box::new(val), heap)
    }

    /// Construct a new [`HzrdCell`] from a boxed value.
    pub fn from(boxed: Box<T>, heap: &mut Heap<HzrdValue<T>>) -> (cell: Self)
        requires
            old(heap).wf(),
        ensures
            final(heap).wf(),
            !old(heap)@.contains_key(cell.addr()),
            final(heap)@ == old(heap)@.insert(cell.addr(), final(heap)@[cell.addr()]),
            cell.shares(final(heap)@),
            cell.value(final(heap)@) == *boxed,
            final(heap)@[cell.addr()].state().words == Map::<usize, usize>::empty().insert(
                cell.id(),
                DUMMY,
            ),
            final(heap)@[cell.addr()].state().garbage == Set::<usize>::empty(),
            final(heap)@[cell.addr()].state().no_leaks(),
            final(heap)@[cell.addr()].state().cells.dom() == Set::<usize>::empty().insert(
                final(heap)@[cell.addr()].location(),
            ),
            final(heap)@[cell.addr()].ptrs().ids() == seq![cell.id()],
            final(heap)@[cell.addr()].ptrs().retired() == Seq::<usize>::empty(),
    {
        let mut value = HzrdValue::new(boxed);
        let hzrd_ptr = value.hzrd_ptr();
        assert(value.ptrs().ids() =~= seq![hzrd_ptr]);
        HzrdCell { value: allocate(heap, value), hzrd_ptr, marker: PhantomData }
    }

    /// Set the value of the cell.
    pub fn set(&self, heap: &mut Heap<HzrdValue<T>>, val: T)
        requires
            old(heap).wf(),
            self.shares(old(heap)@),
        ensures
            final(heap).wf(),
            changed_at(old(heap)@, final(heap)@, self.addr()),
            cleared_from(
                &final(heap)@[self.addr()].ptrs(),
                &old(heap)@[self.addr()].ptrs(),
                old(heap)@[self.addr()].state().cells[old(heap)@[self.addr()].location()],
            ),
            self.shares(final(heap)@),
            self.value(final(heap)@) == val,
            ({
                let before = old(heap)@[self.addr()];
                let after = final(heap)@[self.addr()];
                let ptr = after.state().cells[after.location()];
                &&& !before.state().values.contains_key(ptr)
                &&& after.state() == before.state().replaced(
                    before.location(),
                    ptr,
                    val,
                ).reclaimed()
                &&& takes_steps(before.state(), None, after.state(), None)
            }),
    {
        let boxed = Box::new(val);
        heap.get_mut(self.value).set(boxed);
    }

    /// Set the value of the cell, without reclaiming memory.
    pub fn just_set(&self, heap: &mut Heap<HzrdValue<T>>, val: T)
        requires
            old(heap).wf(),
            self.shares(old(heap)@),
        ensures
            final(heap).wf(),
            changed_at(old(heap)@, final(heap)@, self.addr()),
            final(heap)@[self.addr()].ptrs().retired_from(
                &old(heap)@[self.addr()].ptrs(),
                old(heap)@[self.addr()].state().cells[old(heap)@[self.addr()].location()],
            ),
            self.shares(final(heap)@),
            self.value(final(heap)@) == val,
            ({
                let before = old(heap)@[self.addr()];
                let after = final(heap)@[self.addr()];
                let ptr = after.state().cells[after.location()];
                &&& !before.state().values.contains_key(ptr)
                &&& after.state() == before.state().replaced(before.location(), ptr, val)
                &&& takes_steps(before.state(), None, after.state(), None)
            }),
    {
        let boxed = Box::new(val);
        heap.get_mut(self.value).just_set(boxed);
    }

    /// First half of setting the value: swap out the old one. It has to be retired.
    pub fn begin_set(&self, heap: &mut Heap<HzrdValue<T>>, val: T) -> (retired: RetiredPtr)
        requires
            old(heap).wf(),
            self.shares(old(heap)@),
        ensures
            final(heap).wf(),
            changed_at(old(heap)@, final(heap)@, self.addr()),
            final(heap)@[self.addr()].ptrs() == old(heap)@[self.addr()].ptrs(),
            self.shares(final(heap)@),
            self.value(final(heap)@) == val,
            ({
                let before = old(heap)@[self.addr()];
                let after = final(heap)@[self.addr()];
                let ptr = after.state().cells[after.location()];
                &&& !before.state().values.contains_key(ptr)
                &&& after.state() == before.state().allocated(ptr, val).written(
                    before.location(),
                    ptr,
                )
                &&& retired@ == before.state().cells[before.location()]
                &&& after.state().private(retired@)
                &&& takes_steps(
                    before.state(),
                    None,
                    after.state(),
                    Some(Task::Private { ptr: retired@ }),
                )
            }),
    {
        heap.get_mut(self.value).begin_set(Box::new(val))
    }

    /// Second half of setting the value: retire the old one, and reclaim memory.
    pub fn finish_set(&self, heap: &mut Heap<HzrdValue<T>>, retired: RetiredPtr)
        requires
            old(heap).wf(),
            self.shares(old(heap)@),
            old(heap)@[self.addr()].state().private(retired@),
        ensures
            final(heap).wf(),
            changed_at(old(heap)@, final(heap)@, self.addr()),
            cleared_from(
                &final(heap)@[self.addr()].ptrs(),
                &old(heap)@[self.addr()].ptrs(),
                retired@,
            ),
            self.shares(final(heap)@),
            ({
                let before = old(heap)@[self.addr()];
                let after = final(heap)@[self.addr()];
                &&& after.state() == before.state().retired(retired@).reclaimed()
                &&& takes_steps(
                    before.state(),
                    Some(Task::Private { ptr: retired@ }),
                    after.state(),
                    None,
                )
            }),
    {
        heap.get_mut(self.value).finish_set(retired);
    }

    /// First step of a read: load the address of the value.
    pub fn begin_read(&mut self, heap: &Heap<HzrdValue<T>>) -> (read: Read)
        requires
            heap.wf(),
            old(self).shares(heap@),
        ensures
            *final(self) == *old(self),
            read.cell() == heap@[old(self).addr()].location(),
            read.id() == old(self).id(),
            read.ptr() == heap@[old(self).addr()].state().cells[read.cell()],
            read.ptr() != NULL,
            takes_steps(
                heap@[old(self).addr()].state(),
                Some(Task::Owner { id: read.id() }),
                heap@[old(self).addr()].state(),
                Some(Task::Loaded { cell: read.cell(), id: read.id(), ptr: read.ptr() }),
            ),
    {
        heap.get(self.value).begin_read(self.hzrd_ptr)
    }

    /// Second step of a read: let the hazard pointer hold the address that was loaded.
    pub fn protect(&self, read: &Read, heap: &mut Heap<HzrdValue<T>>)
        requires
            old(heap).wf(),
            self.shares(old(heap)@),
            read.id() == self.id(),
            read.ptr() != NULL,
        ensures
            final(heap).wf(),
            changed_at(old(heap)@, final(heap)@, self.addr()),
            final(heap)@[self.addr()].ptrs().keeps(&old(heap)@[self.addr()].ptrs()),
            self.shares(final(heap)@),
            final(heap)@[self.addr()].state() == old(heap)@[self.addr()].state().held(
                read.id(),
                read.ptr(),
            ),
            takes_steps(
                old(heap)@[self.addr()].state(),
                Some(Task::Loaded { cell: read.cell(), id: read.id(), ptr: read.ptr() }),
                final(heap)@[self.addr()].state(),
                Some(Task::Protected { cell: read.cell(), id: read.id(), ptr: read.ptr() }),
            ),
    {
        heap.get_mut(self.value).protect(read);
    }

    /// Third step of a read: find out whether the address that the hazard pointer holds is still that
    /// of the value. Otherwise the read has to go on with the address of the value now.
    pub fn validate(&self, read: Read, heap: &Heap<HzrdValue<T>>) -> (validated: Result<
        ReadHandle<T>,
        Read,
    >)
        requires
            heap.wf(),
            self.shares(heap@),
            read.cell() == heap@[self.addr()].location(),
        ensures
            validated is Ok <==> heap@[self.addr()].state().cells[read.cell()] == read.ptr(),
            match validated {
                Ok(handle) => {
                    &&& handle.id() == read.id()
                    &&& handle.ptr() == read.ptr()
                    &&& handle.action() == Action::Reset
                },
                Err(again) => {
                    &&& again.cell() == read.cell()
                    &&& again.id() == read.id()
                    &&& again.ptr() == heap@[self.addr()].state().cells[read.cell()]
                    &&& again.ptr() != NULL
                },
            },
            takes_steps(
                heap@[self.addr()].state(),
                Some(Task::Protected { cell: read.cell(), id: read.id(), ptr: read.ptr() }),
                heap@[self.addr()].state(),
                Some(
                    match validated {
                        Ok(handle) => Task::Reading {
                            id: read.id(),
                            ptr: handle.ptr(),
                            action: Action::Reset,
                        },
                        Err(again) => Task::Loaded {
                            cell: read.cell(),
                            id: read.id(),
                            ptr: again.ptr(),
                        },
                    },
                ),
            ),
    {
        heap.get(self.value).validate(read)
    }

    /// Get a handle that leads to the current value of the cell.
    ///
    /// The handle leads to the value as it was when `read` was called.
    pub fn read(&mut self, heap: &mut Heap<HzrdValue<T>>) -> (handle: ReadHandle<T>)
        requires
            old(heap).wf(),
            old(self).shares(old(heap)@),
        ensures
            *final(self) == *old(self),
            final(heap).wf(),
            changed_at(old(heap)@, final(heap)@, old(self).addr()),
            final(heap)@[old(self).addr()].ptrs().keeps(&old(heap)@[old(self).addr()].ptrs()),
            old(self).shares(final(heap)@),
            ({
                let before = old(heap)@[old(self).addr()];
                let after = final(heap)@[old(self).addr()];
                &&& handle.id() == old(self).id()
                &&& handle.ptr() == before.state().cells[before.location()]
                &&& handle.action() == Action::Reset
                &&& handle.live(after.state())
                &&& after.state() == before.state().held(handle.id(), handle.ptr())
                &&& takes_steps(
                    before.state(),
                    Some(Task::Owner { id: old(self).id() }),
                    after.state(),
                    Some(
                        Task::Reading {
                            id: handle.id(),
                            ptr: handle.ptr(),
                            action: Action::Reset,
                        },
                    ),
                )
            }),
    {
        proof {
            old(heap)@[self.value].lemma_state();
        }
        heap.get_mut(self.value).read(self.hzrd_ptr)
    }

    /// Look at a value that was read.
    pub fn deref<'h>(&self, handle: &ReadHandle<T>, heap: &'h Heap<HzrdValue<T>>) -> (value: &'h T)
        requires
            heap.wf(),
            self.shares(heap@),
            handle.live(heap@[self.addr()].state()),
        ensures
            *value == heap@[self.addr()].state().values[handle.ptr()],
    {
        heap.get(self.value).deref(handle)
    }

    /// Let go of a value that was read.
    pub fn done(&self, handle: ReadHandle<T>, heap: &mut Heap<HzrdValue<T>>)
        requires
            old(heap).wf(),
            self.shares(old(heap)@),
            handle.live(old(heap)@[self.addr()].state()),
        ensures
            final(heap).wf(),
            changed_at(old(heap)@, final(heap)@, self.addr()),
            final(heap)@[self.addr()].ptrs().keeps(&old(heap)@[self.addr()].ptrs()),
            final(heap)@[self.addr()].state() == match handle.action() {
                Action::Reset => old(heap)@[self.addr()].state().held(handle.id(), DUMMY),
                Action::Release => old(heap)@[self.addr()].state().held(handle.id(), NULL),
            },
            takes_steps(
                old(heap)@[self.addr()].state(),
                Some(
                    Task::Reading {
                        id: handle.id(),
                        ptr: handle.ptr(),
                        action: handle.action(),
                    },
                ),
                final(heap)@[self.addr()].state(),
                match handle.action() {
                    Action::Reset => Some(Task::Owner { id: handle.id() }),
                    Action::Release => None,
                },
            ),
    {
        heap.get_mut(self.value).done(handle);
    }

    /// Get the value of the cell.
    pub fn get(&mut self, heap: &mut Heap<HzrdValue<T>>) -> (val: T) where T: Copy
        requires
            old(heap).wf(),
            old(self).shares(old(heap)@),
        ensures
            *final(self) == *old(self),
            final(heap).wf(),
            changed_at(old(heap)@, final(heap)@, old(self).addr()),
            final(heap)@[old(self).addr()].ptrs().keeps(&old(heap)@[old(self).addr()].ptrs()),
            old(self).shares(final(heap)@),
            val == old(self).value(old(heap)@),
            final(heap)@[old(self).addr()].state() == old(heap)@[old(self).addr()].state().held(
                old(self).id(),
                DUMMY,
            ),
            takes_steps(
                old(heap)@[old(self).addr()].state(),
                Some(Task::Owner { id: old(self).id() }),
                final(heap)@[old(self).addr()].state(),
                Some(Task::Owner { id: old(self).id() }),
            ),
    {
        heap.get_mut(self.value).get(self.hzrd_ptr)
    }

    /// Read the contained value and clone it.
    pub fn cloned(&mut self, heap: &mut Heap<HzrdValue<T>>) -> (val: T) where T: Clone
        requires
            old(heap).wf(),
            old(self).shares(old(heap)@),
        ensures
            *final(self) == *old(self),
            final(heap).wf(),
            changed_at(old(heap)@, final(heap)@, old(self).addr()),
            final(heap)@[old(self).addr()].ptrs().keeps(&old(heap)@[old(self).addr()].ptrs()),
            old(self).shares(final(heap)@),
            cloned(old(self).value(old(heap)@), val),
            final(heap)@[old(self).addr()].state() == old(heap)@[old(self).addr()].state().held(
                old(self).id(),
                DUMMY,
            ),
            takes_steps(
                old(heap)@[old(self).addr()].state(),
                Some(Task::Owner { id: old(self).id() }),
                final(heap)@[old(self).addr()].state(),
                Some(Task::Owner { id: old(self).id() }),
            ),
    {
        heap.get_mut(self.value).cloned(self.hzrd_ptr)
    }

    /// Reclaim available memory, if possible.
    pub fn reclaim(&self, heap: &mut Heap<HzrdValue<T>>)
        requires
            old(heap).wf(),
            self.shares(old(heap)@),
        ensures
            final(heap).wf(),
            changed_at(old(heap)@, final(heap)@, self.addr()),
            final(heap)@[self.addr()].ptrs().reclaimed_from(&old(heap)@[self.addr()].ptrs()),
            self.shares(final(heap)@),
            final(heap)@[self.addr()].state() == old(heap)@[self.addr()].state().reclaimed(),
            takes_steps(
                old(heap)@[self.addr()].state(),
                None,
                final(heap)@[self.addr()].state(),
                None,
            ),
    {
        heap.get_mut(self.value).reclaim();
    }

    /// Get the number of retired values (aka unfreed memory).
    pub fn num_retired(&self, heap: &Heap<HzrdValue<T>>) -> (number: usize)
        requires
            heap.wf(),
            self.shares(heap@),
        ensures
            number == heap@[self.addr()].state().garbage.len(),
    {
        heap.get(self.value).num_retired()
    }

    /// Another cell that leads to the same value.
    pub fn clone(&self, heap: &mut Heap<HzrdValue<T>>) -> (cell: Self)
        requires
            old(heap).wf(),
            self.shares(old(heap)@),
        ensures
            final(heap).wf(),
            changed_at(old(heap)@, final(heap)@, self.addr()),
            final(heap)@[self.addr()].ptrs().acquired_from(
                &old(heap)@[self.addr()].ptrs(),
                cell.id(),
            ),
            cell.addr() == self.addr(),
            cell.id() != self.id(),
            may_acquire(old(heap)@[self.addr()].state().words, cell.id()),
            final(heap)@[self.addr()].state() == old(heap)@[self.addr()].state().held(
                cell.id(),
                DUMMY,
            ),
            takes_steps(
                old(heap)@[self.addr()].state(),
                None,
                final(heap)@[self.addr()].state(),
                Some(Task::Owner { id: cell.id() }),
            ),
            self.shares(final(heap)@),
            cell.shares(final(heap)@),
    {
        let hzrd_ptr = heap.get_mut(self.value).hzrd_ptr();
        HzrdCell { value: self.value, hzrd_ptr, marker: PhantomData }
    }

    /// Drop the cell, and along with it the value if no other clone is left.
    pub fn drop(self, heap: &mut Heap<HzrdValue<T>>)
        requires
            old(heap).wf(),
            self.shares(old(heap)@),
        ensures
            final(heap).wf(),
            ({
                let before = old(heap)@[self.addr()];
                let left = before.state().held(self.id(), NULL);
                if all_available(left.words) {
                    final(heap)@ == old(heap)@.remove(self.addr())
                } else {
                    &&& changed_at(old(heap)@, final(heap)@, self.addr())
                    &&& final(heap)@[self.addr()].ptrs().keeps(&before.ptrs())
                    &&& final(heap)@[self.addr()].state() == left
                    &&& takes_steps(
                        before.state(),
                        Some(Task::Owner { id: self.id() }),
                        left,
                        None,
                    )
                }
            }),
    {
        heap.get_mut(self.value).free(self.hzrd_ptr);
        let should_drop_inner = heap.get(self.value).all_available();
        if should_drop_inner {
            free(heap, self.value);
            assert(heap@ =~= old(heap)@.remove(self.value));
        }
    }
}

/// The value stays for as long as a clone is left: dropping one of two cells that lead to it does not
/// free it.
pub proof fn lemma_shared_value_stays<T>(
    heap: Map<usize, HzrdValue<T>>,
    cell: HzrdCell<T>,
    other: HzrdCell<T>,
)
    requires
        cell.shares(heap),
        other.shares(heap),
        cell.addr() == other.addr(),
        cell.id() != other.id(),
    ensures
        !all_available(heap[cell.addr()].state().held(cell.id(), NULL).words),
{
    let words = heap[cell.addr()].state().held(cell.id(), NULL).words;
    assert(words.contains_key(other.id()) && words[other.id()] != NULL);
}

/// The value goes away with the last clone: dropping a cell frees the value if every other hazard
/// pointer was given up.
pub proof fn lemma_last_clone_frees<T>(heap: Map<usize, HzrdValue<T>>, cell: HzrdCell<T>)
    requires
        cell.shares(heap),
        forall|id: usize|
            #[trigger] heap[cell.addr()].state().words.contains_key(id) && id != cell.id()
                ==> heap[cell.addr()].state().words[id] == NULL,
    ensures
        all_available(heap[cell.addr()].state().held(cell.id(), NULL).words),
{
}

} // verus!

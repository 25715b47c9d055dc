//! Shared mutability, with hazard pointers for memory reclamation.
//!
//! All readers and writers have shared access to some data, to a collection of garbage and to a list
//! of hazard pointers. Whoever reads the data gets hold of its address, and also stores that address
//! in one of the hazard pointers. Writing to the data is done by swapping out the old value for a
//! new one; the old value is then retired, that is, thrown on the pile of garbage. Retired values
//! are only reclaimed if no hazard pointer holds their address. In this way the hazard pointers
//! protect what is being read from going away.
//!
//! Everything that is shared is in a [`Region`], which is passed to those who want access to it:
//! a [`HzrdCell`] names a cell of a region, and reading from or writing to it takes the region.
//! [`interleaving`] proves that reads are safe whatever order the accesses of several parties come
//! in, and [`schedule`] makes those accesses one at a time.

use std::marker::PhantomData;

use vstd::prelude::*;

pub mod cell;
pub mod domains;
pub mod gc;
pub mod hazard;
pub mod heap;
pub mod interleaving;
pub mod kinds;
pub mod laws;
pub mod linked_list;
pub mod meaning;
pub mod operations;
pub mod pair;
pub mod ptr;
pub mod pushes;
pub mod region;
pub mod schedule;
pub mod stack;
pub mod utils;
pub mod value;

use crate::domains::GlobalDomain;
use crate::hazard::{may_acquire, Action, Domain, ReadHandle, RetiredPtr};
use crate::heap::{DUMMY, NULL};
use crate::interleaving::Task;
use crate::operations::{
    lemma_acquire_takes_steps, lemma_done_takes_steps, lemma_drop_takes_steps,
    lemma_just_set_takes_steps, lemma_read_takes_steps, lemma_reclaim_takes_steps,
    lemma_release_takes_steps, lemma_set_takes_steps, lemma_takes_more_steps, takes_steps,
};
use crate::region::{Region, State};

verus! {

/// Holds a value protected by hazard pointers.
///
/// Each [`HzrdCell`] belongs to a region, whose domain has the hazard pointers that protect the
/// value.
pub struct HzrdCell<T, D = GlobalDomain> {
    value: usize,
    marker: PhantomData<Region<T, D>>,
}

impl<T> HzrdCell<T> {
    /// Construct a new [`HzrdCell`] with the given value in the default domain.
    pub fn new(value: T, region: &mut Region<T, GlobalDomain>) -> (cell: Self)
        requires
            old(region).wf(),
        ensures
            final(region).wf(),
            !old(region)@.cells.contains_key(cell.location()),
            ({
                let ptr = final(region)@.cells[cell.location()];
                &&& !old(region)@.values.contains_key(ptr)
                &&& final(region)@ == old(region)@.allocated(ptr, value).written(
                    cell.location(),
                    ptr,
                )
            }),
            final(region)@.value_of(cell.location()) == value,
            final(region).governor() == old(region).governor(),
    {
        HzrdCell::new_in(value, region)
    }
}

impl<T, D: Domain> HzrdCell<T, D> {
    /// The location of the cell in its region.
    pub closed spec fn location(&self) -> usize {
        self.value
    }

    /// The cell is one of the given region.
    pub open spec fn belongs(&self, state: State<T>) -> bool {
        state.cells.contains_key(self.location())
    }

    /// Construct a new [`HzrdCell`] in the given region.
    pub fn new_in(value: T, region: &mut Region<T, D>) -> (cell: Self)
        requires
            old(region).wf(),
        ensures
            final(region).wf(),
            !old(region)@.cells.contains_key(cell.location()),
            ({
                let ptr = final(region)@.cells[cell.location()];
                &&& !old(region)@.values.contains_key(ptr)
                &&& final(region)@ == old(region)@.allocated(ptr, value).written(
                    cell.location(),
                    ptr,
                )
            }),
            final(region)@.value_of(cell.location()) == value,
            final(region).governor() == old(region).governor(),
    {
        let ptr = region.allocate(value);
        let value = region.new_cell(ptr);
        HzrdCell { value, marker: PhantomData }
    }

    /// Where the cell is in its region.
    pub fn locate(&self) -> (location: usize)
        ensures
            location == self.location(),
    {
        self.value
    }

    /// Swap out the old value for a new one. The old one has to be retired.
    fn swap(&self, region: &mut Region<T, D>, value: T) -> (retired: RetiredPtr)
        requires
            old(region).wf(),
            self.belongs(old(region)@),
        ensures
            final(region).wf(),
            ({
                let ptr = final(region)@.cells[self.location()];
                &&& !old(region)@.values.contains_key(ptr)
                &&& final(region)@ == old(region)@.allocated(ptr, value).written(
                    self.location(),
                    ptr,
                )
            }),
            retired@ == old(region)@.cells[self.location()],
            final(region)@.private(retired@),
            final(region).governor() == old(region).governor(),
    {
        let new_ptr = region.allocate(value);
        let old_ptr = region.swap(self.value, new_ptr);
        RetiredPtr::new(old_ptr)
    }

    /// Set the value of the cell.
    ///
    /// This will perform the following operations (in this order):
    /// - Allocate the new value
    /// - Swap out the old value for the new value
    /// - Retire the old value
    /// - Reclaim retired values, if possible
    pub fn set(&self, region: &mut Region<T, D>, value: T)
        requires
            old(region).wf(),
            self.belongs(old(region)@),
        ensures
            final(region).wf(),
            ({
                let ptr = final(region)@.cells[self.location()];
                &&& !old(region)@.values.contains_key(ptr)
                &&& final(region)@ == old(region)@.replaced(
                    self.location(),
                    ptr,
                    value,
                ).reclaimed()
            }),
            self.belongs(final(region)@),
            final(region)@.value_of(self.location()) == value,
            takes_steps(old(region)@, None, final(region)@, None),
            final(region).cleared_from(old(region), old(region)@.cells[self.location()]),
            final(region).follows(old(region)),
    {
        proof {
            region.lemma_state();
        }
        let old_ptr = self.swap(region, value);
        let ghost swapped = region@;
        proof {
            region.lemma_state();
            let ptr = swapped.cells[self.location()];
            assert(swapped.cells.contains_key(self.location()));
            assert(swapped.cells.contains_value(ptr));
            assert(!swapped.retired(old_ptr@).garbage.contains(ptr));
            assert(!swapped.retired(old_ptr@).reclaimable().contains(ptr));
            lemma_set_takes_steps(old(region)@, self.location(), ptr, value);
        }
        region.retire(old_ptr);
    }

    /// Set the value of the cell without attempting to reclaim memory.
    pub fn just_set(&self, region: &mut Region<T, D>, value: T)
        requires
            old(region).wf(),
            self.belongs(old(region)@),
        ensures
            final(region).wf(),
            ({
                let ptr = final(region)@.cells[self.location()];
                &&& !old(region)@.values.contains_key(ptr)
                &&& final(region)@ == old(region)@.replaced(self.location(), ptr, value)
            }),
            self.belongs(final(region)@),
            final(region)@.value_of(self.location()) == value,
            takes_steps(old(region)@, None, final(region)@, None),
            final(region).retired_from(old(region), old(region)@.cells[self.location()]),
            final(region).follows(old(region)),
    {
        let old_ptr = self.swap(region, value);
        proof {
            region.lemma_state();
            let ptr = region@.cells[self.location()];
            assert(region@.cells.contains_key(self.location()));
            lemma_just_set_takes_steps(old(region)@, self.location(), ptr, value);
        }
        region.just_retire(old_ptr);
    }

    /// Get a handle that leads to the current value of the cell.
    ///
    /// The handle leads to the value as it was when `read` was called. Its hazard pointer keeps that
    /// value alive until the handle is dropped.
    pub fn read(&self, region: &mut Region<T, D>) -> (handle: ReadHandle<T>)
        requires
            old(region).wf(),
            self.belongs(old(region)@),
        ensures
            final(region).wf(),
            may_acquire(old(region)@.words, handle.id()),
            handle.ptr() == old(region)@.cells[self.location()],
            handle.action() == Action::Release,
            handle.live(final(region)@),
            final(region)@ == old(region)@.held(handle.id(), handle.ptr()),
            takes_steps(
                old(region)@,
                None,
                final(region)@,
                Some(
                    Task::Reading {
                        id: handle.id(),
                        ptr: handle.ptr(),
                        action: Action::Release,
                    },
                ),
            ),
            final(region).acquired_from(old(region), handle.id()),
            final(region).follows(old(region)),
    {
        // Retrieve a new hazard pointer
        let hzrd_ptr = region.hzrd_ptr();
        let ghost between = *region;
        let handle = ReadHandle::read_unchecked(region, self.value, hzrd_ptr, Action::Release);
        proof {
            region.lemma_follows(&between, old(region));
            region.lemma_keeps(&between, old(region));
            assert(region@ =~= old(region)@.held(handle.id(), handle.ptr()));
            let owner = Some(Task::Owner { id: hzrd_ptr });
            lemma_acquire_takes_steps(old(region)@, hzrd_ptr);
            lemma_read_takes_steps(between@, self.value, hzrd_ptr, Action::Release);
            lemma_takes_more_steps(
                old(region)@,
                None,
                between@,
                owner,
                region@,
                Some(
                    Task::Reading {
                        id: hzrd_ptr,
                        ptr: handle.ptr(),
                        action: Action::Release,
                    },
                ),
            );
        }
        handle
    }

    /// Read the associated value and copy it.
    pub fn get(&self, region: &mut Region<T, D>) -> (value: T) where T: Copy
        requires
            old(region).wf(),
            self.belongs(old(region)@),
        ensures
            final(region).wf(),
            value == old(region)@.value_of(self.location()),
            exists|id: usize|
                may_acquire(old(region)@.words, id) && final(region).acquired_from(
                    old(region),
                    id,
                ) && final(region)@ == #[trigger] old(region)@.held(id, NULL),
            takes_steps(old(region)@, None, final(region)@, None),
            final(region).follows(old(region)),
    {
        let handle = self.read(region);
        let value = *handle.deref(region);
        let ghost id = handle.id();
        let ghost ptr = handle.ptr();
        let ghost between = *region;
        handle.drop(region);
        proof {
            region.lemma_follows(&between, old(region));
            region.lemma_keeps(&between, old(region));
            assert(region@ =~= old(region)@.held(id, NULL));
            lemma_done_takes_steps(between@, id, ptr);
            lemma_takes_more_steps(
                old(region)@,
                None,
                between@,
                Some(Task::Reading { id, ptr, action: Action::Release }),
                region@,
                None,
            );
        }
        value
    }

    /// Reclaim available memory, if possible.
    pub fn reclaim(&self, region: &mut Region<T, D>)
        requires
            old(region).wf(),
        ensures
            final(region).wf(),
            final(region)@ == old(region)@.reclaimed(),
            takes_steps(old(region)@, None, final(region)@, None),
            final(region).reclaimed_from(old(region)),
            final(region).follows(old(region)),
    {
        proof {
            region.lemma_state();
            lemma_reclaim_takes_steps(region@);
        }
        region.reclaim();
    }

    /// Construct a reader of the cell.
    ///
    /// A reader holds a hazard pointer that is reused for each read.
    pub fn reader(&self, region: &mut Region<T, D>) -> (reader: HzrdReader<T, D>)
        requires
            old(region).wf(),
            self.belongs(old(region)@),
        ensures
            final(region).wf(),
            reader.location() == self.location(),
            may_acquire(old(region)@.words, reader.id()),
            final(region)@ == old(region)@.held(reader.id(), DUMMY),
            takes_steps(
                old(region)@,
                None,
                final(region)@,
                Some(Task::Owner { id: reader.id() }),
            ),
            final(region).acquired_from(old(region), reader.id()),
            final(region).follows(old(region)),
            reader.ready(final(region)@),
    {
        let hzrd_ptr = region.hzrd_ptr();
        proof {
            lemma_acquire_takes_steps(old(region)@, hzrd_ptr);
        }
        HzrdReader { value: self.value, hzrd_ptr, marker: PhantomData }
    }

    /// Drop the cell, along with its value, which nobody is reading.
    pub fn drop(self, region: &mut Region<T, D>)
        requires
            old(region).wf(),
            self.belongs(old(region)@),
            !old(region)@.words.contains_value(old(region)@.cells[self.location()]),
        ensures
            final(region).wf(),
            final(region)@ == (State {
                values: old(region)@.values.remove(old(region)@.cells[self.location()]),
                cells: old(region)@.cells.remove(self.location()),
                ..old(region)@
            }),
            takes_steps(old(region)@, None, final(region)@, None),
            final(region).governor() == old(region).governor(),
    {
        proof {
            lemma_drop_takes_steps(region@, self.value);
        }
        let ptr = region.remove_cell(self.value);
        region.free(ptr);
    }
}

/// A reader object for a specific [`HzrdCell`].
///
/// The reader has a hazard pointer of its own, which is busy for as long as what was last read is
/// held on to.
pub struct HzrdReader<T, D = GlobalDomain> {
    value: usize,
    hzrd_ptr: usize,
    marker: PhantomData<Region<T, D>>,
}

impl<T, D: Domain> HzrdReader<T, D> {
    /// The location of the cell that is read.
    pub closed spec fn location(&self) -> usize {
        self.value
    }

    /// The hazard pointer of the reader.
    pub closed spec fn id(&self) -> usize {
        self.hzrd_ptr
    }

    /// The cell and the hazard pointer of the reader are there.
    pub open spec fn ready(&self, state: State<T>) -> bool {
        state.cells.contains_key(self.location()) && state.words.contains_key(self.id())
    }

    /// Read the associated value and return a handle that leads to it.
    ///
    /// The handle leads to the value as it was when it was read.
    pub fn read(&mut self, region: &mut Region<T, D>) -> (handle: ReadHandle<T>)
        requires
            old(region).wf(),
            old(self).ready(old(region)@),
        ensures
            final(region).wf(),
            *final(self) == *old(self),
            handle.id() == old(self).id(),
            handle.ptr() == old(region)@.cells[old(self).location()],
            handle.action() == Action::Reset,
            handle.live(final(region)@),
            final(region)@ == old(region)@.held(handle.id(), handle.ptr()),
            takes_steps(
                old(region)@,
                Some(Task::Owner { id: old(self).id() }),
                final(region)@,
                Some(
                    Task::Reading {
                        id: old(self).id(),
                        ptr: handle.ptr(),
                        action: Action::Reset,
                    },
                ),
            ),
            final(region).keeps(old(region)),
            final(region).follows(old(region)),
    {
        proof {
            lemma_read_takes_steps(region@, self.value, self.hzrd_ptr, Action::Reset);
        }
        ReadHandle::read_unchecked(region, self.value, self.hzrd_ptr, Action::Reset)
    }

    /// Read the associated value and copy it.
    pub fn get(&mut self, region: &mut Region<T, D>) -> (value: T) where T: Copy
        requires
            old(region).wf(),
            old(self).ready(old(region)@),
        ensures
            final(region).wf(),
            *final(self) == *old(self),
            value == old(region)@.value_of(old(self).location()),
            final(region)@ == old(region)@.held(old(self).id(), DUMMY),
            takes_steps(
                old(region)@,
                Some(Task::Owner { id: old(self).id() }),
                final(region)@,
                Some(Task::Owner { id: old(self).id() }),
            ),
            final(region).keeps(old(region)),
            final(region).follows(old(region)),
    {
        let handle = self.read(region);
        let value = *handle.deref(region);
        let ghost ptr = handle.ptr();
        let ghost between = *region;
        handle.drop(region);
        proof {
            region.lemma_follows(&between, old(region));
            region.lemma_keeps(&between, old(region));
            assert(region@ =~= old(region)@.held(self.id(), DUMMY));
            lemma_done_takes_steps(between@, self.id(), ptr);
            lemma_takes_more_steps(
                old(region)@,
                Some(Task::Owner { id: self.id() }),
                between@,
                Some(Task::Reading { id: self.id(), ptr, action: Action::Reset }),
                region@,
                Some(Task::Owner { id: self.id() }),
            );
        }
        value
    }

    /// Drop the reader, and with it give its hazard pointer up.
    pub fn drop(self, region: &mut Region<T, D>)
        requires
            old(region).wf(),
            self.ready(old(region)@),
        ensures
            final(region).wf(),
            final(region)@ == old(region)@.held(self.id(), NULL),
            takes_steps(
                old(region)@,
                Some(Task::Owner { id: self.id() }),
                final(region)@,
                None,
            ),
            final(region).keeps(old(region)),
            final(region).follows(old(region)),
    {
        proof {
            lemma_release_takes_steps(region@, self.hzrd_ptr);
        }
        region.release(self.hzrd_ptr);
    }
}

} // verus!

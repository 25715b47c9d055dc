//! A single value with hazard pointers of its own.

use vstd::prelude::*;

use crate::hazard::{cleared_from, may_acquire, Action, Domain, Read, ReadHandle, RetiredPtr};
use crate::heap::{DUMMY, NULL};
use crate::interleaving::Task;
use crate::operations::{
    lemma_acquire_takes_steps, lemma_release_takes_steps, lemma_retire_takes_steps,
    lemma_reclaim_takes_steps, lemma_swap_takes_steps, lemma_takes_more_steps, takes_steps,
};
use crate::pair::{all_available, Ptrs};
use crate::region::{Region, State};
use crate::HzrdCell;

verus! {

/// A value, and the pointers that protect it.
pub struct HzrdValue<T> {
    region: Region<T, Ptrs>,
    cell: HzrdCell<T, Ptrs>,
}

impl<T> HzrdValue<T> {
    /// The region is well-formed, and has the cell of the value in it.
    pub closed spec fn wf(&self) -> bool {
        self.region.wf() && self.cell.belongs(self.region@)
    }

    /// What there is in the region of the value.
    pub closed spec fn state(&self) -> State<T> {
        self.region@
    }

    /// The location of the cell that holds the address of the value.
    pub closed spec fn location(&self) -> usize {
        self.cell.location()
    }

    /// The hazard pointers and the retired pointers of the value.
    pub closed spec fn ptrs(&self) -> Ptrs {
        self.region.governor()
    }

    /// The current value.
    pub open spec fn value(&self) -> T {
        self.state().value_of(self.location())
    }

    /// What is known of every such value.
    pub proof fn lemma_state(&self)
        requires
            self.wf(),
        ensures
            self.state().inv(),
            self.state().bulk_size() == 0,
            self.state().config is Some,
            self.state().cells.contains_key(self.location()),
            self.state().words.dom().finite(),
            self.ptrs().wf(),
            self.ptrs().words() == self.state().words,
            self.ptrs().garbage() == self.state().garbage,
    {
        self.region.lemma_state();
    }

    /// Protect the given value.
    pub fn new(boxed: Box<T>) -> (value: Self)
        ensures
            value.wf(),
            value.value() == *boxed,
            value.state().no_leaks(),
            value.state().cells.dom() == Set::<usize>::empty().insert(value.location()),
            value.state().words == Map::<usize, usize>::empty(),
            value.state().garbage == Set::<usize>::empty(),
            value.ptrs().ids() == Seq::<usize>::empty(),
            value.ptrs().retired() == Seq::<usize>::empty(),
    {
        let mut region = Region::new(Ptrs::new());
        let cell = HzrdCell::new_in(*boxed, &mut region);
        let value = HzrdValue { region, cell };
        proof {
            assert(value.state().cells.dom() =~= Set::<usize>::empty().insert(value.location()));
            assert(value.state().cells.contains_key(value.location()));
        }
        value
    }

    /// Get a hazard pointer that is now owned by the caller.
    pub fn hzrd_ptr(&mut self) -> (id: usize)
        requires
            old(self).wf(),
        ensures
            final(self).wf(),
            final(self).location() == old(self).location(),
            final(self).ptrs().acquired_from(&old(self).ptrs(), id),
            may_acquire(old(self).state().words, id),
            final(self).state() == old(self).state().held(id, DUMMY),
            takes_steps(
                old(self).state(),
                None,
                final(self).state(),
                Some(Task::Owner { id }),
            ),
    {
        let id = self.region.hzrd_ptr();
        proof {
            lemma_acquire_takes_steps(old(self).state(), id);
        }
        id
    }

    /// Give a hazard pointer up.
    pub fn free(&mut self, id: usize)
        requires
            old(self).wf(),
            old(self).state().words.contains_key(id),
        ensures
            final(self).wf(),
            final(self).location() == old(self).location(),
            final(self).ptrs().keeps(&old(self).ptrs()),
            final(self).state() == old(self).state().held(id, NULL),
            takes_steps(
                old(self).state(),
                Some(Task::Owner { id }),
                final(self).state(),
                None,
            ),
    {
        proof {
            lemma_release_takes_steps(self.state(), id);
        }
        self.region.release(id);
    }

    /// Set the value, retire the old one, and reclaim memory.
    pub fn set(&mut self, boxed: Box<T>)
        requires
            old(self).wf(),
        ensures
            final(self).wf(),
            final(self).location() == old(self).location(),
            cleared_from(
                &final(self).ptrs(),
                &old(self).ptrs(),
                old(self).state().cells[old(self).location()],
            ),
            final(self).value() == *boxed,
            ({
                let ptr = final(self).state().cells[final(self).location()];
                &&& !old(self).state().values.contains_key(ptr)
                &&& final(self).state() == old(self).state().replaced(
                    old(self).location(),
                    ptr,
                    *boxed,
                ).reclaimed()
            }),
            takes_steps(old(self).state(), None, final(self).state(), None),
    {
        self.cell.set(&mut self.region, *boxed);
    }

    /// Set the value and retire the old one, without reclaiming memory.
    pub fn just_set(&mut self, boxed: Box<T>)
        requires
            old(self).wf(),
        ensures
            final(self).wf(),
            final(self).location() == old(self).location(),
            final(self).ptrs().retired_from(
                &old(self).ptrs(),
                old(self).state().cells[old(self).location()],
            ),
            final(self).value() == *boxed,
            ({
                let ptr = final(self).state().cells[final(self).location()];
                &&& !old(self).state().values.contains_key(ptr)
                &&& final(self).state() == old(self).state().replaced(
                    old(self).location(),
                    ptr,
                    *boxed,
                )
            }),
            takes_steps(old(self).state(), None, final(self).state(), None),
    {
        self.cell.just_set(&mut self.region, *boxed);
    }

    /// First half of setting the value: swap out the old one. It has to be retired.
    pub fn begin_set(&mut self, boxed: Box<T>) -> (retired: RetiredPtr)
        requires
            old(self).wf(),
        ensures
            final(self).wf(),
            final(self).location() == old(self).location(),
            final(self).ptrs() == old(self).ptrs(),
            final(self).value() == *boxed,
            retired@ == old(self).state().cells[old(self).location()],
            final(self).state().private(retired@),
            ({
                let ptr = final(self).state().cells[final(self).location()];
                &&& !old(self).state().values.contains_key(ptr)
                &&& final(self).state() == old(self).state().allocated(ptr, *boxed).written(
                    old(self).location(),
                    ptr,
                )
            }),
            takes_steps(
                old(self).state(),
                None,
                final(self).state(),
                Some(Task::Private { ptr: retired@ }),
            ),
    {
        let new_ptr = self.region.allocate(*boxed);
        proof {
            self.region.lemma_state();
            lemma_swap_takes_steps(old(self).state(), self.location(), new_ptr, *boxed);
        }
        let cell = self.cell.locate();
        RetiredPtr::new(self.region.swap(cell, new_ptr))
    }

    /// Second half of setting the value: retire the old one, and reclaim memory.
    pub fn finish_set(&mut self, retired: RetiredPtr)
        requires
            old(self).wf(),
            old(self).state().private(retired@),
        ensures
            final(self).wf(),
            final(self).location() == old(self).location(),
            cleared_from(&final(self).ptrs(), &old(self).ptrs(), retired@),
            final(self).state() == old(self).state().retired(retired@).reclaimed(),
            takes_steps(
                old(self).state(),
                Some(Task::Private { ptr: retired@ }),
                final(self).state(),
                None,
            ),
    {
        proof {
            self.region.lemma_state();
            let between = self.state().retired(retired@);
            assert(between.inv()) by {
                assert forall|cell: usize| #[trigger] self.state().cells.contains_key(
                    cell,
                ) implies self.state().cells[cell] != retired@ by {
                    assert(self.state().cells.contains_value(self.state().cells[cell]));
                }
            }
            lemma_retire_takes_steps(self.state(), retired@);
            lemma_reclaim_takes_steps(between);
            lemma_takes_more_steps(
                self.state(),
                Some(Task::Private { ptr: retired@ }),
                between,
                None,
                between.reclaimed(),
                None,
            );
        }
        self.region.retire(retired);
    }

    /// First step of a read with the given hazard pointer: load the address of the value.
    pub fn begin_read(&self, hzrd_ptr: usize) -> (read: Read)
        requires
            self.wf(),
        ensures
            read.cell() == self.location(),
            read.id() == hzrd_ptr,
            read.ptr() == self.state().cells[self.location()],
            read.ptr() != NULL,
            takes_steps(
                self.state(),
                Some(Task::Owner { id: hzrd_ptr }),
                self.state(),
                Some(Task::Loaded { cell: read.cell(), id: hzrd_ptr, ptr: read.ptr() }),
            ),
    {
        Read::begin(&self.region, self.cell.locate(), hzrd_ptr)
    }

    /// Second step of a read: let the hazard pointer hold the address that was loaded.
    pub fn protect(&mut self, read: &Read)
        requires
            old(self).wf(),
            old(self).state().words.contains_key(read.id()),
            read.ptr() != NULL,
        ensures
            final(self).wf(),
            final(self).location() == old(self).location(),
            final(self).ptrs().keeps(&old(self).ptrs()),
            final(self).state() == old(self).state().held(read.id(), read.ptr()),
            takes_steps(
                old(self).state(),
                Some(Task::Loaded { cell: read.cell(), id: read.id(), ptr: read.ptr() }),
                final(self).state(),
                Some(Task::Protected { cell: read.cell(), id: read.id(), ptr: read.ptr() }),
            ),
    {
        read.protect(&mut self.region);
    }

    /// Third step of a read: find out whether the address that the hazard pointer holds is still that
    /// of the value. Otherwise the read has to go on with the address of the value now.
    pub fn validate(&self, read: Read) -> (validated: Result<ReadHandle<T>, Read>)
        requires
            self.wf(),
            read.cell() == self.location(),
        ensures
            validated is Ok <==> self.state().cells[self.location()] == read.ptr(),
            match validated {
                Ok(handle) => {
                    &&& handle.id() == read.id()
                    &&& handle.ptr() == read.ptr()
                    &&& handle.action() == Action::Reset
                },
                Err(again) => {
                    &&& again.cell() == read.cell()
                    &&& again.id() == read.id()
                    &&& again.ptr() == self.state().cells[self.location()]
                    &&& again.ptr() != NULL
                },
            },
            takes_steps(
                self.state(),
                Some(Task::Protected { cell: read.cell(), id: read.id(), ptr: read.ptr() }),
                self.state(),
                Some(
                    match validated {
                        Ok(handle) => Task::Reading {
                            id: read.id(),
                            ptr: handle.ptr(),
                            action: Action::Reset,
                        },
                        Err(again) => Task::Loaded {
                            cell: read.cell(),
                            id: read.id(),
                            ptr: again.ptr(),
                        },
                    },
                ),
            ),
    {
        read.validate(&self.region, Action::Reset)
    }

    /// Read the value, guarded by the given hazard pointer.
    pub fn read(&mut self, hzrd_ptr: usize) -> (handle: ReadHandle<T>)
        requires
            old(self).wf(),
            old(self).state().words.contains_key(hzrd_ptr),
        ensures
            final(self).wf(),
            final(self).location() == old(self).location(),
            final(self).ptrs().keeps(&old(self).ptrs()),
            handle.id() == hzrd_ptr,
            handle.ptr() == old(self).state().cells[old(self).location()],
            handle.action() == Action::Reset,
            handle.live(final(self).state()),
            final(self).state() == old(self).state().held(handle.id(), handle.ptr()),
            takes_steps(
                old(self).state(),
                Some(Task::Owner { id: hzrd_ptr }),
                final(self).state(),
                Some(
                    Task::Reading { id: hzrd_ptr, ptr: handle.ptr(), action: Action::Reset },
                ),
            ),
    {
        let cell = self.cell.locate();
        ReadHandle::read_unchecked(&mut self.region, cell, hzrd_ptr, Action::Reset)
    }

    /// Look at a value that was read.
    pub fn deref(&self, handle: &ReadHandle<T>) -> (value: &T)
        requires
            self.wf(),
            handle.live(self.state()),
        ensures
            *value == self.state().values[handle.ptr()],
    {
        handle.deref(&self.region)
    }

    /// Let go of a value that was read.
    pub fn done(&mut self, handle: ReadHandle<T>)
        requires
            old(self).wf(),
            handle.live(old(self).state()),
        ensures
            final(self).wf(),
            final(self).location() == old(self).location(),
            final(self).ptrs().keeps(&old(self).ptrs()),
            final(self).state() == match handle.action() {
                Action::Reset => old(self).state().held(handle.id(), DUMMY),
                Action::Release => old(self).state().held(handle.id(), NULL),
            },
            takes_steps(
                old(self).state(),
                Some(
                    Task::Reading {
                        id: handle.id(),
                        ptr: handle.ptr(),
                        action: handle.action(),
                    },
                ),
                final(self).state(),
                match handle.action() {
                    Action::Reset => Some(Task::Owner { id: handle.id() }),
                    Action::Release => None,
                },
            ),
    {
        handle.drop(&mut self.region);
    }

    /// Read the value with the given hazard pointer, and copy it.
    pub fn get(&mut self, hzrd_ptr: usize) -> (value: T) where T: Copy
        requires
            old(self).wf(),
            old(self).state().words.contains_key(hzrd_ptr),
        ensures
            final(self).wf(),
            final(self).location() == old(self).location(),
            final(self).ptrs().keeps(&old(self).ptrs()),
            value == old(self).value(),
            final(self).state() == old(self).state().held(hzrd_ptr, DUMMY),
            takes_steps(
                old(self).state(),
                Some(Task::Owner { id: hzrd_ptr }),
                final(self).state(),
                Some(Task::Owner { id: hzrd_ptr }),
            ),
    {
        let handle = self.read(hzrd_ptr);
        let ghost ptr = handle.ptr();
        let ghost between = self.state();
        let value = *self.deref(&handle);
        self.done(handle);
        proof {
            assert(self.state() =~= old(self).state().held(hzrd_ptr, DUMMY));
            lemma_takes_more_steps(
                old(self).state(),
                Some(Task::Owner { id: hzrd_ptr }),
                between,
                Some(Task::Reading { id: hzrd_ptr, ptr, action: Action::Reset }),
                self.state(),
                Some(Task::Owner { id: hzrd_ptr }),
            );
        }
        value
    }

    /// Read the value with the given hazard pointer, and clone it.
    pub fn cloned(&mut self, hzrd_ptr: usize) -> (value: T) where T: Clone
        requires
            old(self).wf(),
            old(self).state().words.contains_key(hzrd_ptr),
        ensures
            final(self).wf(),
            final(self).location() == old(self).location(),
            final(self).ptrs().keeps(&old(self).ptrs()),
            cloned(old(self).value(), value),
            final(self).state() == old(self).state().held(hzrd_ptr, DUMMY),
            takes_steps(
                old(self).state(),
                Some(Task::Owner { id: hzrd_ptr }),
                final(self).state(),
                Some(Task::Owner { id: hzrd_ptr }),
            ),
    {
        let handle = self.read(hzrd_ptr);
        let ghost ptr = handle.ptr();
        let ghost between = self.state();
        let value = self.deref(&handle).clone();
        self.done(handle);
        proof {
            assert(self.state() =~= old(self).state().held(hzrd_ptr, DUMMY));
            lemma_takes_more_steps(
                old(self).state(),
                Some(Task::Owner { id: hzrd_ptr }),
                between,
                Some(Task::Reading { id: hzrd_ptr, ptr, action: Action::Reset }),
                self.state(),
                Some(Task::Owner { id: hzrd_ptr }),
            );
        }
        value
    }

    /// Reclaim available memory.
    pub fn reclaim(&mut self)
        requires
            old(self).wf(),
        ensures
            final(self).wf(),
            final(self).location() == old(self).location(),
            final(self).ptrs().reclaimed_from(&old(self).ptrs()),
            final(self).state() == old(self).state().reclaimed(),
            takes_steps(old(self).state(), None, final(self).state(), None),
    {
        self.cell.reclaim(&mut self.region);
    }

    /// The number of retired values that were not freed yet.
    pub fn num_retired(&self) -> (number: usize)
        requires
            self.wf(),
        ensures
            number == self.state().garbage.len(),
    {
        proof {
            self.region.lemma_state();
        }
        self.region.domain().num_retired()
    }

    /// Whether every hazard pointer is available.
    pub fn all_available(&self) -> (available: bool)
        requires
            self.wf(),
        ensures
            available == all_available(self.state().words),
    {
        proof {
            self.region.lemma_state();
        }
        self.region.domain().all_available()
    }
}

} // verus!

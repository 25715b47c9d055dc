//! Cells of several types in one region.
//!
//! A region whose values are [`Either`] of two types, each of which may be an [`Either`] again, holds
//! values of all the types that go into it. A [`KindCell`] is a cell of such a region whose values are
//! of one of these types: it takes and gives values of that type alone. Which one it is is told by its
//! [`Kind`]. All the cells of the region share its domain, whatever their types are.

use std::marker::PhantomData;

use vstd::prelude::*;

use crate::hazard::{may_acquire, Action, Domain, ReadHandle};
use crate::heap::{Either, DUMMY, NULL};
use crate::interleaving::Task;
use crate::laws::lemma_set_changes_one_cell;
use crate::operations::{lemma_takes_more_steps, takes_steps};
use crate::region::{Region, State};
use crate::HzrdCell;

verus! {

/// One of the types that go into `V`.
pub trait Kind<V>: Sized {
    /// The type.
    type T;

    /// A value of the type as one of `V`.
    spec fn wrapped(value: Self::T) -> V;

    /// The given one is a value of the type.
    spec fn holds(whole: V) -> bool;

    /// The value of the type that the given one is.
    spec fn inner(whole: V) -> Self::T;

    /// A value is what it was before it was wrapped, and the other way round.
    proof fn lemma_wrapped(value: Self::T, whole: V)
        ensures
            Self::holds(Self::wrapped(value)),
            Self::inner(Self::wrapped(value)) == value,
            Self::holds(whole) ==> Self::wrapped(Self::inner(whole)) == whole,
    ;

    /// Make a value of the type one of `V`.
    fn wrap(value: Self::T) -> (whole: V)
        ensures
            whole == Self::wrapped(value),
    ;

    /// Look at the value of the type.
    fn peek(whole: &V) -> (value: &Self::T)
        requires
            Self::holds(*whole),
        ensures
            *value == Self::inner(*whole),
    ;
}

/// All of it.
pub struct Whole;

impl<V> Kind<V> for Whole {
    type T = V;

    open spec fn wrapped(value: V) -> V {
        value
    }

    open spec fn holds(whole: V) -> bool {
        true
    }

    open spec fn inner(whole: V) -> V {
        whole
    }

    proof fn lemma_wrapped(value: V, whole: V) {
    }

    fn wrap(value: V) -> (whole: V) {
        value
    }

    fn peek(whole: &V) -> (value: &V) {
        whole
    }
}

/// A kind of what comes first.
pub struct InFirst<K = Whole>(PhantomData<K>);

impl<A, B, K: Kind<A>> Kind<Either<A, B>> for InFirst<K> {
    type T = K::T;

    open spec fn wrapped(value: K::T) -> Either<A, B> {
        Either::First(K::wrapped(value))
    }

    open spec fn holds(whole: Either<A, B>) -> bool {
        whole is First && K::holds(whole->First_0)
    }

    open spec fn inner(whole: Either<A, B>) -> K::T {
        K::inner(whole->First_0)
    }

    proof fn lemma_wrapped(value: K::T, whole: Either<A, B>) {
        K::lemma_wrapped(value, whole->First_0);
    }

    fn wrap(value: K::T) -> (whole: Either<A, B>) {
        Either::First(K::wrap(value))
    }

    fn peek(whole: &Either<A, B>) -> (value: &K::T) {
        match whole {
            Either::First(whole) => K::peek(whole),
            Either::Second(_) => vstd::pervasive::unreached(),
        }
    }
}

/// A kind of what comes second.
pub struct InSecond<K = Whole>(PhantomData<K>);

impl<A, B, K: Kind<B>> Kind<Either<A, B>> for InSecond<K> {
    type T = K::T;

    open spec fn wrapped(value: K::T) -> Either<A, B> {
        Either::Second(K::wrapped(value))
    }

    open spec fn holds(whole: Either<A, B>) -> bool {
        whole is Second && K::holds(whole->Second_0)
    }

    open spec fn inner(whole: Either<A, B>) -> K::T {
        K::inner(whole->Second_0)
    }

    proof fn lemma_wrapped(value: K::T, whole: Either<A, B>) {
        K::lemma_wrapped(value, whole->Second_0);
    }

    fn wrap(value: K::T) -> (whole: Either<A, B>) {
        Either::Second(K::wrap(value))
    }

    fn peek(whole: &Either<A, B>) -> (value: &K::T) {
        match whole {
            Either::First(_) => vstd::pervasive::unreached(),
            Either::Second(whole) => K::peek(whole),
        }
    }
}

/// Holds a value of one kind, protected by the hazard pointers of a region for several.
pub struct KindCell<V, D, K> {
    cell: HzrdCell<V, D>,
    marker: PhantomData<K>,
}

impl<V, D: Domain, K: Kind<V>> KindCell<V, D, K> {
    /// The location of the cell in its region.
    pub closed spec fn location(&self) -> usize {
        self.cell.location()
    }

    /// The cell is one of the given region, and its value is of the right kind.
    pub open spec fn belongs(&self, state: State<V>) -> bool {
        &&& state.cells.contains_key(self.location())
        &&& K::holds(state.value_of(self.location()))
    }

    /// The current value of the cell.
    pub open spec fn value(&self, state: State<V>) -> K::T {
        K::inner(state.value_of(self.location()))
    }

    /// Construct a new cell with the given value.
    pub fn new_in(value: K::T, region: &mut Region<V, D>) -> (cell: Self)
        requires
            old(region).wf(),
        ensures
            final(region).wf(),
            !old(region)@.cells.contains_key(cell.location()),
            ({
                let ptr = final(region)@.cells[cell.location()];
                &&& !old(region)@.values.contains_key(ptr)
                &&& final(region)@ == old(region)@.allocated(ptr, K::wrapped(value)).written(
                    cell.location(),
                    ptr,
                )
            }),
            cell.belongs(final(region)@),
            cell.value(final(region)@) == value,
            final(region).governor() == old(region).governor(),
    {
        let whole = K::wrap(value);
        proof {
            K::lemma_wrapped(value, whole);
        }
        KindCell { cell: HzrdCell::new_in(whole, region), marker: PhantomData }
    }

    /// Set the value of the cell, retire the old one, and reclaim memory.
    pub fn set(&self, region: &mut Region<V, D>, value: K::T)
        requires
            old(region).wf(),
            self.belongs(old(region)@),
        ensures
            final(region).wf(),
            ({
                let ptr = final(region)@.cells[self.location()];
                &&& !old(region)@.values.contains_key(ptr)
                &&& final(region)@ == old(region)@.replaced(
                    self.location(),
                    ptr,
                    K::wrapped(value),
                ).reclaimed()
            }),
            self.belongs(final(region)@),
            self.value(final(region)@) == value,
            takes_steps(old(region)@, None, final(region)@, None),
            final(region).cleared_from(old(region), old(region)@.cells[self.location()]),
            final(region).follows(old(region)),
    {
        let whole = K::wrap(value);
        proof {
            K::lemma_wrapped(value, whole);
        }
        self.cell.set(region, whole);
    }

    /// Set the value of the cell without attempting to reclaim memory.
    pub fn just_set(&self, region: &mut Region<V, D>, value: K::T)
        requires
            old(region).wf(),
            self.belongs(old(region)@),
        ensures
            final(region).wf(),
            ({
                let ptr = final(region)@.cells[self.location()];
                &&& !old(region)@.values.contains_key(ptr)
                &&& final(region)@ == old(region)@.replaced(
                    self.location(),
                    ptr,
                    K::wrapped(value),
                )
            }),
            self.belongs(final(region)@),
            self.value(final(region)@) == value,
            takes_steps(old(region)@, None, final(region)@, None),
            final(region).retired_from(old(region), old(region)@.cells[self.location()]),
            final(region).follows(old(region)),
    {
        let whole = K::wrap(value);
        proof {
            K::lemma_wrapped(value, whole);
        }
        self.cell.just_set(region, whole);
    }

    /// Get a handle that leads to the current value of the cell.
    pub fn read(&self, region: &mut Region<V, D>) -> (handle: KindHandle<V, K>)
        requires
            old(region).wf(),
            self.belongs(old(region)@),
        ensures
            final(region).wf(),
            may_acquire(old(region)@.words, handle.id()),
            handle.ptr() == old(region)@.cells[self.location()],
            handle.action() == Action::Release,
            handle.live(final(region)@),
            final(region)@ == old(region)@.held(handle.id(), handle.ptr()),
            takes_steps(
                old(region)@,
                None,
                final(region)@,
                Some(
                    Task::Reading {
                        id: handle.id(),
                        ptr: handle.ptr(),
                        action: Action::Release,
                    },
                ),
            ),
            final(region).acquired_from(old(region), handle.id()),
            final(region).follows(old(region)),
    {
        KindHandle { handle: self.cell.read(region), marker: PhantomData }
    }

    /// Read the associated value and copy it.
    pub fn get(&self, region: &mut Region<V, D>) -> (value: K::T) where K::T: Copy
        requires
            old(region).wf(),
            self.belongs(old(region)@),
        ensures
            final(region).wf(),
            value == self.value(old(region)@),
            exists|id: usize|
                may_acquire(old(region)@.words, id) && final(region).acquired_from(
                    old(region),
                    id,
                ) && final(region)@ == #[trigger] old(region)@.held(id, NULL),
            takes_steps(old(region)@, None, final(region)@, None),
            final(region).follows(old(region)),
    {
        let handle = self.read(region);
        let value = *handle.deref(region);
        let ghost id = handle.id();
        let ghost ptr = handle.ptr();
        let ghost between = *region;
        handle.drop(region);
        proof {
            region.lemma_follows(&between, old(region));
            region.lemma_keeps(&between, old(region));
            assert(region@ =~= old(region)@.held(id, NULL));
            lemma_takes_more_steps(
                old(region)@,
                None,
                between@,
                Some(Task::Reading { id, ptr, action: Action::Release }),
                region@,
                None,
            );
        }
        value
    }

    /// Reclaim available memory, if possible.
    pub fn reclaim(&self, region: &mut Region<V, D>)
        requires
            old(region).wf(),
        ensures
            final(region).wf(),
            final(region)@ == old(region)@.reclaimed(),
            takes_steps(old(region)@, None, final(region)@, None),
            final(region).reclaimed_from(old(region)),
            final(region).follows(old(region)),
    {
        self.cell.reclaim(region);
    }

    /// Drop the cell, along with its value, which nobody is reading.
    pub fn drop(self, region: &mut Region<V, D>)
        requires
            old(region).wf(),
            self.belongs(old(region)@),
            !old(region)@.words.contains_value(old(region)@.cells[self.location()]),
        ensures
            final(region).wf(),
            final(region)@ == (State {
                values: old(region)@.values.remove(old(region)@.cells[self.location()]),
                cells: old(region)@.cells.remove(self.location()),
                ..old(region)@
            }),
            takes_steps(old(region)@, None, final(region)@, None),
            final(region).governor() == old(region).governor(),
    {
        self.cell.drop(region);
    }
}

/// Leads to a value of one kind that was read. The value is kept alive by a hazard pointer.
pub struct KindHandle<V, K> {
    handle: ReadHandle<V>,
    marker: PhantomData<K>,
}

impl<V, K: Kind<V>> KindHandle<V, K> {
    /// The address of the value.
    pub closed spec fn ptr(&self) -> usize {
        self.handle.ptr()
    }

    /// The hazard pointer that guards the value.
    pub closed spec fn id(&self) -> usize {
        self.handle.id()
    }

    /// What happens to the hazard pointer when the handle is dropped.
    pub closed spec fn action(&self) -> Action {
        self.handle.action()
    }

    /// The hazard pointer of the handle guards its value, which is of the right kind.
    pub open spec fn live(&self, state: State<V>) -> bool {
        state.guards(self.id(), self.ptr()) && K::holds(state.values[self.ptr()])
    }

    /// Look at the value.
    pub fn deref<'r, D: Domain>(&self, region: &'r Region<V, D>) -> (value: &'r K::T)
        requires
            region.wf(),
            self.live(region@),
        ensures
            *value == K::inner(region@.values[self.ptr()]),
    {
        K::peek(self.handle.deref(region))
    }

    /// Drop the handle. The value is not guarded by it any more.
    pub fn drop<D: Domain>(self, region: &mut Region<V, D>)
        requires
            old(region).wf(),
            self.live(old(region)@),
        ensures
            final(region).wf(),
            final(region)@ == match self.action() {
                Action::Reset => old(region)@.held(self.id(), DUMMY),
                Action::Release => old(region)@.held(self.id(), NULL),
            },
            takes_steps(
                old(region)@,
                Some(
                    Task::Reading { id: self.id(), ptr: self.ptr(), action: self.action() },
                ),
                final(region)@,
                match self.action() {
                    Action::Reset => Some(Task::Owner { id: self.id() }),
                    Action::Release => None,
                },
            ),
            final(region).keeps(old(region)),
            final(region).follows(old(region)),
    {
        self.handle.drop(region);
    }
}

/// Cells of whatever kinds in one region leave each other alone: setting one of them, with or without
/// reclaiming memory, leaves the kind and the value of the other.
pub proof fn lemma_kinds_apart<V, D: Domain, K: Kind<V>>(
    state: State<V>,
    cell: usize,
    ptr: usize,
    whole: V,
    other: KindCell<V, D, K>,
)
    requires
        state.inv(),
        state.cells.contains_key(cell),
        !state.values.contains_key(ptr),
        ptr != NULL,
        ptr != DUMMY,
        other.belongs(state),
        other.location() != cell,
    ensures
        other.belongs(state.replaced(cell, ptr, whole)),
        other.value(state.replaced(cell, ptr, whole)) == other.value(state),
        other.belongs(state.replaced(cell, ptr, whole).reclaimed()),
        other.value(state.replaced(cell, ptr, whole).reclaimed()) == other.value(state),
{
    lemma_set_changes_one_cell(state, cell, ptr, whole, other.location());
}

} // verus!

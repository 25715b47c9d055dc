//! The [`HzrdWriter`]/[`HzrdReader`] pair.
//!
//! The writer holds the value together with the pointers that protect it. A reader has one of the
//! writer's hazard pointers, and is of use for as long as the writer is there.
//!
//! The readers may read while the writer writes. Each of the operations is made of steps, as its
//! contract says, between which the steps of the others may come: [`HzrdReader::begin_read`],
//! [`HzrdReader::protect`] and [`HzrdReader::validate`] are the steps of a read, and
//! [`HzrdWriter::begin_set`] and [`HzrdWriter::finish_set`] the halves of a write.

use std::marker::PhantomData;

use vstd::prelude::*;

use crate::domains::{addrs_of, free_all, lemma_pushed, lemma_swept, Config};
use crate::hazard::{
    cleared_from, guarded, is_first_available, lemma_guarded, may_acquire, reclaimable, Action, Domain, HzrdPtr,
    Read, ReadHandle, RetiredPtr,
};
use crate::heap::{Store, DUMMY, NULL};
use crate::interleaving::Task;
use crate::operations::takes_steps;
use crate::ptr::HzrdPtrs;
use crate::region::State;
use crate::value::HzrdValue;

verus! {

/// A list of retired pointers.
pub struct RetiredPtrs(Vec<RetiredPtr>);

impl View for RetiredPtrs {
    type V = Seq<usize>;

    /// The addresses of the retired objects, the latest last.
    closed spec fn view(&self) -> Seq<usize> {
        addrs_of(self.0@)
    }
}

impl RetiredPtrs {
    /// No retired pointers.
    pub fn new() -> (retired: Self)
        ensures
            retired@ == Seq::<usize>::empty(),
    {
        let retired = RetiredPtrs(Vec::new());
        assert(retired@ =~= Seq::<usize>::empty());
        retired
    }

    /// Add a retired pointer.
    pub fn add(&mut self, ret_ptr: RetiredPtr)
        ensures
            final(self)@ == old(self)@.push(ret_ptr@),
    {
        self.0.push(ret_ptr);
        assert(self@ =~= old(self)@.push(ret_ptr@));
    }

    /// The number of retired pointers.
    pub fn len(&self) -> (len: usize)
        ensures
            len == self@.len(),
    {
        self.0.len()
    }

    /// Free all the retired objects.
    pub fn drop<S: Store>(self, store: &mut S)
        requires
            old(store).sound(),
            self@.no_duplicates(),
            self@.to_set().subset_of(old(store).live()),
        ensures
            final(store).sound(),
            final(store).freed_from(old(store), self@.to_set()),
    {
        free_all(self.0, store);
    }

    /// Free all the retired objects that no hazard pointer guards.
    pub fn reclaim<S: Store>(&mut self, hzrd: &HzrdPtrs, store: &mut S)
        requires
            hzrd.wf(),
            old(store).sound(),
            old(self)@.no_duplicates(),
            old(self)@.to_set().subset_of(old(store).live()),
        ensures
            final(store).sound(),
            final(self)@ == guarded(old(self)@, hzrd.words()),
            final(store).freed_from(
                old(store),
                reclaimable(old(self)@.to_set(), hzrd.words(), 0),
            ),
    {
        let ghost retired = self@;
        let ghost words = hzrd.words();
        let mut all: Vec<RetiredPtr> = Vec::new();
        std::mem::swap(&mut all, &mut self.0);
        proof {
            reveal(Seq::filter);
            assert(guarded(retired.take(0), words) =~= Seq::<usize>::empty());
            assert(self@ =~= Seq::<usize>::empty());
            assert(reclaimable(retired.take(0).to_set(), words, 0) =~= Set::<usize>::empty());
            store.lemma_freed(store, store, Set::empty(), Set::empty());
        }
        for retired_ptr in it: all
            invariant
                it.seq() == all@,
                addrs_of(all@) == retired,
                retired.len() == all@.len(),
                hzrd.wf(),
                words == hzrd.words(),
                store.sound(),
                retired.no_duplicates(),
                retired.to_set().subset_of(old(store).live()),
                self@ == guarded(retired.take(it.index() as int), words),
                store.freed_from(
                    old(store),
                    reclaimable(retired.take(it.index() as int).to_set(), words, 0),
                ),
        {
            let ghost n = it.index() as int;
            let ghost between = *store;
            let ghost freed = reclaimable(retired.take(n).to_set(), words, 0);
            proof {
                lemma_swept(retired, words, n);
                store.lemma_freed(store, old(store), freed, freed);
                assert(retired[n] == retired_ptr@);
            }
            if hzrd.contains(retired_ptr.addr()) {
                self.add(retired_ptr);
            } else {
                retired_ptr.drop(store);
                proof {
                    store.lemma_freed(
                        &between,
                        old(store),
                        freed,
                        Set::empty().insert(retired[n]),
                    );
                }
            }
        }
        assert(retired.take(retired.len() as int) =~= retired);
    }
}

/// The hazard pointers and the retired pointers of a value.
pub struct Ptrs {
    hzrd: HzrdPtrs,
    retired: RetiredPtrs,
}

impl Ptrs {
    /// The ids of the hazard pointers, in the order in which they are looked at.
    pub closed spec fn ids(&self) -> Seq<usize> {
        self.hzrd.ids()
    }

    /// The addresses of the retired objects, the latest last.
    pub closed spec fn retired(&self) -> Seq<usize> {
        self.retired@
    }

    /// The ids are distinct, and they are the keys of the words. The retired addresses are distinct, and
    /// they are the garbage.
    pub proof fn lemma_ids(&self)
        requires
            self.wf(),
        ensures
            self.ids().no_duplicates(),
            self.words().dom() == self.ids().to_set(),
            self.retired().no_duplicates(),
            self.garbage() == self.retired().to_set(),
    {
        self.hzrd.lemma_ids();
    }

    /// No hazard pointers and no retired pointers.
    pub fn new() -> (ptrs: Self)
        ensures
            ptrs.wf(),
            ptrs.ids() == Seq::<usize>::empty(),
            ptrs.words() == Map::<usize, usize>::empty(),
            ptrs.retired() == Seq::<usize>::empty(),
            ptrs.garbage() == Set::<usize>::empty(),
    {
        let ptrs = Ptrs { hzrd: HzrdPtrs::new(), retired: RetiredPtrs::new() };
        assert(ptrs.garbage() =~= Set::<usize>::empty());
        ptrs
    }

    /// The number of retired objects that were not freed yet.
    pub fn num_retired(&self) -> (number: usize)
        requires
            self.wf(),
        ensures
            number == self.garbage().len(),
    {
        proof {
            self.retired().unique_seq_to_set();
        }
        self.retired.len()
    }

    /// Whether every hazard pointer is available.
    pub fn all_available(&self) -> (available: bool)
        requires
            self.wf(),
        ensures
            available == all_available(self.words()),
    {
        self.hzrd.all_available()
    }
}

/// Every hazard pointer is available.
pub open spec fn all_available(words: Map<usize, usize>) -> bool {
    forall|id: usize| #[trigger] words.contains_key(id) ==> words[id] == NULL
}

impl Domain for Ptrs {
    closed spec fn wf(&self) -> bool {
        self.hzrd.wf() && self.retired@.no_duplicates()
    }

    closed spec fn words(&self) -> Map<usize, usize> {
        self.hzrd.words()
    }

    closed spec fn garbage(&self) -> Set<usize> {
        self.retired@.to_set()
    }

    /// Any garbage is enough.
    open spec fn bulk_size(&self) -> nat {
        0
    }

    /// There is nothing to be set.
    open spec fn settled(&self) -> Option<Config> {
        Some(Config::fixed())
    }

    proof fn lemma_config(&self) {
        Config::lemma_fixed();
    }

    /// The hazard pointers that are new come last.
    open spec fn follows(&self, before: &Self) -> bool {
        &&& before.ids().len() <= self.ids().len()
        &&& forall|i: int|
            0 <= i < before.ids().len() ==> self.ids()[i] == #[trigger] before.ids()[i]
    }

    proof fn lemma_follows(&self, between: &Self, before: &Self) {
    }

    open spec fn keeps(&self, before: &Self) -> bool {
        &&& self.ids() == before.ids()
        &&& self.retired() == before.retired()
    }

    open spec fn acquired_from(&self, before: &Self, id: usize) -> bool {
        &&& before.words().contains_value(NULL) ==> is_first_available(
            before.ids(),
            before.words(),
            id,
        )
        &&& self.ids() == if before.words().contains_value(NULL) {
            before.ids()
        } else {
            before.ids().push(id)
        }
        &&& self.retired() == before.retired()
    }

    open spec fn retired_from(&self, before: &Self, addr: usize) -> bool {
        &&& self.retired() == before.retired().push(addr)
        &&& self.ids() == before.ids()
    }

    open spec fn reclaimed_from(&self, before: &Self) -> bool {
        &&& self.retired() == guarded(before.retired(), before.words())
        &&& self.ids() == before.ids()
    }

    proof fn lemma_keeps(&self, between: &Self, before: &Self) {
    }

    proof fn lemma_finite(&self) {
        self.hzrd.lemma_ids();
        self.retired().unique_seq_to_set();
    }

    fn hzrd_ptr(&mut self) -> (id: usize) {
        self.hzrd.get()
    }

    fn hazard(&self, id: usize) -> (hzrd_ptr: &HzrdPtr) {
        self.hzrd.hazard(id).as_core()
    }

    fn hazard_mut(&mut self, id: usize) -> (hzrd_ptr: &mut HzrdPtr) {
        self.hzrd.hazard_mut(id).as_core_mut()
    }

    fn just_retire(&mut self, ret_ptr: RetiredPtr) {
        self.retired.add(ret_ptr);
        proof {
            lemma_pushed(old(self).retired(), ret_ptr@);
        }
    }

    fn reclaim<S: Store>(&mut self, store: &mut S) -> (reclaimed: usize) {
        proof {
            lemma_guarded(self.retired(), self.words());
            assert(reclaimable(self.garbage(), self.words(), self.bulk_size()) == reclaimable(
                self.retired().to_set(),
                self.words(),
                0,
            ));
        }
        let prev_size = self.retired.len();
        self.retired.reclaim(&self.hzrd, store);
        prev_size - self.retired.len()
    }

    fn retire<S: Store>(&mut self, ret_ptr: RetiredPtr, store: &mut S) -> (reclaimed: usize)
        ensures
            final(self).retired() == guarded(
                old(self).retired().push(ret_ptr@),
                old(self).words(),
            ),
            final(self).ids() == old(self).ids(),
    {
        self.just_retire(ret_ptr);
        let ghost between = *self;
        let reclaimed = self.reclaim(store);
        assert(between.retired_from(old(self), ret_ptr@));
        reclaimed
    }

    fn set_config(&mut self, config: Config) -> (set: Result<(), Config>)
        ensures
            *final(self) == *old(self),
    {
        proof {
            self.lemma_config();
        }
        Err(config)
    }

    fn drop<S: Store>(self, store: &mut S) {
        self.retired.drop(store);
    }
}

/// Container type with the ability to write to the contained value.
pub struct HzrdWriter<T> {
    core: HzrdValue<T>,
}

impl<T> HzrdWriter<T> {
    /// The value is well-formed.
    pub closed spec fn wf(&self) -> bool {
        self.core.wf()
    }

    /// What there is in the region of the value.
    pub closed spec fn state(&self) -> State<T> {
        self.core.state()
    }

    /// The location of the cell that holds the address of the value.
    pub closed spec fn location(&self) -> usize {
        self.core.location()
    }

    /// The hazard pointers and the retired pointers of the value.
    pub closed spec fn ptrs(&self) -> Ptrs {
        self.core.ptrs()
    }

    /// What is known of every writer.
    pub proof fn lemma_state(&self)
        requires
            self.wf(),
        ensures
            self.state().inv(),
            self.state().cells.contains_key(self.location()),
            self.ptrs().wf(),
            self.ptrs().words() == self.state().words,
            self.ptrs().garbage() == self.state().garbage,
    {
        self.core.lemma_state();
    }

    /// The contained value.
    pub open spec fn value(&self) -> T {
        self.state().value_of(self.location())
    }

    /// Construct a new [`HzrdWriter`] containing the given value.
    pub fn new(value: T) -> (writer: Self)
        ensures
            writer.wf(),
            writer.value() == value,
            writer.state().no_leaks(),
            writer.state().cells.dom() == Set::<usize>::empty().insert(writer.location()),
            writer.state().words == Map::<usize, usize>::empty(),
            writer.state().garbage == Set::<usize>::empty(),
            writer.ptrs().ids() == Seq::<usize>::empty(),
            writer.ptrs().retired() == Seq::<usize>::empty(),
    {
        HzrdWriter::from(Box::new(value))
    }

    /// Construct a new [`HzrdReader`] for reading the contained value.
    pub fn new_reader(&mut self) -> (reader: HzrdReader<T>)
        requires
            old(self).wf(),
        ensures
            final(self).wf(),
            final(self).location() == old(self).location(),
            final(self).ptrs().acquired_from(&old(self).ptrs(), reader.id()),
            may_acquire(old(self).state().words, reader.id()),
            final(self).state() == old(self).state().held(reader.id(), DUMMY),
            takes_steps(
                old(self).state(),
                None,
                final(self).state(),
                Some(Task::Owner { id: reader.id() }),
            ),
    {
        HzrdReader { hzrd_ptr: self.core.hzrd_ptr(), marker: PhantomData }
    }

    /// Set the value of the container.
    pub fn set(&mut self, value: T)
        requires
            old(self).wf(),
        ensures
            final(self).wf(),
            final(self).location() == old(self).location(),
            cleared_from(
                &final(self).ptrs(),
                &old(self).ptrs(),
                old(self).state().cells[old(self).location()],
            ),
            final(self).value() == value,
            ({
                let ptr = final(self).state().cells[final(self).location()];
                &&& !old(self).state().values.contains_key(ptr)
                &&& final(self).state() == old(self).state().replaced(
                    old(self).location(),
                    ptr,
                    value,
                ).reclaimed()
            }),
            takes_steps(old(self).state(), None, final(self).state(), None),
    {
        self.core.set(Box::new(value));
    }

    /// First half of setting the value: swap out the old one. It has to be retired.
    pub fn begin_set(&mut self, value: T) -> (retired: RetiredPtr)
        requires
            old(self).wf(),
        ensures
            final(self).wf(),
            final(self).location() == old(self).location(),
            final(self).ptrs() == old(self).ptrs(),
            final(self).value() == value,
            retired@ == old(self).state().cells[old(self).location()],
            final(self).state().private(retired@),
            ({
                let ptr = final(self).state().cells[final(self).location()];
                &&& !old(self).state().values.contains_key(ptr)
                &&& final(self).state() == old(self).state().allocated(ptr, value).written(
                    old(self).location(),
                    ptr,
                )
            }),
            takes_steps(
                old(self).state(),
                None,
                final(self).state(),
                Some(Task::Private { ptr: retired@ }),
            ),
    {
        self.core.begin_set(Box::new(value))
    }

    /// Second half of setting the value: retire the old one, and reclaim memory.
    pub fn finish_set(&mut self, retired: RetiredPtr)
        requires
            old(self).wf(),
            old(self).state().private(retired@),
        ensures
            final(self).wf(),
            final(self).location() == old(self).location(),
            cleared_from(&final(self).ptrs(), &old(self).ptrs(), retired@),
            final(self).state() == old(self).state().retired(retired@).reclaimed(),
            takes_steps(
                old(self).state(),
                Some(Task::Private { ptr: retired@ }),
                final(self).state(),
                None,
            ),
    {
        self.core.finish_set(retired);
    }
}

impl<T> From<Box<T>> for HzrdWriter<T> {
    fn from(boxed: Box<T>) -> (writer: Self)
        ensures
            writer.wf(),
            writer.value() == *boxed,
            writer.state().no_leaks(),
            writer.state().cells.dom() == Set::<usize>::empty().insert(writer.location()),
            writer.state().words == Map::<usize, usize>::empty(),
            writer.state().garbage == Set::<usize>::empty(),
            writer.ptrs().ids() == Seq::<usize>::empty(),
            writer.ptrs().retired() == Seq::<usize>::empty(),
    {
        HzrdWriter { core: HzrdValue::new(boxed) }
    }
}

impl<T> vstd::std_specs::convert::FromSpecImpl<Box<T>> for HzrdWriter<T> {
    open spec fn obeys_from_spec() -> bool {
        false
    }

    open spec fn from_spec(boxed: Box<T>) -> Self {
        arbitrary()
    }
}

/// Container type with the ability to read the value contained by a [`HzrdWriter`].
pub struct HzrdReader<T> {
    hzrd_ptr: usize,
    marker: PhantomData<T>,
}

impl<T> HzrdReader<T> {
    /// The hazard pointer of the reader.
    pub closed spec fn id(&self) -> usize {
        self.hzrd_ptr
    }

    /// The hazard pointer of the reader is one of the writer's.
    pub open spec fn reads(&self, writer: &HzrdWriter<T>) -> bool {
        writer.state().words.contains_key(self.id())
    }

    /// Construct a reader for the value contained by the given writer.
    pub fn from_writer(writer: &mut HzrdWriter<T>) -> (reader: Self)
        requires
            old(writer).wf(),
        ensures
            final(writer).wf(),
            final(writer).location() == old(writer).location(),
            final(writer).ptrs().acquired_from(&old(writer).ptrs(), reader.id()),
            may_acquire(old(writer).state().words, reader.id()),
            final(writer).state() == old(writer).state().held(reader.id(), DUMMY),
            takes_steps(
                old(writer).state(),
                None,
                final(writer).state(),
                Some(Task::Owner { id: reader.id() }),
            ),
    {
        writer.new_reader()
    }

    /// First step of a read: load the address of the value.
    pub fn begin_read(&mut self, writer: &HzrdWriter<T>) -> (read: Read)
        requires
            writer.wf(),
        ensures
            *final(self) == *old(self),
            read.cell() == writer.location(),
            read.id() == old(self).id(),
            read.ptr() == writer.state().cells[writer.location()],
            read.ptr() != NULL,
            takes_steps(
                writer.state(),
                Some(Task::Owner { id: read.id() }),
                writer.state(),
                Some(Task::Loaded { cell: read.cell(), id: read.id(), ptr: read.ptr() }),
            ),
    {
        writer.core.begin_read(self.hzrd_ptr)
    }

    /// Second step of a read: let the hazard pointer hold the address that was loaded.
    pub fn protect(&self, read: &Read, writer: &mut HzrdWriter<T>)
        requires
            old(writer).wf(),
            self.reads(old(writer)),
            read.id() == self.id(),
            read.ptr() != NULL,
        ensures
            final(writer).wf(),
            final(writer).location() == old(writer).location(),
            final(writer).ptrs().keeps(&old(writer).ptrs()),
            final(writer).state() == old(writer).state().held(read.id(), read.ptr()),
            takes_steps(
                old(writer).state(),
                Some(Task::Loaded { cell: read.cell(), id: read.id(), ptr: read.ptr() }),
                final(writer).state(),
                Some(Task::Protected { cell: read.cell(), id: read.id(), ptr: read.ptr() }),
            ),
    {
        writer.core.protect(read);
    }

    /// Third step of a read: find out whether the address that the hazard pointer holds is still that
    /// of the value. Otherwise the read has to go on with the address of the value now.
    pub fn validate(&self, read: Read, writer: &HzrdWriter<T>) -> (validated: Result<
        ReadHandle<T>,
        Read,
    >)
        requires
            writer.wf(),
            read.cell() == writer.location(),
        ensures
            validated is Ok <==> writer.state().cells[writer.location()] == read.ptr(),
            match validated {
                Ok(handle) => {
                    &&& handle.id() == read.id()
                    &&& handle.ptr() == read.ptr()
                    &&& handle.action() == Action::Reset
                },
                Err(again) => {
                    &&& again.cell() == read.cell()
                    &&& again.id() == read.id()
                    &&& again.ptr() == writer.state().cells[writer.location()]
                    &&& again.ptr() != NULL
                },
            },
            takes_steps(
                writer.state(),
                Some(Task::Protected { cell: read.cell(), id: read.id(), ptr: read.ptr() }),
                writer.state(),
                Some(
                    match validated {
                        Ok(handle) => Task::Reading {
                            id: read.id(),
                            ptr: handle.ptr(),
                            action: Action::Reset,
                        },
                        Err(again) => Task::Loaded {
                            cell: read.cell(),
                            id: read.id(),
                            ptr: again.ptr(),
                        },
                    },
                ),
            ),
    {
        writer.core.validate(read)
    }

    /// Get a handle that leads to the current value of the container.
    pub fn read(&mut self, writer: &mut HzrdWriter<T>) -> (handle: ReadHandle<T>)
        requires
            old(writer).wf(),
            old(self).reads(old(writer)),
        ensures
            *final(self) == *old(self),
            final(writer).wf(),
            final(writer).location() == old(writer).location(),
            final(writer).ptrs().keeps(&old(writer).ptrs()),
            handle.id() == old(self).id(),
            handle.ptr() == old(writer).state().cells[old(writer).location()],
            handle.action() == Action::Reset,
            handle.live(final(writer).state()),
            final(writer).state() == old(writer).state().held(handle.id(), handle.ptr()),
            takes_steps(
                old(writer).state(),
                Some(Task::Owner { id: old(self).id() }),
                final(writer).state(),
                Some(
                    Task::Reading {
                        id: handle.id(),
                        ptr: handle.ptr(),
                        action: Action::Reset,
                    },
                ),
            ),
    {
        writer.core.read(self.hzrd_ptr)
    }

    /// Get the value of the container.
    pub fn get(&mut self, writer: &mut HzrdWriter<T>) -> (value: T) where T: Copy
        requires
            old(writer).wf(),
            old(self).reads(old(writer)),
        ensures
            *final(self) == *old(self),
            final(writer).wf(),
            final(writer).location() == old(writer).location(),
            final(writer).ptrs().keeps(&old(writer).ptrs()),
            value == old(writer).value(),
            final(writer).state() == old(writer).state().held(old(self).id(), DUMMY),
            takes_steps(
                old(writer).state(),
                Some(Task::Owner { id: old(self).id() }),
                final(writer).state(),
                Some(Task::Owner { id: old(self).id() }),
            ),
    {
        writer.core.get(self.hzrd_ptr)
    }

    /// Read the contained value and clone it.
    pub fn cloned(&mut self, writer: &mut HzrdWriter<T>) -> (value: T) where T: Clone
        requires
            old(writer).wf(),
            old(self).reads(old(writer)),
        ensures
            *final(self) == *old(self),
            final(writer).wf(),
            final(writer).location() == old(writer).location(),
            final(writer).ptrs().keeps(&old(writer).ptrs()),
            cloned(old(writer).value(), value),
            final(writer).state() == old(writer).state().held(old(self).id(), DUMMY),
            takes_steps(
                old(writer).state(),
                Some(Task::Owner { id: old(self).id() }),
                final(writer).state(),
                Some(Task::Owner { id: old(self).id() }),
            ),
    {
        writer.core.cloned(self.hzrd_ptr)
    }

    /// Look at a value that was read.
    pub fn deref<'w>(handle: &ReadHandle<T>, writer: &'w HzrdWriter<T>) -> (value: &'w T)
        requires
            writer.wf(),
            handle.live(writer.state()),
        ensures
            *value == writer.state().values[handle.ptr()],
    {
        writer.core.deref(handle)
    }

    /// Let go of a value that was read.
    pub fn done(handle: ReadHandle<T>, writer: &mut HzrdWriter<T>)
        requires
            old(writer).wf(),
            handle.live(old(writer).state()),
        ensures
            final(writer).wf(),
            final(writer).location() == old(writer).location(),
            final(writer).ptrs().keeps(&old(writer).ptrs()),
            final(writer).state() == match handle.action() {
                Action::Reset => old(writer).state().held(handle.id(), DUMMY),
                Action::Release => old(writer).state().held(handle.id(), NULL),
            },
            takes_steps(
                old(writer).state(),
                Some(
                    Task::Reading {
                        id: handle.id(),
                        ptr: handle.ptr(),
                        action: handle.action(),
                    },
                ),
                final(writer).state(),
                match handle.action() {
                    Action::Reset => Some(Task::Owner { id: handle.id() }),
                    Action::Release => None,
                },
            ),
    {
        writer.core.done(handle);
    }

    /// Drop the reader, and with it give its hazard pointer up.
    pub fn drop(self, writer: &mut HzrdWriter<T>)
        requires
            old(writer).wf(),
            self.reads(old(writer)),
        ensures
            final(writer).wf(),
            final(writer).location() == old(writer).location(),
            final(writer).ptrs().keeps(&old(writer).ptrs()),
            final(writer).state() == old(writer).state().held(self.id(), NULL),
            takes_steps(
                old(writer).state(),
                Some(Task::Owner { id: self.id() }),
                final(writer).state(),
                None,
            ),
    {
        writer.core.free(self.hzrd_ptr);
    }
}

} // verus!

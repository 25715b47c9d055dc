//! The building blocks: hazard pointers, retired pointers, domains and the memory they govern.
//!
//! The most important part of this module is the [`Domain`] trait: it describes what any type of
//! domain does. The domains of this crate are in [`domains`](crate::domains).

use std::marker::PhantomData;

use vstd::prelude::*;

use crate::domains::{options_of, Config};
use crate::heap::{Store, DUMMY, NULL};
use crate::interleaving::Task;
use crate::operations::{
    lemma_done_takes_steps, lemma_load_takes_steps, lemma_protect_takes_steps,
    lemma_read_takes_steps, lemma_validate_takes_steps, takes_steps,
};
use crate::region::{Region, State};

verus! {

/// What happens to the hazard pointer of a [`ReadHandle`] when the handle is dropped.
#[derive(Debug, Clone, Copy)]
pub enum Action {
    /// Reset the hazard pointer: it stays owned and guards nothing.
    Reset,
    /// Release the hazard pointer: anyone may acquire it.
    Release,
}

/// The address that an owned hazard pointer holds while it guards nothing.
pub fn dummy_addr() -> (addr: usize)
    ensures
        addr == DUMMY,
{
    DUMMY
}

/// Holds some address that is currently used.
///
/// A hazard pointer that holds [`NULL`] is available; any other is owned by somebody.
#[derive(Debug)]
pub struct HzrdPtr(usize);

impl View for HzrdPtr {
    type V = usize;

    /// The address held.
    closed spec fn view(&self) -> usize {
        self.0
    }
}

impl HzrdPtr {
    /// Create a new hazard pointer (it will already be acquired).
    pub fn new() -> (hzrd_ptr: Self)
        ensures
            hzrd_ptr@ == DUMMY,
    {
        HzrdPtr(dummy_addr())
    }

    /// The address held by the hazard pointer.
    pub fn get(&self) -> (addr: usize)
        ensures
            addr == self@,
    {
        self.0
    }

    /// Try to acquire the hazard pointer, which succeeds if it is available.
    pub fn try_acquire(&mut self) -> (acquired: Option<&Self>)
        ensures
            match acquired {
                Some(hzrd_ptr) => {
                    &&& old(self)@ == NULL
                    &&& final(self)@ == DUMMY
                    &&& *hzrd_ptr == *final(self)
                },
                None => old(self)@ != NULL && *final(self) == *old(self),
            },
    {
        if self.0 == NULL {
            self.0 = dummy_addr();
            Some(&*self)
        } else {
            None
        }
    }

    /// Protect the object at the given address.
    pub fn protect(&mut self, ptr: usize)
        requires
            ptr != NULL,
        ensures
            final(self)@ == ptr,
    {
        self.0 = ptr;
    }

    /// Stop guarding anything, without giving the hazard pointer up.
    pub fn reset(&mut self)
        ensures
            final(self)@ == DUMMY,
    {
        self.0 = dummy_addr();
    }

    /// Give the hazard pointer up. It must be acquired anew before it is used again.
    pub fn release(&mut self)
        ensures
            final(self)@ == NULL,
    {
        self.0 = NULL;
    }
}

impl Default for HzrdPtr {
    fn default() -> (hzrd_ptr: Self)
        ensures
            hzrd_ptr@ == DUMMY,
    {
        HzrdPtr::new()
    }
}

/// The address of an object that nobody will come upon any more, but that somebody may still be
/// looking at.
#[derive(Debug)]
pub struct RetiredPtr {
    ptr: usize,
}

impl View for RetiredPtr {
    type V = usize;

    /// The address of the object.
    closed spec fn view(&self) -> usize {
        self.ptr
    }
}

impl RetiredPtr {
    /// Create a new retired pointer.
    pub fn new(ptr: usize) -> (retired: Self)
        requires
            ptr != NULL,
        ensures
            retired@ == ptr,
    {
        RetiredPtr { ptr }
    }

    /// The address of the retired object.
    pub fn addr(&self) -> (addr: usize)
        ensures
            addr == self@,
    {
        self.ptr
    }

    /// Free the retired object.
    pub fn drop<S: Store>(self, store: &mut S)
        requires
            old(store).sound(),
            old(store).live().contains(self@),
        ensures
            final(store).sound(),
            final(store).freed_from(old(store), Set::empty().insert(self@)),
    {
        store.free(self.ptr);
    }
}

/// Whether the hazard pointer `id` may be handed out, given what all of them hold: it must be
/// available, or new if none is.
pub open spec fn may_acquire(words: Map<usize, usize>, id: usize) -> bool {
    if words.contains_value(NULL) {
        words.contains_key(id) && words[id] == NULL
    } else {
        !words.contains_key(id)
    }
}

/// The hazard pointer `id` is the first available one, in the order given by `ids`.
pub open spec fn is_first_available(
    ids: Seq<usize>,
    words: Map<usize, usize>,
    id: usize,
) -> bool {
    exists|i: int|
        {
            &&& 0 <= i < ids.len()
            &&& #[trigger] ids[i] == id
            &&& words[id] == NULL
            &&& forall|j: int| 0 <= j < i ==> words[#[trigger] ids[j]] != NULL
        }
}

/// The garbage that a reclamation frees: nothing if there is less of it than the bulk size,
/// otherwise all that no hazard pointer holds the address of.
pub open spec fn reclaimable(
    garbage: Set<usize>,
    words: Map<usize, usize>,
    bulk_size: nat,
) -> Set<usize> {
    if garbage.len() < bulk_size {
        Set::empty()
    } else {
        garbage.filter(|addr: usize| !words.contains_value(addr))
    }
}

/// What a reclamation leaves of a sequence of retired addresses: those that are guarded.
pub open spec fn guarded(retired: Seq<usize>, words: Map<usize, usize>) -> Seq<usize> {
    retired.filter(|addr: usize| words.contains_value(addr))
}

/// A reclamation of at least the bulk size leaves exactly what it does not free.
pub proof fn lemma_guarded(retired: Seq<usize>, words: Map<usize, usize>)
    requires
        retired.no_duplicates(),
    ensures
        guarded(retired, words).no_duplicates(),
        guarded(retired, words).to_set() == retired.to_set().difference(
            reclaimable(retired.to_set(), words, 0),
        ),
        reclaimable(retired.to_set(), words, 0).finite(),
        guarded(retired, words).len() + reclaimable(retired.to_set(), words, 0).len()
            == retired.len(),
    decreases retired.len(),
{
    reveal(Seq::filter);
    let kept = guarded(retired, words);
    let freed = reclaimable(retired.to_set(), words, 0);
    if retired.len() == 0 {
        assert(freed =~= Set::empty());
        assert(kept.to_set() =~= retired.to_set().difference(freed));
    } else {
        let rest = retired.drop_last();
        let last = retired.last();
        lemma_guarded(rest, words);
        let kept_rest = guarded(rest, words);
        let freed_rest = reclaimable(rest.to_set(), words, 0);
        assert(!rest.to_set().contains(last)) by {
            if rest.contains(last) {
                let i = rest.index_of(last);
                assert(retired[i] == last);
            }
        }
        assert(retired.to_set() =~= rest.to_set().insert(last)) by {
            assert(retired =~= rest.push(last));
            assert forall|a: usize| rest.to_set().insert(last).contains(
                a,
            ) implies retired.to_set().contains(a) by {
                if rest.contains(a) {
                    assert(retired[rest.index_of(a)] == a);
                } else {
                    assert(retired[retired.len() - 1] == a);
                }
            }
        }
        assert(kept_rest.to_set() =~= rest.to_set().difference(freed_rest));
        assert(!kept_rest.contains(last)) by {
            if kept_rest.contains(last) {
                assert(kept_rest.to_set().contains(last));
            }
        }
        if words.contains_value(last) {
            assert(kept == kept_rest.push(last));
            assert(freed =~= freed_rest);
            assert(kept.to_set() =~= kept_rest.to_set().insert(last)) by {
                assert forall|a: usize| kept_rest.to_set().insert(last).contains(
                    a,
                ) implies kept.to_set().contains(a) by {
                    if kept_rest.contains(a) {
                        assert(kept[kept_rest.index_of(a)] == a);
                    } else {
                        assert(kept[kept.len() - 1] == a);
                    }
                }
            }
        } else {
            assert(kept == kept_rest);
            assert(freed =~= freed_rest.insert(last));
        }
        assert(kept.to_set() =~= retired.to_set().difference(freed));
    }
}

/// A hazard pointer domain.
///
/// A domain has a set of hazard pointers, each known by an id, and a pile of garbage: objects that
/// were retired to it. It frees such an object once none of its hazard pointers holds the object's
/// address.
pub trait Domain: Sized {
    /// The invariant of the domain.
    spec fn wf(&self) -> bool;

    /// What each hazard pointer holds, by id.
    spec fn words(&self) -> Map<usize, usize>;

    /// The addresses of the retired objects that were not freed yet.
    spec fn garbage(&self) -> Set<usize>;

    /// How much garbage there has to be for a reclamation to take place.
    spec fn bulk_size(&self) -> nat;

    /// The config of the domain, if it is settled.
    spec fn settled(&self) -> Option<Config>;

    /// The bulk size is the one among the options that the domain goes by.
    proof fn lemma_config(&self)
        ensures
            self.bulk_size() == options_of(self.settled()).bulk(),
    ;

    /// The domain is one that `before` may have turned into: whoever was going through the hazard
    /// pointers of `before` can go on.
    spec fn follows(&self, before: &Self) -> bool;

    /// A domain may have turned into itself, and into what it turned into by and by.
    proof fn lemma_follows(&self, between: &Self, before: &Self)
        ensures
            before.follows(before),
            self.follows(between) && between.follows(before) ==> self.follows(before),
    ;

    /// The domain has what `before` has in the same places, but for what the hazard pointers hold and
    /// for the config.
    spec fn keeps(&self, before: &Self) -> bool;

    /// The domain is what `before` turns into when the given hazard pointer is handed out.
    spec fn acquired_from(&self, before: &Self, id: usize) -> bool;

    /// The domain is what `before` turns into when the object at the given address is retired.
    spec fn retired_from(&self, before: &Self, addr: usize) -> bool;

    /// The domain is what `before` turns into when memory is reclaimed.
    spec fn reclaimed_from(&self, before: &Self) -> bool;

    /// What keeps everything in its place can be left out.
    proof fn lemma_keeps(&self, between: &Self, before: &Self)
        ensures
            before.keeps(before),
            self.keeps(between) && between.keeps(before) ==> self.keeps(before),
            self.keeps(between) ==> forall|id: usize| #[trigger]
                between.acquired_from(before, id) ==> self.acquired_from(before, id),
    ;

    /// There are finitely many hazard pointers and retired objects.
    proof fn lemma_finite(&self)
        requires
            self.wf(),
        ensures
            self.words().dom().finite(),
            self.garbage().finite(),
    ;

    /// Get a hazard pointer that is now owned by the caller.
    ///
    /// A new one is made only if there are none available.
    fn hzrd_ptr(&mut self) -> (id: usize)
        requires
            old(self).wf(),
        ensures
            final(self).wf(),
            may_acquire(old(self).words(), id),
            final(self).words() == old(self).words().insert(id, DUMMY),
            final(self).garbage() == old(self).garbage(),
            final(self).bulk_size() == old(self).bulk_size(),
            final(self).settled() == old(self).settled(),
            final(self).acquired_from(old(self), id),
            final(self).follows(old(self)),
    ;

    /// The hazard pointer with the given id.
    fn hazard(&self, id: usize) -> (hzrd_ptr: &HzrdPtr)
        requires
            self.wf(),
            self.words().contains_key(id),
        ensures
            hzrd_ptr@ == self.words()[id],
    ;

    /// Exclusive access to the hazard pointer with the given id.
    fn hazard_mut(&mut self, id: usize) -> (hzrd_ptr: &mut HzrdPtr)
        requires
            old(self).wf(),
            old(self).words().contains_key(id),
        ensures
            hzrd_ptr@ == old(self).words()[id],
            final(self).wf(),
            final(self).words() == old(self).words().insert(id, final(hzrd_ptr)@),
            final(self).garbage() == old(self).garbage(),
            final(self).bulk_size() == old(self).bulk_size(),
            final(self).settled() == old(self).settled(),
            final(self).keeps(old(self)),
            final(self).follows(old(self)),
    ;

    /// Retire the provided pointer, but don't reclaim memory.
    fn just_retire(&mut self, ret_ptr: RetiredPtr)
        requires
            old(self).wf(),
            !old(self).garbage().contains(ret_ptr@),
        ensures
            final(self).wf(),
            final(self).words() == old(self).words(),
            final(self).garbage() == old(self).garbage().insert(ret_ptr@),
            final(self).bulk_size() == old(self).bulk_size(),
            final(self).settled() == old(self).settled(),
            final(self).retired_from(old(self), ret_ptr@),
            final(self).follows(old(self)),
    ;

    /// Free all the garbage that no hazard pointer guards, and return how many objects that were.
    ///
    /// Nothing happens if there is less garbage than the bulk size.
    fn reclaim<S: Store>(&mut self, store: &mut S) -> (reclaimed: usize)
        requires
            old(self).wf(),
            old(store).sound(),
            old(self).garbage().subset_of(old(store).live()),
        ensures
            final(self).wf(),
            final(store).sound(),
            ({
                let freed = reclaimable(
                    old(self).garbage(),
                    old(self).words(),
                    old(self).bulk_size(),
                );
                &&& reclaimed == freed.len()
                &&& final(self).garbage() == old(self).garbage().difference(freed)
                &&& final(store).freed_from(old(store), freed)
            }),
            final(self).words() == old(self).words(),
            final(self).bulk_size() == old(self).bulk_size(),
            final(self).settled() == Some(options_of(old(self).settled())),
            final(self).reclaimed_from(old(self)),
            final(self).follows(old(self)),
    ;

    /// Set the config, unless it is settled already.
    fn set_config(&mut self, config: Config) -> (set: Result<(), Config>)
        requires
            old(self).wf(),
        ensures
            final(self).wf(),
            match old(self).settled() {
                None => set == Ok::<(), Config>(()) && final(self).settled() == Some(config),
                Some(_) => set == Err::<(), Config>(config) && final(self).settled() == old(
                    self,
                ).settled(),
            },
            final(self).bulk_size() == options_of(final(self).settled()).bulk(),
            final(self).words() == old(self).words(),
            final(self).garbage() == old(self).garbage(),
            final(self).keeps(old(self)),
            final(self).follows(old(self)),
    ;

    /// Drop the domain, and along with it free all the garbage. Nobody reads any more.
    fn drop<S: Store>(self, store: &mut S)
        requires
            self.wf(),
            old(store).sound(),
            self.garbage().subset_of(old(store).live()),
        ensures
            final(store).sound(),
            final(store).freed_from(old(store), self.garbage()),
    ;

    /// Retire the provided pointer, then reclaim memory, and return how many objects were freed.
    fn retire<S: Store>(&mut self, ret_ptr: RetiredPtr, store: &mut S) -> (reclaimed: usize)
        requires
            old(self).wf(),
            old(store).sound(),
            !old(self).garbage().contains(ret_ptr@),
            old(store).live().contains(ret_ptr@),
            old(self).garbage().subset_of(old(store).live()),
        ensures
            final(self).wf(),
            final(store).sound(),
            ({
                let garbage = old(self).garbage().insert(ret_ptr@);
                let freed = reclaimable(garbage, old(self).words(), old(self).bulk_size());
                &&& reclaimed == freed.len()
                &&& final(self).garbage() == garbage.difference(freed)
                &&& final(store).freed_from(old(store), freed)
            }),
            final(self).words() == old(self).words(),
            final(self).bulk_size() == old(self).bulk_size(),
            final(self).settled() == Some(options_of(old(self).settled())),
            exists|between: Self| #[trigger]
                between.retired_from(old(self), ret_ptr@) && between.wf() && between.words() == old(
                    self,
                ).words() && between.garbage() == old(self).garbage().insert(ret_ptr@)
                    && between.bulk_size() == old(self).bulk_size() && between.settled() == old(
                    self,
                ).settled() && final(self).reclaimed_from(&between),
            final(self).follows(old(self)),
    {
        self.just_retire(ret_ptr);
        let ghost between = *self;
        let reclaimed = self.reclaim(store);
        proof {
            self.lemma_follows(&between, old(self));
            assert(between.retired_from(old(self), ret_ptr@));
        }
        reclaimed
    }
}

/// The domain `after` is what `before` turns into when the object at the given address is retired, and
/// memory is reclaimed then.
pub open spec fn cleared_from<D: Domain>(after: &D, before: &D, addr: usize) -> bool {
    exists|between: D|
        {
            &&& #[trigger] between.retired_from(before, addr)
            &&& between.wf()
            &&& between.words() == before.words()
            &&& between.garbage() == before.garbage().insert(addr)
            &&& between.bulk_size() == before.bulk_size()
            &&& between.settled() == before.settled()
            &&& after.reclaimed_from(&between)
        }
}

/// A domain behind a pointer is a domain too.
impl<D: Domain> Domain for Box<D> {
    open spec fn wf(&self) -> bool {
        (**self).wf()
    }

    open spec fn words(&self) -> Map<usize, usize> {
        (**self).words()
    }

    open spec fn garbage(&self) -> Set<usize> {
        (**self).garbage()
    }

    open spec fn bulk_size(&self) -> nat {
        (**self).bulk_size()
    }

    open spec fn settled(&self) -> Option<Config> {
        (**self).settled()
    }

    proof fn lemma_config(&self) {
        (**self).lemma_config();
    }

    open spec fn follows(&self, before: &Self) -> bool {
        (**self).follows(&**before)
    }

    proof fn lemma_follows(&self, between: &Self, before: &Self) {
        (**self).lemma_follows(&**between, &**before);
    }

    open spec fn keeps(&self, before: &Self) -> bool {
        (**self).keeps(&**before)
    }

    open spec fn acquired_from(&self, before: &Self, id: usize) -> bool {
        (**self).acquired_from(&**before, id)
    }

    open spec fn retired_from(&self, before: &Self, addr: usize) -> bool {
        (**self).retired_from(&**before, addr)
    }

    open spec fn reclaimed_from(&self, before: &Self) -> bool {
        (**self).reclaimed_from(&**before)
    }

    proof fn lemma_keeps(&self, between: &Self, before: &Self) {
        (**self).lemma_keeps(&**between, &**before);
    }

    proof fn lemma_finite(&self) {
        (**self).lemma_finite();
    }

    fn hzrd_ptr(&mut self) -> (id: usize) {
        (**self).hzrd_ptr()
    }

    fn hazard(&self, id: usize) -> (hzrd_ptr: &HzrdPtr) {
        (**self).hazard(id)
    }

    fn hazard_mut(&mut self, id: usize) -> (hzrd_ptr: &mut HzrdPtr) {
        (**self).hazard_mut(id)
    }

    fn just_retire(&mut self, ret_ptr: RetiredPtr) {
        (**self).just_retire(ret_ptr)
    }

    fn reclaim<S: Store>(&mut self, store: &mut S) -> (reclaimed: usize) {
        (**self).reclaim(store)
    }

    fn set_config(&mut self, config: Config) -> (set: Result<(), Config>) {
        (**self).set_config(config)
    }

    fn drop<S: Store>(self, store: &mut S) {
        let domain: D = *self;
        domain.drop(store);
    }
}

/// A read under way: it has loaded an address from a cell, but has yet to find out whether its
/// hazard pointer came to guard that address in time.
pub struct Read {
    cell: usize,
    hzrd_ptr: usize,
    ptr: usize,
}

impl Read {
    /// The cell that is read.
    pub closed spec fn cell(&self) -> usize {
        self.cell
    }

    /// The hazard pointer that is to guard what is read.
    pub closed spec fn id(&self) -> usize {
        self.hzrd_ptr
    }

    /// The address that was last loaded.
    pub closed spec fn ptr(&self) -> usize {
        self.ptr
    }

    /// First step of a read: load the address held by the cell.
    pub fn begin<T, D: Domain>(region: &Region<T, D>, cell: usize, hzrd_ptr: usize) -> (read: Self)
        requires
            region.wf(),
            region@.cells.contains_key(cell),
        ensures
            read.cell() == cell,
            read.id() == hzrd_ptr,
            read.ptr() == region@.cells[cell],
            read.ptr() != NULL,
            takes_steps(
                region@,
                Some(Task::Owner { id: hzrd_ptr }),
                region@,
                Some(Task::Loaded { cell, id: hzrd_ptr, ptr: read.ptr() }),
            ),
    {
        proof {
            lemma_load_takes_steps(region@, cell, hzrd_ptr);
        }
        Read { cell, hzrd_ptr, ptr: region.load(cell) }
    }

    /// Second step of a read: let the hazard pointer hold the address that was loaded.
    pub fn protect<T, D: Domain>(&self, region: &mut Region<T, D>)
        requires
            old(region).wf(),
            old(region)@.words.contains_key(self.id()),
            self.ptr() != NULL,
        ensures
            final(region).wf(),
            final(region)@ == old(region)@.held(self.id(), self.ptr()),
            takes_steps(
                old(region)@,
                Some(Task::Loaded { cell: self.cell(), id: self.id(), ptr: self.ptr() }),
                final(region)@,
                Some(Task::Protected { cell: self.cell(), id: self.id(), ptr: self.ptr() }),
            ),
            final(region).keeps(old(region)),
            final(region).follows(old(region)),
    {
        proof {
            lemma_protect_takes_steps(region@, self.cell, self.hzrd_ptr, self.ptr);
        }
        region.protect(self.hzrd_ptr, self.ptr);
    }

    /// Third step of a read: if the cell still holds the address that the hazard pointer holds, the
    /// value is guarded. Otherwise the read has to go on with the address that the cell holds now.
    pub fn validate<T, D: Domain>(self, region: &Region<T, D>, action: Action) -> (validated: Result<
        ReadHandle<T>,
        Read,
    >)
        requires
            region.wf(),
            region@.cells.contains_key(self.cell()),
        ensures
            validated is Ok <==> region@.cells[self.cell()] == self.ptr(),
            match validated {
                Ok(handle) => {
                    &&& handle.id() == self.id()
                    &&& handle.ptr() == self.ptr()
                    &&& handle.action() == action
                    &&& region@.values.contains_key(handle.ptr())
                },
                Err(read) => {
                    &&& read.cell() == self.cell()
                    &&& read.id() == self.id()
                    &&& read.ptr() == region@.cells[self.cell()]
                    &&& read.ptr() != NULL
                },
            },
            takes_steps(
                region@,
                Some(Task::Protected { cell: self.cell(), id: self.id(), ptr: self.ptr() }),
                region@,
                Some(
                    match validated {
                        Ok(handle) => Task::Reading { id: self.id(), ptr: handle.ptr(), action },
                        Err(read) => Task::Loaded {
                            cell: self.cell(),
                            id: self.id(),
                            ptr: read.ptr(),
                        },
                    },
                ),
            ),
    {
        proof {
            lemma_validate_takes_steps(region@, self.cell, self.hzrd_ptr, self.ptr, action);
        }
        let new_ptr = region.load(self.cell);
        if self.ptr == new_ptr {
            Ok(
                ReadHandle {
                    value: self.ptr,
                    hzrd_ptr: self.hzrd_ptr,
                    action,
                    marker: PhantomData,
                },
            )
        } else {
            Err(Read { cell: self.cell, hzrd_ptr: self.hzrd_ptr, ptr: new_ptr })
        }
    }
}

/// Leads to a value that was read. The value is kept alive by a hazard pointer.
///
/// The handle leads to the value as it was when it was read: if the cell is written to during the
/// lifetime of the handle, the handle still leads to the old value.
pub struct ReadHandle<T> {
    value: usize,
    hzrd_ptr: usize,
    action: Action,
    marker: PhantomData<T>,
}

impl<T> ReadHandle<T> {
    /// The address of the value.
    pub closed spec fn ptr(&self) -> usize {
        self.value
    }

    /// The hazard pointer that guards the value.
    pub closed spec fn id(&self) -> usize {
        self.hzrd_ptr
    }

    /// What happens to the hazard pointer when the handle is dropped.
    pub closed spec fn action(&self) -> Action {
        self.action
    }

    /// The hazard pointer of the handle guards its value.
    pub open spec fn live(&self, state: State<T>) -> bool {
        state.guards(self.id(), self.ptr())
    }

    /// Read the value of a cell, guarded by the given hazard pointer, which the caller owns.
    pub fn read_unchecked<D: Domain>(
        region: &mut Region<T, D>,
        cell: usize,
        hzrd_ptr: usize,
        action: Action,
    ) -> (handle: Self)
        requires
            old(region).wf(),
            old(region)@.cells.contains_key(cell),
            old(region)@.words.contains_key(hzrd_ptr),
        ensures
            final(region).wf(),
            handle.id() == hzrd_ptr,
            handle.ptr() == old(region)@.cells[cell],
            handle.action() == action,
            handle.live(final(region)@),
            final(region)@ == old(region)@.held(hzrd_ptr, old(region)@.cells[cell]),
            takes_steps(
                old(region)@,
                Some(Task::Owner { id: hzrd_ptr }),
                final(region)@,
                Some(Task::Reading { id: hzrd_ptr, ptr: handle.ptr(), action }),
            ),
            final(region).keeps(old(region)),
            final(region).follows(old(region)),
    {
        let mut read = Read::begin(region, cell, hzrd_ptr);
        proof {
            region.lemma_follows(region, region);
            region.lemma_keeps(region, region);
        }
        loop
            invariant
                region.wf(),
                region.keeps(old(region)),
                region.follows(old(region)),
                old(region)@.cells.contains_key(cell),
                old(region)@.words.contains_key(hzrd_ptr),
                read.cell() == cell,
                read.id() == hzrd_ptr,
                read.ptr() != NULL,
                region@.words.contains_key(hzrd_ptr),
                region@ == old(region)@ || exists|ptr: usize|
                    region@ == #[trigger] old(region)@.held(hzrd_ptr, ptr),
            decreases if read.ptr() == old(region)@.cells[cell] { 0int } else { 1int },
        {
            let ghost between = *region;
            read.protect(region);
            proof {
                region.lemma_follows(&between, old(region));
                region.lemma_keeps(&between, old(region));
            }
            assert(region@ =~= old(region)@.held(hzrd_ptr, read.ptr()));

            // The cell may have been written to before the hazard pointer was.
            match read.validate(region, action) {
                Ok(handle) => {
                    proof {
                        lemma_read_takes_steps(old(region)@, cell, hzrd_ptr, action);
                    }
                    return handle;
                },
                Err(again) => {
                    read = again;
                },
            }
        }
    }

    /// Look at the value.
    pub fn deref<'r, D: Domain>(&self, region: &'r Region<T, D>) -> (value: &'r T)
        requires
            region.wf(),
            self.live(region@),
        ensures
            *value == region@.values[self.ptr()],
    {
        region.value(self.value)
    }

    /// The hazard pointer of the handle, if it stays owned when the handle is dropped.
    pub fn reader(&self) -> (id: Option<usize>)
        ensures
            id == match self.action() {
                Action::Reset => Some(self.id()),
                Action::Release => None,
            },
    {
        match self.action {
            Action::Reset => Some(self.hzrd_ptr),
            Action::Release => None,
        }
    }

    /// Drop the handle. The value is not guarded by it any more.
    pub fn drop<D: Domain>(self, region: &mut Region<T, D>)
        requires
            old(region).wf(),
            self.live(old(region)@),
        ensures
            final(region).wf(),
            final(region)@ == match self.action() {
                Action::Reset => old(region)@.held(self.id(), DUMMY),
                Action::Release => old(region)@.held(self.id(), NULL),
            },
            takes_steps(
                old(region)@,
                Some(
                    Task::Reading { id: self.id(), ptr: self.ptr(), action: self.action() },
                ),
                final(region)@,
                match self.action() {
                    Action::Reset => Some(Task::Owner { id: self.id() }),
                    Action::Release => None,
                },
            ),
            final(region).keeps(old(region)),
            final(region).follows(old(region)),
    {
        proof {
            lemma_done_takes_steps(region@, self.id(), self.ptr());
        }
        match self.action {
            Action::Reset => region.reset(self.hzrd_ptr),
            Action::Release => region.release(self.hzrd_ptr),
        }
    }
}

} // verus!

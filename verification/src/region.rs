//! The memory that a domain governs.
//!
//! A [`Region`] holds values, cells and a domain. A cell is a shared variable that holds the address
//! of a value; readers reach the values through the cells. The functions of a region are the
//! elementary accesses that everything else is made of. Each of them says what becomes of the
//! [`State`] of the region, and anything that several parties do to a region at once is some
//! sequence of these accesses.

use vstd::prelude::*;

use crate::domains::{
    addrs_of, options_of, Config, GlobalConfig, HzrdPtrs, Scan, Search, SharedDomain, Sweep,
};
use crate::hazard::{cleared_from, may_acquire, reclaimable, Domain, RetiredPtr};
use crate::heap::{Heap, Store, DUMMY, NULL};
use crate::stack::SharedStack;

verus! {

/// What there is in a region.
#[verifier::ext_equal]
pub struct State<T> {
    /// The values that were allocated and not freed, by address.
    pub values: Map<usize, T>,
    /// The address held by each cell, by the location of the cell.
    pub cells: Map<usize, usize>,
    /// The address held by each hazard pointer, by its id.
    pub words: Map<usize, usize>,
    /// The addresses of the values that were retired and not freed.
    pub garbage: Set<usize>,
    /// The config of the domain, if it is settled.
    pub config: Option<Config>,
}

impl<T> State<T> {
    /// Every cell holds the address of a value of its own, and the garbage is apart from those.
    pub open spec fn inv(self) -> bool {
        &&& forall|cell: usize| #[trigger]
            self.cells.contains_key(cell) ==> self.values.contains_key(self.cells[cell])
                && !self.garbage.contains(self.cells[cell])
        &&& forall|cell: usize, other: usize|
            #![trigger self.cells.contains_key(cell), self.cells.contains_key(other)]
            self.cells.contains_key(cell) && self.cells.contains_key(other) && cell != other
                ==> self.cells[cell] != self.cells[other]
        &&& self.garbage.subset_of(self.values.dom())
        &&& self.garbage.finite()
        &&& !self.values.contains_key(NULL)
        &&& !self.values.contains_key(DUMMY)
    }

    /// Every value is held by a cell, or is garbage.
    pub open spec fn no_leaks(self) -> bool {
        forall|ptr: usize| #[trigger]
            self.values.contains_key(ptr) ==> self.garbage.contains(ptr)
                || self.cells.contains_value(ptr)
    }

    /// The value at the given address is known to a single party: no cell holds it, and it is not
    /// garbage.
    pub open spec fn private(self, ptr: usize) -> bool {
        &&& self.values.contains_key(ptr)
        &&& !self.garbage.contains(ptr)
        &&& !self.cells.contains_value(ptr)
    }

    /// The given hazard pointer guards the value at the given address.
    pub open spec fn guards(self, id: usize, ptr: usize) -> bool {
        &&& self.words.contains_key(id)
        &&& self.words[id] == ptr
        &&& self.values.contains_key(ptr)
    }

    /// The value that the given cell leads to.
    pub open spec fn value_of(self, cell: usize) -> T {
        self.values[self.cells[cell]]
    }

    /// A new value.
    pub open spec fn allocated(self, ptr: usize, value: T) -> Self {
        State { values: self.values.insert(ptr, value), ..self }
    }

    /// A cell, new or not, that now holds the given address.
    pub open spec fn written(self, cell: usize, ptr: usize) -> Self {
        State { cells: self.cells.insert(cell, ptr), ..self }
    }

    /// A hazard pointer, new or not, that now holds the given address.
    pub open spec fn held(self, id: usize, ptr: usize) -> Self {
        State { words: self.words.insert(id, ptr), ..self }
    }

    /// A value that was retired.
    pub open spec fn retired(self, ptr: usize) -> Self {
        State { garbage: self.garbage.insert(ptr), ..self }
    }

    /// A new value was put in the place of that of a cell, and the old one was retired.
    pub open spec fn replaced(self, cell: usize, ptr: usize, value: T) -> Self {
        self.allocated(ptr, value).written(cell, ptr).retired(self.cells[cell])
    }

    /// The options that hold.
    pub open spec fn options(self) -> Config {
        options_of(self.config)
    }

    /// How much garbage there has to be for a reclamation to take place.
    pub open spec fn bulk_size(self) -> nat {
        self.options().bulk() as nat
    }

    /// Somebody went by the config.
    pub open spec fn settled(self) -> Self {
        State { config: Some(self.options()), ..self }
    }

    /// The domain goes by the config that everybody goes by, unless it has one of its own.
    pub open spec fn went_by(self, global: Option<Config>) -> Self {
        match self.config {
            Some(_) => self,
            None => State { config: Some(options_of(global)), ..self },
        }
    }

    /// The garbage that a reclamation frees.
    pub open spec fn reclaimable(self) -> Set<usize> {
        reclaimable(self.garbage, self.words, self.bulk_size())
    }

    /// A reclamation took place.
    pub open spec fn reclaimed(self) -> Self {
        State {
            values: self.values.remove_keys(self.reclaimable()),
            garbage: self.garbage.difference(self.reclaimable()),
            ..self.settled()
        }
    }
}

/// Values, the cells that hold their addresses, and the domain that guards them.
pub struct Region<T, D> {
    values: Heap<T>,
    cells: Heap<usize>,
    domain: D,
}

impl<T, D: Domain> View for Region<T, D> {
    type V = State<T>;

    closed spec fn view(&self) -> State<T> {
        State {
            values: self.values@,
            cells: self.cells@,
            words: self.domain.words(),
            garbage: self.domain.garbage(),
            config: self.domain.settled(),
        }
    }
}

impl<T, D: Domain> Region<T, D> {
    /// The region and its domain keep their invariants.
    pub closed spec fn wf(&self) -> bool {
        &&& self.values.wf()
        &&& self.cells.wf()
        &&& self.domain.wf()
        &&& self@.inv()
    }

    /// The domain that guards the values.
    pub closed spec fn governor(&self) -> D {
        self.domain
    }

    /// The region is one that `before` may have turned into: whoever was going through the hazard
    /// pointers of `before` can go on.
    pub open spec fn follows(&self, before: &Self) -> bool {
        self.governor().follows(&before.governor())
    }

    /// The domain of the region has what that of `before` has in the same places.
    pub open spec fn keeps(&self, before: &Self) -> bool {
        self.governor().keeps(&before.governor())
    }

    /// The given hazard pointer was handed out by the domain of `before`.
    pub open spec fn acquired_from(&self, before: &Self, id: usize) -> bool {
        self.governor().acquired_from(&before.governor(), id)
    }

    /// The value at the given address was retired to the domain of `before`.
    pub open spec fn retired_from(&self, before: &Self, ptr: usize) -> bool {
        self.governor().retired_from(&before.governor(), ptr)
    }

    /// The domain of `before` has reclaimed memory.
    pub open spec fn reclaimed_from(&self, before: &Self) -> bool {
        self.governor().reclaimed_from(&before.governor())
    }

    /// The value at the given address was retired to the domain of `before`, which has reclaimed
    /// memory then.
    pub open spec fn cleared_from(&self, before: &Self, ptr: usize) -> bool {
        cleared_from(&self.governor(), &before.governor(), ptr)
    }

    /// What keeps everything in its place can be left out.
    pub proof fn lemma_keeps(&self, between: &Self, before: &Self)
        ensures
            before.keeps(before),
            self.keeps(between) && between.keeps(before) ==> self.keeps(before),
            self.keeps(between) ==> forall|id: usize| #[trigger]
                between.acquired_from(before, id) ==> self.acquired_from(before, id),
    {
        self.governor().lemma_keeps(&between.governor(), &before.governor());
    }

    /// A region may have turned into itself, and into what it turned into by and by.
    pub proof fn lemma_follows(&self, between: &Self, before: &Self)
        ensures
            before.follows(before),
            self.follows(between) && between.follows(before) ==> self.follows(before),
    {
        self.governor().lemma_follows(&between.governor(), &before.governor());
    }

    /// What is known of the state of every region.
    pub proof fn lemma_state(&self)
        requires
            self.wf(),
        ensures
            self@.inv(),
            self@.words == self.governor().words(),
            self@.garbage == self.governor().garbage(),
            self@.config == self.governor().settled(),
            self@.bulk_size() == self.governor().bulk_size(),
            self.governor().wf(),
            self@.words.dom().finite(),
    {
        self.domain.lemma_finite();
        self.domain.lemma_config();
    }

    /// A region without values.
    pub fn new(domain: D) -> (region: Self)
        requires
            domain.wf(),
            domain.garbage() == Set::<usize>::empty(),
        ensures
            region.wf(),
            region.governor() == domain,
            region@ == (State {
                values: Map::<usize, T>::empty(),
                cells: Map::<usize, usize>::empty(),
                words: domain.words(),
                garbage: Set::<usize>::empty(),
                config: domain.settled(),
            }),
    {
        Region::with_values(Heap::new(), domain)
    }

    /// A region of the given values, of which those may be in the garbage of the domain already that
    /// nobody will come upon any more. There are no cells.
    pub fn with_values(values: Heap<T>, domain: D) -> (region: Self)
        requires
            values.wf(),
            domain.wf(),
            domain.garbage().subset_of(values@.dom()),
        ensures
            region.wf(),
            region.governor() == domain,
            region@ == (State {
                values: values@,
                cells: Map::<usize, usize>::empty(),
                words: domain.words(),
                garbage: domain.garbage(),
                config: domain.settled(),
            }),
    {
        proof {
            values.lemma_live();
            domain.lemma_finite();
        }
        Region { values, cells: Heap::new(), domain }
    }

    /// The domain that guards the values.
    pub fn domain(&self) -> (domain: &D)
        ensures
            *domain == self.governor(),
            domain.words() == self@.words,
            domain.garbage() == self@.garbage,
            domain.settled() == self@.config,
            domain.bulk_size() == self@.bulk_size(),
            self.wf() ==> domain.wf(),
    {
        proof {
            self.domain.lemma_config();
        }
        &self.domain
    }

    /// Allocate a value.
    pub fn allocate(&mut self, value: T) -> (ptr: usize)
        requires
            old(self).wf(),
        ensures
            final(self).wf(),
            !old(self)@.values.contains_key(ptr),
            final(self)@ == old(self)@.allocated(ptr, value),
            final(self)@.private(ptr),
            final(self).governor() == old(self).governor(),
    {
        let ptr = self.values.insert(value);
        assert(self@ =~= old(self)@.allocated(ptr, value));
        ptr
    }

    /// Free a value that nobody else knows of.
    pub fn free(&mut self, ptr: usize) -> (value: T)
        requires
            old(self).wf(),
            old(self)@.private(ptr),
        ensures
            final(self).wf(),
            value == old(self)@.values[ptr],
            final(self)@ == (State { values: old(self)@.values.remove(ptr), ..old(self)@ }),
            final(self).governor() == old(self).governor(),
    {
        let value = self.values.remove(ptr);
        assert(self@ =~= (State { values: old(self)@.values.remove(ptr), ..old(self)@ }));
        value
    }

    /// Look at the value at the given address.
    pub fn value(&self, ptr: usize) -> (value: &T)
        requires
            self.wf(),
            self@.values.contains_key(ptr),
        ensures
            *value == self@.values[ptr],
    {
        self.values.get(ptr)
    }

    /// Make a new cell that holds the given address.
    pub fn new_cell(&mut self, ptr: usize) -> (cell: usize)
        requires
            old(self).wf(),
            old(self)@.private(ptr),
        ensures
            final(self).wf(),
            !old(self)@.cells.contains_key(cell),
            final(self)@ == old(self)@.written(cell, ptr),
            final(self).governor() == old(self).governor(),
    {
        let cell = self.cells.insert(ptr);
        assert(self@ =~= old(self)@.written(cell, ptr));
        cell
    }

    /// Take a cell apart, and return the address that it held.
    pub fn remove_cell(&mut self, cell: usize) -> (ptr: usize)
        requires
            old(self).wf(),
            old(self)@.cells.contains_key(cell),
        ensures
            final(self).wf(),
            ptr == old(self)@.cells[cell],
            final(self)@ == (State { cells: old(self)@.cells.remove(cell), ..old(self)@ }),
            final(self)@.private(ptr),
            final(self).governor() == old(self).governor(),
    {
        let ptr = self.cells.remove(cell);
        assert(self@ =~= (State { cells: old(self)@.cells.remove(cell), ..old(self)@ }));
        ptr
    }

    /// The address held by a cell.
    pub fn load(&self, cell: usize) -> (ptr: usize)
        requires
            self.wf(),
            self@.cells.contains_key(cell),
        ensures
            ptr == self@.cells[cell],
            self@.values.contains_key(ptr),
            ptr != NULL,
    {
        *self.cells.get(cell)
    }

    /// Put another address in a cell, and return the one that it held.
    pub fn swap(&mut self, cell: usize, ptr: usize) -> (old_ptr: usize)
        requires
            old(self).wf(),
            old(self)@.cells.contains_key(cell),
            old(self)@.private(ptr),
        ensures
            final(self).wf(),
            old_ptr == old(self)@.cells[cell],
            old_ptr != NULL,
            final(self)@ == old(self)@.written(cell, ptr),
            final(self)@.private(old_ptr),
            final(self).governor() == old(self).governor(),
    {
        let held = self.cells.get_mut(cell);
        let old_ptr = *held;
        *held = ptr;
        assert(self@ =~= old(self)@.written(cell, ptr));
        old_ptr
    }

    /// Get a hazard pointer that is now owned by the caller.
    pub fn hzrd_ptr(&mut self) -> (id: usize)
        requires
            old(self).wf(),
        ensures
            final(self).wf(),
            may_acquire(old(self)@.words, id),
            final(self)@ == old(self)@.held(id, DUMMY),
            final(self).acquired_from(old(self), id),
            final(self).follows(old(self)),
    {
        let id = self.domain.hzrd_ptr();
        assert(self@ =~= old(self)@.held(id, DUMMY));
        id
    }

    /// What a hazard pointer holds.
    pub fn hazard(&self, id: usize) -> (addr: usize)
        requires
            self.wf(),
            self@.words.contains_key(id),
        ensures
            addr == self@.words[id],
    {
        self.domain.hazard(id).get()
    }

    /// Let a hazard pointer hold the given address.
    pub fn protect(&mut self, id: usize, ptr: usize)
        requires
            old(self).wf(),
            old(self)@.words.contains_key(id),
            ptr != NULL,
        ensures
            final(self).wf(),
            final(self)@ == old(self)@.held(id, ptr),
            final(self).keeps(old(self)),
            final(self).follows(old(self)),
    {
        self.domain.hazard_mut(id).protect(ptr);
        assert(self@ =~= old(self)@.held(id, ptr));
    }

    /// Let a hazard pointer guard nothing.
    pub fn reset(&mut self, id: usize)
        requires
            old(self).wf(),
            old(self)@.words.contains_key(id),
        ensures
            final(self).wf(),
            final(self)@ == old(self)@.held(id, DUMMY),
            final(self).keeps(old(self)),
            final(self).follows(old(self)),
    {
        self.domain.hazard_mut(id).reset();
        assert(self@ =~= old(self)@.held(id, DUMMY));
    }

    /// Give a hazard pointer up.
    pub fn release(&mut self, id: usize)
        requires
            old(self).wf(),
            old(self)@.words.contains_key(id),
        ensures
            final(self).wf(),
            final(self)@ == old(self)@.held(id, NULL),
            final(self).keeps(old(self)),
            final(self).follows(old(self)),
    {
        self.domain.hazard_mut(id).release();
        assert(self@ =~= old(self)@.held(id, NULL));
    }

    /// Retire a value that no cell holds any more, but don't reclaim memory.
    pub fn just_retire(&mut self, ret_ptr: RetiredPtr)
        requires
            old(self).wf(),
            old(self)@.private(ret_ptr@),
        ensures
            final(self).wf(),
            final(self)@ == old(self)@.retired(ret_ptr@),
            final(self).retired_from(old(self), ret_ptr@),
            final(self).follows(old(self)),
    {
        self.domain.just_retire(ret_ptr);
        assert(self@ =~= old(self)@.retired(ret_ptr@));
    }

    /// Free all the garbage that no hazard pointer guards, unless there is less of it than the bulk
    /// size, and return how many values that were.
    pub fn reclaim(&mut self) -> (reclaimed: usize)
        requires
            old(self).wf(),
        ensures
            final(self).wf(),
            reclaimed == old(self)@.reclaimable().len(),
            final(self)@ == old(self)@.reclaimed(),
            final(self).reclaimed_from(old(self)),
            final(self).follows(old(self)),
    {
        proof {
            self.domain.lemma_config();
        }
        let reclaimed = self.domain.reclaim(&mut self.values);
        assert(self@ =~= old(self)@.reclaimed());
        reclaimed
    }

    /// Retire a value that no cell holds any more, then reclaim memory.
    pub fn retire(&mut self, ret_ptr: RetiredPtr) -> (reclaimed: usize)
        requires
            old(self).wf(),
            old(self)@.private(ret_ptr@),
        ensures
            final(self).wf(),
            reclaimed == old(self)@.retired(ret_ptr@).reclaimable().len(),
            final(self)@ == old(self)@.retired(ret_ptr@).reclaimed(),
            final(self).cleared_from(old(self), ret_ptr@),
            final(self).follows(old(self)),
    {
        proof {
            self.domain.lemma_config();
        }
        let reclaimed = self.domain.retire(ret_ptr, &mut self.values);
        assert(self@ =~= old(self)@.retired(ret_ptr@).reclaimed());
        reclaimed
    }

    /// Set the config of the domain, unless it is settled already.
    pub fn set_config(&mut self, config: Config) -> (set: Result<(), Config>)
        requires
            old(self).wf(),
        ensures
            final(self).wf(),
            match old(self)@.config {
                None => {
                    &&& set == Ok::<(), Config>(())
                    &&& final(self)@ == (State { config: Some(config), ..old(self)@ })
                },
                Some(_) => {
                    &&& set == Err::<(), Config>(config)
                    &&& final(self)@ == old(self)@
                },
            },
            final(self).keeps(old(self)),
            final(self).follows(old(self)),
    {
        let set = self.domain.set_config(config);
        proof {
            let config = self@.config;
            assert(self@ =~= (State { config, ..old(self)@ }));
        }
        set
    }

    /// Go by the config that everybody goes by, unless the domain has one of its own.
    pub fn go_by(&mut self, global: &mut GlobalConfig)
        requires
            old(self).wf(),
        ensures
            final(self).wf(),
            final(global)@ == Some(options_of(old(global)@)),
            final(self)@ == old(self)@.went_by(old(global)@),
            final(self).keeps(old(self)),
            final(self).follows(old(self)),
    {
        let config = global.get_or_init();
        let _ = self.set_config(config);
    }

    /// Take the region apart when nobody reads any more. The garbage is freed along with the domain;
    /// the other values are left.
    pub fn into_values(self) -> (values: Heap<T>)
        requires
            self.wf(),
        ensures
            values.wf(),
            values@ == self@.values.remove_keys(self@.garbage),
    {
        let mut values = self.values;
        self.domain.drop(&mut values);
        values
    }
}

/// The steps of getting a hazard pointer and of a reclamation, for those that overlap with what
/// others do.
impl<T> Region<T, SharedDomain> {
    /// Whether so many retired values are enough for a reclamation. To ask settles the config.
    pub fn is_enough(&mut self, number: usize) -> (enough: bool)
        requires
            old(self).wf(),
        ensures
            final(self).wf(),
            enough == (number >= old(self)@.bulk_size()),
            final(self)@ == old(self)@.settled(),
            final(self).keeps(old(self)),
            final(self).follows(old(self)),
    {
        proof {
            self.domain.lemma_config();
        }
        let enough = self.domain.is_enough(number);
        assert(self@ =~= old(self)@.settled());
        enough
    }

    /// Begin to look for an available hazard pointer.
    pub fn begin_search(&self) -> (search: Search)
        requires
            self.wf(),
        ensures
            search.wf(&self.governor()),
            search.todo().to_set() == self@.words.dom(),
            search.todo() == self.governor().ids(),
    {
        proof {
            self.domain.lemma_ids();
        }
        Search::begin(&self.domain)
    }

    /// Try to acquire the next hazard pointer, or a new one if there is none left. Nothing is acquired
    /// if the next one is not available.
    pub fn search(&mut self, search: &mut Search) -> (acquired: Option<usize>)
        requires
            old(self).wf(),
            old(search).wf(&old(self).governor()),
        ensures
            final(self).wf(),
            final(search).wf(&final(self).governor()),
            match acquired {
                Some(id) => {
                    &&& if old(search).todo().len() > 0 {
                        &&& id == old(search).todo()[0]
                        &&& old(self)@.words.contains_key(id)
                        &&& old(self)@.words[id] == NULL
                    } else {
                        !old(self)@.words.contains_key(id)
                    }
                    &&& final(self)@ == old(self)@.held(id, DUMMY)
                },
                None => {
                    &&& old(search).todo().len() > 0
                    &&& old(self)@.words.contains_key(old(search).todo()[0])
                    &&& old(self)@.words[old(search).todo()[0]] != NULL
                    &&& final(self)@ == old(self)@
                },
            },
            final(search).todo() == if old(search).todo().len() > 0 {
                old(search).todo().drop_first()
            } else {
                old(search).todo()
            },
            final(self).governor().ids() == if acquired is Some && old(search).todo().len() == 0 {
                seq![acquired->0] + old(self).governor().ids()
            } else {
                old(self).governor().ids()
            },
            final(self).governor().retired() == old(self).governor().retired(),
            final(self).governor().buffer() == old(self).governor().buffer(),
            final(self).follows(old(self)),
    {
        let acquired = search.step(&mut self.domain);
        proof {
            match acquired {
                Some(id) => {
                    assert(self@ =~= old(self)@.held(id, DUMMY));
                },
                None => {
                    assert(self@ =~= old(self)@);
                },
            }
        }
        acquired
    }

    /// Take all the garbage. Only the caller knows of it from now on.
    pub fn take_retired(&mut self) -> (retired_ptrs: SharedStack<RetiredPtr>)
        requires
            old(self).wf(),
        ensures
            final(self).wf(),
            retired_ptrs.wf(),
            addrs_of(retired_ptrs@).no_duplicates(),
            addrs_of(retired_ptrs@).to_set() == old(self)@.garbage,
            final(self)@ == (State { garbage: Set::empty(), ..old(self)@ }),
            addrs_of(retired_ptrs@) == old(self).governor().retired(),
            final(self).governor().retired() == Seq::<usize>::empty(),
            final(self).governor().ids() == old(self).governor().ids(),
            final(self).governor().buffer() == old(self).governor().buffer(),
            final(self).follows(old(self)),
            forall|ptr: usize|
                #![trigger final(self)@.private(ptr)]
                old(self)@.garbage.contains(ptr) ==> final(self)@.private(ptr),
    {
        let retired_ptrs = self.domain.take_retired();
        assert(self@ =~= (State { garbage: Set::empty(), ..old(self)@ }));
        retired_ptrs
    }

    /// Begin to load the hazard pointers.
    pub fn begin_scan(&mut self) -> (scan: Scan)
        requires
            old(self).wf(),
        ensures
            final(self).wf(),
            scan.wf(&final(self).governor()),
            scan.todo().to_set() == old(self)@.words.dom(),
            scan.todo().no_duplicates(),
            scan.seen() == Seq::<usize>::empty(),
            scan.is_cached() == old(self)@.options().is_caching(),
            final(self)@ == old(self)@.settled(),
            scan.todo() == old(self).governor().ids(),
            final(self).governor().ids() == old(self).governor().ids(),
            final(self).governor().retired() == old(self).governor().retired(),
            final(self).governor().buffer() == if old(self)@.options().is_caching() {
                Seq::<usize>::empty()
            } else {
                old(self).governor().buffer()
            },
            final(self).follows(old(self)),
    {
        let scan = Scan::begin(&mut self.domain);
        proof {
            old(self).domain.lemma_ids();
            assert(self@ =~= old(self)@.settled());
        }
        scan
    }

    /// Load the next hazard pointer, if there is one left.
    pub fn scan(&self, scan: &mut Scan) -> (more: bool)
        requires
            self.wf(),
            old(scan).wf(&self.governor()),
        ensures
            final(scan).wf(&self.governor()),
            more == (old(scan).todo().len() > 0),
            more ==> {
                let id = old(scan).todo()[0];
                &&& self@.words.contains_key(id)
                &&& final(scan).todo() == old(scan).todo().drop_first()
                &&& final(scan).seen() == old(scan).seen().push(self@.words[id])
            },
            final(scan).is_cached() == old(scan).is_cached(),
            !more ==> *final(scan) == *old(scan),
    {
        scan.step(&self.domain)
    }

    /// Return the buffer of loaded hazard pointers, if it is one that the domain keeps.
    pub fn unload(&mut self, hzrd_ptrs: HzrdPtrs)
        requires
            old(self).wf(),
        ensures
            final(self).wf(),
            final(self)@ == old(self)@,
            final(self).governor().buffer() == if hzrd_ptrs.is_cached() {
                hzrd_ptrs@
            } else {
                old(self).governor().buffer()
            },
            final(self).governor().ids() == old(self).governor().ids(),
            final(self).governor().retired() == old(self).governor().retired(),
            final(self).follows(old(self)),
    {
        self.domain.unload(hzrd_ptrs);
        assert(self@ =~= old(self)@);
    }

    /// Free the next one of the values taken, if there is one left, unless it is guarded.
    pub fn sweep(&mut self, sweep: &mut Sweep, hzrd_ptrs: &HzrdPtrs) -> (more: bool)
        requires
            old(self).wf(),
            old(sweep).wf(),
            old(sweep).left().len() > 0 ==> old(self)@.private(old(sweep).left()[0]),
        ensures
            final(self).wf(),
            final(sweep).wf(),
            more == (old(sweep).left().len() > 0),
            more ==> {
                let ptr = old(sweep).left()[0];
                &&& final(sweep).left() == old(sweep).left().drop_first()
                &&& hzrd_ptrs@.contains(ptr) ==> {
                    &&& final(sweep).kept() == seq![ptr] + old(sweep).kept()
                    &&& final(self)@ == old(self)@
                }
                &&& !hzrd_ptrs@.contains(ptr) ==> {
                    &&& final(sweep).kept() == old(sweep).kept()
                    &&& final(self)@ == (State {
                        values: old(self)@.values.remove(ptr),
                        ..old(self)@
                    })
                }
            },
            !more ==> *final(sweep) == *old(sweep) && final(self)@ == old(self)@,
            final(self).governor() == old(self).governor(),
    {
        let more = sweep.step(hzrd_ptrs, &mut self.values);
        proof {
            if more {
                let ptr = old(sweep).left()[0];
                if hzrd_ptrs@.contains(ptr) {
                    assert(self@ =~= old(self)@);
                } else {
                    assert(self@ =~= (State {
                        values: old(self)@.values.remove(ptr),
                        ..old(self)@
                    }));
                }
            } else {
                assert(self@ =~= old(self)@);
            }
        }
        more
    }

    /// Put the values back on the pile of garbage that were taken and turned out to be guarded.
    pub fn put_back(&mut self, retired_ptrs: SharedStack<RetiredPtr>)
        requires
            old(self).wf(),
            retired_ptrs.wf(),
            addrs_of(retired_ptrs@).no_duplicates(),
            forall|i: int|
                0 <= i < retired_ptrs@.len() ==> old(self)@.private(
                    #[trigger] addrs_of(retired_ptrs@)[i],
                ),
        ensures
            final(self).wf(),
            final(self)@ == (State {
                garbage: addrs_of(retired_ptrs@).to_set().union(old(self)@.garbage),
                ..old(self)@
            }),
            final(self).governor().retired() == addrs_of(retired_ptrs@) + old(self).governor().retired(),
            final(self).governor().ids() == old(self).governor().ids(),
            final(self).governor().buffer() == old(self).governor().buffer(),
            final(self).follows(old(self)),
    {
        let ghost back = addrs_of(retired_ptrs@);
        proof {
            assert forall|ptr: usize| back.to_set().contains(ptr) implies old(self)@.private(ptr) by {
                assert(back[back.index_of(ptr)] == ptr);
            }
        }
        self.domain.put_back(retired_ptrs);
        proof {
            back.unique_seq_to_set();
            assert(self@ =~= (State {
                garbage: back.to_set().union(old(self)@.garbage),
                ..old(self)@
            }));
        }
    }
}

} // verus!

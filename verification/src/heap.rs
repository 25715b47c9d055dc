//! The memory that every structure of this crate allocates from.
//!
//! A [`Heap`] hands out addresses for the objects placed in it. An address stays valid until the
//! object behind it is taken out again, after which the same address may be handed out anew. Two
//! addresses are never handed out: [`NULL`], which links and released hazard pointers hold, and
//! [`DUMMY`], which a hazard pointer holds while it is owned but guards nothing.

use vstd::prelude::*;

verus! {

/// The address of nothing.
pub const NULL: usize = 0;

/// An address that no object ever has.
pub const DUMMY: usize = 1;

/// A store of objects, each found by its address.
pub struct Heap<T> {
    slots: Vec<Option<T>>,
    vacant: Vec<usize>,
}

impl<T> View for Heap<T> {
    type V = Map<usize, T>;

    /// The objects alive in the heap, by address.
    closed spec fn view(&self) -> Map<usize, T> {
        Map::new(
            |a: usize| a < self.slots@.len() && self.slots@[a as int] is Some,
            |a: usize| self.slots@[a as int]->0,
        )
    }
}

impl<T> Heap<T> {
    /// The slots below `NULL` and `DUMMY` stay empty, and every vacant slot is listed once.
    pub closed spec fn wf(&self) -> bool {
        &&& self.slots@.len() >= 2
        &&& self.slots@[0] is None
        &&& self.slots@[1] is None
        &&& forall|i: int|
            0 <= i < self.vacant@.len() ==> {
                &&& 2 <= #[trigger] self.vacant@[i] < self.slots@.len()
                &&& self.slots@[self.vacant@[i] as int] is None
            }
        &&& self.vacant@.no_duplicates()
    }

    /// Neither reserved address is ever alive, and the objects alive can be counted in a `usize`.
    pub proof fn lemma_live(&self)
        requires
            self.wf(),
        ensures
            !self@.contains_key(NULL),
            !self@.contains_key(DUMMY),
            self@.dom().finite(),
            self@.len() + 2 <= usize::MAX,
    {
        let n = self.slots@.len() as int;
        let below = vstd::set_lib::set_int_range(2, n);
        vstd::set_lib::lemma_int_range(2, n);
        let dom = self@.dom();
        let image = dom.map(|a: usize| a as int);
        assert(image.subset_of(below)) by {
            assert forall|x: int| image.contains(x) implies below.contains(x) by {
                let a = choose|a: usize| dom.contains(a) && a as int == x;
                assert(self.slots@[a as int] is Some);
            }
        }
        vstd::set_lib::lemma_set_subset_finite(below, image);
        vstd::set_lib::lemma_len_subset(image, below);
        let back = image.map(|x: int| x as usize);
        image.lemma_map_finite(|x: int| x as usize);
        assert(back =~= dom) by {
            assert forall|a: usize| dom.contains(a) implies back.contains(a) by {
                assert(image.contains(a as int));
            }
        }
        vstd::set_lib::lemma_map_size_bound(image, dom, |x: int| x as usize);
        assert(self.slots@.len() == self.slots.len());
    }

    /// A heap with nothing in it.
    pub fn new() -> (heap: Self)
        ensures
            heap.wf(),
            heap@ == Map::<usize, T>::empty(),
    {
        let mut slots: Vec<Option<T>> = Vec::new();
        slots.push(None);
        slots.push(None);
        let heap = Heap { slots, vacant: Vec::new() };
        assert(heap@ =~= Map::<usize, T>::empty());
        heap
    }

    /// Place an object in the heap and return its address.
    pub fn insert(&mut self, object: T) -> (addr: usize)
        requires
            old(self).wf(),
        ensures
            final(self).wf(),
            addr != NULL,
            addr != DUMMY,
            !old(self)@.contains_key(addr),
            final(self)@ == old(self)@.insert(addr, object),
    {
        let ghost listed = self.vacant@;
        let addr = match self.vacant.pop() {
            Some(addr) => {
                assert(listed[listed.len() - 1] == addr);
                self.slots.set(addr, Some(object));
                addr
            },
            None => {
                let addr = self.slots.len();
                self.slots.push(Some(object));
                addr
            },
        };
        assert(self@ =~= old(self)@.insert(addr, object));
        addr
    }

    /// Take the object at the given address out of the heap.
    pub fn remove(&mut self, addr: usize) -> (object: T)
        requires
            old(self).wf(),
            old(self)@.contains_key(addr),
        ensures
            final(self).wf(),
            object == old(self)@[addr],
            final(self)@ == old(self)@.remove(addr),
    {
        let object = self.slots[addr].take().unwrap();
        self.vacant.push(addr);
        assert(self@ =~= old(self)@.remove(addr));
        object
    }

    /// Look at the object at the given address.
    pub fn get(&self, addr: usize) -> (object: &T)
        requires
            self.wf(),
            self@.contains_key(addr),
        ensures
            *object == self@[addr],
    {
        self.slots[addr].as_ref().unwrap()
    }

    /// Exclusive access to the object at the given address.
    pub fn get_mut(&mut self, addr: usize) -> (object: &mut T)
        requires
            old(self).wf(),
            old(self)@.contains_key(addr),
        ensures
            *object == old(self)@[addr],
            final(self).wf(),
            final(self)@ == old(self)@.insert(addr, *final(object)),
    {
        let object = self.slots[addr].as_mut().unwrap();
        object
    }
}

/// Something that objects can be freed from by address, whatever their types are.
///
/// A domain frees what was retired to it through this trait, so that values of several types can be
/// retired to one domain.
pub trait Store: Sized {
    /// What the objects of the store are.
    type Object;

    /// The invariant of the store.
    spec fn sound(&self) -> bool;

    /// The objects alive in the store, by address.
    spec fn objects(&self) -> Map<usize, Self::Object>;

    /// The addresses of the objects alive in the store.
    spec fn live(&self) -> Set<usize>;

    /// The store is what is left of `before` after the objects at the given addresses were freed.
    spec fn freed_from(&self, before: &Self, gone: Set<usize>) -> bool;

    /// Nothing is left of what was freed, and all of the rest is as it was. To free one after the other
    /// is to free both.
    proof fn lemma_freed(
        &self,
        between: &Self,
        before: &Self,
        first: Set<usize>,
        second: Set<usize>,
    )
        ensures
            before.live() == before.objects().dom(),
            before.freed_from(before, Set::empty()),
            between.freed_from(before, first) ==> between.objects() == before.objects().remove_keys(
                first,
            ),
            between.freed_from(before, first) ==> between.live() == before.live().difference(
                first,
            ),
            between.freed_from(before, first) && self.freed_from(between, second)
                ==> self.freed_from(before, first.union(second)),
    ;

    /// Free the object at the given address.
    fn free(&mut self, addr: usize)
        requires
            old(self).sound(),
            old(self).live().contains(addr),
        ensures
            final(self).sound(),
            final(self).freed_from(old(self), Set::empty().insert(addr)),
    ;
}

impl<T> Store for Heap<T> {
    type Object = T;

    open spec fn sound(&self) -> bool {
        self.wf()
    }

    open spec fn objects(&self) -> Map<usize, T> {
        self@
    }

    open spec fn live(&self) -> Set<usize> {
        self@.dom()
    }

    open spec fn freed_from(&self, before: &Self, gone: Set<usize>) -> bool {
        self@ == before@.remove_keys(gone)
    }

    proof fn lemma_freed(
        &self,
        between: &Self,
        before: &Self,
        first: Set<usize>,
        second: Set<usize>,
    ) {
        assert(before@.remove_keys(Set::empty()) =~= before@);
        assert(before@.remove_keys(first).dom() =~= before@.dom().difference(first));
        assert(before@.remove_keys(first).remove_keys(second) =~= before@.remove_keys(
            first.union(second),
        ));
    }

    fn free(&mut self, addr: usize) {
        self.remove(addr);
        assert(self@ =~= old(self)@.remove_keys(Set::empty().insert(addr)));
    }
}

/// One of two.
pub enum Either<A, B> {
    /// The first.
    First(A),
    /// The second.
    Second(B),
}

/// A store of objects of two types, each found by its address.
pub struct Both<A, B> {
    objects: Heap<Either<A, B>>,
}

impl<A, B> Both<A, B> {
    /// The objects keep their addresses apart.
    pub closed spec fn wf(&self) -> bool {
        self.objects.wf()
    }

    /// The objects of the first type, by address.
    pub closed spec fn first(&self) -> Map<usize, A> {
        Map::new(
            |a: usize| self.objects@.contains_key(a) && self.objects@[a] is First,
            |a: usize| self.objects@[a]->First_0,
        )
    }

    /// The objects of the second type, by address.
    pub closed spec fn second(&self) -> Map<usize, B> {
        Map::new(
            |a: usize| self.objects@.contains_key(a) && self.objects@[a] is Second,
            |a: usize| self.objects@[a]->Second_0,
        )
    }

    /// No two objects have the same address, and none has a reserved one.
    pub proof fn lemma_apart(&self)
        requires
            self.wf(),
        ensures
            self.first().dom().disjoint(self.second().dom()),
            !self.live().contains(NULL),
            !self.live().contains(DUMMY),
    {
        self.objects.lemma_live();
    }

    /// A store with nothing in it.
    pub fn new() -> (store: Self)
        ensures
            store.wf(),
            store.first() == Map::<usize, A>::empty(),
            store.second() == Map::<usize, B>::empty(),
    {
        let store = Both { objects: Heap::new() };
        assert(store.first() =~= Map::<usize, A>::empty());
        assert(store.second() =~= Map::<usize, B>::empty());
        store
    }

    /// Place an object of the first type in the store.
    pub fn insert_first(&mut self, object: A) -> (addr: usize)
        requires
            old(self).wf(),
        ensures
            final(self).wf(),
            addr != NULL,
            addr != DUMMY,
            !old(self).live().contains(addr),
            final(self).first() == old(self).first().insert(addr, object),
            final(self).second() == old(self).second(),
    {
        let addr = self.objects.insert(Either::First(object));
        assert(self.first() =~= old(self).first().insert(addr, object));
        assert(self.second() =~= old(self).second());
        addr
    }

    /// Place an object of the second type in the store.
    pub fn insert_second(&mut self, object: B) -> (addr: usize)
        requires
            old(self).wf(),
        ensures
            final(self).wf(),
            addr != NULL,
            addr != DUMMY,
            !old(self).live().contains(addr),
            final(self).first() == old(self).first(),
            final(self).second() == old(self).second().insert(addr, object),
    {
        let addr = self.objects.insert(Either::Second(object));
        assert(self.first() =~= old(self).first());
        assert(self.second() =~= old(self).second().insert(addr, object));
        addr
    }

    /// Look at the object of the first type at the given address, if there is one.
    pub fn get_first(&self, addr: usize) -> (object: Option<&A>)
        requires
            self.wf(),
            self.live().contains(addr),
        ensures
            object == if self.first().contains_key(addr) {
                Some(&self.first()[addr])
            } else {
                None
            },
    {
        match self.objects.get(addr) {
            Either::First(object) => Some(object),
            Either::Second(_) => None,
        }
    }

    /// Look at the object of the second type at the given address, if there is one.
    pub fn get_second(&self, addr: usize) -> (object: Option<&B>)
        requires
            self.wf(),
            self.live().contains(addr),
        ensures
            object == if self.second().contains_key(addr) {
                Some(&self.second()[addr])
            } else {
                None
            },
    {
        match self.objects.get(addr) {
            Either::First(_) => None,
            Either::Second(object) => Some(object),
        }
    }
}

impl<A, B> Store for Both<A, B> {
    type Object = Either<A, B>;

    open spec fn sound(&self) -> bool {
        self.wf()
    }

    open spec fn objects(&self) -> Map<usize, Either<A, B>> {
        Map::new(
            |a: usize| self.live().contains(a),
            |a: usize|
                if self.first().contains_key(a) {
                    Either::First(self.first()[a])
                } else {
                    Either::Second(self.second()[a])
                },
        )
    }

    open spec fn live(&self) -> Set<usize> {
        self.first().dom().union(self.second().dom())
    }

    open spec fn freed_from(&self, before: &Self, gone: Set<usize>) -> bool {
        &&& self.first() == before.first().remove_keys(gone)
        &&& self.second() == before.second().remove_keys(gone)
    }

    proof fn lemma_freed(
        &self,
        between: &Self,
        before: &Self,
        first: Set<usize>,
        second: Set<usize>,
    ) {
        assert(before.first().remove_keys(Set::empty()) =~= before.first());
        assert(before.second().remove_keys(Set::empty()) =~= before.second());
        assert(before.first().remove_keys(first).remove_keys(second)
            =~= before.first().remove_keys(first.union(second)));
        assert(before.second().remove_keys(first).remove_keys(second)
            =~= before.second().remove_keys(first.union(second)));
        assert(before.objects().dom() =~= before.live());
        if between.freed_from(before, first) {
            assert(between.live() =~= before.live().difference(first));
            assert(between.objects() =~= before.objects().remove_keys(first));
        }
    }

    fn free(&mut self, addr: usize) {
        self.objects.remove(addr);
        let ghost gone = Set::<usize>::empty().insert(addr);
        assert(self.first() =~= old(self).first().remove_keys(gone));
        assert(self.second() =~= old(self).second().remove_keys(gone));
    }
}

} // verus!

//! A list of hazard pointers.

use vstd::prelude::*;

use crate::domains;
use crate::hazard;
use crate::hazard::{is_first_available, may_acquire};
use crate::heap::{DUMMY, NULL};
use crate::linked_list::{LinkedList, Node};

verus! {

/// Holds some address that is currently used, or [`NULL`] while nobody owns it.
pub struct HzrdPtr(hazard::HzrdPtr);

impl View for HzrdPtr {
    type V = usize;

    /// The address held.
    closed spec fn view(&self) -> usize {
        self.0@
    }
}

impl HzrdPtr {
    /// Create a new hazard pointer (it will already be taken).
    pub fn new() -> (hzrd_ptr: Self)
        ensures
            hzrd_ptr@ == DUMMY,
    {
        HzrdPtr(hazard::HzrdPtr::new())
    }

    /// The address held by the hazard pointer.
    pub fn get(&self) -> (addr: usize)
        ensures
            addr == self@,
    {
        self.0.get()
    }

    /// Whether nobody owns the hazard pointer.
    pub fn is_available(&self) -> (available: bool)
        ensures
            available == (self@ == NULL),
    {
        self.0.get() == NULL
    }

    /// Try to take the hazard pointer, which succeeds if it is available.
    pub fn try_take(&mut self) -> (taken: Option<&Self>)
        ensures
            match taken {
                Some(hzrd_ptr) => {
                    &&& old(self)@ == NULL
                    &&& final(self)@ == DUMMY
                    &&& *hzrd_ptr == *final(self)
                },
                None => old(self)@ != NULL && *final(self) == *old(self),
            },
    {
        if self.0.try_acquire().is_some() {
            Some(&*self)
        } else {
            None
        }
    }

    /// Store an address in the hazard pointer. To store [`NULL`] is to give it up.
    pub fn store(&mut self, ptr: usize)
        ensures
            final(self)@ == ptr,
    {
        if ptr == NULL {
            self.0.release();
        } else {
            self.0.protect(ptr);
        }
    }

    /// Stop holding any address, without giving the hazard pointer up.
    pub fn clear(&mut self)
        ensures
            final(self)@ == DUMMY,
    {
        self.0.reset();
    }

    /// Give the hazard pointer up.
    pub fn free(&mut self)
        ensures
            final(self)@ == NULL,
    {
        self.0.release();
    }

    /// The hazard pointer as the domains know it.
    pub fn as_core(&self) -> (hzrd_ptr: &hazard::HzrdPtr)
        ensures
            hzrd_ptr@ == self@,
    {
        &self.0
    }

    /// Exclusive access to the hazard pointer as the domains know it.
    pub fn as_core_mut(&mut self) -> (hzrd_ptr: &mut hazard::HzrdPtr)
        ensures
            hzrd_ptr@ == old(self)@,
            final(self)@ == final(hzrd_ptr)@,
    {
        &mut self.0
    }
}

/// The hazard pointers of a domain. The id of a hazard pointer is the address of its node.
pub struct HzrdPtrs(LinkedList<HzrdPtr>);

impl HzrdPtrs {
    /// The list is well-formed.
    pub closed spec fn wf(&self) -> bool {
        self.0.wf()
    }

    /// The ids of the hazard pointers, in the order in which they are looked at.
    pub closed spec fn ids(&self) -> Seq<usize> {
        self.0.addrs()
    }

    /// What each hazard pointer holds, by id.
    pub closed spec fn words(&self) -> Map<usize, usize> {
        Map::new(
            |id: usize| self.0.addrs().contains(id),
            |id: usize| self.0@[self.0.addrs().index_of(id)]@,
        )
    }

    /// The ids are distinct, and they are the keys of the words.
    pub proof fn lemma_ids(&self)
        requires
            self.wf(),
        ensures
            self.ids().no_duplicates(),
            self.words().dom() == self.ids().to_set(),
            self.words().dom().finite(),
    {
        self.0.lemma_addrs();
        assert(self.words().dom() =~= self.ids().to_set());
        self.ids().unique_seq_to_set();
    }

    /// What is known of the hazard pointer at position `i`.
    proof fn lemma_position(&self, i: int)
        requires
            self.wf(),
            0 <= i < self.ids().len(),
        ensures
            self.0.addrs().contains(self.ids()[i]),
            self.0.addrs().index_of(self.ids()[i]) == i,
            self.words().contains_key(self.ids()[i]),
            self.words()[self.ids()[i]] == self.0@[i]@,
            self.ids().len() == self.0@.len(),
    {
        self.0.lemma_addrs();
        let id = self.ids()[i];
        assert(self.0.addrs().contains(id));
        assert(self.0.addrs()[self.0.addrs().index_of(id)] == id);
    }

    /// An empty list of hazard pointers.
    pub fn new() -> (hzrd_ptrs: Self)
        ensures
            hzrd_ptrs.wf(),
            hzrd_ptrs.ids() == Seq::<usize>::empty(),
            hzrd_ptrs.words() == Map::<usize, usize>::empty(),
    {
        let hzrd_ptrs = HzrdPtrs(LinkedList::new());
        assert(hzrd_ptrs.words() =~= Map::<usize, usize>::empty());
        hzrd_ptrs
    }

    /// Get a hazard pointer that is now owned by the caller: the first that is available, or else a
    /// new one at the end of the list.
    pub fn get(&mut self) -> (id: usize)
        requires
            old(self).wf(),
        ensures
            final(self).wf(),
            may_acquire(old(self).words(), id),
            final(self).words() == old(self).words().insert(id, DUMMY),
            final(self).ids() == if old(self).words().contains_value(NULL) {
                old(self).ids()
            } else {
                old(self).ids().push(id)
            },
            old(self).words().contains_value(NULL) ==> is_first_available(
                old(self).ids(),
                old(self).words(),
                id,
            ),
    {
        let mut node = self.0.head_node();
        let ghost mut n: int = 0;
        loop
            invariant
                self.wf(),
                old(self).wf(),
                self.ids() == old(self).ids(),
                self.words() == old(self).words(),
                0 <= n <= self.ids().len(),
                node == if n < self.ids().len() { Some(self.ids()[n]) } else { None },
                forall|i: int| 0 <= i < n ==> self.words()[#[trigger] self.ids()[i]] != NULL,
            ensures
                self.wf(),
                self.ids() == old(self).ids(),
                self.words() == old(self).words(),
                forall|i: int|
                    0 <= i < self.ids().len() ==> self.words()[#[trigger] self.ids()[i]] != NULL,
            decreases self.ids().len() - n,
        {
            let id = match node {
                Some(id) => id,
                None => {
                    break ;
                },
            };
            let ghost before = *self;
            proof {
                self.lemma_position(n);
            }
            if Node::get_from_ptr(&mut self.0, id).try_take().is_some() {
                proof {
                    before.lemma_written(self, n);
                    assert(old(self).words()[id] == NULL);
                }
                return id;
            }
            proof {
                before.lemma_written(self, n);
                assert(self.words() =~= before.words());
            }
            node = self.0.next_node(id);
            proof {
                n = n + 1;
            }
        }
        let ghost before = *self;
        self.0.push_back(HzrdPtr::new());
        let id = self.0.tail_node().unwrap();
        proof {
            assert(self.0@.drop_last() =~= before.0@);
            before.lemma_appended(self);
        }
        id
    }

    /// Writing to the hazard pointer at position `n` changes that word alone.
    proof fn lemma_written(&self, after: &Self, n: int)
        requires
            self.wf(),
            after.wf(),
            0 <= n < self.ids().len(),
            after.ids() == self.ids(),
            after.0@ == self.0@.update(n, after.0@[n]),
        ensures
            after.words() == self.words().insert(self.ids()[n], after.0@[n]@),
    {
        self.lemma_position(n);
        after.lemma_position(n);
        let id = self.ids()[n];
        assert forall|other: usize| after.words().contains_key(other) implies after.words()[other]
            == self.words().insert(id, after.0@[n]@)[other] by {
            let i = self.ids().index_of(other);
            assert(self.ids()[i] == other);
            self.lemma_position(i);
            after.lemma_position(i);
        }
        assert(after.words() =~= self.words().insert(id, after.0@[n]@));
    }

    /// A hazard pointer at the end of the list adds a word.
    proof fn lemma_appended(&self, after: &Self)
        requires
            self.wf(),
            after.wf(),
            after.ids().len() == self.ids().len() + 1,
            after.ids().drop_last() == self.ids(),
            after.0@.drop_last() == self.0@,
            forall|i: int|
                0 <= i < self.ids().len() ==> self.words()[#[trigger] self.ids()[i]] != NULL,
        ensures
            !self.words().contains_value(NULL),
            !self.words().contains_key(after.ids().last()),
            after.ids() == self.ids().push(after.ids().last()),
            after.words() == self.words().insert(after.ids().last(), after.0@.last()@),
    {
        let n = self.ids().len() as int;
        let id = after.ids().last();
        self.0.lemma_addrs();
        after.0.lemma_addrs();
        assert(after.ids() =~= self.ids().push(id));
        assert(!self.ids().contains(id)) by {
            if self.ids().contains(id) {
                let i = self.ids().index_of(id);
                assert(after.ids()[i] == id);
            }
        }
        after.lemma_position(n);
        assert forall|other: usize| after.words().contains_key(other) implies after.words()[other]
            == self.words().insert(id, after.0@[n]@)[other] by {
            let i = after.ids().index_of(other);
            assert(after.ids()[i] == other);
            after.lemma_position(i);
            if i < n {
                self.lemma_position(i);
                assert(after.0@.drop_last()[i] == after.0@[i]);
            }
        }
        assert forall|other: usize| self.words().contains_key(other) implies after.words().contains_key(
            other,
        ) && self.words()[other] != NULL by {
            let i = self.ids().index_of(other);
            assert(self.ids()[i] == other);
            assert(after.ids()[i] == other);
        }
        assert(after.words() =~= self.words().insert(id, after.0@.last()@));
    }

    /// Whether some hazard pointer holds the given address.
    pub fn contains(&self, addr: usize) -> (found: bool)
        requires
            self.wf(),
        ensures
            found == self.words().contains_value(addr),
    {
        let mut iter = self.0.iter();
        let ghost mut n: int = 0;
        loop
            invariant
                self.wf(),
                iter.wf(),
                0 <= n <= self.0@.len(),
                iter.whole() == self.0@,
                iter.front() == n,
                iter.remaining() == self.0@.skip(n),
                forall|i: int| 0 <= i < n ==> (#[trigger] self.0@[i])@ != addr,
            decreases self.0@.len() - n,
        {
            match iter.next() {
                Some(hzrd_ptr) => {
                    if hzrd_ptr.get() == addr {
                        proof {
                            self.0.lemma_addrs();
                            self.lemma_position(n);
                        }
                        return true;
                    }
                    proof {
                        assert(iter.remaining() =~= self.0@.skip(n + 1));
                        n = n + 1;
                    }
                },
                None => {
                    proof {
                        self.0.lemma_addrs();
                        if self.words().contains_value(addr) {
                            let id = choose|id: usize| #[trigger]
                                self.words().contains_key(id) && self.words()[id] == addr;
                            let i = self.ids().index_of(id);
                            assert(self.ids()[i] == id);
                            self.lemma_position(i);
                        }
                    }
                    return false;
                },
            }
        }
    }

    /// Whether every hazard pointer is available.
    pub fn all_available(&self) -> (available: bool)
        requires
            self.wf(),
        ensures
            available == (forall|id: usize| #[trigger]
                self.words().contains_key(id) ==> self.words()[id] == NULL),
    {
        let mut iter = self.0.iter();
        let ghost mut n: int = 0;
        loop
            invariant
                self.wf(),
                iter.wf(),
                0 <= n <= self.0@.len(),
                iter.whole() == self.0@,
                iter.front() == n,
                iter.remaining() == self.0@.skip(n),
                forall|i: int| 0 <= i < n ==> (#[trigger] self.0@[i])@ == NULL,
            decreases self.0@.len() - n,
        {
            match iter.next() {
                Some(hzrd_ptr) => {
                    if !hzrd_ptr.is_available() {
                        proof {
                            self.0.lemma_addrs();
                            self.lemma_position(n);
                        }
                        return false;
                    }
                    proof {
                        assert(iter.remaining() =~= self.0@.skip(n + 1));
                        n = n + 1;
                    }
                },
                None => {
                    proof {
                        self.0.lemma_addrs();
                        assert forall|id: usize| #[trigger]
                            self.words().contains_key(id) implies self.words()[id] == NULL by {
                            let i = self.ids().index_of(id);
                            assert(self.ids()[i] == id);
                            self.lemma_position(i);
                        }
                    }
                    return true;
                },
            }
        }
    }

    /// Load what the hazard pointers hold, in the order of the list.
    pub fn load(&self, loaded: &mut domains::HzrdPtrs)
        requires
            self.wf(),
        ensures
            final(loaded).is_cached() == old(loaded).is_cached(),
            final(loaded)@ == old(loaded)@ + self.ids().map_values(|id: usize| self.words()[id]),
    {
        let mut iter = self.0.iter();
        let ghost mut n: int = 0;
        loop
            invariant
                self.wf(),
                iter.wf(),
                loaded.is_cached() == old(loaded).is_cached(),
                0 <= n <= self.0@.len(),
                iter.whole() == self.0@,
                iter.front() == n,
                iter.remaining() == self.0@.skip(n),
                loaded@.len() == old(loaded)@.len() + n,
                forall|i: int| 0 <= i < old(loaded)@.len() ==> loaded@[i] == old(loaded)@[i],
                forall|i: int|
                    0 <= i < n ==> loaded@[old(loaded)@.len() + i] == (#[trigger] self.0@[i])@,
            decreases self.0@.len() - n,
        {
            match iter.next() {
                Some(hzrd_ptr) => {
                    loaded.add(hzrd_ptr.as_core());
                    proof {
                        assert(iter.remaining() =~= self.0@.skip(n + 1));
                        n = n + 1;
                    }
                },
                None => {
                    proof {
                        self.0.lemma_addrs();
                        let words = self.ids().map_values(|id: usize| self.words()[id]);
                        assert forall|i: int| 0 <= i < words.len() implies words[i]
                            == loaded@[old(loaded)@.len() + i] by {
                            self.lemma_position(i);
                        }
                        assert(loaded@ =~= old(loaded)@ + words);
                    }
                    return ;
                },
            }
        }
    }

    /// The number of hazard pointers.
    pub fn len(&self) -> (len: usize)
        requires
            self.wf(),
        ensures
            len == self.ids().len(),
            len == self.words().len(),
    {
        proof {
            self.0.lemma_addrs();
            self.lemma_ids();
            self.ids().unique_seq_to_set();
        }
        self.0.len()
    }

    /// The hazard pointer with the given id.
    pub fn hazard(&self, id: usize) -> (hzrd_ptr: &HzrdPtr)
        requires
            self.wf(),
            self.words().contains_key(id),
        ensures
            hzrd_ptr@ == self.words()[id],
    {
        self.0.get(id)
    }

    /// Exclusive access to the hazard pointer with the given id.
    pub fn hazard_mut(&mut self, id: usize) -> (hzrd_ptr: &mut HzrdPtr)
        requires
            old(self).wf(),
            old(self).words().contains_key(id),
        ensures
            hzrd_ptr@ == old(self).words()[id],
            final(self).wf(),
            final(self).ids() == old(self).ids(),
            final(self).words() == old(self).words().insert(id, final(hzrd_ptr)@),
    {
        let ghost n = self.ids().index_of(id);
        proof {
            self.0.lemma_addrs();
            self.lemma_position(n);
            assert forall|after: Self|
                after.wf() && after.ids() == self.ids() && #[trigger] after.0@ == self.0@.update(
                    n,
                    after.0@[n],
                ) implies after.words() == self.words().insert(id, after.0@[n]@) by {
                self.lemma_written(&after, n);
            }
        }
        Node::get_from_ptr(&mut self.0, id)
    }
}

impl Default for HzrdPtrs {
    fn default() -> (hzrd_ptrs: Self)
        ensures
            hzrd_ptrs.wf(),
            hzrd_ptrs.words() == Map::<usize, usize>::empty(),
    {
        HzrdPtrs::new()
    }
}

} // verus!

//! A doubly linked list.
//!
//! The nodes live in a heap of their own and hold each other's addresses. The address of a node
//! stays the same for as long as the node is in the list.

use vstd::prelude::*;

use crate::heap::Heap;

verus! {

/// A doubly linked list of values.
pub struct LinkedList<T> {
    nodes: Heap<Node<T>>,
    head: Option<usize>,
    tail: Option<usize>,
    len: usize,
    order: Ghost<Seq<usize>>,
}

/// A node of a [`LinkedList`].
pub struct Node<T> {
    value: T,
    next: Option<usize>,
    prev: Option<usize>,
}

/// The `i`-th address of a sequence, or nothing past either end.
spec fn link(order: Seq<usize>, i: int) -> Option<usize> {
    if 0 <= i < order.len() {
        Some(order[i])
    } else {
        None
    }
}

/// The position, before the one at `i` was removed, of what is now at `k`.
spec fn widen(i: int, k: int) -> int {
    if k < i {
        k
    } else {
        k + 1
    }
}

impl<T> Node<T> {
    /// Exclusive access to the value of the node at the given address of a list.
    pub fn get_from_ptr(list: &mut LinkedList<T>, ptr: usize) -> (value: &mut T)
        requires
            old(list).wf(),
            old(list).addrs().contains(ptr),
        ensures
            *value == old(list)@[old(list).addrs().index_of(ptr)],
            final(list).wf(),
            final(list).addrs() == old(list).addrs(),
            final(list)@ == old(list)@.update(old(list).addrs().index_of(ptr), *final(value)),
    {
        let ghost i = list.addrs().index_of(ptr);
        proof {
            list.lemma_position(i);
        }
        let node = list.nodes.get_mut(ptr);
        &mut node.value
    }
}

impl<T> View for LinkedList<T> {
    type V = Seq<T>;

    /// The values of the list, front to back.
    closed spec fn view(&self) -> Seq<T> {
        Seq::new(self.order@.len(), |i: int| self.nodes@[self.order@[i]].value)
    }
}

impl<T> LinkedList<T> {
    /// The addresses of the nodes, front to back.
    pub closed spec fn addrs(&self) -> Seq<usize> {
        self.order@
    }

    /// Every node in the heap is in the list once, and is linked with its neighbours.
    pub closed spec fn wf(&self) -> bool {
        &&& self.nodes.wf()
        &&& self.order@.no_duplicates()
        &&& forall|a: usize| #[trigger]
            self.nodes@.contains_key(a) <==> self.order@.contains(a)
        &&& self.head == link(self.order@, 0)
        &&& self.tail == link(self.order@, self.order@.len() - 1)
        &&& self.len == self.order@.len()
        &&& forall|i: int|
            0 <= i < self.order@.len() ==> {
                let node = #[trigger] self.nodes@[self.order@[i]];
                &&& node.next == link(self.order@, i + 1)
                &&& node.prev == link(self.order@, i - 1)
            }
    }

    /// What adding a value at the front makes of `before`.
    pub open spec fn pushed_front_from(&self, before: &Self, value: T) -> bool {
        &&& self.wf()
        &&& self@ == seq![value] + before@
        &&& self.addrs().len() == before.addrs().len() + 1
        &&& self.addrs().drop_first() == before.addrs()
    }

    /// What adding a value at the back makes of `before`.
    pub open spec fn pushed_back_from(&self, before: &Self, value: T) -> bool {
        &&& self.wf()
        &&& self@ == before@.push(value)
        &&& self.addrs().len() == before.addrs().len() + 1
        &&& self.addrs().drop_last() == before.addrs()
    }

    /// What taking a value from the front makes of `before`.
    pub open spec fn popped_front_from(&self, before: &Self, popped: Option<T>) -> bool {
        &&& self.wf()
        &&& match popped {
            Some(value) => {
                &&& before@.len() > 0
                &&& value == before@[0]
                &&& self@ == before@.drop_first()
                &&& self.addrs() == before.addrs().drop_first()
            },
            None => before@.len() == 0 && *self == *before,
        }
    }

    /// What taking a value from the back makes of `before`.
    pub open spec fn popped_back_from(&self, before: &Self, popped: Option<T>) -> bool {
        &&& self.wf()
        &&& match popped {
            Some(value) => {
                &&& before@.len() > 0
                &&& value == before@.last()
                &&& self@ == before@.drop_last()
                &&& self.addrs() == before.addrs().drop_last()
            },
            None => before@.len() == 0 && *self == *before,
        }
    }

    /// What is known of the node at position `i`.
    proof fn lemma_position(&self, i: int)
        requires
            self.wf(),
            0 <= i < self.order@.len(),
        ensures
            self.order@.contains(self.order@[i]),
            self.nodes@.contains_key(self.order@[i]),
            self.order@.index_of(self.order@[i]) == i,
            self@[i] == self.nodes@[self.order@[i]].value,
    {
        assert(self.order@.contains(self.order@[i]));
        let j = self.order@.index_of(self.order@[i]);
        assert(self.order@[j] == self.order@[i]);
    }

    /// The length of a list is never at the limit of a `usize`.
    proof fn lemma_len(&self)
        requires
            self.wf(),
        ensures
            self.order@.len() == self.nodes@.dom().len(),
            self.order@.len() + 2 <= usize::MAX,
    {
        self.order@.unique_seq_to_set();
        assert(self.order@.to_set() =~= self.nodes@.dom());
        self.nodes.lemma_live();
    }

    /// An empty list.
    pub fn new() -> (list: LinkedList<T>)
        ensures
            list.wf(),
            list@ == Seq::<T>::empty(),
            list.addrs() == Seq::<usize>::empty(),
    {
        let list = LinkedList {
            nodes: Heap::new(),
            head: None,
            tail: None,
            len: 0,
            order: Ghost(Seq::empty()),
        };
        assert(list@ =~= Seq::<T>::empty());
        list
    }

    /// A list of one value.
    pub fn single(value: T) -> (list: LinkedList<T>)
        ensures
            list.wf(),
            list@ == seq![value],
            list.addrs().len() == 1,
    {
        let node = Node { value, next: None, prev: None };
        let mut nodes: Heap<Node<T>> = Heap::new();
        let ptr = nodes.insert(node);
        let list = LinkedList {
            nodes,
            head: Some(ptr),
            tail: Some(ptr),
            len: 1,
            order: Ghost(Seq::empty().push(ptr)),
        };
        proof {
            assert(list.order@[0] == ptr);
            assert(list.order@.contains(ptr));
            assert(list@ =~= seq![value]);
        }
        list
    }

    /// Add a value at the front.
    pub fn push_front(&mut self, value: T)
        requires
            old(self).wf(),
        ensures
            final(self).pushed_front_from(old(self), value),
    {
        let head = match self.head {
            Some(head) => head,
            None => {
                *self = LinkedList::single(value);
                assert(self@ =~= seq![value] + old(self)@);
                assert(self.addrs().drop_first() =~= old(self).addrs());
                return ;
            },
        };
        proof {
            self.lemma_len();
            self.lemma_position(0);
        }
        let node = Node { value, next: Some(head), prev: None };
        let ptr = self.nodes.insert(node);
        self.nodes.get_mut(head).prev = Some(ptr);
        self.head = Some(ptr);
        self.len += 1;
        self.order = Ghost(Seq::empty().push(ptr) + self.order@);
        proof {
            let before = old(self).order@;
            let after = self.order@;
            assert(!before.contains(ptr));
            assert forall|i: int| 0 <= i < after.len() implies {
                &&& self.nodes@.contains_key(#[trigger] after[i])
                &&& self.nodes@[after[i]].next == link(after, i + 1)
                &&& self.nodes@[after[i]].prev == link(after, i - 1)
                &&& i > 0 ==> self.nodes@[after[i]].value == old(self)@[i - 1]
            } by {
                if i > 0 {
                    old(self).lemma_position(i - 1);
                    assert(after[i] == before[i - 1]);
                }
            }
            assert forall|a: usize| #[trigger]
                self.nodes@.contains_key(a) <==> after.contains(a) by {
                if before.contains(a) {
                    let j = before.index_of(a);
                    assert(after[j + 1] == a);
                }
                if a == ptr {
                    assert(after[0] == a);
                }
            }
            assert(after.drop_first() =~= before);
            assert(self@ =~= seq![value] + old(self)@);
        }
    }

    /// Add a value at the back.
    pub fn push_back(&mut self, value: T)
        requires
            old(self).wf(),
        ensures
            final(self).pushed_back_from(old(self), value),
    {
        let tail = match self.tail {
            Some(tail) => tail,
            None => {
                *self = LinkedList::single(value);
                assert(self@ =~= old(self)@.push(value));
                assert(self.addrs().drop_last() =~= old(self).addrs());
                return ;
            },
        };
        proof {
            self.lemma_len();
            self.lemma_position(self.order@.len() - 1);
        }
        let node = Node { value, next: None, prev: Some(tail) };
        let ptr = self.nodes.insert(node);
        self.nodes.get_mut(tail).next = Some(ptr);
        self.tail = Some(ptr);
        self.len += 1;
        self.order = Ghost(self.order@.push(ptr));
        proof {
            let before = old(self).order@;
            let after = self.order@;
            assert(!before.contains(ptr));
            assert forall|i: int| 0 <= i < after.len() implies {
                &&& self.nodes@.contains_key(#[trigger] after[i])
                &&& self.nodes@[after[i]].next == link(after, i + 1)
                &&& self.nodes@[after[i]].prev == link(after, i - 1)
                &&& i < before.len() ==> self.nodes@[after[i]].value == old(self)@[i]
            } by {
                if i < before.len() {
                    old(self).lemma_position(i);
                    assert(after[i] == before[i]);
                }
            }
            assert forall|a: usize| #[trigger]
                self.nodes@.contains_key(a) <==> after.contains(a) by {
                if before.contains(a) {
                    let j = before.index_of(a);
                    assert(after[j] == a);
                }
                if a == ptr {
                    assert(after[before.len() as int] == a);
                }
            }
            assert(after.drop_last() =~= before);
            assert(self@ =~= old(self)@.push(value));
        }
    }

    /// Unlinking the node at position `i` gives a list without that position.
    #[verifier::spinoff_prover]
    proof fn lemma_unlinked(&self, rest: &Self, i: int)
        requires
            self.wf(),
            0 <= i < self.order@.len(),
            rest.nodes.wf(),
            rest.nodes@.dom() == self.nodes@.dom().remove(self.order@[i]),
            rest.order@ == self.order@.remove(i),
            rest.len == self.len - 1,
            rest.head == if i == 0 { link(self.order@, 1) } else { self.head },
            rest.tail == if i == self.order@.len() - 1 {
                link(self.order@, i - 1)
            } else {
                self.tail
            },
            forall|j: int|
                0 <= j < self.order@.len() && j != i ==> {
                    let node = self.nodes@[#[trigger] self.order@[j]];
                    let kept = rest.nodes@[self.order@[j]];
                    &&& kept.value == node.value
                    &&& kept.next == if j == i - 1 { link(self.order@, i + 1) } else { node.next }
                    &&& kept.prev == if j == i + 1 { link(self.order@, i - 1) } else { node.prev }
                },
        ensures
            rest.wf(),
            rest@ == self@.remove(i),
    {
        let before = self.order@;
        let after = rest.order@;
        assert(after.len() == before.len() - 1);
        assert forall|k: int| 0 <= k < after.len() implies #[trigger] after[k] == before[widen(
            i,
            k,
        )] by {}
        assert(after.no_duplicates());
        assert forall|a: usize| #[trigger] rest.nodes@.contains_key(a) <==> after.contains(a) by {
            if rest.nodes@.contains_key(a) {
                let j = before.index_of(a);
                assert(after[if j < i { j } else { j - 1 }] == a);
            }
            if after.contains(a) {
                let k = after.index_of(a);
                self.lemma_position(widen(i, k));
            }
        }
        assert forall|k: int| 0 <= k < after.len() implies {
            &&& (#[trigger] rest.nodes@[after[k]]).next == link(after, k + 1)
            &&& rest.nodes@[after[k]].prev == link(after, k - 1)
            &&& rest.nodes@[after[k]].value == self@.remove(i)[k]
        } by {
            let j = widen(i, k);
            assert(after[k] == before[j]);
            assert(self.nodes@[before[j]].next == link(before, j + 1));
            assert(self.nodes@[before[j]].prev == link(before, j - 1));
            assert(self@.remove(i)[k] == self@[j]);
        }
        assert(rest@ =~= self@.remove(i));
    }

    /// Take the value at the front, if there is one.
    pub fn pop_front(&mut self) -> (popped: Option<T>)
        requires
            old(self).wf(),
        ensures
            final(self).popped_front_from(old(self), popped),
    {
        let head = match self.head {
            Some(head) => head,
            None => {
                return None;
            },
        };
        proof {
            self.lemma_position(0);
            if self.order@.len() > 1 {
                self.lemma_position(1);
            }
        }
        let node = self.nodes.remove(head);
        if let Some(second) = node.next {
            self.nodes.get_mut(second).prev = None;
            self.head = Some(second);
        } else {
            self.head = None;
            self.tail = None;
        }
        self.len -= 1;
        self.order = Ghost(self.order@.drop_first());
        proof {
            assert(self.order@ =~= old(self).order@.remove(0));
            assert(self.nodes@.dom() =~= old(self).nodes@.dom().remove(head));
            assert forall|j: int| 0 <= j < old(self).order@.len() && j != 0 implies {
                &&& (#[trigger] old(self).order@[j]) != head
            } by {}
            old(self).lemma_unlinked(self, 0);
            assert(old(self)@.remove(0) =~= old(self)@.drop_first());
        }
        Some(node.value)
    }

    /// Take the value at the back, if there is one.
    pub fn pop_back(&mut self) -> (popped: Option<T>)
        requires
            old(self).wf(),
        ensures
            final(self).popped_back_from(old(self), popped),
    {
        let tail = match self.tail {
            Some(tail) => tail,
            None => {
                return None;
            },
        };
        let ghost last = self.order@.len() - 1;
        proof {
            self.lemma_position(last);
            if last > 0 {
                self.lemma_position(last - 1);
            }
        }
        let node = self.nodes.remove(tail);
        if let Some(penultimate) = node.prev {
            self.nodes.get_mut(penultimate).next = None;
            self.tail = Some(penultimate);
        } else {
            self.head = None;
            self.tail = None;
        }
        self.len -= 1;
        self.order = Ghost(self.order@.drop_last());
        proof {
            assert(self.order@ =~= old(self).order@.remove(last));
            assert(self.nodes@.dom() =~= old(self).nodes@.dom().remove(tail));
            old(self).lemma_unlinked(self, last);
            assert(old(self)@.remove(last) =~= old(self)@.drop_last());
        }
        Some(node.value)
    }

    /// Take out the node at the given address and return its value.
    pub fn remove_node(&mut self, ptr: usize) -> (value: T)
        requires
            old(self).wf(),
            old(self).addrs().contains(ptr),
        ensures
            final(self).wf(),
            value == old(self)@[old(self).addrs().index_of(ptr)],
            final(self)@ == old(self)@.remove(old(self).addrs().index_of(ptr)),
            final(self).addrs() == old(self).addrs().remove(old(self).addrs().index_of(ptr)),
    {
        let ghost i = self.order@.index_of(ptr);
        proof {
            self.lemma_position(i);
            if i > 0 {
                self.lemma_position(i - 1);
            }
            if i + 1 < self.order@.len() {
                self.lemma_position(i + 1);
            }
        }
        let node = self.nodes.remove(ptr);
        if let Some(prev) = node.prev {
            self.nodes.get_mut(prev).next = node.next;
        } else {
            self.head = node.next;
        }
        if let Some(next) = node.next {
            self.nodes.get_mut(next).prev = node.prev;
        } else {
            self.tail = node.prev;
        }
        self.len -= 1;
        self.order = Ghost(self.order@.remove(i));
        proof {
            assert(self.nodes@.dom() =~= old(self).nodes@.dom().remove(ptr));
            old(self).lemma_unlinked(self, i);
        }
        node.value
    }

    /// The address of the first node.
    pub fn head_node(&self) -> (ptr: Option<usize>)
        requires
            self.wf(),
        ensures
            ptr == if self.addrs().len() == 0 { None } else { Some(self.addrs()[0]) },
    {
        self.head
    }

    /// The address of the last node.
    pub fn tail_node(&self) -> (ptr: Option<usize>)
        requires
            self.wf(),
        ensures
            ptr == if self.addrs().len() == 0 { None } else { Some(self.addrs().last()) },
    {
        self.tail
    }

    /// The address of the node behind the given one.
    pub fn next_node(&self, ptr: usize) -> (next: Option<usize>)
        requires
            self.wf(),
            self.addrs().contains(ptr),
        ensures
            ({
                let i = self.addrs().index_of(ptr) + 1;
                next == if i < self.addrs().len() { Some(self.addrs()[i]) } else { None }
            }),
    {
        proof {
            self.lemma_position(self.order@.index_of(ptr));
        }
        self.nodes.get(ptr).next
    }

    /// The value of the node at the given address.
    pub fn get(&self, ptr: usize) -> (value: &T)
        requires
            self.wf(),
            self.addrs().contains(ptr),
        ensures
            *value == self@[self.addrs().index_of(ptr)],
    {
        proof {
            self.lemma_position(self.order@.index_of(ptr));
        }
        &self.nodes.get(ptr).value
    }

    /// The addresses are distinct, and there is one for each value.
    pub proof fn lemma_addrs(&self)
        requires
            self.wf(),
        ensures
            self.addrs().no_duplicates(),
            self.addrs().len() == self@.len(),
    {
    }

    /// The number of values.
    pub fn len(&self) -> (len: usize)
        requires
            self.wf(),
        ensures
            len == self@.len(),
    {
        self.len
    }

    /// Whether there are no values.
    pub fn is_empty(&self) -> (empty: bool)
        requires
            self.wf(),
        ensures
            empty == (self@.len() == 0),
    {
        self.len == 0
    }

    /// An iterator over the values.
    pub fn iter(&self) -> (iter: Iter<'_, T>)
        requires
            self.wf(),
        ensures
            iter.wf(),
            iter.whole() == self@,
            iter.front() == 0,
            iter.remaining() == self@,
    {
        let span = Span { head: self.head, tail: self.tail, len: self.len, front: Ghost(0) };
        let iter = Iter { list: self, span };
        assert(iter.remaining() =~= self@);
        iter
    }

    /// An iterator that gives exclusive access to each value.
    pub fn iter_mut(&mut self) -> (iter: IterMut<'_, T>)
        requires
            old(self).wf(),
        ensures
            iter.wf(),
            *iter.list == *old(self),
            *final(iter.list) == *final(self),
            iter.front() == 0,
            iter.remaining() == old(self)@,
    {
        let span = Span { head: self.head, tail: self.tail, len: self.len, front: Ghost(0) };
        let iter = IterMut { list: self, span };
        assert(iter.remaining() =~= old(self)@);
        iter
    }

    /// The next value, taken from the front of the list.
    pub fn next(&mut self) -> (item: Option<T>)
        requires
            old(self).wf(),
        ensures
            final(self).popped_front_from(old(self), item),
    {
        self.pop_front()
    }

    /// All the values, front to back.
    pub fn collect(self) -> (values: Vec<T>)
        requires
            self.wf(),
        ensures
            values@ == self@,
    {
        let mut list = self;
        let mut values: Vec<T> = Vec::new();
        assert(values@ + list@ =~= self@);
        loop
            invariant
                list.wf(),
                values@ + list@ == self@,
            decreases list@.len(),
        {
            match list.next() {
                Some(value) => {
                    values.push(value);
                    assert(values@ + list@ =~= self@);
                },
                None => {
                    assert(values@ =~= self@);
                    return values;
                },
            }
        }
    }
}

impl<T> Default for LinkedList<T> {
    fn default() -> (list: Self)
        ensures
            list.wf(),
            list@ == Seq::<T>::empty(),
    {
        LinkedList::new()
    }
}

impl<T> From<Vec<T>> for LinkedList<T> {
    fn from(vec: Vec<T>) -> (list: Self)
        ensures
            list.wf(),
            list@ == vec@,
    {
        let mut list = LinkedList::new();
        for elem in it: vec
            invariant
                list.wf(),
                it.seq() == vec@,
                list@ == vec@.take(it.index() as int),
        {
            list.push_back(elem);
            assert(list@ =~= vec@.take(it.index() + 1));
        }
        assert(vec@.take(vec@.len() as int) =~= vec@);
        list
    }
}

impl<T> vstd::std_specs::convert::FromSpecImpl<Vec<T>> for LinkedList<T> {
    open spec fn obeys_from_spec() -> bool {
        false
    }

    open spec fn from_spec(vec: Vec<T>) -> Self {
        arbitrary()
    }
}

impl<T, const N: usize> From<[T; N]> for LinkedList<T> {
    fn from(arr: [T; N]) -> (list: Self)
        ensures
            list.wf(),
            list@ == arr@,
    {
        let boxed: Box<[T]> = Box::new(arr);
        LinkedList::from(boxed.into_vec())
    }
}

impl<T, const N: usize> vstd::std_specs::convert::FromSpecImpl<[T; N]> for LinkedList<T> {
    open spec fn obeys_from_spec() -> bool {
        false
    }

    open spec fn from_spec(arr: [T; N]) -> Self {
        arbitrary()
    }
}

/// The part of a list that an iterator has still to visit.
pub struct Span {
    head: Option<usize>,
    tail: Option<usize>,
    len: usize,
    front: Ghost<int>,
}

impl Span {
    /// Both ends stand at the bounds of what is left of the given addresses.
    pub closed spec fn within(&self, addrs: Seq<usize>) -> bool {
        &&& 0 <= self.front@
        &&& self.front@ + self.len <= addrs.len()
        &&& self.head == link(addrs, self.front@)
        &&& self.tail == link(addrs, self.front@ + self.len - 1)
    }
}

/// An iterator over the values of a [`LinkedList`], from both ends.
pub struct Iter<'a, T> {
    list: &'a LinkedList<T>,
    span: Span,
}

impl<'a, T> Iter<'a, T> {
    /// What is left to visit is a part of a well-formed list.
    pub closed spec fn wf(&self) -> bool {
        self.list.wf() && self.span.within(self.list.order@)
    }

    /// All the values of the list.
    pub closed spec fn whole(&self) -> Seq<T> {
        self.list@
    }

    /// The position in the list of the next value from the front.
    pub closed spec fn front(&self) -> int {
        self.span.front@
    }

    /// The values that are still to come, front to back.
    pub closed spec fn remaining(&self) -> Seq<T> {
        self.list@.subrange(self.span.front@, self.span.front@ + self.span.len)
    }

    /// The next value from the front.
    ///
    /// Not to be called once the back has come to meet the front before the end of the list.
    pub fn next(&mut self) -> (item: Option<&'a T>)
        requires
            old(self).wf(),
            old(self).remaining().len() > 0 || old(self).front() == old(self).whole().len(),
        ensures
            final(self).wf(),
            final(self).whole() == old(self).whole(),
            match item {
                Some(value) => {
                    &&& old(self).remaining().len() > 0
                    &&& *value == old(self).remaining()[0]
                    &&& final(self).front() == old(self).front() + 1
                    &&& final(self).remaining() == old(self).remaining().drop_first()
                },
                None => old(self).remaining().len() == 0 && *final(self) == *old(self),
            },
    {
        if let Some(head) = self.span.head {
            proof {
                self.list.lemma_position(self.span.front@);
            }
            self.span.len -= 1;
            let node = self.list.nodes.get(head);
            self.span.head = node.next;
            self.span.front = Ghost(self.span.front@ + 1);
            assert(self.remaining() =~= old(self).remaining().drop_first());
            Some(&node.value)
        } else {
            None
        }
    }

    /// The next value from the back.
    ///
    /// Not to be called once the front has come to meet the back after the start of the list.
    pub fn next_back(&mut self) -> (item: Option<&'a T>)
        requires
            old(self).wf(),
            old(self).remaining().len() > 0 || old(self).front() == 0,
        ensures
            final(self).wf(),
            final(self).whole() == old(self).whole(),
            match item {
                Some(value) => {
                    &&& old(self).remaining().len() > 0
                    &&& *value == old(self).remaining().last()
                    &&& final(self).front() == old(self).front()
                    &&& final(self).remaining() == old(self).remaining().drop_last()
                },
                None => old(self).remaining().len() == 0 && *final(self) == *old(self),
            },
    {
        if let Some(tail) = self.span.tail {
            proof {
                self.list.lemma_position(self.span.front@ + self.span.len - 1);
            }
            self.span.len -= 1;
            let node = self.list.nodes.get(tail);
            self.span.tail = node.prev;
            assert(self.remaining() =~= old(self).remaining().drop_last());
            Some(&node.value)
        } else {
            None
        }
    }

    /// How many values are still to come, as a lower and an upper bound.
    pub fn size_hint(&self) -> (hint: (usize, Option<usize>))
        requires
            self.wf(),
        ensures
            hint.0 == self.remaining().len(),
            hint.1 == Some(hint.0),
    {
        (self.span.len, Some(self.span.len))
    }
}

/// An iterator that gives exclusive access to the values of a [`LinkedList`], from both ends.
pub struct IterMut<'a, T> {
    /// The list that is iterated over.
    pub list: &'a mut LinkedList<T>,
    /// The part of it that has still to be visited.
    pub span: Span,
}

impl<'a, T> IterMut<'a, T> {
    /// What is left to visit is a part of a well-formed list.
    pub open spec fn wf(&self) -> bool {
        self.list.wf() && self.span.within(self.list.addrs())
    }

    /// The position in the list of the next value from the front.
    pub closed spec fn front(&self) -> int {
        self.span.front@
    }

    /// The values that are still to come, front to back.
    pub closed spec fn remaining(&self) -> Seq<T> {
        self.list@.subrange(self.span.front@, self.span.front@ + self.span.len)
    }

    /// The next value from the front.
    ///
    /// Not to be called once the back has come to meet the front before the end of the list.
    pub fn next(&mut self) -> (item: Option<&mut T>)
        requires
            old(self).wf(),
            old(self).remaining().len() > 0 || old(self).front() == old(self).list@.len(),
        ensures
            final(self).wf(),
            *final(final(self).list) == *final(old(self).list),
            final(self).list.addrs() == old(self).list.addrs(),
            match item {
                Some(value) => {
                    &&& old(self).remaining().len() > 0
                    &&& *value == old(self).remaining()[0]
                    &&& final(self).front() == old(self).front() + 1
                    &&& final(self).remaining() == old(self).remaining().drop_first()
                    &&& final(self).list@ == old(self).list@.update(
                        old(self).front(),
                        *final(value),
                    )
                },
                None => old(self).remaining().len() == 0 && *final(self) == *old(self),
            },
    {
        if let Some(head) = self.span.head {
            proof {
                self.list.lemma_position(self.span.front@);
            }
            self.span.len -= 1;
            self.span.head = self.list.nodes.get(head).next;
            self.span.front = Ghost(self.span.front@ + 1);
            let value = Node::get_from_ptr(self.list, head);
            Some(value)
        } else {
            None
        }
    }

    /// The next value from the back.
    ///
    /// Not to be called once the front has come to meet the back after the start of the list.
    pub fn next_back(&mut self) -> (item: Option<&mut T>)
        requires
            old(self).wf(),
            old(self).remaining().len() > 0 || old(self).front() == 0,
        ensures
            final(self).wf(),
            *final(final(self).list) == *final(old(self).list),
            final(self).list.addrs() == old(self).list.addrs(),
            match item {
                Some(value) => {
                    &&& old(self).remaining().len() > 0
                    &&& *value == old(self).remaining().last()
                    &&& final(self).front() == old(self).front()
                    &&& final(self).remaining() == old(self).remaining().drop_last()
                    &&& final(self).list@ == old(self).list@.update(
                        old(self).front() + old(self).remaining().len() - 1,
                        *final(value),
                    )
                },
                None => old(self).remaining().len() == 0 && *final(self) == *old(self),
            },
    {
        if let Some(tail) = self.span.tail {
            proof {
                self.list.lemma_position(self.span.front@ + self.span.len - 1);
            }
            self.span.len -= 1;
            self.span.tail = self.list.nodes.get(tail).prev;
            let value = Node::get_from_ptr(self.list, tail);
            Some(value)
        } else {
            None
        }
    }

    /// How many values are still to come, as a lower and an upper bound.
    pub fn size_hint(&self) -> (hint: (usize, Option<usize>))
        requires
            self.wf(),
        ensures
            hint.0 == self.remaining().len(),
            hint.1 == Some(hint.0),
    {
        (self.span.len, Some(self.span.len))
    }
}

} // verus!

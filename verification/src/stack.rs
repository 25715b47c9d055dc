//! A stack that many can push to at once.
//!
//! A push allocates its node in private, reads the top of the stack, links the node to what it
//! read, and then exchanges the top for the node, provided that the top is still what it read. If
//! it is not, the push starts over from the current top. [`SharedStack::push`] runs these steps
//! one after the other; [`SharedStack::begin_push`], [`SharedStack::try_push`] and
//! [`SharedStack::finish_push`] are the steps themselves, each a single access to the shared part
//! of the stack, for pushes that overlap.

use vstd::prelude::*;

use crate::heap::{Heap, NULL};

verus! {

/// A node of a [`SharedStack`].
pub struct Node<T> {
    val: T,
    next: usize,
}

impl<T> Node<T> {
    /// The value held by the node.
    pub closed spec fn spec_val(&self) -> T {
        self.val
    }

    /// The address of the node below, or [`NULL`].
    pub closed spec fn spec_next(&self) -> usize {
        self.next
    }

    /// A node that is linked to nothing.
    pub fn new(val: T) -> (node: Self)
        ensures
            node.spec_val() == val,
            node.spec_next() == NULL,
    {
        Node { val, next: NULL }
    }
}

/// A stack of values.
pub struct SharedStack<T> {
    nodes: Heap<Node<T>>,
    top: usize,
    count: usize,
    order: Ghost<Seq<usize>>,
}

/// A push that has not taken effect yet: its node, and the top of the stack as it last read it.
pub struct Push {
    node: usize,
    seen: usize,
}

impl Push {
    /// The address of the node that is to be pushed.
    pub closed spec fn node(&self) -> usize {
        self.node
    }

    /// The top of the stack as last read by this push.
    pub closed spec fn seen(&self) -> usize {
        self.seen
    }
}

/// The `i`-th address of a sequence, or [`NULL`] past its end.
spec fn link(order: Seq<usize>, i: int) -> usize {
    if 0 <= i < order.len() {
        order[i]
    } else {
        NULL
    }
}

impl<T> View for SharedStack<T> {
    type V = Seq<T>;

    /// The values of the stack, top first.
    closed spec fn view(&self) -> Seq<T> {
        Seq::new(self.order@.len(), |i: int| self.nodes@[self.order@[i]].val)
    }
}

impl<T> SharedStack<T> {
    /// The addresses of the nodes, top first.
    pub closed spec fn addrs(&self) -> Seq<usize> {
        self.order@
    }

    /// The address of the topmost node, or [`NULL`].
    pub closed spec fn top(&self) -> usize {
        self.top
    }

    /// The number of pushes that were counted.
    pub closed spec fn counted(&self) -> usize {
        self.count
    }

    /// Each node of the stack is linked to the one below it.
    pub closed spec fn wf(&self) -> bool {
        &&& self.nodes.wf()
        &&& self.order@.no_duplicates()
        &&& self.top == link(self.order@, 0)
        &&& forall|i: int|
            0 <= i < self.order@.len() ==> self.nodes@.contains_key(#[trigger] self.order@[i])
        &&& forall|i: int|
            0 <= i < self.order@.len() ==> (#[trigger] self.nodes@[self.order@[i]]).next == link(
                self.order@,
                i + 1,
            )
    }

    /// No push is under way: every node is in the stack, and every push was counted.
    pub closed spec fn settled(&self) -> bool {
        &&& self.count == self.order@.len()
        &&& forall|a: usize| #[trigger] self.nodes@.contains_key(a) ==> self.order@.contains(a)
    }

    /// The given push has a node of its own that is not in the stack yet.
    pub closed spec fn pending(&self, push: Push) -> bool {
        self.nodes@.contains_key(push.node) && !self.order@.contains(push.node)
    }

    /// The value that the given push is to put on the stack.
    pub closed spec fn pending_val(&self, push: Push) -> T {
        self.nodes@[push.node].val
    }

    /// There is a node at the given address, in the stack or of a push under way.
    pub closed spec fn has_node(&self, addr: usize) -> bool {
        self.nodes@.contains_key(addr)
    }

    /// Every push that was under way in `before` still is, with the value that it had.
    pub open spec fn keeps_pending(&self, before: &Self) -> bool {
        forall|push: Push| #[trigger]
            before.pending(push) ==> self.pending(push) && self.pending_val(push)
                == before.pending_val(push)
    }

    /// Everything that is on the stack in `before` still is, below what is new.
    pub open spec fn grown_from(&self, before: &Self) -> bool {
        let new = self.addrs().len() - before.addrs().len();
        &&& new >= 0
        &&& self.addrs().skip(new) == before.addrs()
        &&& self@.skip(new) == before@
    }

    /// What the first step of a push makes of `before`.
    pub open spec fn begun_from(&self, before: &Self, val: T, push: Push) -> bool {
        &&& self.wf()
        &&& self@ == before@
        &&& self.addrs() == before.addrs()
        &&& self.counted() == before.counted()
        &&& self.pending(push)
        &&& self.pending_val(push) == val
        &&& push.seen() == before.top()
        &&& self.keeps_pending(before)
        &&& forall|other: Push| #[trigger] before.pending(other) ==> other.node() != push.node()
    }

    /// What the second step of a push makes of `before`.
    pub open spec fn tried_from(
        &self,
        before: &Self,
        push: Push,
        pushed: Result<usize, Push>,
    ) -> bool {
        &&& self.wf()
        &&& self.counted() == before.counted()
        &&& pushed is Ok <==> push.seen() == before.top()
        &&& match pushed {
            Ok(addr) => {
                &&& addr == push.node()
                &&& self@ == seq![before.pending_val(push)] + before@
                &&& self.addrs() == seq![addr] + before.addrs()
            },
            Err(again) => {
                &&& self@ == before@
                &&& self.addrs() == before.addrs()
                &&& again.node() == push.node()
                &&& again.seen() == before.top()
                &&& self.pending(again)
                &&& self.pending_val(again) == before.pending_val(push)
            },
        }
        &&& forall|other: Push| #[trigger]
            before.pending(other) && other.node() != push.node() ==> self.pending(other)
                && self.pending_val(other) == before.pending_val(other)
    }

    /// What the last step of a push makes of `before`.
    pub open spec fn finished_from(&self, before: &Self) -> bool {
        &&& self.wf()
        &&& self@ == before@
        &&& self.addrs() == before.addrs()
        &&& self.counted() == before.counted().wrapping_add(1)
        &&& self.keeps_pending(before)
    }

    /// The length of a stack is never at the limit of a `usize`.
    pub proof fn lemma_len(&self)
        requires
            self.wf(),
        ensures
            self@.len() + 2 <= usize::MAX,
    {
        self.order@.unique_seq_to_set();
        self.nodes.lemma_live();
        assert(self.order@.to_set().subset_of(self.nodes@.dom()));
        vstd::set_lib::lemma_len_subset(self.order@.to_set(), self.nodes@.dom());
    }

    /// What is known of the node at position `i`.
    proof fn lemma_position(&self, i: int)
        requires
            self.wf(),
            0 <= i < self.order@.len(),
        ensures
            self.order@.contains(self.order@[i]),
            self.nodes@.contains_key(self.order@[i]),
            self.order@.index_of(self.order@[i]) == i,
            self.order@[i] != NULL,
            self@[i] == self.nodes@[self.order@[i]].val,
    {
        assert(self.order@.contains(self.order@[i]));
        let j = self.order@.index_of(self.order@[i]);
        assert(self.order@[j] == self.order@[i]);
        self.nodes.lemma_live();
    }

    /// The addresses are distinct, and there is one for each value.
    pub proof fn lemma_addrs(&self)
        requires
            self.wf(),
        ensures
            self.addrs().no_duplicates(),
            self.addrs().len() == self@.len(),
    {
    }

    /// Once no push is under way, the count is that of the values.
    pub proof fn lemma_settled_count(&self)
        requires
            self.settled(),
        ensures
            self.counted() == self@.len(),
    {
    }

    /// A stack has grown from itself, and from what it has grown from by and by.
    pub proof fn lemma_grown(&self, between: &Self, before: &Self)
        ensures
            before.grown_from(before),
            self.grown_from(between) && between.grown_from(before) ==> self.grown_from(before),
    {
        assert(before.addrs().skip(0) =~= before.addrs());
        assert(before@.skip(0) =~= before@);
        if self.grown_from(between) && between.grown_from(before) {
            let new = self.addrs().len() - between.addrs().len();
            let newer = between.addrs().len() - before.addrs().len();
            assert(self.addrs().skip(new).skip(newer) =~= self.addrs().skip(new + newer));
            assert(self@.skip(new).skip(newer) =~= self@.skip(new + newer));
        }
    }

    /// A new, empty stack.
    pub fn new() -> (stack: Self)
        ensures
            stack.wf(),
            stack.settled(),
            stack@ == Seq::<T>::empty(),
            stack.addrs() == Seq::<usize>::empty(),
    {
        let stack = SharedStack {
            nodes: Heap::new(),
            top: NULL,
            count: 0,
            order: Ghost(Seq::empty()),
        };
        assert(stack@ =~= Seq::<T>::empty());
        stack
    }

    /// The number of values on the stack.
    ///
    /// While pushes are under way, those that have taken effect may not have been counted yet.
    pub fn count(&self) -> (count: usize)
        requires
            self.wf(),
        ensures
            count == self.counted(),
            self.settled() ==> count == self@.len(),
    {
        self.count
    }

    /// First step of a push: allocate a node for the value and read the top of the stack.
    pub fn begin_push(&mut self, val: T) -> (push: Push)
        requires
            old(self).wf(),
        ensures
            final(self).begun_from(old(self), val, push),
            final(self).grown_from(old(self)),
            forall|a: usize| #[trigger]
                final(self).has_node(a) <==> (old(self).has_node(a) || a == push.node()),
    {
        let node = self.nodes.insert(Node::new(val));
        proof {
            assert(self@ =~= old(self)@);
            assert(self.addrs().skip(0) =~= self.addrs());
            assert(self@.skip(0) =~= self@);
        }
        Push { node, seen: self.top }
    }

    /// Second step of a push: put the node on top of the stack, provided that the top is still what
    /// the push last read. Otherwise read the top anew.
    pub fn try_push(&mut self, push: Push) -> (pushed: Result<usize, Push>)
        requires
            old(self).wf(),
            old(self).pending(push),
        ensures
            final(self).tried_from(old(self), push, pushed),
            final(self).grown_from(old(self)),
            forall|a: usize| #[trigger]
                final(self).has_node(a) <==> old(self).has_node(a),
    {
        proof {
            self.nodes.lemma_live();
        }
        self.nodes.get_mut(push.node).next = push.seen;
        let ghost linked = *self;
        if self.top == push.seen {
            self.top = push.node;
            self.order = Ghost(Seq::empty().push(push.node) + self.order@);
            proof {
                let before = old(self).order@;
                let after = self.order@;
                assert forall|i: int| 0 <= i < after.len() implies {
                    &&& self.nodes@.contains_key(after[i])
                    &&& (#[trigger] self.nodes@[after[i]]).next == link(after, i + 1)
                } by {
                    if i > 0 {
                        assert(after[i] == before[i - 1]);
                        old(self).lemma_position(i - 1);
                    }
                }
                assert(self@ =~= seq![old(self).pending_val(push)] + old(self)@) by {
                    assert forall|i: int| 0 < i < after.len() implies self@[i] == old(self)@[i
                        - 1] by {
                        assert(after[i] == before[i - 1]);
                        old(self).lemma_position(i - 1);
                    }
                }
                assert(after =~= seq![push.node] + before);
                assert(after.skip(1) =~= before);
                assert(self@.skip(1) =~= old(self)@);
            }
            Ok(push.node)
        } else {
            proof {
                assert forall|i: int| 0 <= i < self.order@.len() implies {
                    &&& self.nodes@.contains_key(#[trigger] self.order@[i])
                    &&& self.nodes@[self.order@[i]] == old(self).nodes@[self.order@[i]]
                } by {
                    old(self).lemma_position(i);
                }
                assert(self@ =~= old(self)@);
                assert(self.addrs().skip(0) =~= self.addrs());
                assert(self@.skip(0) =~= self@);
            }
            Err(Push { node: push.node, seen: self.top })
        }
    }

    /// Last step of a push: count it.
    pub fn finish_push(&mut self)
        requires
            old(self).wf(),
        ensures
            final(self).finished_from(old(self)),
            final(self).grown_from(old(self)),
            forall|a: usize| #[trigger] final(self).has_node(a) <==> old(self).has_node(a),
    {
        self.count = self.count.wrapping_add(1);
        proof {
            assert(self@ =~= old(self)@);
            assert(self.addrs().skip(0) =~= self.addrs());
            assert(self@.skip(0) =~= self@);
        }
    }

    /// A push that ran through all its steps leaves none under way that was not before.
    proof fn lemma_settled(&self, before: &Self)
        requires
            self.wf(),
            before.wf(),
            before.settled(),
            self.order@.len() == before.order@.len() + 1,
            self.order@.drop_first() == before.order@,
            self.count == before.count.wrapping_add(1),
            forall|a: usize| #[trigger]
                self.has_node(a) <==> (before.has_node(a) || a == self.order@[0]),
        ensures
            self.settled(),
    {
        self.lemma_len();
        assert forall|a: usize| #[trigger] self.nodes@.contains_key(a) implies self.order@.contains(
            a,
        ) by {
            assert(self.has_node(a));
            if a == self.order@[0] {
            } else {
                assert(before.has_node(a));
                let i = before.order@.index_of(a);
                assert(self.order@.drop_first()[i] == self.order@[i + 1]);
            }
        }
    }

    /// Push a value and return the address of its node.
    pub fn push_get(&mut self, val: T) -> (addr: usize)
        requires
            old(self).wf(),
        ensures
            final(self).wf(),
            final(self)@ == seq![val] + old(self)@,
            final(self).addrs() == seq![addr] + old(self).addrs(),
            final(self).counted() == old(self).counted().wrapping_add(1),
            final(self).keeps_pending(old(self)),
            final(self).grown_from(old(self)),
            old(self).settled() ==> final(self).settled(),
    {
        let mut push = self.begin_push(val);
        loop
            invariant
                self.wf(),
                self.pending(push),
                self.pending_val(push) == val,
                self@ == old(self)@,
                self.addrs() == old(self).addrs(),
                self.counted() == old(self).counted(),
                old(self).wf(),
                self.keeps_pending(old(self)),
                forall|other: Push| #[trigger]
                    old(self).pending(other) ==> other.node() != push.node(),
                forall|a: usize| #[trigger]
                    self.has_node(a) <==> (old(self).has_node(a) || a == push.node()),
            decreases if push.seen() == self.top() { 0int } else { 1int },
        {
            match self.try_push(push) {
                // The exchange was successful: count the push and be done.
                Ok(addr) => {
                    self.finish_push();
                    proof {
                        assert(self.addrs().drop_first() =~= old(self).addrs());
                        assert(self.addrs().skip(1) =~= old(self).addrs());
                        assert(self@.skip(1) =~= old(self)@);
                        if old(self).settled() {
                            self.lemma_settled(old(self));
                        }
                    }
                    return addr;
                },
                // The top has changed: try again from the current one.
                Err(again) => {
                    push = again;
                },
            }
        }
    }

    /// Push a value and return a reference to it.
    pub fn push(&mut self, val: T) -> (pushed: &T)
        requires
            old(self).wf(),
        ensures
            final(self).wf(),
            *pushed == val,
            final(self)@ == seq![val] + old(self)@,
            final(self).counted() == old(self).counted().wrapping_add(1),
            final(self).addrs().len() == old(self).addrs().len() + 1,
            final(self).addrs().drop_first() == old(self).addrs(),
            final(self).keeps_pending(old(self)),
            final(self).grown_from(old(self)),
            old(self).settled() ==> final(self).settled(),
    {
        let addr = self.push_get(val);
        proof {
            assert(self.addrs().drop_first() =~= old(self).addrs());
            self.lemma_position(0);
        }
        &self.nodes.get(addr).val
    }

    /// Push a value and return exclusive access to it.
    pub fn push_mut(&mut self, val: T) -> (pushed: &mut T)
        requires
            old(self).wf(),
        ensures
            *pushed == val,
            final(self).wf(),
            final(self)@ == seq![*final(pushed)] + old(self)@,
            final(self).counted() == old(self).counted().wrapping_add(1),
            final(self).addrs().len() == old(self).addrs().len() + 1,
            final(self).addrs().drop_first() == old(self).addrs(),
            final(self).keeps_pending(old(self)),
            final(self).grown_from(old(self)),
            old(self).settled() ==> final(self).settled(),
    {
        let push = self.begin_push(val);
        let node = push.node;
        // Nobody else has access, so the top cannot have changed.
        let exchanged = self.try_push(push);
        assert(exchanged is Ok);
        self.finish_push();
        proof {
            assert(self.addrs().drop_first() =~= old(self).addrs());
            if old(self).settled() {
                self.lemma_settled(old(self));
            }
            self.lemma_position(0);
            assert(self@.drop_first() =~= old(self)@);
            assert(self.addrs().skip(1) =~= old(self).addrs());
            assert forall|top: T| #[trigger] self@.update(0, top).skip(1) == old(self)@ by {
                assert(self@.update(0, top).skip(1) =~= old(self)@);
            }
        }
        self.get_mut(node)
    }

    /// The address of the topmost node, or [`NULL`] if the stack is empty.
    pub fn top_node(&self) -> (addr: usize)
        requires
            self.wf(),
        ensures
            addr == self.top(),
            self.addrs().len() > 0 ==> addr == self.addrs()[0] && addr != NULL,
            self.addrs().len() == 0 ==> addr == NULL,
    {
        proof {
            if self.order@.len() > 0 {
                self.lemma_position(0);
            }
        }
        self.top
    }

    /// The address of the node below the given one, or [`NULL`] if there is none.
    pub fn next_node(&self, addr: usize) -> (next: usize)
        requires
            self.wf(),
            self.addrs().contains(addr),
        ensures
            ({
                let i = self.addrs().index_of(addr) + 1;
                if i < self.addrs().len() {
                    next == self.addrs()[i] && next != NULL
                } else {
                    next == NULL
                }
            }),
    {
        proof {
            let i = self.order@.index_of(addr);
            self.lemma_position(i);
            if i + 1 < self.order@.len() {
                self.lemma_position(i + 1);
            }
        }
        self.nodes.get(addr).next
    }

    /// The value of the node at the given address.
    pub fn get(&self, addr: usize) -> (val: &T)
        requires
            self.wf(),
            self.addrs().contains(addr),
        ensures
            *val == self@[self.addrs().index_of(addr)],
    {
        proof {
            self.lemma_position(self.order@.index_of(addr));
        }
        &self.nodes.get(addr).val
    }

    /// Exclusive access to the value of the node at the given address.
    pub fn get_mut(&mut self, addr: usize) -> (val: &mut T)
        requires
            old(self).wf(),
            old(self).addrs().contains(addr),
        ensures
            *val == old(self)@[old(self).addrs().index_of(addr)],
            final(self).wf(),
            final(self).addrs() == old(self).addrs(),
            final(self).counted() == old(self).counted(),
            old(self).settled() ==> final(self).settled(),
            final(self).keeps_pending(old(self)),
            final(self)@ == old(self)@.update(old(self).addrs().index_of(addr), *final(val)),
    {
        proof {
            self.lemma_position(self.order@.index_of(addr));
        }
        let node = self.nodes.get_mut(addr);
        &mut node.val
    }

    /// An iterator over the values, top first.
    pub fn iter(&self) -> (iter: Iter<'_, T>)
        requires
            self.wf(),
        ensures
            iter.wf(),
            iter.remaining() == self@,
    {
        Iter { stack: self, cursor: self.cursor() }
    }

    /// A cursor that goes through the values, top first, while others may push.
    pub fn cursor(&self) -> (cursor: Cursor)
        requires
            self.wf(),
        ensures
            cursor.wf(self),
            cursor.todo() == self.addrs(),
            cursor.remaining(self) == self@,
    {
        let cursor = Cursor { next: self.top, todo: Ghost(self.order@) };
        proof {
            assert(cursor.todo@ =~= self.order@.skip(0));
            assert(cursor.remaining(self) =~= self@);
        }
        cursor
    }

    /// All the values, top first.
    pub fn to_vec(&self) -> (values: Vec<T>) where T: Copy
        requires
            self.wf(),
        ensures
            values@ == self@,
    {
        let mut values: Vec<T> = Vec::new();
        let mut iter = self.iter();
        assert(values@ + iter.remaining() =~= self@);
        loop
            invariant
                iter.wf(),
                values@ + iter.remaining() == self@,
            decreases iter.remaining().len(),
        {
            match iter.next() {
                Some(val) => {
                    values.push(*val);
                    assert(values@ + iter.remaining() =~= self@);
                },
                None => {
                    assert(values@ =~= self@);
                    return values;
                },
            }
        }
    }

    /// Cut off everything below the top at once, free its nodes, and return their values, top first.
    fn unlink(&mut self) -> (values: Vec<T>)
        requires
            old(self).wf(),
        ensures
            values@ == old(self)@,
            final(self).wf(),
            final(self)@ == Seq::<T>::empty(),
            final(self).addrs() == Seq::<usize>::empty(),
            final(self).counted() == old(self).counted().wrapping_sub(old(self)@.len() as usize),
            old(self).settled() ==> final(self).settled(),
            final(self).keeps_pending(old(self)),
            forall|a: usize| #[trigger]
                final(self).has_node(a) <==> (old(self).has_node(a) && !old(self).addrs().contains(
                    a,
                )),
    {
        let mut values: Vec<T> = Vec::new();
        let mut current = self.top;
        self.top = NULL;
        let ghost mut chain = self.order@;
        self.order = Ghost(Seq::empty());
        while current != NULL
            invariant
                old(self).wf(),
                self.nodes.wf(),
                self.top == NULL,
                self.count == old(self).count,
                self.order@ == Seq::<usize>::empty(),
                values@.len() + chain.len() == old(self).order@.len(),
                chain == old(self).order@.skip(values@.len() as int),
                values@ == old(self)@.take(values@.len() as int),
                current == link(chain, 0),
                forall|a: usize| #[trigger]
                    self.nodes@.contains_key(a) <==> (old(self).nodes@.contains_key(a) && (
                    chain.contains(a) || !old(self).order@.contains(a))),
                forall|a: usize| #[trigger]
                    self.nodes@.contains_key(a) ==> self.nodes@[a] == old(self).nodes@[a],
            decreases chain.len(),
        {
            let ghost n = values@.len() as int;
            proof {
                old(self).lemma_position(n);
                assert(chain[0] == old(self).order@[n]);
                assert(chain.contains(chain[0]));
                assert(self.nodes@.contains_key(current));
                assert(self.nodes@[current] == old(self).nodes@[current]);
            }
            let node = self.nodes.remove(current);
            values.push(node.val);
            proof {
                let rest = chain.drop_first();
                assert forall|a: usize| rest.contains(a) <==> (chain.contains(a) && a
                    != current) by {
                    if chain.contains(a) && a != current {
                        let i = chain.index_of(a);
                        assert(rest[i - 1] == a);
                    }
                    if rest.contains(a) {
                        let i = rest.index_of(a);
                        assert(chain[i + 1] == a);
                        assert(old(self).order@[n + i + 1] == a);
                    }
                }
                chain = rest;
                assert(chain =~= old(self).order@.skip(n + 1));
                assert(values@ =~= old(self)@.take(n + 1));
            }
            current = node.next;
        }
        self.count = self.count.wrapping_sub(values.len());
        proof {
            assert(chain.len() == 0) by {
                if chain.len() > 0 {
                    old(self).lemma_position(values@.len() as int);
                }
            }
            assert(values@ =~= old(self)@);
            assert(self@ =~= Seq::<T>::empty());
        }
        values
    }

    /// Put the given values on top of the stack, the first of them topmost.
    fn push_all(&mut self, values: Vec<T>)
        requires
            old(self).wf(),
        ensures
            final(self).wf(),
            final(self)@ == values@ + old(self)@,
            final(self).counted() == old(self).counted().wrapping_add(values@.len() as usize),
            final(self).keeps_pending(old(self)),
            final(self).grown_from(old(self)),
            old(self).settled() ==> final(self).settled(),
    {
        let mut left = values;
        assert(left.len() <= usize::MAX);
        assert(values@.skip(left@.len() as int) + self@ =~= self@);
        assert(left@ =~= values@.take(left@.len() as int));
        proof {
            self.lemma_grown(self, self);
        }
        loop
            invariant
                self.wf(),
                old(self).settled() ==> self.settled(),
                self.keeps_pending(old(self)),
                self.grown_from(old(self)),
                left@.len() <= values@.len(),
                left@ == values@.take(left@.len() as int),
                self@ == values@.skip(left@.len() as int) + old(self)@,
                values@.len() <= usize::MAX,
                self.counted() == old(self).counted().wrapping_add(
                    (values@.len() - left@.len()) as usize,
                ),
            decreases left@.len(),
        {
            let ghost n = left@.len() as int;
            match left.pop() {
                Some(val) => {
                    let ghost between = *self;
                    self.push_get(val);
                    proof {
                        self.lemma_grown(&between, old(self));
                        assert(val == values@[n - 1]);
                        assert(left@ =~= values@.take(n - 1));
                        assert(self@ =~= values@.skip(n - 1) + old(self)@);
                    }
                },
                None => {
                    assert(self@ =~= values@ + old(self)@);
                    return ;
                },
            }
        }
    }

    /// Take everything off the stack at once.
    ///
    /// A push that is under way is not affected: it takes effect on the emptied stack.
    pub fn take(&mut self) -> (taken: Self)
        requires
            old(self).wf(),
        ensures
            taken.wf(),
            taken.settled(),
            taken@ == old(self)@,
            final(self).wf(),
            final(self)@ == Seq::<T>::empty(),
            final(self).counted() == old(self).counted().wrapping_sub(old(self)@.len() as usize),
            old(self).settled() ==> final(self).settled(),
            final(self).keeps_pending(old(self)),
            forall|a: usize| #[trigger]
                final(self).has_node(a) <==> (old(self).has_node(a) && !old(self).addrs().contains(
                    a,
                )),
    {
        let mut taken = SharedStack::new();
        taken.push_all(self.unlink());
        assert(taken@ =~= old(self)@);
        taken
    }

    /// Put all the values of another stack on top of this one, in the order that they have there.
    pub fn push_stack(&mut self, stack: Self)
        requires
            old(self).wf(),
            stack.wf(),
        ensures
            final(self).wf(),
            final(self)@ == stack@ + old(self)@,
            final(self).counted() == old(self).counted().wrapping_add(stack@.len() as usize),
            final(self).keeps_pending(old(self)),
            final(self).grown_from(old(self)),
            old(self).settled() ==> final(self).settled(),
    {
        let mut stack = stack;
        self.push_all(stack.unlink());
    }

    /// A stack of the given values, pushed one after the other.
    pub fn from_iter(values: Vec<T>) -> (stack: Self)
        ensures
            stack.wf(),
            stack.settled(),
            stack@ == values@.reverse(),
    {
        let mut stack = SharedStack::new();
        stack.extend(values);
        assert(stack@ =~= values@.reverse());
        stack
    }

    /// Push the given values one after the other.
    pub fn extend(&mut self, values: Vec<T>)
        requires
            old(self).wf(),
        ensures
            final(self).wf(),
            final(self)@ == values@.reverse() + old(self)@,
            final(self).counted() == old(self).counted().wrapping_add(values@.len() as usize),
            final(self).keeps_pending(old(self)),
            final(self).grown_from(old(self)),
            old(self).settled() ==> final(self).settled(),
    {
        proof {
            self.lemma_grown(self, self);
            assert(values@.take(0).reverse() + self@ =~= self@);
        }
        assert(values.len() <= usize::MAX);
        for val in it: values
            invariant
                self.wf(),
                old(self).settled() ==> self.settled(),
                self.keeps_pending(old(self)),
                self.grown_from(old(self)),
                it.seq() == values@,
                self@ == values@.take(it.index() as int).reverse() + old(self)@,
                values@.len() <= usize::MAX,
                self.counted() == old(self).counted().wrapping_add(it.index() as usize),
        {
            let ghost n = it.index() as int;
            let ghost between = *self;
            self.push_mut(val);
            proof {
                self.lemma_grown(&between, old(self));
            }
            assert(self@ =~= values@.take(n + 1).reverse() + old(self)@);
        }
        assert(values@.take(values@.len() as int) =~= values@);
    }

    /// Turn the stack into an iterator that takes the values off it, top first.
    pub fn into_iter(self) -> (iter: IntoIter<T>)
        requires
            self.wf(),
        ensures
            iter.wf(),
            iter.remaining() == self@,
    {
        let next = self.top;
        IntoIter { stack: self, next }
    }

    /// Free every node of the stack.
    pub fn clear(&mut self)
        requires
            old(self).wf(),
            old(self).settled(),
        ensures
            final(self).wf(),
            final(self).settled(),
            final(self)@ == Seq::<T>::empty(),
            forall|a: usize| !#[trigger] final(self).has_node(a),
    {
        self.unlink();
    }
}

impl<T> Default for SharedStack<T> {
    fn default() -> (stack: Self)
        ensures
            stack.wf(),
            stack.settled(),
            stack@ == Seq::<T>::empty(),
    {
        SharedStack::new()
    }
}

/// Goes through the nodes of a [`SharedStack`], top first, while others may push.
///
/// What is pushed after the cursor was made is not visited.
pub struct Cursor {
    next: usize,
    todo: Ghost<Seq<usize>>,
}

impl Cursor {
    /// The addresses of the nodes that are still to be visited, top first.
    pub closed spec fn todo(&self) -> Seq<usize> {
        self.todo@
    }

    /// The nodes still to be visited are the lowest ones of the stack.
    pub closed spec fn wf<T>(&self, stack: &SharedStack<T>) -> bool {
        &&& self.todo@.len() <= stack.addrs().len()
        &&& self.todo@ == stack.addrs().skip(stack.addrs().len() - self.todo@.len())
        &&& self.next == link(self.todo@, 0)
    }

    /// The values of the nodes that are still to be visited, top first.
    pub open spec fn remaining<T>(&self, stack: &SharedStack<T>) -> Seq<T> {
        stack@.skip(stack@.len() - self.todo().len())
    }

    /// What a visit to the next node of the stack makes of `before`.
    pub open spec fn advanced<T>(
        &self,
        before: &Self,
        stack: &SharedStack<T>,
        item: Option<&T>,
    ) -> bool {
        &&& self.wf(stack)
        &&& match item {
            Some(val) => {
                &&& before.remaining(stack).len() > 0
                &&& *val == before.remaining(stack)[0]
                &&& self.remaining(stack) == before.remaining(stack).drop_first()
            },
            None => before.remaining(stack).len() == 0 && *self == *before,
        }
    }

    /// There is one value for each node that is still to be visited.
    pub proof fn lemma_remaining<T>(&self, stack: &SharedStack<T>)
        requires
            stack.wf(),
            self.wf(stack),
        ensures
            self.remaining(stack).len() == self.todo().len(),
            self.todo().no_duplicates(),
    {
    }

    /// A cursor stays where it is if more nodes come to lie on top of the others.
    pub proof fn lemma_stays<T>(&self, before: &SharedStack<T>, after: &SharedStack<T>)
        requires
            self.wf(before),
            after.addrs().len() >= before.addrs().len(),
            after.addrs().skip(after.addrs().len() - before.addrs().len()) == before.addrs(),
        ensures
            self.wf(after),
    {
        let new = after.addrs().len() - before.addrs().len();
        let seen = before.addrs().len() - self.todo@.len();
        assert(after.addrs().skip(new).skip(seen) =~= after.addrs().skip(new + seen));
    }

    /// What a cursor has still to visit is not changed by pushes.
    pub proof fn lemma_undisturbed<T>(&self, before: &SharedStack<T>, after: &SharedStack<T>)
        requires
            before.wf(),
            after.wf(),
            self.wf(before),
            after.grown_from(before),
        ensures
            self.wf(after),
            self.remaining(after) == self.remaining(before),
    {
        self.lemma_stays(before, after);
        let new = after.addrs().len() - before.addrs().len();
        let seen = before.addrs().len() - self.todo@.len();
        assert(after@.skip(new).skip(seen) =~= after@.skip(new + seen));
    }

    /// The address of the next node, if there is one left.
    pub fn next_node<T>(&mut self, stack: &SharedStack<T>) -> (addr: Option<usize>)
        requires
            stack.wf(),
            old(self).wf(stack),
        ensures
            final(self).wf(stack),
            match addr {
                Some(addr) => {
                    &&& old(self).todo().len() > 0
                    &&& addr == old(self).todo()[0]
                    &&& stack.addrs().contains(addr)
                    &&& stack.addrs().index_of(addr) == stack@.len() - old(self).todo().len()
                    &&& final(self).todo() == old(self).todo().drop_first()
                },
                None => old(self).todo().len() == 0 && *final(self) == *old(self),
            },
    {
        let ghost n = stack.order@.len() - self.todo@.len();
        proof {
            if n < stack.order@.len() {
                stack.lemma_position(n);
                assert(self.todo@[0] == stack.order@[n]);
            }
        }
        if self.next == NULL {
            return None;
        }
        let addr = self.next;
        proof {
            if n + 1 < stack.order@.len() {
                stack.lemma_position(n + 1);
            }
        }
        self.next = stack.nodes.get(addr).next;
        self.todo = Ghost(self.todo@.drop_first());
        proof {
            assert(self.todo@ =~= stack.order@.skip(n + 1));
        }
        Some(addr)
    }

    /// The value of the next node, if there is one left.
    pub fn next<'t, T>(&mut self, stack: &'t SharedStack<T>) -> (item: Option<&'t T>)
        requires
            stack.wf(),
            old(self).wf(stack),
        ensures
            final(self).advanced(old(self), stack, item),
    {
        match self.next_node(stack) {
            Some(addr) => {
                let val = stack.get(addr);
                assert(self.remaining(stack) =~= old(self).remaining(stack).drop_first());
                Some(val)
            },
            None => None,
        }
    }
}

/// An iterator over the values of a [`SharedStack`], top first.
pub struct Iter<'t, T> {
    stack: &'t SharedStack<T>,
    cursor: Cursor,
}

impl<'t, T> Iter<'t, T> {
    /// The iterator stands at a node of a well-formed stack, or below its last.
    pub closed spec fn wf(&self) -> bool {
        self.stack.wf() && self.cursor.wf(self.stack)
    }

    /// The values that are still to come, top first.
    pub closed spec fn remaining(&self) -> Seq<T> {
        self.cursor.remaining(self.stack)
    }

    /// The next value.
    pub fn next(&mut self) -> (item: Option<&'t T>)
        requires
            old(self).wf(),
        ensures
            final(self).wf(),
            match item {
                Some(val) => {
                    &&& old(self).remaining().len() > 0
                    &&& *val == old(self).remaining()[0]
                    &&& final(self).remaining() == old(self).remaining().drop_first()
                },
                None => old(self).remaining().len() == 0 && *final(self) == *old(self),
            },
    {
        self.cursor.next(self.stack)
    }

    /// How many values are still to come.
    pub fn count(self) -> (count: usize)
        requires
            self.wf(),
        ensures
            count == self.remaining().len(),
    {
        let mut iter = self;
        let mut count: usize = 0;
        proof {
            self.stack.lemma_len();
        }
        loop
            invariant
                iter.wf(),
                self.remaining().len() <= usize::MAX,
                count + iter.remaining().len() == self.remaining().len(),
            decreases iter.remaining().len(),
        {
            match iter.next() {
                Some(_) => {
                    count += 1;
                },
                None => {
                    return count;
                },
            }
        }
    }
}

/// An iterator that takes the values off a stack, top first.
pub struct IntoIter<T> {
    stack: SharedStack<T>,
    next: usize,
}

impl<T> IntoIter<T> {
    /// The iterator stands at the top of what is left of the stack.
    pub closed spec fn wf(&self) -> bool {
        self.stack.wf() && self.next == self.stack.top
    }

    /// The values that are still to come, top first.
    pub closed spec fn remaining(&self) -> Seq<T> {
        self.stack@
    }

    /// The next value.
    pub fn next(&mut self) -> (item: Option<T>)
        requires
            old(self).wf(),
        ensures
            final(self).wf(),
            match item {
                Some(val) => {
                    &&& old(self).remaining().len() > 0
                    &&& val == old(self).remaining()[0]
                    &&& final(self).remaining() == old(self).remaining().drop_first()
                },
                None => old(self).remaining().len() == 0 && *final(self) == *old(self),
            },
    {
        proof {
            if self.stack.order@.len() > 0 {
                self.stack.lemma_position(0);
            }
        }
        if self.next == NULL {
            return None;
        }
        let node = self.stack.nodes.remove(self.next);
        self.next = node.next;
        self.stack.top = node.next;
        self.stack.order = Ghost(self.stack.order@.drop_first());
        proof {
            let before = old(self).stack.order@;
            let after = self.stack.order@;
            assert forall|i: int| 0 <= i < after.len() implies {
                &&& self.stack.nodes@.contains_key(after[i])
                &&& (#[trigger] self.stack.nodes@[after[i]]).next == link(after, i + 1)
            } by {
                assert(after[i] == before[i + 1]);
            }
            assert(self.remaining() =~= old(self).remaining().drop_first());
        }
        Some(node.val)
    }
}

} // verus!

//! Why pushes that overlap lose nothing, double nothing and keep the order of each pusher.
//!
//! A [`Pushing`] is a stack together with the pushes that are under way on it. Each [`PushStep`] is a
//! step of one push, as [`SharedStack::begin_push`], [`SharedStack::try_push`] or
//! [`SharedStack::finish_push`] makes it; between two steps of a pusher, any number of steps of others
//! may come.

use vstd::prelude::*;

use crate::stack::{Cursor, Push, SharedStack};

verus! {

/// A step of a push.
pub enum PushStep<T> {
    /// A pusher allocates a node and reads the top of the stack.
    Begin { pusher: nat, val: T, push: Push },
    /// A pusher tries to exchange the top for its node.
    Try { pusher: nat, pushed: Result<usize, Push> },
    /// A pusher whose node is on the stack counts it.
    Finish,
}

/// A stack, and the pushes that are under way on it.
pub struct Pushing<T> {
    /// The stack.
    pub stack: SharedStack<T>,
    /// The push that each pusher has under way, if it has one.
    pub under_way: Map<nat, Push>,
    /// How many pushes have taken effect and were not counted yet.
    pub uncounted: nat,
    /// Every push that was begun, by whom and of what, the latest last.
    pub begun: Seq<(nat, T)>,
    /// Every push that has taken effect, by whom and of what, the latest last.
    pub pushed: Seq<(nat, T)>,
}

/// The values of a log, in its order.
pub open spec fn values_of<T>(log: Seq<(nat, T)>) -> Seq<T> {
    Seq::new(log.len(), |i: int| log[i].1)
}

/// The values that the given pusher has in a log, in its order.
pub open spec fn values_by<T>(log: Seq<(nat, T)>, pusher: nat) -> Seq<T>
    decreases log.len(),
{
    if log.len() == 0 {
        Seq::empty()
    } else if log.last().0 == pusher {
        values_by(log.drop_last(), pusher).push(log.last().1)
    } else {
        values_by(log.drop_last(), pusher)
    }
}

impl<T> Pushing<T> {
    /// No push is under way, and none was begun yet.
    pub open spec fn init(self) -> bool {
        &&& self.stack.wf()
        &&& self.stack.settled()
        &&& self.under_way == Map::<nat, Push>::empty()
        &&& self.uncounted == 0
        &&& self.begun == Seq::<(nat, T)>::empty()
        &&& self.pushed == Seq::<(nat, T)>::empty()
    }

    /// The given step leads to `next`.
    pub open spec fn steps_to(self, step: PushStep<T>, next: Self) -> bool {
        match step {
            PushStep::Begin { pusher, val, push } => {
                &&& !self.under_way.contains_key(pusher)
                &&& next.stack.begun_from(&self.stack, val, push)
                &&& next.under_way == self.under_way.insert(pusher, push)
                &&& next.uncounted == self.uncounted
                &&& next.begun == self.begun.push((pusher, val))
                &&& next.pushed == self.pushed
            },
            PushStep::Try { pusher, pushed } => {
                let push = self.under_way[pusher];
                &&& self.under_way.contains_key(pusher)
                &&& next.stack.tried_from(&self.stack, push, pushed)
                &&& next.begun == self.begun
                &&& match pushed {
                    Ok(_) => {
                        &&& next.under_way == self.under_way.remove(pusher)
                        &&& next.uncounted == self.uncounted + 1
                        &&& next.pushed == self.pushed.push(
                            (pusher, self.stack.pending_val(push)),
                        )
                    },
                    Err(again) => {
                        &&& next.under_way == self.under_way.insert(pusher, again)
                        &&& next.uncounted == self.uncounted
                        &&& next.pushed == self.pushed
                    },
                }
            },
            PushStep::Finish => {
                &&& self.uncounted > 0
                &&& next.stack.finished_from(&self.stack)
                &&& next.under_way == self.under_way
                &&& next.uncounted == self.uncounted - 1
                &&& next.begun == self.begun
                &&& next.pushed == self.pushed
            },
        }
    }

    /// Every push under way has a node of its own.
    pub open spec fn pushes_apart(self) -> bool {
        &&& forall|k: nat| #[trigger]
            self.under_way.contains_key(k) ==> self.stack.pending(self.under_way[k])
        &&& forall|k: nat, l: nat|
            #![trigger self.under_way.contains_key(k), self.under_way.contains_key(l)]
            self.under_way.contains_key(k) && self.under_way.contains_key(l) && k != l
                ==> self.under_way[k].node() != self.under_way[l].node()
    }

    /// What a pusher has begun is what it has pushed, and what it has under way.
    pub open spec fn accounts_for(self, pusher: nat) -> bool {
        values_by(self.begun, pusher) == if self.under_way.contains_key(pusher) {
            values_by(self.pushed, pusher).push(
                self.stack.pending_val(self.under_way[pusher]),
            )
        } else {
            values_by(self.pushed, pusher)
        }
    }

    /// What holds after any number of steps on a stack that held the given values.
    pub open spec fn inv(self, base: Seq<T>) -> bool {
        &&& self.stack.wf()
        &&& self.pushes_apart()
        &&& self.stack.counted() + self.uncounted == self.stack@.len()
        &&& self.stack@ == values_of(self.pushed).reverse() + base
        &&& forall|pusher: nat| #[trigger] self.accounts_for(pusher)
    }
}

/// What one more entry adds to a log.
proof fn lemma_logged<T>(log: Seq<(nat, T)>, entry: (nat, T), pusher: nat)
    ensures
        values_by(log.push(entry), pusher) == if entry.0 == pusher {
            values_by(log, pusher).push(entry.1)
        } else {
            values_by(log, pusher)
        },
        values_of(log.push(entry)) == values_of(log).push(entry.1),
{
    assert(log.push(entry).drop_last() =~= log);
    assert(values_of(log.push(entry)) =~= values_of(log).push(entry.1));
}

/// Every step of every push keeps the invariant.
pub proof fn lemma_push_step<T>(
    before: Pushing<T>,
    step: PushStep<T>,
    after: Pushing<T>,
    base: Seq<T>,
)
    requires
        before.inv(base),
        before.steps_to(step, after),
    ensures
        after.inv(base),
{
    after.stack.lemma_len();
    match step {
        PushStep::Begin { pusher, val, push } => {
            assert forall|k: nat| #[trigger] after.accounts_for(k) by {
                assert(before.accounts_for(k));
                lemma_logged(before.begun, (pusher, val), k);
                if before.under_way.contains_key(k) {
                    assert(before.stack.pending(before.under_way[k]));
                }
            }
        },
        PushStep::Try { pusher, pushed } => {
            let push = before.under_way[pusher];
            let val = before.stack.pending_val(push);
            assert(before.stack.pending(push));
            assert forall|k: nat| #[trigger] after.accounts_for(k) by {
                assert(before.accounts_for(k));
                lemma_logged(before.pushed, (pusher, val), k);
                if before.under_way.contains_key(k) {
                    assert(before.stack.pending(before.under_way[k]));
                }
            }
            if pushed is Ok {
                lemma_logged(before.pushed, (pusher, val), pusher);
                assert(after.stack@ =~= values_of(after.pushed).reverse() + base);
            }
        },
        PushStep::Finish => {
            assert forall|k: nat| #[trigger] after.accounts_for(k) by {
                assert(before.accounts_for(k));
                if before.under_way.contains_key(k) {
                    assert(before.stack.pending(before.under_way[k]));
                }
            }
        },
    }
}

/// The given states come about one after the other, by the given steps.
pub open spec fn is_push_run<T>(states: Seq<Pushing<T>>, steps: Seq<PushStep<T>>) -> bool {
    &&& states.len() == steps.len() + 1
    &&& states[0].init()
    &&& forall|i: int|
        #![trigger steps[i]]
        0 <= i < steps.len() ==> states[i].steps_to(steps[i], states[i + 1])
}

/// Pushes that overlap lose nothing and double nothing: at any time the stack holds what has taken
/// effect, the latest on top, above what it held in the beginning. What each pusher has pushed is what
/// it began to push, in the order in which it did, but for the push that it has under way. Once nothing
/// is under way, everything that was begun is on the stack, and is counted.
pub proof fn lemma_overlapping_pushes<T>(states: Seq<Pushing<T>>, steps: Seq<PushStep<T>>, i: int)
    requires
        is_push_run(states, steps),
        0 <= i < states.len(),
    ensures
        states[i].inv(states[0].stack@),
        states[i].under_way == Map::<nat, Push>::empty() ==> forall|pusher: nat|
            values_by(states[i].begun, pusher) == #[trigger] values_by(states[i].pushed, pusher),
        states[i].uncounted == 0 ==> states[i].stack.counted() == states[i].stack@.len(),
    decreases i,
{
    let base = states[0].stack@;
    if i == 0 {
        assert(values_of(states[0].pushed).reverse() + base =~= base);
        states[0].stack.lemma_settled_count();
    } else {
        lemma_overlapping_pushes(states, steps, i - 1);
        assert(states[i - 1].steps_to(steps[i - 1], states[i]));
        lemma_push_step(states[i - 1], steps[i - 1], states[i], base);
    }
    if states[i].under_way == Map::<nat, Push>::empty() {
        assert forall|pusher: nat|
            values_by(states[i].begun, pusher) == #[trigger] values_by(states[i].pushed, pusher) by {
            assert(states[i].accounts_for(pusher));
        }
    }
}

/// A cursor was made for the first of the given stacks, and went through the values one by one, each on
/// the next of the stacks, while more was pushed in between. In the end there was none left.
pub open spec fn is_iteration<T>(
    stacks: Seq<SharedStack<T>>,
    cursors: Seq<Cursor>,
    items: Seq<T>,
) -> bool {
    &&& stacks.len() == items.len() + 1
    &&& cursors.len() == items.len() + 1
    &&& forall|i: int| 0 <= i < stacks.len() ==> (#[trigger] stacks[i]).wf()
    &&& forall|i: int|
        #![trigger items[i]]
        0 <= i < items.len() ==> stacks[i + 1].grown_from(&stacks[i])
    &&& cursors[0].wf(&stacks[0])
    &&& cursors[0].remaining(&stacks[0]) == stacks[0]@
    &&& forall|i: int|
        #![trigger items[i]]
        0 <= i < items.len() ==> cursors[i + 1].advanced(&cursors[i], &stacks[i], Some(&items[i]))
    &&& cursors.last().advanced(&cursors.last(), &stacks.last(), None)
}

/// How far an iteration has got after `i` values.
proof fn lemma_iterated<T>(
    stacks: Seq<SharedStack<T>>,
    cursors: Seq<Cursor>,
    items: Seq<T>,
    i: int,
)
    requires
        is_iteration(stacks, cursors, items),
        0 <= i <= items.len(),
    ensures
        i <= stacks[0]@.len(),
        cursors[i].wf(&stacks[i]),
        cursors[i].remaining(&stacks[i]) == stacks[0]@.skip(i),
        items.take(i) == stacks[0]@.take(i),
    decreases i,
{
    if i == 0 {
        assert(stacks[0]@.skip(0) =~= stacks[0]@);
        assert(items.take(0) =~= stacks[0]@.take(0));
    } else {
        lemma_iterated(stacks, cursors, items, i - 1);
        let item = items[i - 1];
        assert(cursors[i].advanced(&cursors[i - 1], &stacks[i - 1], Some(&item)));
        assert(stacks[i].wf() && stacks[i - 1].wf());
        cursors[i].lemma_undisturbed(&stacks[i - 1], &stacks[i]);
        assert(stacks[0]@.skip(i - 1).drop_first() =~= stacks[0]@.skip(i));
        assert(items.take(i) =~= items.take(i - 1).push(item));
        assert(stacks[0]@.take(i) =~= stacks[0]@.take(i - 1).push(item));
    }
}

/// To go through a stack gives the values that were on it when that began, top first, each once,
/// whatever is pushed meanwhile.
pub proof fn lemma_iteration_ignores_pushes<T>(
    stacks: Seq<SharedStack<T>>,
    cursors: Seq<Cursor>,
    items: Seq<T>,
)
    requires
        is_iteration(stacks, cursors, items),
    ensures
        items == stacks[0]@,
{
    let n = items.len() as int;
    lemma_iterated(stacks, cursors, items, n);
    assert(items.take(n) =~= items);
    assert(stacks[0]@.skip(n).len() == 0);
    assert(stacks[0]@.take(n) =~= stacks[0]@);
}

} // verus!

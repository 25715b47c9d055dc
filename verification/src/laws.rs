//! What can be relied on, whatever the operations are and in whatever order they come.
//!
//! The operations on a region say in their contracts which [`State`] they lead to. Here is what holds
//! of those states.

use vstd::prelude::*;

use crate::domains::{options_of, Config};
use crate::hazard::may_acquire;
use crate::heap::{DUMMY, NULL};
use crate::linked_list::LinkedList;
use crate::region::State;
use crate::stack::{IntoIter, SharedStack};

verus! {

/// Values are only reclaimed if no hazard pointer holds their address: what a hazard pointer guards
/// is still there after a reclamation, unchanged.
pub proof fn lemma_reclaim_spares_guarded<T>(state: State<T>, id: usize, ptr: usize)
    requires
        state.inv(),
        state.guards(id, ptr),
    ensures
        state.reclaimed().guards(id, ptr),
        state.reclaimed().values[ptr] == state.values[ptr],
{
    assert(state.words.contains_value(ptr));
}

/// A reclamation frees nothing but garbage: it leaves every cell and its value alone.
pub proof fn lemma_reclaim_spares_cells<T>(state: State<T>, cell: usize)
    requires
        state.inv(),
        state.cells.contains_key(cell),
    ensures
        state.reclaimed().cells == state.cells,
        state.reclaimed().values.contains_key(state.cells[cell]),
        state.reclaimed().value_of(cell) == state.value_of(cell),
{
}

/// A reclamation of at least the bulk size frees all the garbage that is not guarded.
pub proof fn lemma_reclaim_is_complete<T>(state: State<T>, ptr: usize)
    requires
        state.inv(),
        state.garbage.len() >= state.bulk_size(),
        state.garbage.contains(ptr),
    ensures
        state.reclaimed().garbage.contains(ptr) == state.words.contains_value(ptr),
        state.reclaimed().values.contains_key(ptr) == state.words.contains_value(ptr),
{
}

/// A reclamation does nothing if there is less garbage than the bulk size, but for going by the config.
pub proof fn lemma_reclaim_below_bulk_size<T>(state: State<T>)
    requires
        state.garbage.len() < state.bulk_size(),
    ensures
        state.reclaimable().len() == 0,
        state.reclaimed() == state.settled(),
{
    assert(state.reclaimed() =~= state.settled());
}

/// The config can be set once, and for everybody: whoever goes by it before having a config of their
/// own has the same options as all the others that do, whether it was set or not.
pub proof fn lemma_one_config<T, U>(first: State<T>, second: State<U>, global: Option<Config>)
    requires
        first.config is None,
        second.config is None,
    ensures
        first.went_by(global).options() == options_of(global),
        second.went_by(Some(options_of(global))).options() == options_of(global),
        global is Some ==> first.went_by(global).config == global,
{
}

/// A config stays what it is once somebody went by it.
pub proof fn lemma_config_stays<T>(state: State<T>, global: Option<Config>)
    ensures
        state.settled().config == Some(state.options()),
        state.settled().settled() == state.settled(),
        state.settled().went_by(global) == state.settled(),
        state.reclaimed().config == state.settled().config,
{
}

/// Every retired value is either freed by a reclamation, and counted as such, or remains.
pub proof fn lemma_reclaim_counts<T>(state: State<T>)
    requires
        state.inv(),
    ensures
        state.reclaimable().len() + state.reclaimed().garbage.len() == state.garbage.len(),
{
    let freed = state.reclaimable();
    let kept = state.reclaimed().garbage;
    assert(freed.subset_of(state.garbage));
    vstd::set_lib::lemma_set_subset_finite(state.garbage, freed);
    vstd::set_lib::lemma_set_disjoint_lens(freed, kept);
    assert(freed.union(kept) =~= state.garbage);
}

/// A second reclamation right after the first has nothing left to free.
pub proof fn lemma_reclaim_twice<T>(state: State<T>)
    requires
        state.inv(),
    ensures
        state.reclaimed().reclaimable().len() == 0,
        state.reclaimed().reclaimed() == state.reclaimed(),
{
    if state.garbage.len() < state.bulk_size() {
        lemma_reclaim_below_bulk_size(state);
    }
    assert(state.reclaimed().reclaimable() =~= Set::<usize>::empty());
    assert(state.reclaimed().reclaimed() =~= state.reclaimed());
}

/// Once nobody reads, a reclamation of at least the bulk size leaves no garbage.
pub proof fn lemma_unguarded_garbage_goes<T>(state: State<T>)
    requires
        state.inv(),
        state.garbage.len() >= state.bulk_size(),
        forall|id: usize|
            #[trigger] state.words.contains_key(id) ==> state.words[id] == NULL || state.words[id]
                == DUMMY,
    ensures
        state.reclaimed().garbage == Set::<usize>::empty(),
        state.reclaimable().len() == state.garbage.len(),
{
    assert forall|ptr: usize| state.garbage.contains(ptr) implies !state.words.contains_value(
        ptr,
    ) by {
        assert(state.values.contains_key(ptr));
    }
    assert(state.reclaimed().garbage =~= Set::<usize>::empty());
    assert(state.reclaimable() =~= state.garbage);
}

/// Setting a cell gives it the new value, and gives nothing to any other cell.
pub proof fn lemma_set_changes_one_cell<T>(
    state: State<T>,
    cell: usize,
    ptr: usize,
    value: T,
    other: usize,
)
    requires
        state.inv(),
        state.cells.contains_key(cell),
        state.cells.contains_key(other),
        other != cell,
        !state.values.contains_key(ptr),
        ptr != NULL,
        ptr != DUMMY,
    ensures
        state.replaced(cell, ptr, value).inv(),
        state.replaced(cell, ptr, value).value_of(cell) == value,
        state.replaced(cell, ptr, value).value_of(other) == state.value_of(other),
        state.replaced(cell, ptr, value).reclaimed().value_of(cell) == value,
        state.replaced(cell, ptr, value).reclaimed().value_of(other) == state.value_of(other),
{
    let next = state.replaced(cell, ptr, value);
    assert(next.inv());
    lemma_reclaim_spares_cells(next, cell);
    lemma_reclaim_spares_cells(next, other);
}

/// A handle leads to the value as it was when it was read: setting the cell, with or without
/// reclaiming memory, neither frees nor changes what a hazard pointer guards.
pub proof fn lemma_handle_outlives_set<T>(
    state: State<T>,
    cell: usize,
    ptr: usize,
    value: T,
    id: usize,
    read: usize,
)
    requires
        state.inv(),
        state.cells.contains_key(cell),
        !state.values.contains_key(ptr),
        ptr != NULL,
        ptr != DUMMY,
        state.guards(id, read),
    ensures
        state.replaced(cell, ptr, value).guards(id, read),
        state.replaced(cell, ptr, value).values[read] == state.values[read],
        state.replaced(cell, ptr, value).reclaimed().guards(id, read),
        state.replaced(cell, ptr, value).reclaimed().values[read] == state.values[read],
{
    let next = state.replaced(cell, ptr, value);
    assert(next.inv());
    lemma_reclaim_spares_guarded(next, id, read);
}

/// A hazard pointer that is handed out guards nothing: what the others guard stays guarded, whatever
/// is stored in it.
pub proof fn lemma_acquired_is_unused<T>(
    state: State<T>,
    id: usize,
    held: usize,
    other: usize,
    ptr: usize,
)
    requires
        state.inv(),
        may_acquire(state.words, id),
        state.guards(other, ptr),
    ensures
        other != id,
        state.held(id, held).guards(other, ptr),
{
}

/// Hazard pointers are reused: there are more of them after one was handed out only if none was
/// available.
pub proof fn lemma_hazard_pointers_are_reused<T>(state: State<T>, id: usize)
    requires
        may_acquire(state.words, id),
        state.words.dom().finite(),
    ensures
        state.words.contains_value(NULL) ==> state.held(id, DUMMY).words.dom() == state.words.dom(),
        !state.words.contains_value(NULL) ==> state.held(id, DUMMY).words.len() == state.words.len()
            + 1,
{
    if state.words.contains_value(NULL) {
        assert(state.held(id, DUMMY).words.dom() =~= state.words.dom());
    } else {
        assert(state.held(id, DUMMY).words.dom() =~= state.words.dom().insert(id));
    }
}

/// A hazard pointer that was given up is available to the next one who wants one.
pub proof fn lemma_released_is_available<T>(state: State<T>, id: usize)
    ensures
        state.held(id, NULL).words.contains_value(NULL),
{
    assert(state.held(id, NULL).words.contains_key(id));
}

/// No value gets lost: with a new cell, a new value in a cell, or a reclamation, every value is still
/// held by a cell or is garbage.
pub proof fn lemma_nothing_leaks<T>(state: State<T>, cell: usize, ptr: usize, value: T)
    requires
        state.inv(),
        state.no_leaks(),
        !state.values.contains_key(ptr),
    ensures
        state.cells.contains_key(cell) ==> state.replaced(cell, ptr, value).no_leaks(),
        !state.cells.contains_key(cell) ==> state.allocated(ptr, value).written(
            cell,
            ptr,
        ).no_leaks(),
        state.reclaimed().no_leaks(),
{
    if state.cells.contains_key(cell) {
        let next = state.replaced(cell, ptr, value);
        assert forall|p: usize| #[trigger] next.values.contains_key(p) implies next.garbage.contains(
            p,
        ) || next.cells.contains_value(p) by {
            if p == ptr {
                assert(next.cells.contains_key(cell));
            } else if state.cells.contains_value(p) && p != state.cells[cell] {
                let c = choose|c: usize| #[trigger]
                    state.cells.contains_key(c) && state.cells[c] == p;
                assert(next.cells.contains_key(c) && next.cells[c] == p);
            }
        }
    } else {
        let next = state.allocated(ptr, value).written(cell, ptr);
        assert forall|p: usize| #[trigger] next.values.contains_key(p) implies next.garbage.contains(
            p,
        ) || next.cells.contains_value(p) by {
            if p == ptr {
                assert(next.cells.contains_key(cell));
            } else if state.cells.contains_value(p) {
                let c = choose|c: usize| #[trigger]
                    state.cells.contains_key(c) && state.cells[c] == p;
                assert(next.cells.contains_key(c) && next.cells[c] == p);
            }
        }
    }
}

/// When a region is taken apart, what is left of the values is what the cells hold.
pub proof fn lemma_cells_are_left<T>(state: State<T>, ptr: usize)
    requires
        state.inv(),
        state.no_leaks(),
    ensures
        state.values.remove_keys(state.garbage).contains_key(ptr) == state.cells.contains_value(ptr),
{
    if state.cells.contains_value(ptr) {
        let cell = choose|cell: usize| #[trigger]
            state.cells.contains_key(cell) && state.cells[cell] == ptr;
        assert(state.values.contains_key(state.cells[cell]));
    }
}

/// What was added to a list last at one end comes off first at that end, and leaves the list with the
/// values and the nodes that it had.
pub proof fn lemma_push_then_pop<T>(
    before: LinkedList<T>,
    pushed: LinkedList<T>,
    after: LinkedList<T>,
    value: T,
    popped: Option<T>,
)
    requires
        before.wf(),
        ({
            ||| pushed.pushed_back_from(&before, value) && after.popped_back_from(&pushed, popped)
            ||| pushed.pushed_front_from(&before, value) && after.popped_front_from(
                &pushed,
                popped,
            )
        }),
    ensures
        popped == Some(value),
        after@ == before@,
        after.addrs() == before.addrs(),
{
    assert(before@.push(value).drop_last() =~= before@);
    assert((seq![value] + before@).drop_first() =~= before@);
}

/// A list is a queue: a value that was added at the back comes off the front after all those that were
/// there before it.
pub proof fn lemma_first_in_first_out<T>(
    before: LinkedList<T>,
    pushed: LinkedList<T>,
    after: LinkedList<T>,
    value: T,
    popped: Option<T>,
)
    requires
        before.wf(),
        pushed.pushed_back_from(&before, value),
        after.popped_front_from(&pushed, popped),
    ensures
        before@.len() > 0 ==> popped == Some(before@[0]) && after@ == before@.drop_first().push(
            value,
        ),
        before@.len() == 0 ==> popped == Some(value) && after@.len() == 0,
{
    if before@.len() > 0 {
        assert(before@.push(value).drop_first() =~= before@.drop_first().push(value));
    }
}

/// A stack gives back what was pushed to it in reverse, so a stack of what another stack gave back
/// gives back the values in the order in which they were pushed to the first one.
pub proof fn lemma_stack_reverses<T>(
    values: Seq<T>,
    first: SharedStack<T>,
    second: SharedStack<T>,
    iter: IntoIter<T>,
)
    requires
        first@ == values.reverse(),
        second@ == first@.reverse(),
        iter.remaining() == second@,
    ensures
        iter.remaining() == values,
{
    assert(values.reverse().reverse() =~= values);
}

} // verus!

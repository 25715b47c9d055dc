//! The operations are made of steps.
//!
//! The contracts of the operations on cells, readers and handles say what becomes of the state of a
//! region when nobody comes in between. Each of them also says, by [`takes_steps`], that this is one
//! outcome of a sequence of steps of [`interleaving`](crate::interleaving): whatever else is under way
//! in the region, the steps of the operation lead there, and the steps of others may come in between
//! of them. What is proved of all steps is thereby proved of all operations.

use vstd::prelude::*;

use crate::hazard::Action;
use crate::heap::{DUMMY, NULL};
use crate::interleaving::{is_path, lemma_step, Step, Task, World};
use crate::region::State;

verus! {

/// In whatever world a party is at `from` in a region with the state `before`, steps of that party
/// alone can take the region to the state `after` and the party to `to`.
pub open spec fn takes_steps<T>(
    before: State<T>,
    from: Option<Task>,
    after: State<T>,
    to: Option<Task>,
) -> bool {
    forall|world: World<T>, task: nat|
        #![trigger world.turned(after, task, to)]
        world.inv() && world.state == before && world.is_at(task, from) ==> world.reaches(
            world.turned(after, task, to),
        )
}

/// A path keeps the invariant.
pub proof fn lemma_path<T>(worlds: Seq<World<T>>, steps: Seq<Step<T>>, i: int)
    requires
        is_path(worlds, steps),
        worlds[0].inv(),
        0 <= i < worlds.len(),
    ensures
        worlds[i].inv(),
    decreases i,
{
    if i > 0 {
        lemma_path(worlds, steps, i - 1);
        assert(worlds[i - 1].steps_to(steps[i - 1], worlds[i]));
        lemma_step(worlds[i - 1], steps[i - 1], worlds[i]);
    }
}

/// Whatever is reached keeps the invariant, so that everybody's reads are safe there.
pub proof fn lemma_reached<T>(world: World<T>, next: World<T>)
    requires
        world.inv(),
        world.reaches(next),
    ensures
        next.inv(),
{
    let (worlds, steps) = choose|worlds: Seq<World<T>>, steps: Seq<Step<T>>| #[trigger]
        is_path(worlds, steps) && worlds[0] == world && worlds.last() == next;
    lemma_path(worlds, steps, worlds.len() - 1);
}

/// Whatever an operation does takes place by steps, so that it leaves the others with what they take for
/// granted: what they read is there, and is guarded by their hazard pointers.
pub proof fn lemma_operations_are_safe<T>(
    before: State<T>,
    from: Option<Task>,
    after: State<T>,
    to: Option<Task>,
    world: World<T>,
    task: nat,
    other: nat,
)
    requires
        takes_steps(before, from, after, to),
        world.inv(),
        world.state == before,
        world.is_at(task, from),
        other != task,
        world.tasks.contains_key(other),
        world.tasks[other] is Reading,
    ensures
        after.inv(),
        after.words.contains_key(world.tasks[other]->Reading_id),
        after.words[world.tasks[other]->Reading_id] == world.tasks[other]->Reading_ptr,
        after.values.contains_key(world.tasks[other]->Reading_ptr),
{
    let next = world.turned(after, task, to);
    lemma_reached(world, next);
    assert(next.tasks.contains_key(other) && next.tasks[other] == world.tasks[other]);
}

/// One path after another is a path.
proof fn lemma_reaches_on<T>(world: World<T>, between: World<T>, next: World<T>)
    requires
        world.reaches(between),
        between.reaches(next),
    ensures
        world.reaches(next),
{
    let (worlds, steps) = choose|worlds: Seq<World<T>>, steps: Seq<Step<T>>| #[trigger]
        is_path(worlds, steps) && worlds[0] == world && worlds.last() == between;
    let (more, further) = choose|worlds: Seq<World<T>>, steps: Seq<Step<T>>| #[trigger]
        is_path(worlds, steps) && worlds[0] == between && worlds.last() == next;
    let all = worlds + more.drop_first();
    let both = steps + further;
    assert forall|i: int| #![trigger both[i]] 0 <= i < both.len() implies all[i].steps_to(
        both[i],
        all[i + 1],
    ) by {
        if i < steps.len() {
            assert(worlds[i].steps_to(steps[i], worlds[i + 1]));
        } else {
            let j = i - steps.len();
            assert(more[j].steps_to(further[j], more[j + 1]));
        }
    }
    assert(is_path(all, both));
    assert(all[0] == world);
    assert(all.last() == next);
}

/// A single step is a path, and so is none.
proof fn lemma_reaches_step<T>(world: World<T>, step: Step<T>, next: World<T>)
    ensures
        world.reaches(world),
        world.steps_to(step, next) ==> world.reaches(next),
{
    let none = Seq::<Step<T>>::empty();
    assert(is_path(seq![world], none));
    assert(seq![world].last() == world);
    if world.steps_to(step, next) {
        let worlds = seq![world, next];
        assert(is_path(worlds, seq![step]));
        assert(worlds.last() == next);
    }
}

/// What takes steps and then steps again takes steps.
pub proof fn lemma_takes_more_steps<T>(
    before: State<T>,
    from: Option<Task>,
    between: State<T>,
    by: Option<Task>,
    after: State<T>,
    to: Option<Task>,
)
    requires
        takes_steps(before, from, between, by),
        takes_steps(between, by, after, to),
    ensures
        takes_steps(before, from, after, to),
{
    assert forall|world: World<T>, task: nat|
        #![trigger world.turned(after, task, to)]
        world.inv() && world.state == before && world.is_at(
            task,
            from,
        ) implies world.reaches(world.turned(after, task, to)) by {
        let halfway = world.turned(between, task, by);
        assert(world.reaches(halfway));
        lemma_reached(world, halfway);
        assert(halfway.turned(after, task, to).tasks =~= world.turned(after, task, to).tasks);
        assert(halfway.reaches(halfway.turned(after, task, to)));
        lemma_reaches_on(world, halfway, world.turned(after, task, to));
    }
}

/// To get a hazard pointer is a step.
pub proof fn lemma_acquire_takes_steps<T>(before: State<T>, id: usize)
    requires
        before.words.contains_key(id) ==> before.words[id] == NULL,
    ensures
        takes_steps(before, None, before.held(id, DUMMY), Some(Task::Owner { id })),
{
    let after = before.held(id, DUMMY);
    let to = Some(Task::Owner { id });
    assert forall|world: World<T>, task: nat|
        #![trigger world.turned(after, task, to)]
        world.inv() && world.state == before && world.is_at(
            task,
            None,
        ) implies world.reaches(world.turned(after, task, to)) by {
        lemma_reaches_step(world, Step::Acquire { task, id }, world.turned(after, task, to));
    }
}

/// To load the address held by a cell is a step.
pub proof fn lemma_load_takes_steps<T>(before: State<T>, cell: usize, id: usize)
    requires
        before.cells.contains_key(cell),
    ensures
        takes_steps(
            before,
            Some(Task::Owner { id }),
            before,
            Some(Task::Loaded { cell, id, ptr: before.cells[cell] }),
        ),
{
    let to = Some(Task::Loaded { cell, id, ptr: before.cells[cell] });
    assert forall|world: World<T>, task: nat|
        #![trigger world.turned(before, task, to)]
        world.inv() && world.state == before && world.is_at(
            task,
            Some(Task::Owner { id }),
        ) implies world.reaches(world.turned(before, task, to)) by {
        lemma_reaches_step(world, Step::Load { task, cell }, world.turned(before, task, to));
    }
}

/// To store the address that was loaded in the hazard pointer is a step.
pub proof fn lemma_protect_takes_steps<T>(before: State<T>, cell: usize, id: usize, ptr: usize)
    ensures
        takes_steps(
            before,
            Some(Task::Loaded { cell, id, ptr }),
            before.held(id, ptr),
            Some(Task::Protected { cell, id, ptr }),
        ),
{
    let after = before.held(id, ptr);
    let to = Some(Task::Protected { cell, id, ptr });
    assert forall|world: World<T>, task: nat|
        #![trigger world.turned(after, task, to)]
        world.inv() && world.state == before && world.is_at(
            task,
            Some(Task::Loaded { cell, id, ptr }),
        ) implies world.reaches(world.turned(after, task, to)) by {
        lemma_reaches_step(world, Step::Protect { task }, world.turned(after, task, to));
    }
}

/// To compare what was loaded with what the cell holds now is a step.
pub proof fn lemma_validate_takes_steps<T>(
    before: State<T>,
    cell: usize,
    id: usize,
    ptr: usize,
    action: Action,
)
    requires
        before.cells.contains_key(cell),
    ensures
        takes_steps(
            before,
            Some(Task::Protected { cell, id, ptr }),
            before,
            Some(
                if before.cells[cell] == ptr {
                    Task::Reading { id, ptr, action }
                } else {
                    Task::Loaded { cell, id, ptr: before.cells[cell] }
                },
            ),
        ),
{
    let to = Some(
        if before.cells[cell] == ptr {
            Task::Reading { id, ptr, action }
        } else {
            Task::Loaded { cell, id, ptr: before.cells[cell] }
        },
    );
    assert forall|world: World<T>, task: nat|
        #![trigger world.turned(before, task, to)]
        world.inv() && world.state == before && world.is_at(
            task,
            Some(Task::Protected { cell, id, ptr }),
        ) implies world.reaches(world.turned(before, task, to)) by {
        lemma_reaches_step(
            world,
            Step::Validate { task, action },
            world.turned(before, task, to),
        );
    }
}

/// To read the value of a cell takes three steps if nobody comes in between.
pub proof fn lemma_read_takes_steps<T>(before: State<T>, cell: usize, id: usize, action: Action)
    requires
        before.cells.contains_key(cell),
    ensures
        takes_steps(
            before,
            Some(Task::Owner { id }),
            before.held(id, before.cells[cell]),
            Some(Task::Reading { id, ptr: before.cells[cell], action }),
        ),
{
    let ptr = before.cells[cell];
    let owner = Some(Task::Owner { id });
    let loaded = Some(Task::Loaded { cell, id, ptr });
    let protected = Some(Task::Protected { cell, id, ptr });
    let after = before.held(id, ptr);
    lemma_load_takes_steps(before, cell, id);
    lemma_protect_takes_steps(before, cell, id, ptr);
    lemma_takes_more_steps(before, owner, before, loaded, after, protected);
    lemma_validate_takes_steps(after, cell, id, ptr, action);
    lemma_takes_more_steps(
        before,
        owner,
        after,
        protected,
        after,
        Some(Task::Reading { id, ptr, action }),
    );
}

/// To be done with a value that was read is a step.
pub proof fn lemma_done_takes_steps<T>(before: State<T>, id: usize, ptr: usize)
    ensures
        takes_steps(
            before,
            Some(Task::Reading { id, ptr, action: Action::Reset }),
            before.held(id, DUMMY),
            Some(Task::Owner { id }),
        ),
        takes_steps(
            before,
            Some(Task::Reading { id, ptr, action: Action::Release }),
            before.held(id, NULL),
            None,
        ),
{
    let to = Some(Task::Owner { id });
    assert forall|world: World<T>, task: nat|
        #![trigger world.turned(before.held(id, DUMMY), task, to)]
        world.inv() && world.state == before && world.is_at(
            task,
            Some(Task::Reading { id, ptr, action: Action::Reset }),
        ) implies world.reaches(world.turned(before.held(id, DUMMY), task, to)) by {
        lemma_reaches_step(
            world,
            Step::Done { task },
            world.turned(before.held(id, DUMMY), task, to),
        );
    }
    assert forall|world: World<T>, task: nat|
        #![trigger world.turned(before.held(id, NULL), task, None)]
        world.inv() && world.state == before && world.is_at(
            task,
            Some(Task::Reading { id, ptr, action: Action::Release }),
        ) implies world.reaches(world.turned(before.held(id, NULL), task, None)) by {
        lemma_reaches_step(
            world,
            Step::Done { task },
            world.turned(before.held(id, NULL), task, None),
        );
    }
}

/// To give a hazard pointer up is a step.
pub proof fn lemma_release_takes_steps<T>(before: State<T>, id: usize)
    ensures
        takes_steps(before, Some(Task::Owner { id }), before.held(id, NULL), None),
{
    let after = before.held(id, NULL);
    assert forall|world: World<T>, task: nat|
        #![trigger world.turned(after, task, None)]
        world.inv() && world.state == before && world.is_at(
            task,
            Some(Task::Owner { id }),
        ) implies world.reaches(world.turned(after, task, None)) by {
        lemma_reaches_step(world, Step::Release { task }, world.turned(after, task, None));
    }
}

/// To allocate a value and swap out that of a cell for it takes two steps.
pub proof fn lemma_swap_takes_steps<T>(before: State<T>, cell: usize, ptr: usize, value: T)
    requires
        before.cells.contains_key(cell),
        !before.values.contains_key(ptr),
        ptr != NULL,
        ptr != DUMMY,
    ensures
        takes_steps(
            before,
            None,
            before.allocated(ptr, value).written(cell, ptr),
            Some(Task::Private { ptr: before.cells[cell] }),
        ),
{
    let between = before.allocated(ptr, value);
    let by = Some(Task::Private { ptr });
    let after = between.written(cell, ptr);
    let to = Some(Task::Private { ptr: before.cells[cell] });
    assert forall|world: World<T>, task: nat|
        #![trigger world.turned(between, task, by)]
        world.inv() && world.state == before && world.is_at(
            task,
            None,
        ) implies world.reaches(world.turned(between, task, by)) by {
        lemma_reaches_step(
            world,
            Step::Allocate { task, ptr, value },
            world.turned(between, task, by),
        );
    }
    assert forall|world: World<T>, task: nat|
        #![trigger world.turned(after, task, to)]
        world.inv() && world.state == between && world.is_at(
            task,
            by,
        ) implies world.reaches(world.turned(after, task, to)) by {
        lemma_reaches_step(world, Step::Swap { task, cell }, world.turned(after, task, to));
    }
    lemma_takes_more_steps(before, None, between, by, after, to);
}

/// To retire a value that was swapped out is a step.
pub proof fn lemma_retire_takes_steps<T>(before: State<T>, ptr: usize)
    ensures
        takes_steps(before, Some(Task::Private { ptr }), before.retired(ptr), None),
{
    let after = before.retired(ptr);
    assert forall|world: World<T>, task: nat|
        #![trigger world.turned(after, task, None)]
        world.inv() && world.state == before && world.is_at(
            task,
            Some(Task::Private { ptr }),
        ) implies world.reaches(world.turned(after, task, None)) by {
        lemma_reaches_step(world, Step::Retire { task }, world.turned(after, task, None));
    }
}

/// To set a cell without reclaiming memory takes steps that others may come in between of.
pub proof fn lemma_just_set_takes_steps<T>(before: State<T>, cell: usize, ptr: usize, value: T)
    requires
        before.cells.contains_key(cell),
        !before.values.contains_key(ptr),
        ptr != NULL,
        ptr != DUMMY,
    ensures
        takes_steps(before, None, before.replaced(cell, ptr, value), None),
{
    let between = before.allocated(ptr, value).written(cell, ptr);
    let old_ptr = before.cells[cell];
    lemma_swap_takes_steps(before, cell, ptr, value);
    lemma_retire_takes_steps(between, old_ptr);
    lemma_takes_more_steps(
        before,
        None,
        between,
        Some(Task::Private { ptr: old_ptr }),
        before.replaced(cell, ptr, value),
        None,
    );
}

/// To look at the hazard pointers that are left takes a step for each.
proof fn lemma_scan_takes_steps<T>(
    before: State<T>,
    taken: Set<usize>,
    todo: Set<usize>,
    seen: Set<usize>,
    all: Set<usize>,
)
    requires
        todo.finite(),
        forall|addr: usize| #[trigger]
            all.contains(addr) <==> seen.contains(addr) || exists|id: usize| #[trigger]
                todo.contains(id) && before.words[id] == addr,
    ensures
        takes_steps(
            before,
            Some(Task::Reclaiming { taken, todo, seen }),
            before,
            Some(Task::Reclaiming { taken, todo: Set::empty(), seen: all }),
        ),
    decreases todo.len(),
{
    let from = Some(Task::Reclaiming { taken, todo, seen });
    let to = Some(Task::Reclaiming { taken, todo: Set::empty(), seen: all });
    if todo.len() == 0 {
        assert(todo =~= Set::empty());
        assert(seen =~= all);
        assert forall|world: World<T>, task: nat|
            #![trigger world.turned(before, task, to)]
            world.inv() && world.state == before && world.is_at(
                task,
                from,
            ) implies world.reaches(world.turned(before, task, to)) by {
            assert(world.turned(before, task, to).tasks =~= world.tasks);
            lemma_reaches_step(world, Step::Take { task }, world);
        }
    } else {
        let id = todo.choose();
        let word = before.words[id];
        let next_todo = todo.remove(id);
        let next_seen = seen.insert(word);
        let by = Some(Task::Reclaiming { taken, todo: next_todo, seen: next_seen });
        assert forall|world: World<T>, task: nat|
            #![trigger world.turned(before, task, by)]
            world.inv() && world.state == before && world.is_at(
                task,
                from,
            ) implies world.reaches(world.turned(before, task, by)) by {
            lemma_reaches_step(world, Step::Scan { task, id }, world.turned(before, task, by));
        }
        assert forall|addr: usize| #[trigger]
            all.contains(addr) <==> next_seen.contains(addr) || exists|other: usize| #[trigger]
                next_todo.contains(other) && before.words[other] == addr by {
            if all.contains(addr) && !next_seen.contains(addr) {
                let other = choose|other: usize| #[trigger]
                    todo.contains(other) && before.words[other] == addr;
                assert(next_todo.contains(other));
            }
            if addr == word {
                assert(todo.contains(id));
            }
        }
        lemma_scan_takes_steps(before, taken, next_todo, next_seen, all);
        lemma_takes_more_steps(before, from, before, by, before, to);
    }
}

/// To free what was taken and is not guarded takes a step for each value.
proof fn lemma_sweep_takes_steps<T>(
    before: State<T>,
    taken: Set<usize>,
    seen: Set<usize>,
    gone: Set<usize>,
)
    requires
        gone.finite(),
        gone == taken.difference(seen),
    ensures
        takes_steps(
            before,
            Some(Task::Reclaiming { taken, todo: Set::empty(), seen }),
            State { values: before.values.remove_keys(gone), ..before },
            Some(Task::Reclaiming { taken: taken.difference(gone), todo: Set::empty(), seen }),
        ),
    decreases gone.len(),
{
    let from = Some(Task::Reclaiming { taken, todo: Set::empty(), seen });
    let after = State { values: before.values.remove_keys(gone), ..before };
    let to = Some(
        Task::Reclaiming { taken: taken.difference(gone), todo: Set::empty(), seen },
    );
    if gone.len() == 0 {
        assert(gone =~= Set::empty());
        assert(taken.difference(gone) =~= taken);
        assert(after =~= before);
        assert forall|world: World<T>, task: nat|
            #![trigger world.turned(after, task, to)]
            world.inv() && world.state == before && world.is_at(
                task,
                from,
            ) implies world.reaches(world.turned(after, task, to)) by {
            assert(world.turned(after, task, to).tasks =~= world.tasks);
            lemma_reaches_step(world, Step::Take { task }, world);
        }
    } else {
        let ptr = gone.choose();
        let between = State { values: before.values.remove(ptr), ..before };
        let rest = gone.remove(ptr);
        let by = Some(Task::Reclaiming { taken: taken.remove(ptr), todo: Set::empty(), seen });
        assert forall|world: World<T>, task: nat|
            #![trigger world.turned(between, task, by)]
            world.inv() && world.state == before && world.is_at(
                task,
                from,
            ) implies world.reaches(world.turned(between, task, by)) by {
            lemma_reaches_step(world, Step::Sweep { task, ptr }, world.turned(between, task, by));
        }
        assert(rest =~= taken.remove(ptr).difference(seen));
        lemma_sweep_takes_steps(between, taken.remove(ptr), seen, rest);
        assert(taken.remove(ptr).difference(rest) =~= taken.difference(gone));
        assert(between.values.remove_keys(rest) =~= before.values.remove_keys(gone));
        lemma_takes_more_steps(before, from, between, by, after, to);
    }
}

/// To reclaim memory takes steps that others may come in between of.
pub proof fn lemma_reclaim_takes_steps<T>(before: State<T>)
    requires
        before.inv(),
        before.words.dom().finite(),
    ensures
        takes_steps(before, None, before.reclaimed(), None),
{
    let garbage = before.garbage;
    let first = State { garbage: Set::empty(), ..before };
    let taken = first.settled();
    let by = Some(Task::Taken { taken: garbage });
    let after = before.reclaimed();
    assert forall|world: World<T>, task: nat|
        #![trigger world.turned(first, task, by)]
        world.inv() && world.state == before && world.is_at(
            task,
            None,
        ) implies world.reaches(world.turned(first, task, by)) by {
        lemma_reaches_step(world, Step::Take { task }, world.turned(first, task, by));
    }
    assert forall|world: World<T>, task: nat|
        #![trigger world.turned(taken, task, by)]
        world.inv() && world.state == first && world.is_at(
            task,
            by,
        ) implies world.reaches(world.turned(taken, task, by)) by {
        lemma_reaches_step(world, Step::Weigh { task }, world.turned(taken, task, by));
    }
    lemma_takes_more_steps(before, None, first, by, taken, by);
    if garbage.len() < before.bulk_size() {
        assert(garbage.union(Set::empty()) =~= garbage);
        assert(after =~= before.settled());
        assert forall|world: World<T>, task: nat|
            #![trigger world.turned(after, task, None)]
            world.inv() && world.state == taken && world.is_at(
                task,
                by,
            ) implies world.reaches(world.turned(after, task, None)) by {
            lemma_reaches_step(world, Step::PutBack { task }, world.turned(after, task, None));
        }
        lemma_takes_more_steps(before, None, taken, by, after, None);
    } else {
        let all = before.words.values();
        let freed = before.reclaimable();
        let begun = Some(
            Task::Reclaiming { taken: garbage, todo: before.words.dom(), seen: Set::empty() },
        );
        let scanned = Some(
            Task::Reclaiming { taken: garbage, todo: Set::empty(), seen: all },
        );
        let swept = Some(
            Task::Reclaiming { taken: garbage.difference(freed), todo: Set::empty(), seen: all },
        );
        let rest = State { values: before.values.remove_keys(freed), ..taken };
        assert forall|world: World<T>, task: nat|
            #![trigger world.turned(taken, task, begun)]
            world.inv() && world.state == taken && world.is_at(
                task,
                by,
            ) implies world.reaches(world.turned(taken, task, begun)) by {
            lemma_reaches_step(world, Step::BeginScan { task }, world.turned(taken, task, begun));
        }
        assert forall|addr: usize| #[trigger]
            all.contains(addr) <==> Set::<usize>::empty().contains(addr) || exists|id: usize|
                #[trigger] before.words.dom().contains(id) && taken.words[id] == addr by {
            if all.contains(addr) {
                let id = choose|id: usize| #[trigger]
                    before.words.dom().contains(id) && before.words[id] == addr;
            }
        }
        lemma_scan_takes_steps(taken, garbage, before.words.dom(), Set::empty(), all);
        vstd::set_lib::lemma_set_subset_finite(garbage, freed);
        assert(freed =~= garbage.difference(all)) by {
            assert forall|addr: usize| all.contains(addr) <==> before.words.contains_value(
                addr,
            ) by {}
        }
        lemma_sweep_takes_steps(taken, garbage, all, freed);
        assert forall|world: World<T>, task: nat|
            #![trigger world.turned(after, task, None)]
            world.inv() && world.state == rest && world.is_at(
                task,
                swept,
            ) implies world.reaches(world.turned(after, task, None)) by {
            assert(garbage.difference(freed).union(Set::empty()) =~= after.garbage);
            lemma_reaches_step(world, Step::PutBack { task }, world.turned(after, task, None));
        }
        lemma_takes_more_steps(before, None, taken, by, taken, begun);
        lemma_takes_more_steps(before, None, taken, begun, taken, scanned);
        lemma_takes_more_steps(before, None, taken, scanned, rest, swept);
        lemma_takes_more_steps(before, None, rest, swept, after, None);
    }
}

/// To take a cell apart and free its value, which nobody reads, takes two steps.
pub proof fn lemma_drop_takes_steps<T>(before: State<T>, cell: usize)
    requires
        before.cells.contains_key(cell),
        !before.words.contains_value(before.cells[cell]),
    ensures
        takes_steps(
            before,
            None,
            State {
                values: before.values.remove(before.cells[cell]),
                cells: before.cells.remove(cell),
                ..before
            },
            None,
        ),
{
    let ptr = before.cells[cell];
    let between = State { cells: before.cells.remove(cell), ..before };
    let by = Some(Task::Private { ptr });
    let after = State { values: before.values.remove(ptr), ..between };
    assert forall|world: World<T>, task: nat|
        #![trigger world.turned(between, task, by)]
        world.inv() && world.state == before && world.is_at(
            task,
            None,
        ) implies world.reaches(world.turned(between, task, by)) by {
        lemma_reaches_step(
            world,
            Step::RemoveCell { task, cell },
            world.turned(between, task, by),
        );
    }
    assert forall|world: World<T>, task: nat|
        #![trigger world.turned(after, task, None)]
        world.inv() && world.state == between && world.is_at(
            task,
            by,
        ) implies world.reaches(world.turned(after, task, None)) by {
        lemma_reaches_step(world, Step::Free { task }, world.turned(after, task, None));
    }
    lemma_takes_more_steps(before, None, between, by, after, None);
}

/// To set a cell takes steps that others may come in between of.
pub proof fn lemma_set_takes_steps<T>(before: State<T>, cell: usize, ptr: usize, value: T)
    requires
        before.inv(),
        before.words.dom().finite(),
        before.cells.contains_key(cell),
        !before.values.contains_key(ptr),
        ptr != NULL,
        ptr != DUMMY,
    ensures
        takes_steps(before, None, before.replaced(cell, ptr, value).reclaimed(), None),
{
    let between = before.replaced(cell, ptr, value);
    assert(between.inv());
    lemma_just_set_takes_steps(before, cell, ptr, value);
    lemma_reclaim_takes_steps(between);
    lemma_takes_more_steps(before, None, between, None, between.reclaimed(), None);
}

} // verus!

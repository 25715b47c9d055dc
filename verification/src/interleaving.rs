//! Why reads are safe, in whatever order the accesses of several parties come.
//!
//! A [`World`] is a region together with the tasks that are under way in it. Each [`Step`] is one
//! elementary access of one task, as a function of [`Region`](crate::region::Region),
//! [`Read`](crate::hazard::Read) or [`Scan`](crate::domains::Scan) makes it. Between any two steps of
//! a task, any number of steps of other tasks may come. A [`Schedule`](crate::schedule::Schedule)
//! makes such steps, in any order that it is told to.
//!
//! The steps that make up the operations are these:
//! - reading: `Acquire`, `Load`, `Protect`, `Validate` (back to `Protect` if the cell has changed),
//!   and `Done`; a reader does this over and over with one hazard pointer, and in the end `Release`;
//! - writing: `Allocate`, `Swap`, `Retire`;
//! - reclaiming: `Take`, `Weigh`, and if that was no less than the bulk size, `BeginScan`, `Scan` for
//!   each hazard pointer, and `Sweep` for each value that no scanned hazard pointer held; in the end
//!   `PutBack`.
//!
//! [`lemma_step`] shows that the invariant of the world is kept by every step, [`lemma_reads_are_safe`]
//! that a read that went through leads to a value that is there, and [`lemma_reads_are_stable`] that
//! this value does not change until the read is over.

use vstd::prelude::*;

use crate::hazard::Action;
use crate::heap::{DUMMY, NULL};
use crate::region::State;

verus! {

/// What a party is up to.
pub enum Task {
    /// It owns a hazard pointer, and reads nothing.
    Owner { id: usize },
    /// It has loaded an address from a cell.
    Loaded { cell: usize, id: usize, ptr: usize },
    /// It has stored in its hazard pointer the address that it loaded.
    Protected { cell: usize, id: usize, ptr: usize },
    /// It has found the cell unchanged after that, and looks at the value.
    Reading { id: usize, ptr: usize, action: Action },
    /// It has a value that it has not published yet, or that it has swapped out and not retired yet.
    Private { ptr: usize },
    /// It has taken the garbage.
    Taken { taken: Set<usize> },
    /// It has taken the garbage, has seen what some of the hazard pointers hold, and has others left
    /// to look at.
    Reclaiming { taken: Set<usize>, todo: Set<usize>, seen: Set<usize> },
}

impl Task {
    /// The hazard pointer that the task owns, if it does.
    pub open spec fn hazard(self) -> Option<usize> {
        match self {
            Task::Owner { id } => Some(id),
            Task::Loaded { id, .. } => Some(id),
            Task::Protected { id, .. } => Some(id),
            Task::Reading { id, .. } => Some(id),
            _ => None,
        }
    }

    /// The task is the only one that may retire or free the value at the given address.
    pub open spec fn owns(self, value: usize) -> bool {
        match self {
            Task::Private { ptr } => ptr == value,
            Task::Taken { taken } => taken.contains(value),
            Task::Reclaiming { taken, .. } => taken.contains(value),
            _ => false,
        }
    }

    /// What the task takes for granted is so: above all, that its hazard pointer holds what it stored
    /// there, and that what it reads is there.
    pub open spec fn agrees<T>(self, state: State<T>) -> bool {
        match self {
            Task::Owner { .. } => true,
            Task::Loaded { ptr, .. } => ptr != NULL,
            Task::Protected { id, ptr, .. } => state.words[id] == ptr,
            Task::Reading { id, ptr, .. } => state.words[id] == ptr && state.values.contains_key(
                ptr,
            ),
            Task::Private { .. } => true,
            Task::Taken { taken } => taken.finite(),
            Task::Reclaiming { taken, todo, .. } => taken.finite() && todo.subset_of(
                state.words.dom(),
            ),
        }
    }

    /// The task will not free what the other task reads: it has not looked at the other's hazard
    /// pointer yet, or has seen that it holds the address.
    pub open spec fn spares(self, other: Task) -> bool {
        match (self, other) {
            (
                Task::Reclaiming { taken, todo, seen },
                Task::Reading { id, ptr, .. },
            ) => taken.contains(ptr) ==> todo.contains(id) || seen.contains(ptr),
            _ => true,
        }
    }
}

/// A region and the tasks that are under way in it.
pub struct World<T> {
    /// What there is in the region.
    pub state: State<T>,
    /// The tasks, by number.
    pub tasks: Map<nat, Task>,
}

/// One access to a region by one task.
pub enum Step<T> {
    /// Somebody gets a hazard pointer that is available, or a new one.
    Acquire { task: nat, id: usize },
    /// A reader loads the address held by a cell.
    Load { task: nat, cell: usize },
    /// A reader stores the address that it loaded in its hazard pointer.
    Protect { task: nat },
    /// A reader compares what it loaded with what the cell holds now.
    Validate { task: nat, action: Action },
    /// A reader is done with a value, and keeps its hazard pointer or gives it up.
    Done { task: nat },
    /// A reader that reads nothing gives its hazard pointer up.
    Release { task: nat },
    /// A writer allocates a value.
    Allocate { task: nat, ptr: usize, value: T },
    /// A writer makes a new cell.
    Publish { task: nat, cell: usize },
    /// A writer swaps out the value of a cell.
    Swap { task: nat, cell: usize },
    /// A writer retires the value that it swapped out.
    Retire { task: nat },
    /// A cell is taken apart, and its value is left to the party that did it.
    RemoveCell { task: nat, cell: usize },
    /// A value that nobody reads is freed by the one that has it for itself.
    Free { task: nat },
    /// A reclamation takes all the garbage.
    Take { task: nat },
    /// A reclamation goes by the config, to find out whether it has taken enough.
    Weigh { task: nat },
    /// A reclamation that has taken no less than the bulk size begins to look at the hazard pointers.
    BeginScan { task: nat },
    /// A reclamation looks at a hazard pointer.
    Scan { task: nat, id: usize },
    /// A reclamation that has looked at all the hazard pointers frees a value that none of them held.
    Sweep { task: nat, ptr: usize },
    /// A reclamation puts back what it has not freed, which is all if it has taken less than the bulk
    /// size.
    PutBack { task: nat },
}

impl<T> Step<T> {
    /// The task that makes the step.
    pub open spec fn task(self) -> nat {
        match self {
            Step::Acquire { task, .. } => task,
            Step::Load { task, .. } => task,
            Step::Protect { task } => task,
            Step::Validate { task, .. } => task,
            Step::Done { task } => task,
            Step::Release { task } => task,
            Step::Allocate { task, .. } => task,
            Step::Publish { task, .. } => task,
            Step::Swap { task, .. } => task,
            Step::Retire { task } => task,
            Step::RemoveCell { task, .. } => task,
            Step::Free { task } => task,
            Step::Take { task } => task,
            Step::Weigh { task } => task,
            Step::BeginScan { task } => task,
            Step::Scan { task, .. } => task,
            Step::Sweep { task, .. } => task,
            Step::PutBack { task } => task,
        }
    }
}

impl<T> World<T> {
    /// The world after a step that took the region to `state` and left the acting task as given.
    pub open spec fn turned(self, state: State<T>, task: nat, to: Option<Task>) -> Self {
        World {
            state,
            tasks: match to {
                Some(to) => self.tasks.insert(task, to),
                None => self.tasks.remove(task),
            },
        }
    }

    /// Nothing has happened yet: there are no tasks, and the region is well-formed.
    pub open spec fn init(self) -> bool {
        self.state.inv() && self.tasks == Map::<nat, Task>::empty()
    }

    /// Every hazard pointer in use is there, is not available, and is used by one task only.
    pub open spec fn hazards_owned(self) -> bool {
        &&& forall|k: nat| #[trigger]
            self.tasks.contains_key(k) ==> match self.tasks[k].hazard() {
                Some(id) => self.state.words.contains_key(id) && self.state.words[id] != NULL,
                None => true,
            }
        &&& forall|k: nat, l: nat|
            #![trigger self.tasks.contains_key(k), self.tasks.contains_key(l)]
            self.tasks.contains_key(k) && self.tasks.contains_key(l) && k != l
                && self.tasks[k].hazard() is Some ==> self.tasks[k].hazard()
                != self.tasks[l].hazard()
    }

    /// Every value that a task has for itself is out of reach of the others.
    pub open spec fn values_owned(self) -> bool {
        &&& forall|k: nat, ptr: usize|
            #![trigger self.tasks.contains_key(k), self.tasks[k].owns(ptr)]
            self.tasks.contains_key(k) && self.tasks[k].owns(ptr) ==> self.state.private(ptr)
        &&& forall|k: nat, l: nat, ptr: usize|
            #![trigger self.tasks[k].owns(ptr), self.tasks[l].owns(ptr)]
            self.tasks.contains_key(k) && self.tasks.contains_key(l) && k != l
                && self.tasks[k].owns(ptr) ==> !self.tasks[l].owns(ptr)
    }

    /// What the tasks take for granted is so.
    pub open spec fn tasks_agree(self) -> bool {
        forall|k: nat| #[trigger]
            self.tasks.contains_key(k) ==> self.tasks[k].agrees(self.state)
    }

    /// No reclamation is going to free what is being read.
    pub open spec fn reads_spared(self) -> bool {
        forall|k: nat, l: nat|
            #![trigger self.tasks.contains_key(k), self.tasks.contains_key(l)]
            self.tasks.contains_key(k) && self.tasks.contains_key(l) ==> self.tasks[k].spares(
                self.tasks[l],
            )
    }

    /// What holds after any number of steps.
    pub open spec fn inv(self) -> bool {
        &&& self.state.inv()
        &&& self.hazards_owned()
        &&& self.values_owned()
        &&& self.tasks_agree()
        &&& self.reads_spared()
    }

    /// Some task has the value at the given address for itself.
    pub open spec fn is_owned(self, ptr: usize) -> bool {
        exists|k: nat| #[trigger] self.tasks.contains_key(k) && self.tasks[k].owns(ptr)
    }

    /// Every value is held by a cell, is garbage, or is in the hands of a task.
    pub open spec fn no_leaks(self) -> bool {
        forall|ptr: usize| #[trigger]
            self.state.values.contains_key(ptr) ==> self.state.garbage.contains(ptr)
                || self.state.cells.contains_value(ptr) || self.is_owned(ptr)
    }

    /// The given hazard pointer holds the given address, and no reclamation has passed it by before it
    /// did: none that has the value in its hands has looked at the hazard pointer without seeing the
    /// address there.
    pub open spec fn protects(self, id: usize, ptr: usize) -> bool {
        &&& self.state.guards(id, ptr)
        &&& forall|k: nat| #[trigger]
            self.tasks.contains_key(k) ==> match self.tasks[k] {
                Task::Reclaiming { taken, todo, seen } => taken.contains(ptr) ==> todo.contains(id)
                    || seen.contains(ptr),
                _ => true,
            }
    }

    /// The given task is where it is said to be, or is not there.
    pub open spec fn is_at(self, task: nat, at: Option<Task>) -> bool {
        match at {
            Some(at) => self.tasks.contains_key(task) && self.tasks[task] == at,
            None => !self.tasks.contains_key(task),
        }
    }

    /// The world may go over into `next` by any number of steps.
    pub open spec fn reaches(self, next: Self) -> bool {
        exists|worlds: Seq<World<T>>, steps: Seq<Step<T>>| #[trigger]
            is_path(worlds, steps) && worlds[0] == self && worlds.last() == next
    }

    /// The world may go over into `next` by the given step.
    pub open spec fn steps_to(self, step: Step<T>, next: Self) -> bool {
        let s = self.state;
        match step {
            Step::Acquire { task, id } => {
                &&& !self.tasks.contains_key(task)
                &&& s.words.contains_key(id) ==> s.words[id] == NULL
                &&& next == self.turned(s.held(id, DUMMY), task, Some(Task::Owner { id }))
            },
            Step::Load { task, cell } => {
                &&& self.tasks.contains_key(task)
                &&& s.cells.contains_key(cell)
                &&& self.tasks[task] matches Task::Owner { id } && next == self.turned(
                    s,
                    task,
                    Some(Task::Loaded { cell, id, ptr: s.cells[cell] }),
                )
            },
            Step::Protect { task } => {
                &&& self.tasks.contains_key(task)
                &&& self.tasks[task] matches Task::Loaded { cell, id, ptr } && next == self.turned(
                    s.held(id, ptr),
                    task,
                    Some(Task::Protected { cell, id, ptr }),
                )
            },
            Step::Validate { task, action } => {
                &&& self.tasks.contains_key(task)
                &&& self.tasks[task] matches Task::Protected { cell, id, ptr }
                    && s.cells.contains_key(cell) && next == self.turned(
                    s,
                    task,
                    Some(
                        if s.cells[cell] == ptr {
                            Task::Reading { id, ptr, action }
                        } else {
                            Task::Loaded { cell, id, ptr: s.cells[cell] }
                        },
                    ),
                )
            },
            Step::Done { task } => {
                &&& self.tasks.contains_key(task)
                &&& self.tasks[task] matches Task::Reading { id, action, .. } && next
                    == match action {
                    Action::Reset => self.turned(
                        s.held(id, DUMMY),
                        task,
                        Some(Task::Owner { id }),
                    ),
                    Action::Release => self.turned(s.held(id, NULL), task, None),
                }
            },
            Step::Release { task } => {
                &&& self.tasks.contains_key(task)
                &&& self.tasks[task] matches Task::Owner { id } && next == self.turned(
                    s.held(id, NULL),
                    task,
                    None,
                )
            },
            Step::Allocate { task, ptr, value } => {
                &&& !self.tasks.contains_key(task)
                &&& !s.values.contains_key(ptr)
                &&& ptr != NULL
                &&& ptr != DUMMY
                &&& next == self.turned(
                    s.allocated(ptr, value),
                    task,
                    Some(Task::Private { ptr }),
                )
            },
            Step::Publish { task, cell } => {
                &&& self.tasks.contains_key(task)
                &&& !s.cells.contains_key(cell)
                &&& self.tasks[task] matches Task::Private { ptr } && next == self.turned(
                    s.written(cell, ptr),
                    task,
                    None,
                )
            },
            Step::Swap { task, cell } => {
                &&& self.tasks.contains_key(task)
                &&& s.cells.contains_key(cell)
                &&& self.tasks[task] matches Task::Private { ptr } && next == self.turned(
                    s.written(cell, ptr),
                    task,
                    Some(Task::Private { ptr: s.cells[cell] }),
                )
            },
            Step::Retire { task } => {
                &&& self.tasks.contains_key(task)
                &&& self.tasks[task] matches Task::Private { ptr } && next == self.turned(
                    s.retired(ptr),
                    task,
                    None,
                )
            },
            Step::RemoveCell { task, cell } => {
                &&& !self.tasks.contains_key(task)
                &&& s.cells.contains_key(cell)
                &&& next == self.turned(
                    State { cells: s.cells.remove(cell), ..s },
                    task,
                    Some(Task::Private { ptr: s.cells[cell] }),
                )
            },
            Step::Free { task } => {
                &&& self.tasks.contains_key(task)
                &&& self.tasks[task] matches Task::Private { ptr } && !s.words.contains_value(ptr)
                    && next == self.turned(
                    State { values: s.values.remove(ptr), ..s },
                    task,
                    None,
                )
            },
            Step::Take { task } => {
                &&& !self.tasks.contains_key(task)
                &&& next == self.turned(
                    State { garbage: Set::empty(), ..s },
                    task,
                    Some(Task::Taken { taken: s.garbage }),
                )
            },
            Step::Weigh { task } => {
                &&& self.tasks.contains_key(task)
                &&& self.tasks[task] matches Task::Taken { taken } && next == self.turned(
                    s.settled(),
                    task,
                    Some(Task::Taken { taken }),
                )
            },
            Step::BeginScan { task } => {
                &&& self.tasks.contains_key(task)
                &&& self.tasks[task] matches Task::Taken { taken } && taken.len() >= s.bulk_size()
                    && next == self.turned(
                    s.settled(),
                    task,
                    Some(Task::Reclaiming { taken, todo: s.words.dom(), seen: Set::empty() }),
                )
            },
            Step::Scan { task, id } => {
                &&& self.tasks.contains_key(task)
                &&& self.tasks[task] matches Task::Reclaiming { taken, todo, seen }
                    && todo.contains(id) && next == self.turned(
                    s,
                    task,
                    Some(
                        Task::Reclaiming {
                            taken,
                            todo: todo.remove(id),
                            seen: seen.insert(s.words[id]),
                        },
                    ),
                )
            },
            Step::Sweep { task, ptr } => {
                &&& self.tasks.contains_key(task)
                &&& self.tasks[task] matches Task::Reclaiming { taken, todo, seen }
                    && todo.is_empty() && taken.contains(ptr) && !seen.contains(ptr) && next
                    == self.turned(
                    State { values: s.values.remove(ptr), ..s },
                    task,
                    Some(Task::Reclaiming { taken: taken.remove(ptr), todo, seen }),
                )
            },
            Step::PutBack { task } => {
                &&& self.tasks.contains_key(task)
                &&& match self.tasks[task] {
                    Task::Taken { taken } => taken.len() < s.bulk_size() && next == self.turned(
                        State { garbage: taken.union(s.garbage), ..s },
                        task,
                        None,
                    ),
                    Task::Reclaiming { taken, .. } => next == self.turned(
                        State { garbage: taken.union(s.garbage), ..s },
                        task,
                        None,
                    ),
                    _ => false,
                }
            },
        }
    }
}

/// The invariant holds in the beginning.
pub proof fn lemma_init<T>(world: World<T>)
    requires
        world.init(),
    ensures
        world.inv(),
{
}

/// Every step of every task keeps the invariant.
pub proof fn lemma_step<T>(world: World<T>, step: Step<T>, next: World<T>)
    requires
        world.inv(),
        world.steps_to(step, next),
    ensures
        next.inv(),
{
    match step {
        Step::Validate { task, action } => lemma_validate(world, task, action, next),
        Step::Publish { task, .. } => lemma_given_up(world, step, task, next),
        Step::Swap { task, cell } => lemma_swap(world, task, cell, next),
        Step::Retire { task } => lemma_given_up(world, step, task, next),
        Step::Free { task } => lemma_given_up(world, step, task, next),
        Step::Weigh { task } => lemma_kept(world, task, next),
        Step::BeginScan { task } => lemma_kept(world, task, next),
        Step::Scan { task, .. } => lemma_kept(world, task, next),
        Step::Sweep { task, ptr } => lemma_sweep(world, task, ptr, next),
        Step::PutBack { task } => lemma_put_back(world, task, next),
        _ => {},
    }
}

/// A reader that finds the cell unchanged is out of the way of every reclamation: what the cell
/// holds has been taken by none.
proof fn lemma_validate<T>(world: World<T>, task: nat, action: Action, next: World<T>)
    requires
        world.inv(),
        world.steps_to(Step::Validate { task, action }, next),
    ensures
        next.inv(),
{
    if let Task::Protected { cell, id, ptr } = world.tasks[task] {
        if world.state.cells[cell] == ptr {
            assert forall|k: nat| #[trigger] world.tasks.contains_key(k) implies !world.tasks[k].owns(
                ptr,
            ) by {
                assert(world.state.cells.contains_value(ptr));
            }
            assert forall|k: nat, l: nat|
                #![trigger next.tasks.contains_key(k), next.tasks.contains_key(l)]
                next.tasks.contains_key(k) && next.tasks.contains_key(l) implies next.tasks[k].spares(
                next.tasks[l],
            ) by {
                assert(world.tasks.contains_key(k) && world.tasks.contains_key(l));
                assert(!world.tasks[k].owns(ptr));
            }
        }
    }
}

/// A step that leaves a task with no values but those it had, and takes none of the others' away,
/// keeps the values apart.
proof fn lemma_values_owned<T>(world: World<T>, task: nat, next: World<T>)
    requires
        world.values_owned(),
        world.tasks.contains_key(task),
        forall|k: nat|
            k != task ==> (#[trigger] next.tasks.contains_key(k) <==> world.tasks.contains_key(k)),
        forall|k: nat|
            k != task && #[trigger] next.tasks.contains_key(k) ==> next.tasks[k] == world.tasks[k],
        forall|ptr: usize|
            next.tasks.contains_key(task) && #[trigger] next.tasks[task].owns(ptr)
                ==> world.tasks[task].owns(ptr),
        forall|k: nat, ptr: usize|
            #![trigger next.tasks[k].owns(ptr)]
            next.tasks.contains_key(k) && next.tasks[k].owns(ptr) && world.state.private(ptr)
                ==> next.state.private(ptr),
    ensures
        next.values_owned(),
{
    assert forall|k: nat, ptr: usize|
        #![trigger next.tasks.contains_key(k), next.tasks[k].owns(ptr)]
        next.tasks.contains_key(k) && next.tasks[k].owns(ptr) implies next.state.private(ptr) by {
        assert(world.tasks.contains_key(k) && world.tasks[k].owns(ptr));
    }
    assert forall|k: nat, l: nat, ptr: usize|
        #![trigger next.tasks[k].owns(ptr), next.tasks[l].owns(ptr)]
        next.tasks.contains_key(k) && next.tasks.contains_key(l) && k != l
            && next.tasks[k].owns(ptr) implies !next.tasks[l].owns(ptr) by {
        if next.tasks[l].owns(ptr) {
            assert(world.tasks[k].owns(ptr));
            assert(world.tasks[l].owns(ptr));
        }
    }
}

/// A task that publishes, retires or frees its value is not needed for it any more.
proof fn lemma_given_up<T>(world: World<T>, step: Step<T>, task: nat, next: World<T>)
    requires
        world.inv(),
        world.steps_to(step, next),
        match step {
            Step::Publish { task: t, .. } => t == task,
            Step::Retire { task: t } => t == task,
            Step::Free { task: t } => t == task,
            _ => false,
        },
    ensures
        next.inv(),
{
    let ptr = world.tasks[task]->Private_ptr;
    assert(world.tasks[task].owns(ptr));
    assert forall|k: nat, p: usize|
        #![trigger next.tasks[k].owns(p)]
        next.tasks.contains_key(k) && next.tasks[k].owns(p) && world.state.private(
            p,
        ) implies next.state.private(p) by {
        assert(world.tasks[k].owns(p));
        assert(p != ptr);
    }
    lemma_values_owned(world, task, next);
}

/// A task that swaps out a value has the old one in the place of the new.
proof fn lemma_swap<T>(world: World<T>, task: nat, cell: usize, next: World<T>)
    requires
        world.inv(),
        world.steps_to(Step::Swap { task, cell }, next),
    ensures
        next.inv(),
{
    let ptr = world.tasks[task]->Private_ptr;
    let old_ptr = world.state.cells[cell];
    assert(world.tasks[task].owns(ptr));
    assert(world.state.cells.contains_value(old_ptr));
    assert(next.state.private(old_ptr));
    assert forall|k: nat, p: usize|
        #![trigger next.tasks.contains_key(k), next.tasks[k].owns(p)]
        next.tasks.contains_key(k) && next.tasks[k].owns(p) implies next.state.private(p) by {
        if k != task {
            assert(world.tasks[k].owns(p));
            assert(p != ptr);
        }
    }
    assert forall|k: nat, l: nat, p: usize|
        #![trigger next.tasks[k].owns(p), next.tasks[l].owns(p)]
        next.tasks.contains_key(k) && next.tasks.contains_key(l) && k != l
            && next.tasks[k].owns(p) implies !next.tasks[l].owns(p) by {
        if next.tasks[l].owns(p) {
            if k != task {
                assert(world.tasks[k].owns(p));
            }
            if l != task {
                assert(world.tasks[l].owns(p));
            }
        }
    }
}

/// Looking at hazard pointers leaves the values alone.
proof fn lemma_kept<T>(world: World<T>, task: nat, next: World<T>)
    requires
        world.inv(),
        world.steps_to(Step::Weigh { task }, next) || world.steps_to(
            Step::BeginScan { task },
            next,
        ) || exists|id: usize| #[trigger]
            world.steps_to(Step::Scan { task, id }, next),
    ensures
        next.inv(),
{
    lemma_values_owned(world, task, next);
}

/// A reclamation that has looked at all the hazard pointers frees only what nobody reads.
proof fn lemma_sweep<T>(world: World<T>, task: nat, ptr: usize, next: World<T>)
    requires
        world.inv(),
        world.steps_to(Step::Sweep { task, ptr }, next),
    ensures
        next.inv(),
{
    assert(world.tasks[task].owns(ptr));
    assert forall|k: nat, p: usize|
        #![trigger next.tasks[k].owns(p)]
        next.tasks.contains_key(k) && next.tasks[k].owns(p) && world.state.private(
            p,
        ) implies next.state.private(p) by {
        if k != task {
            assert(world.tasks[k].owns(p));
        }
        assert(p != ptr);
    }
    lemma_values_owned(world, task, next);
    assert forall|k: nat| #[trigger] next.tasks.contains_key(k) implies next.tasks[k].agrees(
        next.state,
    ) by {
        assert(world.tasks[task].spares(world.tasks[k]));
    }
}

/// What a reclamation puts back is on the pile of garbage again.
proof fn lemma_put_back<T>(world: World<T>, task: nat, next: World<T>)
    requires
        world.inv(),
        world.steps_to(Step::PutBack { task }, next),
    ensures
        next.inv(),
{
    assert forall|p: usize| world.tasks[task].owns(p) implies world.state.private(p) by {}
    assert(next.state.inv()) by {
        assert forall|p: usize| next.state.garbage.contains(p) implies world.state.garbage.contains(
            p,
        ) || world.tasks[task].owns(p) by {}
        assert forall|cell: usize| #[trigger] next.state.cells.contains_key(cell) implies !(
        next.state.garbage.contains(next.state.cells[cell])) by {
            assert(world.state.cells.contains_value(world.state.cells[cell]));
        }
    }
    assert forall|k: nat, p: usize|
        #![trigger next.tasks[k].owns(p)]
        next.tasks.contains_key(k) && next.tasks[k].owns(p) && world.state.private(
            p,
        ) implies next.state.private(p) by {
        assert(world.tasks[k].owns(p));
        assert(!world.tasks[task].owns(p));
    }
    lemma_values_owned(world, task, next);
}

/// A read that goes through leads to the value that the cell leads to at that moment.
pub proof fn lemma_reads_are_current<T>(
    world: World<T>,
    task: nat,
    cell: usize,
    action: Action,
    next: World<T>,
)
    requires
        world.inv(),
        world.steps_to(Step::Validate { task, action }, next),
        world.tasks[task] matches Task::Protected { cell: c, .. } && c == cell,
        next.tasks[task] is Reading,
    ensures
        next.tasks[task]->Reading_ptr == next.state.cells[cell],
        next.state.values[next.tasks[task]->Reading_ptr] == next.state.value_of(cell),
{
}

/// What is being read is there, and is guarded by the reader's hazard pointer.
pub proof fn lemma_reads_are_safe<T>(world: World<T>, task: nat)
    requires
        world.inv(),
        world.tasks.contains_key(task),
        world.tasks[task] is Reading,
    ensures
        world.state.guards(world.tasks[task]->Reading_id, world.tasks[task]->Reading_ptr),
{
}

/// What is being read does not change under a step, except the step that ends the read.
pub proof fn lemma_reads_are_stable<T>(world: World<T>, step: Step<T>, next: World<T>, task: nat)
    requires
        world.inv(),
        world.steps_to(step, next),
        world.tasks.contains_key(task),
        world.tasks[task] is Reading,
        next.tasks.contains_key(task),
        next.tasks[task] == world.tasks[task],
    ensures
        next.state.guards(world.tasks[task]->Reading_id, world.tasks[task]->Reading_ptr),
        next.state.values[world.tasks[task]->Reading_ptr]
            == world.state.values[world.tasks[task]->Reading_ptr],
{
    lemma_step(world, step, next);
    lemma_reads_are_safe(next, task);
}

/// A value that is being read is freed by no step.
pub proof fn lemma_guarded_values_stay<T>(world: World<T>, step: Step<T>, next: World<T>, task: nat)
    requires
        world.inv(),
        world.steps_to(step, next),
        world.tasks.contains_key(task),
        world.tasks[task] is Reading,
    ensures
        next.state.values.contains_key(world.tasks[task]->Reading_ptr),
        next.state.values[world.tasks[task]->Reading_ptr]
            == world.state.values[world.tasks[task]->Reading_ptr],
{
    lemma_reads_are_safe(world, task);
    if let Step::Sweep { task: sweeper, .. } = step {
        assert(world.tasks[sweeper].spares(world.tasks[task]));
    }
}

/// The given worlds come about one after the other, by the given steps.
pub open spec fn is_path<T>(worlds: Seq<World<T>>, steps: Seq<Step<T>>) -> bool {
    &&& worlds.len() == steps.len() + 1
    &&& forall|i: int|
        #![trigger steps[i]]
        0 <= i < steps.len() ==> worlds[i].steps_to(steps[i], worlds[i + 1])
}

/// The given worlds come about one after the other, by the given steps, from a beginning in which
/// nothing had happened yet.
pub open spec fn is_run<T>(worlds: Seq<World<T>>, steps: Seq<Step<T>>) -> bool {
    is_path(worlds, steps) && worlds[0].init()
}

/// The invariant holds throughout every run.
pub proof fn lemma_run<T>(worlds: Seq<World<T>>, steps: Seq<Step<T>>, i: int)
    requires
        is_run(worlds, steps),
        0 <= i < worlds.len(),
    ensures
        worlds[i].inv(),
    decreases i,
{
    if i == 0 {
        lemma_init(worlds[0]);
    } else {
        lemma_run(worlds, steps, i - 1);
        assert(worlds[i - 1].steps_to(steps[i - 1], worlds[i]));
        lemma_step(worlds[i - 1], steps[i - 1], worlds[i]);
    }
}

/// From when a read went through until it is over, whatever else happens, the value that it leads to
/// is there and stays the same.
pub proof fn lemma_read_during_run<T>(
    worlds: Seq<World<T>>,
    steps: Seq<Step<T>>,
    task: nat,
    from: int,
    to: int,
)
    requires
        is_run(worlds, steps),
        0 <= from <= to < worlds.len(),
        worlds[from].tasks.contains_key(task),
        worlds[from].tasks[task] is Reading,
        forall|i: int|
            from <= i <= to ==> (#[trigger] worlds[i]).tasks.contains_key(task)
                && worlds[i].tasks[task] == worlds[from].tasks[task],
    ensures
        worlds[to].state.values.contains_key(worlds[from].tasks[task]->Reading_ptr),
        worlds[to].state.values[worlds[from].tasks[task]->Reading_ptr]
            == worlds[from].state.values[worlds[from].tasks[task]->Reading_ptr],
    decreases to - from,
{
    lemma_run(worlds, steps, to);
    lemma_reads_are_safe(worlds[to], task);
    if from < to {
        lemma_read_during_run(worlds, steps, task, from, to - 1);
        lemma_run(worlds, steps, to - 1);
        assert(worlds[to - 1].steps_to(steps[to - 1], worlds[to]));
        lemma_reads_are_stable(worlds[to - 1], steps[to - 1], worlds[to], task);
    }
}

/// No step loses a value.
pub proof fn lemma_no_leaks<T>(world: World<T>, step: Step<T>, next: World<T>)
    requires
        world.inv(),
        world.no_leaks(),
        world.steps_to(step, next),
    ensures
        next.no_leaks(),
{
    assert forall|ptr: usize| #[trigger] next.state.values.contains_key(
        ptr,
    ) implies next.state.garbage.contains(ptr) || next.state.cells.contains_value(ptr)
        || next.is_owned(ptr) by {
        let acting = step.task();
        if world.state.values.contains_key(ptr) && world.state.cells.contains_value(ptr) {
            let cell = choose|c: usize| #[trigger]
                world.state.cells.contains_key(c) && world.state.cells[c] == ptr;
            if next.state.cells.contains_key(cell) && next.state.cells[cell] == ptr {
            } else {
                assert(next.tasks.contains_key(acting) && next.tasks[acting].owns(ptr));
            }
        } else if world.is_owned(ptr) {
            let k = choose|k: nat| #[trigger]
                world.tasks.contains_key(k) && world.tasks[k].owns(ptr);
            if k != acting {
                assert(next.tasks.contains_key(k) && next.tasks[k].owns(ptr));
            } else if next.tasks.contains_key(k) && next.tasks[k].owns(ptr) {
            } else {
                match step {
                    Step::Publish { cell, .. } => {
                        assert(next.state.cells.contains_key(cell));
                    },
                    Step::Swap { cell, .. } => {
                        assert(next.state.cells.contains_key(cell));
                    },
                    _ => {},
                }
            }
        } else {
            assert(next.tasks.contains_key(acting) ==> next.tasks[acting].owns(ptr)
                || next.state.garbage.contains(ptr));
        }
    }
}

/// Once nothing is under way, every value is held by a cell or is garbage, whatever went before.
pub proof fn lemma_quiet_run_leaks_nothing<T>(worlds: Seq<World<T>>, steps: Seq<Step<T>>, i: int)
    requires
        is_run(worlds, steps),
        worlds[0].state.no_leaks(),
        0 <= i < worlds.len(),
    ensures
        worlds[i].no_leaks(),
        worlds[i].tasks == Map::<nat, Task>::empty() ==> worlds[i].state.no_leaks(),
    decreases i,
{
    if i > 0 {
        lemma_quiet_run_leaks_nothing(worlds, steps, i - 1);
        lemma_run(worlds, steps, i - 1);
        assert(worlds[i - 1].steps_to(steps[i - 1], worlds[i]));
        lemma_no_leaks(worlds[i - 1], steps[i - 1], worlds[i]);
    }
}

/// No two parties ever have the same hazard pointer, and everybody's is one of the domain's.
pub proof fn lemma_hazards_are_exclusive<T>(
    worlds: Seq<World<T>>,
    steps: Seq<Step<T>>,
    i: int,
    task: nat,
    other: nat,
)
    requires
        is_run(worlds, steps),
        0 <= i < worlds.len(),
        task != other,
        worlds[i].tasks.contains_key(task),
        worlds[i].tasks.contains_key(other),
        worlds[i].tasks[task].hazard() is Some,
        worlds[i].tasks[other].hazard() is Some,
    ensures
        worlds[i].tasks[task].hazard() != worlds[i].tasks[other].hazard(),
        worlds[i].state.words.contains_key(worlds[i].tasks[task].hazard()->0),
{
    lemma_run(worlds, steps, i);
}

/// There come to be more hazard pointers only when somebody gets one that is new.
pub proof fn lemma_number_of_hazards<T>(world: World<T>, step: Step<T>, next: World<T>)
    requires
        world.inv(),
        world.steps_to(step, next),
        world.state.words.dom().finite(),
    ensures
        next.state.words.dom().finite(),
        match step {
            Step::Acquire { id, .. } if !world.state.words.contains_key(id) => {
                next.state.words.len() == world.state.words.len() + 1
            },
            _ => next.state.words.dom() == world.state.words.dom(),
        },
{
    match step {
        Step::Acquire { id, .. } if !world.state.words.contains_key(id) => {
            assert(next.state.words.dom() =~= world.state.words.dom().insert(id));
        },
        _ => {
            assert(next.state.words.dom() =~= world.state.words.dom());
        },
    }
}

/// A value whose address a hazard pointer holds, read or not, is freed by no step, unless a reclamation
/// had passed the hazard pointer by before.
pub proof fn lemma_protected_value_stays<T>(
    world: World<T>,
    step: Step<T>,
    next: World<T>,
    id: usize,
    ptr: usize,
)
    requires
        world.inv(),
        world.steps_to(step, next),
        world.protects(id, ptr),
        next.state.words.contains_key(id),
        next.state.words[id] == ptr,
    ensures
        next.protects(id, ptr),
        next.state.values[ptr] == world.state.values[ptr],
{
    assert(world.state.words.contains_value(ptr));
    match step {
        Step::Sweep { task, ptr: swept } => {
            assert(world.tasks.contains_key(task));
            assert(swept != ptr);
        },
        _ => {},
    }
    assert forall|k: nat| #[trigger] next.tasks.contains_key(k) implies match next.tasks[k] {
        Task::Reclaiming { taken, todo, seen } => taken.contains(ptr) ==> todo.contains(id)
            || seen.contains(ptr),
        _ => true,
    } by {
        assert(k == step.task() || world.tasks.contains_key(k));
    }
}

/// A value whose address a hazard pointer holds from before any reclamation has taken it stays for as
/// long as the hazard pointer holds it, whatever reclamations begin and end meanwhile.
pub proof fn lemma_protected_during_run<T>(
    worlds: Seq<World<T>>,
    steps: Seq<Step<T>>,
    id: usize,
    ptr: usize,
    from: int,
    to: int,
)
    requires
        is_run(worlds, steps),
        0 <= from <= to < worlds.len(),
        worlds[from].state.values.contains_key(ptr),
        forall|k: nat| #[trigger]
            worlds[from].tasks.contains_key(k) ==> !(worlds[from].tasks[k] is Reclaiming
                && worlds[from].tasks[k].owns(ptr)),
        forall|i: int|
            from <= i <= to ==> (#[trigger] worlds[i]).state.words.contains_key(id)
                && worlds[i].state.words[id] == ptr,
    ensures
        worlds[to].protects(id, ptr),
        worlds[to].state.values[ptr] == worlds[from].state.values[ptr],
    decreases to - from,
{
    assert(worlds[from].state.words[id] == ptr);
    if from < to {
        lemma_protected_during_run(worlds, steps, id, ptr, from, to - 1);
        lemma_run(worlds, steps, to - 1);
        assert(worlds[to - 1].steps_to(steps[to - 1], worlds[to]));
        assert(worlds[to].state.words[id] == ptr);
        lemma_protected_value_stays(worlds[to - 1], steps[to - 1], worlds[to], id, ptr);
    }
}

} // verus!

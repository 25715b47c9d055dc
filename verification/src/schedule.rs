//! Several parties at work on one region, one step at a time, in any order.
//!
//! A [`Schedule`] is a region together with the parties that are in the middle of something in it.
//! Each of its functions lets one party make one access to the region, and says in its contract
//! which [`Step`] of [`interleaving`](crate::interleaving) that is. What is proved there of all
//! worlds and steps is thereby proved of whatever a schedule does.

use vstd::prelude::*;

use crate::domains::{addrs_of, HzrdPtrs, Scan, Search, SharedDomain, Sweep};
use crate::hazard::{Action, Domain, Read, ReadHandle, RetiredPtr};
use crate::heap::NULL;
use crate::interleaving::{lemma_init, lemma_step, Step, Task, World};
use crate::region::{Region, State};
use crate::stack::SharedStack;

verus! {

/// A party that is in the middle of something.
enum Party<T> {
    /// It looks for a hazard pointer.
    Searching { search: Search },
    /// It owns a hazard pointer, and reads nothing.
    Owner { id: usize },
    /// It has loaded an address from a cell.
    Loaded { read: Read },
    /// It has stored in its hazard pointer the address that it loaded.
    Protected { read: Read },
    /// It looks at a value.
    Reading { handle: ReadHandle<T> },
    /// It has a value for itself.
    Private { ptr: usize },
    /// It has taken the garbage.
    Taken { retired_ptrs: SharedStack<RetiredPtr> },
    /// It has taken the garbage, and looks at the hazard pointers.
    Scanning { retired_ptrs: SharedStack<RetiredPtr>, scan: Scan },
    /// It has looked at the hazard pointers, and goes through the garbage.
    Sweeping { sweep: Sweep, hzrd_ptrs: HzrdPtrs },
}

impl<T> Party<T> {
    /// What the party is up to, if it has anything yet.
    spec fn task(self) -> Option<Task> {
        match self {
            Party::Searching { .. } => None,
            Party::Owner { id } => Some(Task::Owner { id }),
            Party::Loaded { read } => Some(
                Task::Loaded {
                    cell: read.cell(),
                    id: read.id(),
                    ptr: read.ptr(),
                },
            ),
            Party::Protected { read } => Some(
                Task::Protected {
                    cell: read.cell(),
                    id: read.id(),
                    ptr: read.ptr(),
                },
            ),
            Party::Reading { handle } => Some(
                Task::Reading {
                    id: handle.id(),
                    ptr: handle.ptr(),
                    action: handle.action(),
                },
            ),
            Party::Private { ptr } => Some(Task::Private { ptr }),
            Party::Taken { retired_ptrs } => Some(
                Task::Taken {
                    taken: addrs_of(retired_ptrs@).to_set(),
                },
            ),
            Party::Scanning { retired_ptrs, scan } => Some(
                Task::Reclaiming {
                    taken: addrs_of(retired_ptrs@).to_set(),
                    todo: scan.todo().to_set(),
                    seen: scan.seen().to_set(),
                },
            ),
            Party::Sweeping { sweep, hzrd_ptrs } => Some(
                Task::Reclaiming {
                    taken: (sweep.left() + sweep.kept()).to_set(),
                    todo: Set::empty(),
                    seen: hzrd_ptrs@.to_set(),
                },
            ),
        }
    }

    /// The party can go on in a region with the given domain.
    spec fn wf(self, domain: SharedDomain) -> bool {
        match self {
            Party::Searching { search } => search.wf(&domain),
            Party::Taken { retired_ptrs } => {
                &&& retired_ptrs.wf()
                &&& addrs_of(retired_ptrs@).no_duplicates()
            },
            Party::Scanning { retired_ptrs, scan } => {
                &&& retired_ptrs.wf()
                &&& addrs_of(retired_ptrs@).no_duplicates()
                &&& scan.wf(&domain)
                &&& scan.todo().no_duplicates()
            },
            Party::Sweeping { sweep, hzrd_ptrs } => {
                &&& sweep.wf()
                &&& (sweep.left() + sweep.kept()).no_duplicates()
                &&& forall|i: int|
                    0 <= i < sweep.kept().len() ==> hzrd_ptrs@.contains(#[trigger] sweep.kept()[i])
            },
            _ => true,
        }
    }

    /// A party can go on in a domain that got more hazard pointers.
    proof fn lemma_undisturbed(self, before: SharedDomain, after: SharedDomain)
        requires
            self.wf(before),
            after.follows(&before),
        ensures
            self.wf(after),
    {
        match self {
            Party::Searching { search } => search.lemma_undisturbed(&before, &after),
            Party::Scanning { scan, .. } => scan.lemma_undisturbed(&before, &after),
            _ => {},
        }
    }

    /// How much of the garbage that it took the party has yet to go through.
    spec fn left(self) -> nat {
        match self {
            Party::Taken { retired_ptrs } => retired_ptrs@.len(),
            Party::Scanning { retired_ptrs, .. } => retired_ptrs@.len(),
            Party::Sweeping { sweep, .. } => sweep.left().len(),
            _ => 0,
        }
    }
}

/// What the party in a place is up to, if there is one and it has anything yet.
spec fn task_of<T>(party: Option<Party<T>>) -> Option<Task> {
    match party {
        Some(party) => party.task(),
        None => None,
    }
}

/// To look at one more address is to move it to those that are kept, or to remove it.
proof fn lemma_looked_at(left: Seq<usize>, kept: Seq<usize>)
    requires
        left.len() > 0,
        (left + kept).no_duplicates(),
    ensures
        (left + kept).to_set().contains(left[0]),
        (left.drop_first() + (seq![left[0]] + kept)).no_duplicates(),
        (left.drop_first() + (seq![left[0]] + kept)).to_set() == (left + kept).to_set(),
        (left.drop_first() + kept).no_duplicates(),
        (left.drop_first() + kept).to_set() == (left + kept).to_set().remove(left[0]),
{
    let all = left + kept;
    let rest = left.drop_first() + kept;
    let moved = left.drop_first() + (seq![left[0]] + kept);
    let n = left.len() - 1;
    assert(all[0] == left[0]);
    assert(rest =~= all.drop_first());
    assert(moved =~= rest.insert(n, left[0]));
    assert forall|a: usize| all.contains(a) <==> (a == left[0] || rest.contains(a)) by {
        if all.contains(a) {
            let i = all.index_of(a);
            if i > 0 {
                assert(rest[i - 1] == a);
            }
        }
        if rest.contains(a) {
            assert(all[rest.index_of(a) + 1] == a);
        }
    }
    assert(!rest.contains(left[0])) by {
        if rest.contains(left[0]) {
            assert(all[rest.index_of(left[0]) + 1] == all[0]);
        }
    }
    assert forall|a: usize| moved.contains(a) <==> (a == left[0] || rest.contains(a)) by {
        if moved.contains(a) {
            let i = moved.index_of(a);
            if i < n {
                assert(rest[i] == a);
            } else if i > n {
                assert(rest[i - 1] == a);
            }
        }
        if rest.contains(a) {
            let i = rest.index_of(a);
            assert(moved[if i < n { i } else { i + 1 }] == a);
        }
        assert(moved[n] == left[0]);
    }
    assert(rest.to_set() =~= all.to_set().remove(left[0]));
    assert(moved.to_set() =~= all.to_set());
    assert forall|i: int, j: int|
        0 <= i < moved.len() && 0 <= j < moved.len() && i != j implies moved[i] != moved[j] by {
        let rest_at = |k: int| if k < n { k } else { k - 1 };
        if i != n {
            assert(moved[i] == rest[rest_at(i)]);
        }
        if j != n {
            assert(moved[j] == rest[rest_at(j)]);
        }
    }
}

/// A region and the parties that are in the middle of something in it.
pub struct Schedule<T> {
    region: Region<T, SharedDomain>,
    parties: Vec<Option<Party<T>>>,
}

impl<T> Schedule<T> {
    /// The region and the tasks that are under way.
    pub closed spec fn world(&self) -> World<T> {
        World {
            state: self.region@,
            tasks: Map::new(
                |k: nat| k < self.parties@.len() && task_of(self.parties@[k as int]) is Some,
                |k: nat| task_of(self.parties@[k as int])->0,
            ),
        }
    }

    /// The world keeps its invariant, and every party can go on.
    pub closed spec fn wf(&self) -> bool {
        &&& self.region.wf()
        &&& self.world().inv()
        &&& forall|k: int|
            0 <= k < self.parties@.len() && (#[trigger] self.parties@[k]) is Some
                ==> self.parties@[k]->0.wf(self.region.governor())
    }

    /// The ids of the hazard pointers, in the order in which they are looked at.
    pub closed spec fn ids(&self) -> Seq<usize> {
        self.region.governor().ids()
    }

    /// There is a task of the given number.
    pub open spec fn has(&self, task: usize) -> bool {
        self.world().tasks.contains_key(task as nat)
    }

    /// What the given task is up to.
    pub open spec fn task(&self, task: usize) -> Task {
        self.world().tasks[task as nat]
    }

    /// How much of the garbage that it took the given task has yet to go through.
    pub closed spec fn left(&self, task: usize) -> nat {
        self.parties@[task as int]->0.left()
    }

    /// The party of the given number looks for a hazard pointer.
    pub closed spec fn searches(&self, task: usize) -> bool {
        &&& task < self.parties@.len()
        &&& self.parties@[task as int] is Some
        &&& self.parties@[task as int]->0 is Searching
    }

    /// The hazard pointers that the given party has yet to try.
    pub closed spec fn untried(&self, task: usize) -> Seq<usize> {
        self.parties@[task as int]->0->search.todo()
    }

    /// All but the given task are where they were before.
    pub open spec fn keeps_others(&self, before: &Self, task: usize) -> bool {
        &&& forall|k: usize| #[trigger]
            before.searches(k) && k != task ==> self.searches(k) && self.untried(k)
                == before.untried(k)
        &&& forall|k: usize| before.has(k) && k != task ==> #[trigger] self.left(k) == before.left(k)
    }

    /// The world keeps its invariant, so all that is proved of such worlds is so.
    pub proof fn lemma_world(&self)
        requires
            self.wf(),
        ensures
            self.world().inv(),
    {
    }

    /// The parties can go on after one of them did something, provided that this one can.
    proof fn lemma_parties_go_on(&self, before: &Self, task: int)
        requires
            before.wf(),
            self.region.follows(&before.region),
            forall|k: int|
                0 <= k < self.parties@.len() && k != task ==> k < before.parties@.len()
                    && #[trigger] self.parties@[k] == before.parties@[k],
            self.parties@[task] is Some ==> self.parties@[task]->0.wf(self.region.governor()),
        ensures
            forall|k: int|
                0 <= k < self.parties@.len() && (#[trigger] self.parties@[k]) is Some
                    ==> self.parties@[k]->0.wf(self.region.governor()),
    {
        assert forall|k: int|
            0 <= k < self.parties@.len() && (#[trigger] self.parties@[k])
                is Some implies self.parties@[k]->0.wf(self.region.governor()) by {
            if k != task {
                assert(before.parties@[k] == self.parties@[k]);
                before.parties@[k]->0.lemma_undisturbed(
                    before.region.governor(),
                    self.region.governor(),
                );
            }
        }
    }

    /// A schedule that got here by a step is well-formed, provided that the party that made the step
    /// can go on.
    proof fn lemma_stepped(&self, before: &Self, step: Step<T>, task: int)
        requires
            before.wf(),
            self.region.wf(),
            self.region.follows(&before.region),
            0 <= task <= before.parties@.len(),
            task < self.parties@.len(),
            self.parties@.len() >= before.parties@.len(),
            self.parties@.len() <= before.parties@.len() + 1,
            self.parties@.len() == before.parties@.len() + 1 ==> task == before.parties@.len(),
            forall|k: int|
                0 <= k < self.parties@.len() && k != task ==> #[trigger] self.parties@[k]
                    == before.parties@[k],
            self.parties@[task] is Some ==> self.parties@[task]->0.wf(self.region.governor()),
            ({
                let to = task_of(self.parties@[task]);
                before.world().steps_to(
                    step,
                    before.world().turned(self.region@, task as nat, to),
                )
            }),
        ensures
            self.wf(),
            self.keeps_others(before, task as usize),
            before.world().steps_to(step, self.world()),
    {
        let to = task_of(self.parties@[task]);
        let next = before.world().turned(self.region@, task as nat, to);
        assert(self.world().tasks =~= next.tasks);
        lemma_step(before.world(), step, next);
        self.lemma_parties_go_on(before, task);
    }

    /// A schedule in which a party got on by itself, without an access to the region, is well-formed.
    proof fn lemma_unchanged(&self, before: &Self, task: int)
        requires
            before.wf(),
            self.region.wf(),
            self.region@ == before.region@,
            self.region.follows(&before.region),
            0 <= task < self.parties@.len(),
            self.parties@.len() == before.parties@.len() || self.parties@.len()
                == before.parties@.len() + 1 && task == before.parties@.len(),
            forall|k: int|
                0 <= k < self.parties@.len() && k != task ==> #[trigger] self.parties@[k]
                    == before.parties@[k],
            self.parties@[task] is Some,
            task_of(self.parties@[task]) == if task < before.parties@.len() {
                task_of(before.parties@[task])
            } else {
                None
            },
            self.parties@[task]->0.wf(self.region.governor()),
        ensures
            self.wf(),
            self.keeps_others(before, task as usize),
            self.world() == before.world(),
    {
        assert(self.world().tasks =~= before.world().tasks);
        self.lemma_parties_go_on(before, task);
    }

    /// A region without values, and nobody at work in it.
    pub fn new(domain: SharedDomain) -> (schedule: Self)
        requires
            domain.wf(),
            domain.garbage() == Set::<usize>::empty(),
        ensures
            schedule.wf(),
            schedule.world().init(),
            schedule.world().state == (State {
                values: Map::<usize, T>::empty(),
                cells: Map::<usize, usize>::empty(),
                words: domain.words(),
                garbage: Set::<usize>::empty(),
                config: domain.settled(),
            }),
            schedule.world().state.no_leaks(),
    {
        let region = Region::new(domain);
        let schedule = Schedule { region, parties: Vec::new() };
        proof {
            schedule.region.lemma_state();
            assert(schedule.world().tasks =~= Map::<nat, Task>::empty());
            lemma_init(schedule.world());
        }
        schedule
    }

    /// The region that the parties are at work on.
    pub fn region(&self) -> (region: &Region<T, SharedDomain>)
        requires
            self.wf(),
        ensures
            region.wf(),
            region@ == self.world().state,
            region.governor().ids() == self.ids(),
    {
        &self.region
    }

    /// Take a party out of its place.
    fn take_out(&mut self, task: usize) -> (party: Option<Party<T>>)
        requires
            task < old(self).parties@.len(),
        ensures
            party == old(self).parties@[task as int],
            final(self).parties@ == old(self).parties@.update(task as int, None),
            final(self).region == old(self).region,
    {
        let mut party: Option<Party<T>> = None;
        std::mem::swap(&mut party, &mut self.parties[task]);
        party
    }

    /// First step of a read: begin to look for a hazard pointer.
    pub fn begin_acquire(&mut self) -> (task: usize)
        requires
            old(self).wf(),
        ensures
            final(self).wf(),
            final(self).keeps_others(old(self), task),
            final(self).searches(task),
            !final(self).has(task),
            final(self).untried(task) == old(self).ids(),
            final(self).untried(task).to_set() == old(self).world().state.words.dom(),
            final(self).ids() == old(self).ids(),
            final(self).world() == old(self).world(),
    {
        let search = self.region.begin_search();
        let task = self.parties.len();
        self.parties.push(Some(Party::Searching { search }));
        proof {
            self.region.lemma_follows(&self.region, &self.region);
            self.lemma_unchanged(old(self), task as int);
        }
        task
    }

    /// Try to acquire the next hazard pointer, or a new one if there is none left.
    pub fn acquire(&mut self, task: usize) -> (acquired: bool)
        requires
            old(self).wf(),
            old(self).searches(task),
        ensures
            final(self).wf(),
            final(self).keeps_others(old(self), task),
            acquired == {
                let untried = old(self).untried(task);
                untried.len() == 0 || old(self).world().state.words[untried[0]] == NULL
            },
            acquired ==> {
                &&& final(self).has(task)
                &&& final(self).task(task) is Owner
                &&& if old(self).untried(task).len() > 0 {
                    final(self).task(task)->Owner_id == old(self).untried(task)[0]
                } else {
                    !old(self).world().state.words.contains_key(
                        final(self).task(task)->Owner_id,
                    )
                }
                &&& old(self).world().steps_to(
                    Step::Acquire { task: task as nat, id: final(self).task(task)->Owner_id },
                    final(self).world(),
                )
            },
            !acquired ==> {
                &&& final(self).searches(task)
                &&& final(self).untried(task) == old(self).untried(task).drop_first()
                &&& final(self).world() == old(self).world()
            },
    {
        let mut acquired = false;
        if let Some(Party::Searching { search: mut search }) = self.take_out(task) {
            match self.region.search(&mut search) {
                Some(id) => {
                    acquired = true;
                    self.parties.set(task, Some(Party::Owner { id }));
                    proof {
                        self.lemma_stepped(
                            old(self),
                            Step::Acquire { task: task as nat, id },
                            task as int,
                        );
                    }
                },
                None => {
                    self.parties.set(task, Some(Party::Searching { search }));
                    proof {
                        self.lemma_unchanged(old(self), task as int);
                    }
                },
            }
        }
        acquired
    }

    /// Load the address held by a cell.
    pub fn load(&mut self, task: usize, cell: usize)
        requires
            old(self).wf(),
            old(self).has(task),
            old(self).task(task) is Owner,
            old(self).world().state.cells.contains_key(cell),
        ensures
            final(self).wf(),
            final(self).keeps_others(old(self), task),
            old(self).world().steps_to(
                Step::Load { task: task as nat, cell },
                final(self).world(),
            ),
    {
        if let Some(Party::Owner { id }) = self.take_out(task) {
            let read = Read::begin(&self.region, cell, id);
            self.parties.set(task, Some(Party::Loaded { read }));
            proof {
                self.region.lemma_follows(&self.region, &self.region);
                self.lemma_stepped(old(self), Step::Load { task: task as nat, cell }, task as int);
            }
        }
    }

    /// Store the address that was loaded in the hazard pointer.
    pub fn protect(&mut self, task: usize)
        requires
            old(self).wf(),
            old(self).has(task),
            old(self).task(task) is Loaded,
        ensures
            final(self).wf(),
            final(self).keeps_others(old(self), task),
            old(self).world().steps_to(Step::Protect { task: task as nat }, final(self).world()),
    {
        if let Some(Party::Loaded { read }) = self.take_out(task) {
            read.protect(&mut self.region);
            self.parties.set(task, Some(Party::Protected { read }));
            proof {
                self.lemma_stepped(old(self), Step::Protect { task: task as nat }, task as int);
            }
        }
    }

    /// Compare what was loaded with what the cell holds now. If they are the same, the read went
    /// through; otherwise it goes on with what the cell holds now.
    pub fn validate(&mut self, task: usize, action: Action) -> (validated: bool)
        requires
            old(self).wf(),
            old(self).has(task),
            old(self).task(task) is Protected,
            old(self).world().state.cells.contains_key(old(self).task(task)->Protected_cell),
        ensures
            final(self).wf(),
            final(self).keeps_others(old(self), task),
            old(self).world().steps_to(
                Step::Validate { task: task as nat, action },
                final(self).world(),
            ),
            validated == (final(self).task(task) is Reading),
    {
        let mut validated = false;
        if let Some(Party::Protected { read }) = self.take_out(task) {
            let party = match read.validate(&self.region, action) {
                Ok(handle) => {
                    validated = true;
                    Party::Reading { handle }
                },
                Err(read) => Party::Loaded { read },
            };
            self.parties.set(task, Some(party));
            proof {
                self.region.lemma_follows(&self.region, &self.region);
                self.lemma_stepped(
                    old(self),
                    Step::Validate { task: task as nat, action },
                    task as int,
                );
            }
        }
        validated
    }

    /// Look at the value that a read led to, if it went through.
    pub fn look(&self, task: usize) -> (value: Option<&T>)
        requires
            self.wf(),
            self.has(task),
        ensures
            match self.task(task) {
                Task::Reading { ptr, .. } => value == Some(&self.world().state.values[ptr]),
                _ => value is None,
            },
    {
        match &self.parties[task] {
            Some(Party::Reading { handle }) => Some(handle.deref(&self.region)),
            _ => None,
        }
    }

    /// Last step of a read: drop the handle.
    pub fn done(&mut self, task: usize)
        requires
            old(self).wf(),
            old(self).has(task),
            old(self).task(task) is Reading,
        ensures
            final(self).wf(),
            final(self).keeps_others(old(self), task),
            old(self).world().steps_to(Step::Done { task: task as nat }, final(self).world()),
    {
        if let Some(Party::Reading { handle }) = self.take_out(task) {
            let reader = handle.reader();
            handle.drop(&mut self.region);
            if let Some(id) = reader {
                self.parties.set(task, Some(Party::Owner { id }));
            }
            proof {
                self.lemma_stepped(old(self), Step::Done { task: task as nat }, task as int);
            }
        }
    }

    /// Give a hazard pointer up that guards nothing.
    pub fn release(&mut self, task: usize)
        requires
            old(self).wf(),
            old(self).has(task),
            old(self).task(task) is Owner,
        ensures
            final(self).wf(),
            final(self).keeps_others(old(self), task),
            old(self).world().steps_to(Step::Release { task: task as nat }, final(self).world()),
    {
        if let Some(Party::Owner { id }) = self.take_out(task) {
            self.region.release(id);
            proof {
                self.lemma_stepped(old(self), Step::Release { task: task as nat }, task as int);
            }
        }
    }

    /// First step of a write: allocate a value.
    pub fn allocate(&mut self, value: T) -> (task: usize)
        requires
            old(self).wf(),
        ensures
            final(self).wf(),
            final(self).keeps_others(old(self), task),
            final(self).has(task),
            final(self).task(task) is Private,
            old(self).world().steps_to(
                Step::Allocate {
                    task: task as nat,
                    ptr: final(self).task(task)->Private_ptr,
                    value,
                },
                final(self).world(),
            ),
    {
        let ptr = self.region.allocate(value);
        let task = self.parties.len();
        self.parties.push(Some(Party::Private { ptr }));
        proof {
            self.region.lemma_state();
            self.region.lemma_follows(&self.region, &self.region);
            self.lemma_stepped(
                old(self),
                Step::Allocate { task: task as nat, ptr, value },
                task as int,
            );
        }
        task
    }

    /// Make a new cell of an allocated value.
    pub fn publish(&mut self, task: usize) -> (cell: usize)
        requires
            old(self).wf(),
            old(self).has(task),
            old(self).task(task) is Private,
        ensures
            final(self).wf(),
            final(self).keeps_others(old(self), task),
            old(self).world().steps_to(
                Step::Publish { task: task as nat, cell },
                final(self).world(),
            ),
    {
        let mut cell: usize = 0;
        if let Some(Party::Private { ptr }) = self.take_out(task) {
            proof {
                assert(old(self).world().tasks[task as nat].owns(ptr));
            }
            cell = self.region.new_cell(ptr);
            proof {
                self.region.lemma_follows(&self.region, &self.region);
                self.lemma_stepped(
                    old(self),
                    Step::Publish { task: task as nat, cell },
                    task as int,
                );
            }
        }
        cell
    }

    /// Swap out the value of a cell for an allocated one.
    pub fn swap(&mut self, task: usize, cell: usize)
        requires
            old(self).wf(),
            old(self).has(task),
            old(self).task(task) is Private,
            old(self).world().state.cells.contains_key(cell),
        ensures
            final(self).wf(),
            final(self).keeps_others(old(self), task),
            old(self).world().steps_to(
                Step::Swap { task: task as nat, cell },
                final(self).world(),
            ),
    {
        if let Some(Party::Private { ptr }) = self.take_out(task) {
            proof {
                assert(old(self).world().tasks[task as nat].owns(ptr));
            }
            let old_ptr = self.region.swap(cell, ptr);
            self.parties.set(task, Some(Party::Private { ptr: old_ptr }));
            proof {
                self.region.lemma_follows(&self.region, &self.region);
                self.lemma_stepped(old(self), Step::Swap { task: task as nat, cell }, task as int);
            }
        }
    }

    /// Last step of a write: retire the value that was swapped out.
    pub fn retire(&mut self, task: usize)
        requires
            old(self).wf(),
            old(self).has(task),
            old(self).task(task) is Private,
        ensures
            final(self).wf(),
            final(self).keeps_others(old(self), task),
            old(self).world().steps_to(Step::Retire { task: task as nat }, final(self).world()),
    {
        if let Some(Party::Private { ptr }) = self.take_out(task) {
            proof {
                assert(old(self).world().tasks[task as nat].owns(ptr));
                self.region.lemma_state();
            }
            self.region.just_retire(RetiredPtr::new(ptr));
            proof {
                self.lemma_stepped(old(self), Step::Retire { task: task as nat }, task as int);
            }
        }
    }

    /// Take a cell apart, and keep its value.
    pub fn remove_cell(&mut self, cell: usize) -> (task: usize)
        requires
            old(self).wf(),
            old(self).world().state.cells.contains_key(cell),
        ensures
            final(self).wf(),
            final(self).keeps_others(old(self), task),
            final(self).has(task),
            final(self).task(task) is Private,
            old(self).world().steps_to(
                Step::RemoveCell { task: task as nat, cell },
                final(self).world(),
            ),
    {
        let ptr = self.region.remove_cell(cell);
        let task = self.parties.len();
        self.parties.push(Some(Party::Private { ptr }));
        proof {
            self.region.lemma_follows(&self.region, &self.region);
            self.lemma_stepped(
                old(self),
                Step::RemoveCell { task: task as nat, cell },
                task as int,
            );
        }
        task
    }

    /// Free a value that nobody reads.
    pub fn free(&mut self, task: usize) -> (value: Option<T>)
        requires
            old(self).wf(),
            old(self).has(task),
            old(self).task(task) is Private,
            !old(self).world().state.words.contains_value(old(self).task(task)->Private_ptr),
        ensures
            final(self).wf(),
            final(self).keeps_others(old(self), task),
            value == Some(
                old(self).world().state.values[old(self).task(task)->Private_ptr],
            ),
            old(self).world().steps_to(Step::Free { task: task as nat }, final(self).world()),
    {
        match self.take_out(task) {
            Some(Party::Private { ptr }) => {
                proof {
                    assert(old(self).world().tasks[task as nat].owns(ptr));
                }
                let value = self.region.free(ptr);
                proof {
                    self.region.lemma_follows(&self.region, &self.region);
                    self.lemma_stepped(old(self), Step::Free { task: task as nat }, task as int);
                }
                Some(value)
            },
            _ => None,
        }
    }

    /// First step of a reclamation: take all the garbage.
    pub fn take(&mut self) -> (task: usize)
        requires
            old(self).wf(),
        ensures
            final(self).wf(),
            final(self).keeps_others(old(self), task),
            final(self).has(task),
            final(self).task(task) is Taken,
            final(self).left(task) == old(self).world().state.garbage.len(),
            old(self).world().steps_to(Step::Take { task: task as nat }, final(self).world()),
    {
        let retired_ptrs = self.region.take_retired();
        let task = self.parties.len();
        proof {
            addrs_of(retired_ptrs@).unique_seq_to_set();
        }
        self.parties.push(Some(Party::Taken { retired_ptrs }));
        proof {
            self.lemma_stepped(old(self), Step::Take { task: task as nat }, task as int);
        }
        task
    }

    /// Compare what was taken with the bulk size: if it is enough, the hazard pointers are looked at
    /// next; otherwise it is put back.
    pub fn is_enough(&mut self, task: usize) -> (enough: bool)
        requires
            old(self).wf(),
            old(self).has(task),
            old(self).task(task) is Taken,
        ensures
            final(self).wf(),
            final(self).keeps_others(old(self), task),
            enough == (old(self).task(task)->Taken_taken.len()
                >= old(self).world().state.bulk_size()),
            final(self).left(task) == old(self).left(task),
            old(self).world().steps_to(Step::Weigh { task: task as nat }, final(self).world()),
    {
        let mut enough = false;
        if let Some(Party::Taken { retired_ptrs }) = self.take_out(task) {
            proof {
                addrs_of(retired_ptrs@).unique_seq_to_set();
            }
            enough = self.region.is_enough(retired_ptrs.iter().count());
            self.parties.set(task, Some(Party::Taken { retired_ptrs }));
            proof {
                self.lemma_stepped(old(self), Step::Weigh { task: task as nat }, task as int);
            }
        }
        enough
    }

    /// Begin to look at the hazard pointers.
    pub fn begin_scan(&mut self, task: usize)
        requires
            old(self).wf(),
            old(self).has(task),
            old(self).task(task) is Taken,
            old(self).task(task)->Taken_taken.len() >= old(self).world().state.bulk_size(),
        ensures
            final(self).wf(),
            final(self).keeps_others(old(self), task),
            final(self).left(task) == old(self).left(task),
            old(self).world().steps_to(
                Step::BeginScan { task: task as nat },
                final(self).world(),
            ),
    {
        if let Some(Party::Taken { retired_ptrs }) = self.take_out(task) {
            let scan = self.region.begin_scan();
            self.parties.set(task, Some(Party::Scanning { retired_ptrs, scan }));
            proof {
                assert(scan.seen().to_set() =~= Set::<usize>::empty());
                self.lemma_stepped(old(self), Step::BeginScan { task: task as nat }, task as int);
            }
        }
    }

    /// Look at the next hazard pointer, if there is one left.
    pub fn scan(&mut self, task: usize) -> (more: bool)
        requires
            old(self).wf(),
            old(self).has(task),
            old(self).task(task) is Reclaiming,
        ensures
            final(self).wf(),
            final(self).keeps_others(old(self), task),
            final(self).left(task) == old(self).left(task),
            more == !old(self).task(task)->todo.is_empty(),
            more ==> exists|id: usize|
                #[trigger] old(self).world().steps_to(
                    Step::Scan { task: task as nat, id },
                    final(self).world(),
                ),
            !more ==> final(self).world() == old(self).world(),
    {
        proof {
            self.region.lemma_follows(&self.region, &self.region);
        }
        match self.take_out(task) {
            Some(Party::Scanning { retired_ptrs, scan: mut scan }) => {
                let ghost todo = scan.todo();
                let ghost seen = scan.seen();
                let more = self.region.scan(&mut scan);
                self.parties.set(task, Some(Party::Scanning { retired_ptrs, scan }));
                proof {
                    if more {
                        let id = todo[0];
                        assert(todo.to_set().contains(id));
                        lemma_looked_at(todo, Seq::empty());
                        assert(todo + Seq::<usize>::empty() =~= todo);
                        assert(todo.drop_first() + Seq::<usize>::empty() =~= todo.drop_first());
                        seen.lemma_push_to_set_commute(self.region@.words[id]);
                        self.lemma_stepped(
                            old(self),
                            Step::Scan { task: task as nat, id },
                            task as int,
                        );
                    } else {
                        assert(todo.to_set() =~= Set::<usize>::empty());
                        self.lemma_unchanged(old(self), task as int);
                    }
                }
                more
            },
            party => {
                self.parties.set(task, party);
                proof {
                    self.lemma_unchanged(old(self), task as int);
                }
                false
            },
        }
    }

    /// Look at the next value that was taken, if there is one left, and free it unless one of the
    /// hazard pointers held its address.
    pub fn sweep(&mut self, task: usize) -> (more: bool)
        requires
            old(self).wf(),
            old(self).has(task),
            old(self).task(task) is Reclaiming,
            old(self).task(task)->todo.is_empty(),
        ensures
            final(self).wf(),
            final(self).keeps_others(old(self), task),
            more == (old(self).left(task) > 0),
            more ==> final(self).left(task) == old(self).left(task) - 1,
            more ==> final(self).world() == old(self).world() || exists|ptr: usize|
                #[trigger] old(self).world().steps_to(
                    Step::Sweep { task: task as nat, ptr },
                    final(self).world(),
                ),
            !more ==> {
                &&& final(self).left(task) == 0
                &&& final(self).world() == old(self).world()
                &&& old(self).task(task)->Reclaiming_taken.subset_of(old(self).task(task)->seen)
            },
    {
        proof {
            self.region.lemma_follows(&self.region, &self.region);
        }
        let (sweep, hzrd_ptrs) = match self.take_out(task) {
            Some(Party::Scanning { retired_ptrs, scan }) => (
                Sweep::new(retired_ptrs),
                scan.finish(),
            ),
            Some(Party::Sweeping { sweep, hzrd_ptrs }) => (sweep, hzrd_ptrs),
            _ => (Sweep::new(SharedStack::new()), HzrdPtrs::new()),
        };
        let mut sweep = sweep;
        let ghost left = sweep.left();
        let ghost kept = sweep.kept();
        let ghost taken = (left + kept).to_set();
        proof {
            let party = old(self).parties@[task as int]->0;
            assert(addrs_of(party->Scanning_retired_ptrs@) + Seq::<usize>::empty() =~= addrs_of(
                party->Scanning_retired_ptrs@,
            ));
            assert(taken == party.task()->0->Reclaiming_taken);
            assert(hzrd_ptrs@.to_set() == party.task()->0->seen);
            if left.len() > 0 {
                lemma_looked_at(left, kept);
                assert(party.task()->0.owns(left[0]));
            }
        }
        let more = self.region.sweep(&mut sweep, &hzrd_ptrs);
        self.parties.set(task, Some(Party::Sweeping { sweep, hzrd_ptrs }));
        proof {
            if more {
                let ptr = left[0];
                if hzrd_ptrs@.contains(ptr) {
                    assert forall|i: int| 0 <= i < sweep.kept().len() implies hzrd_ptrs@.contains(
                        #[trigger] sweep.kept()[i],
                    ) by {
                        if i > 0 {
                            assert(sweep.kept()[i] == kept[i - 1]);
                        }
                    }
                    self.lemma_unchanged(old(self), task as int);
                } else {
                    self.lemma_stepped(
                        old(self),
                        Step::Sweep { task: task as nat, ptr },
                        task as int,
                    );
                }
            } else {
                assert(left + kept =~= kept);
                self.lemma_unchanged(old(self), task as int);
            }
        }
        more
    }

    /// Last step of a reclamation: put back what was not freed.
    pub fn put_back(&mut self, task: usize)
        requires
            old(self).wf(),
            old(self).has(task),
            match old(self).task(task) {
                Task::Taken { taken } => taken.len() < old(self).world().state.bulk_size(),
                Task::Reclaiming { .. } => old(self).left(task) == 0,
                _ => false,
            },
        ensures
            final(self).wf(),
            final(self).keeps_others(old(self), task),
            old(self).world().steps_to(Step::PutBack { task: task as nat }, final(self).world()),
    {
        let (retired_ptrs, hzrd_ptrs) = match self.take_out(task) {
            Some(Party::Taken { retired_ptrs }) => (retired_ptrs, HzrdPtrs::new()),
            Some(Party::Scanning { retired_ptrs, scan }) => (retired_ptrs, scan.finish()),
            Some(Party::Sweeping { sweep, hzrd_ptrs }) => (sweep.finish(), hzrd_ptrs),
            _ => (SharedStack::new(), HzrdPtrs::new()),
        };
        proof {
            let task = old(self).parties@[task as int]->0.task()->0;
            assert forall|i: int| 0 <= i < retired_ptrs@.len() implies self.region@.private(
                #[trigger] addrs_of(retired_ptrs@)[i],
            ) by {
                assert(task.owns(addrs_of(retired_ptrs@)[i]));
            }
        }
        self.region.put_back(retired_ptrs);
        let ghost between = self.region;
        self.region.unload(hzrd_ptrs);
        proof {
            self.region.lemma_follows(&between, &old(self).region);
            self.lemma_stepped(old(self), Step::PutBack { task: task as nat }, task as int);
        }
    }
}

} // verus!

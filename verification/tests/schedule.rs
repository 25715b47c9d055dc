use std::cell::Cell;
use std::rc::Rc;

use hzrd::domains::{Config, SharedDomain};
use hzrd::hazard::Action;
use hzrd::schedule::Schedule;

/// A value that tells when it is dropped.
struct Counted {
    value: usize,
    drops: Rc<Cell<usize>>,
}

impl Drop for Counted {
    fn drop(&mut self) {
        self.drops.set(self.drops.get() + 1);
    }
}

/// What is left to do for somebody who sets or gets the value of a cell.
enum Todo {
    Allocate(Counted),
    Swap(usize),
    Retire(usize),
    Take,
    Weigh(usize),
    BeginScan(usize),
    Scan(usize),
    Sweep(usize),
    PutBack(usize),
    Search,
    Acquire(usize),
    Load(usize),
    Protect(usize),
    Validate(usize),
    Look(usize),
    Done(usize),
    Nothing,
}

impl Todo {
    /// Make the next step, and put down what was read, if that was it.
    fn step(self, schedule: &mut Schedule<Counted>, cell: usize, read: &mut Vec<usize>) -> Todo {
        match self {
            Todo::Allocate(value) => Todo::Swap(schedule.allocate(value)),
            Todo::Swap(task) => {
                schedule.swap(task, cell);
                Todo::Retire(task)
            }
            Todo::Retire(task) => {
                schedule.retire(task);
                Todo::Take
            }
            Todo::Take => Todo::Weigh(schedule.take()),
            Todo::Weigh(task) => match schedule.is_enough(task) {
                true => Todo::BeginScan(task),
                false => Todo::PutBack(task),
            },
            Todo::BeginScan(task) => {
                schedule.begin_scan(task);
                Todo::Scan(task)
            }
            Todo::Scan(task) => match schedule.scan(task) {
                true => Todo::Scan(task),
                false => Todo::Sweep(task),
            },
            Todo::Sweep(task) => match schedule.sweep(task) {
                true => Todo::Sweep(task),
                false => Todo::PutBack(task),
            },
            Todo::PutBack(task) => {
                schedule.put_back(task);
                Todo::Nothing
            }
            Todo::Search => Todo::Acquire(schedule.begin_acquire()),
            Todo::Acquire(task) => match schedule.acquire(task) {
                true => Todo::Load(task),
                false => Todo::Acquire(task),
            },
            Todo::Load(task) => {
                schedule.load(task, cell);
                Todo::Protect(task)
            }
            Todo::Protect(task) => {
                schedule.protect(task);
                Todo::Validate(task)
            }
            Todo::Validate(task) => match schedule.validate(task, Action::Release) {
                true => Todo::Look(task),
                false => Todo::Protect(task),
            },
            Todo::Look(task) => {
                read.push(schedule.look(task).unwrap().value);
                Todo::Done(task)
            }
            Todo::Done(task) => {
                schedule.done(task);
                Todo::Nothing
            }
            Todo::Nothing => Todo::Nothing,
        }
    }

    fn is_over(&self) -> bool {
        matches!(self, Todo::Nothing)
    }
}

fn run(mut todo: Todo, schedule: &mut Schedule<Counted>, cell: usize) -> Vec<usize> {
    let mut read = Vec::new();
    while !todo.is_over() {
        todo = todo.step(schedule, cell, &mut read);
    }
    read
}

/// Sets the value to 1 and to 2 while somebody else gets it. Whose turn it is at each step is given
/// by `turns`; after that nobody is interrupted any more. Returns everybody's turns, along with who
/// else could have had each of them.
fn two_sets_and_a_get(turns: &[usize]) -> (Vec<usize>, Vec<Vec<usize>>) {
    let drops = Rc::new(Cell::new(0));
    let counted = |value: usize| Counted { value, drops: Rc::clone(&drops) };
    let mut schedule = Schedule::new(SharedDomain::new());
    let task = schedule.allocate(counted(0));
    let cell = schedule.publish(task);
    assert_eq!(run(Todo::Search, &mut schedule, cell), [0]);

    let mut parties = vec![
        Todo::Allocate(counted(1)),
        Todo::Allocate(counted(2)),
        Todo::Search,
    ];
    let mut taken: Vec<usize> = Vec::new();
    let mut possible = Vec::new();
    let mut read = Vec::new();
    while parties.iter().any(|todo| !todo.is_over()) {
        let able: Vec<usize> = (0..3).filter(|&i| !parties[i].is_over()).collect();
        let turn = match turns.get(taken.len()) {
            Some(turn) => *turn,
            None => match taken.last() {
                Some(last) if able.contains(last) => *last,
                _ => able[0],
            },
        };
        let todo = std::mem::replace(&mut parties[turn], Todo::Nothing);
        parties[turn] = todo.step(&mut schedule, cell, &mut read);
        taken.push(turn);
        possible.push(able);
    }

    assert_eq!(read.len(), 1);
    assert!(matches!(read[0], 0 | 1 | 2), "Value was {}", read[0]);

    run(Todo::Allocate(counted(3)), &mut schedule, cell);
    assert_eq!(run(Todo::Search, &mut schedule, cell), [3]);

    // Nobody reads any more, so all the old values are gone
    assert_eq!(schedule.region().domain().number_of_retired_ptrs(), 0);
    assert_eq!(drops.get(), 3);
    let task = schedule.remove_cell(cell);
    assert_eq!(schedule.free(task).unwrap().value, 3);
    assert_eq!(drops.get(), 4);
    (taken, possible)
}

/// How often somebody had to wait who could have gone on.
fn interruptions(taken: &[usize], possible: &[Vec<usize>]) -> usize {
    (1..taken.len())
        .filter(|&i| taken[i] != taken[i - 1] && possible[i].contains(&taken[i - 1]))
        .count()
}

#[test]
fn my_first_loom_test() {
    // Every order of steps in which nobody is interrupted more than twice over
    let mut left = vec![Vec::new()];
    let mut orders = 0;
    while let Some(turns) = left.pop() {
        orders += 1;
        let (taken, possible) = two_sets_and_a_get(&turns);
        for i in turns.len()..taken.len() {
            for &other in possible[i].iter().filter(|&&other| other != taken[i]) {
                let mut turns = taken[..i].to_vec();
                turns.push(other);
                if interruptions(&turns, &possible[..=i]) <= 2 {
                    left.push(turns);
                }
            }
        }
    }
    assert!(orders > 1000);
}

#[test]
fn what_is_read_stays_while_others_write() {
    let drops = Rc::new(Cell::new(0));
    let counted = |value: usize| Counted { value, drops: Rc::clone(&drops) };
    let mut schedule = Schedule::new(SharedDomain::new());
    let task = schedule.allocate(counted(0));
    let cell = schedule.publish(task);

    // A reader loads the address of the value, which is then freed
    let reader = schedule.begin_acquire();
    assert!(schedule.acquire(reader));
    schedule.load(reader, cell);
    assert!(schedule.look(reader).is_none());
    run(Todo::Allocate(counted(1)), &mut schedule, cell);
    assert_eq!(drops.get(), 1);

    // The address is the one of a newer value by now, which the reader is none the wiser of
    run(Todo::Allocate(counted(2)), &mut schedule, cell);
    assert_eq!(drops.get(), 2);
    schedule.protect(reader);
    assert!(schedule.validate(reader, Action::Reset));
    assert_eq!(schedule.look(reader).unwrap().value, 2);

    // What is read stays
    for value in 3..10 {
        run(Todo::Allocate(counted(value)), &mut schedule, cell);
        assert_eq!(schedule.look(reader).unwrap().value, 2);
        assert_eq!(schedule.region().domain().number_of_retired_ptrs(), 1);
    }
    assert_eq!(drops.get(), 8);
    schedule.done(reader);
    run(Todo::Take, &mut schedule, cell);
    assert_eq!(drops.get(), 9);

    // The reader still has its hazard pointer
    schedule.load(reader, cell);
    schedule.protect(reader);
    assert!(schedule.validate(reader, Action::Reset));
    assert_eq!(schedule.look(reader).unwrap().value, 9);
    schedule.done(reader);
    schedule.release(reader);
    assert_eq!(schedule.region().domain().number_of_hzrd_ptrs(), 1);
}

#[test]
fn a_reclamation_that_saw_the_reader_too_early_spares_it() {
    let drops = Rc::new(Cell::new(0));
    let counted = |value: usize| Counted { value, drops: Rc::clone(&drops) };
    let mut schedule = Schedule::new(SharedDomain::new());
    let task = schedule.allocate(counted(0));
    let cell = schedule.publish(task);
    let reader = schedule.begin_acquire();
    assert!(schedule.acquire(reader));
    schedule.load(reader, cell);

    // The reclamation takes the garbage and looks at the hazard pointer before it holds anything
    let writer = schedule.allocate(counted(1));
    schedule.swap(writer, cell);
    schedule.retire(writer);
    let reclaimer = schedule.take();
    assert!(schedule.is_enough(reclaimer));
    schedule.begin_scan(reclaimer);
    assert!(schedule.scan(reclaimer));
    assert!(!schedule.scan(reclaimer));

    // The hazard pointer comes to hold the address too late, and the reader finds out
    schedule.protect(reader);
    assert!(schedule.sweep(reclaimer));
    assert!(!schedule.sweep(reclaimer));
    schedule.put_back(reclaimer);
    assert_eq!(drops.get(), 1);
    assert!(!schedule.validate(reader, Action::Release));
    schedule.protect(reader);
    assert!(schedule.validate(reader, Action::Release));
    assert_eq!(schedule.look(reader).unwrap().value, 1);
    schedule.done(reader);
}

#[test]
fn less_than_the_bulk_size_is_put_back() {
    let drops = Rc::new(Cell::new(0));
    let counted = |value: usize| Counted { value, drops: Rc::clone(&drops) };
    let config = Config::default().bulk_size(2);
    let mut schedule = Schedule::new(SharedDomain::with_config(config));
    let task = schedule.allocate(counted(0));
    let cell = schedule.publish(task);
    let writer = schedule.allocate(counted(1));
    schedule.swap(writer, cell);
    schedule.retire(writer);
    let reclaimer = schedule.take();
    assert_eq!(schedule.region().domain().number_of_retired_ptrs(), 0);
    assert!(!schedule.is_enough(reclaimer));
    schedule.put_back(reclaimer);
    assert_eq!(schedule.region().domain().number_of_retired_ptrs(), 1);
    assert_eq!(drops.get(), 0);

    // With one more it is enough
    run(Todo::Allocate(counted(2)), &mut schedule, cell);
    assert_eq!(schedule.region().domain().number_of_retired_ptrs(), 0);
    assert_eq!(drops.get(), 2);
}

#[test]
fn what_a_hazard_pointer_holds_from_before_stays() {
    let drops = Rc::new(Cell::new(0));
    let counted = |value: usize| Counted { value, drops: Rc::clone(&drops) };
    let mut schedule = Schedule::new(SharedDomain::new());
    let task = schedule.allocate(counted(0));
    let cell = schedule.publish(task);
    let reader = schedule.begin_acquire();
    assert!(schedule.acquire(reader));
    schedule.load(reader, cell);
    schedule.protect(reader);

    // The read has not gone through, and never will, but the hazard pointer holds the address
    for value in 1..5 {
        run(Todo::Allocate(counted(value)), &mut schedule, cell);
        assert_eq!(drops.get(), value - 1);
    }
    assert!(!schedule.validate(reader, Action::Release));
    schedule.protect(reader);
    run(Todo::Take, &mut schedule, cell);
    assert_eq!(drops.get(), 4);
    assert!(schedule.validate(reader, Action::Release));
    assert_eq!(schedule.look(reader).unwrap().value, 4);
    schedule.done(reader);
}

#[test]
fn nobody_gets_a_hazard_pointer_that_somebody_has() {
    let mut schedule: Schedule<Counted> = Schedule::new(SharedDomain::new());
    let first = schedule.begin_acquire();
    assert!(schedule.acquire(first));
    schedule.release(first);

    // Both come upon the one that is available
    let second = schedule.begin_acquire();
    let third = schedule.begin_acquire();
    assert!(schedule.acquire(third));
    assert!(!schedule.acquire(second));

    // So one of them has to make do with a new one
    assert!(schedule.acquire(second));
    assert_eq!(schedule.region().domain().number_of_hzrd_ptrs(), 2);

    // One that was given up behind the back of a search is not found by it
    let fourth = schedule.begin_acquire();
    assert!(!schedule.acquire(fourth));
    schedule.release(second);
    assert!(!schedule.acquire(fourth));
    assert!(schedule.acquire(fourth));
    assert_eq!(schedule.region().domain().number_of_hzrd_ptrs(), 3);
}

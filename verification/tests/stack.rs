use hzrd::heap::NULL;
use hzrd::stack::{IntoIter, Node, Push, SharedStack};

fn stack() -> SharedStack<i32> {
    let mut stack = SharedStack::new();
    stack.push(0);
    stack.push(1);
    stack.push(2);
    stack
}

fn drain<T>(mut iter: IntoIter<T>) -> Vec<T> {
    let mut values = Vec::new();
    while let Some(val) = iter.next() {
        values.push(val);
    }
    values
}

fn finish<T>(stack: &mut SharedStack<T>, mut push: Push) -> usize {
    let mut tries = 1;
    loop {
        match stack.try_push(push) {
            Ok(_) => break,
            Err(again) => push = again,
        }
        tries += 1;
    }
    stack.finish_push();
    tries
}

#[test]
fn stacks_first_test() {
    assert_eq!(stack().to_vec(), [2, 1, 0]);
}

#[test]
fn iter_test() {
    let stack = stack();
    assert_eq!(stack.iter().count(), 3);
}

#[test]
fn multiple_threads() {
    let mut stack = SharedStack::new();

    let one = stack.begin_push(1);
    let three = stack.begin_push(3);
    assert_eq!(finish(&mut stack, one), 1);
    let two = stack.begin_push(2);
    assert_eq!(finish(&mut stack, three), 2);
    let four = stack.begin_push(4);
    assert_eq!(finish(&mut stack, four), 1);
    assert_eq!(finish(&mut stack, two), 2);

    assert_eq!(stack.to_vec().len(), 4);
    assert_eq!(stack.to_vec(), [2, 4, 3, 1]);
    assert_eq!(stack.count(), 4);
}

#[test]
fn deep_types() {
    let mut stack = SharedStack::new();
    for _ in 0..100 {
        let one = stack.begin_push(vec![String::from("hello"), String::from("worlds")]);
        let other = stack.begin_push(vec![String::from("hazard"), String::from("pointer")]);
        finish(&mut stack, other);
        finish(&mut stack, one);
    }
    assert_eq!(stack.count(), 200);
    assert_eq!(stack.iter().count(), 200);
}

#[test]
fn stack_iterator() {
    let mut stack = SharedStack::from_iter(vec![String::from("A"), String::from("B")]);
    stack.extend(vec![String::from("C"), String::from("D")]);
    assert_eq!(drain(stack.into_iter()), ["D", "C", "B", "A"]);
}

#[test]
fn pushes_give_back_what_was_pushed() {
    let mut stack = SharedStack::new();
    assert_eq!(*stack.push(5), 5);
    *stack.push_mut(6) += 1;
    assert_eq!(stack.to_vec(), [7, 5]);
    let addr = stack.push_get(8);
    assert_eq!(*stack.get(addr), 8);
    *stack.get_mut(addr) = 9;
    assert_eq!(stack.to_vec(), [9, 7, 5]);
    assert_eq!(stack.top_node(), addr);
    let below = stack.next_node(addr);
    assert_eq!(*stack.get(below), 7);
    let bottom = stack.next_node(below);
    assert_eq!(stack.next_node(bottom), NULL);
}

#[test]
fn every_push_is_counted() {
    let mut stack = SharedStack::from_iter(vec![1, 2, 3]);
    assert_eq!(stack.count(), 3);
    stack.push(4);
    stack.push_mut(5);
    assert_eq!(stack.count(), 5);
    assert_eq!(stack.iter().count(), 5);
    let taken = stack.take();
    assert_eq!(taken.count(), 5);
    assert_eq!(stack.count(), 0);
}

#[test]
fn take_and_push_stack() {
    let mut stack = stack();
    let taken = stack.take();
    assert_eq!(stack.to_vec(), []);
    stack.push(10);
    stack.push_stack(taken);
    assert_eq!(stack.to_vec(), [2, 1, 0, 10]);
}

#[test]
fn a_push_overlaps_with_a_take() {
    let mut stack = stack();
    let push = stack.begin_push(3);
    let taken = stack.take();
    assert_eq!(taken.to_vec(), [2, 1, 0]);
    assert_eq!(finish(&mut stack, push), 2);
    assert_eq!(stack.to_vec(), [3]);
    assert_eq!(stack.count(), 1);
}

#[test]
fn what_is_not_counted_yet_counts_as_taken() {
    let mut stack = stack();
    let push = stack.begin_push(7);
    let on_top = stack.try_push(push).is_ok();
    assert!(on_top);
    assert_eq!(stack.count(), 3);

    let taken = stack.take();
    assert_eq!(taken.count(), 4);
    assert_eq!(stack.count(), usize::MAX);
    stack.push_stack(taken);
    assert_eq!(stack.count(), 3);
    stack.extend(vec![8, 9]);
    assert_eq!(stack.count(), 5);
    stack.finish_push();
    assert_eq!(stack.count(), 6);
    assert_eq!(stack.iter().count(), 6);
}

#[test]
fn a_failed_exchange_reads_the_top_anew() {
    let mut stack = SharedStack::new();
    let slow = stack.begin_push('s');
    stack.push('f');
    let again = match stack.try_push(slow) {
        Ok(_) => panic!("the top has changed"),
        Err(again) => again,
    };
    assert_eq!(stack.to_vec(), ['f']);
    assert!(stack.try_push(again).is_ok());
    assert_eq!(stack.to_vec(), ['s', 'f']);
    assert_eq!(stack.count(), 1);
    stack.finish_push();
    assert_eq!(stack.count(), 2);
}

#[test]
fn clear_frees_every_node() {
    let mut stack = stack();
    stack.clear();
    assert_eq!(stack.count(), 0);
    assert_eq!(stack.top_node(), NULL);
    stack.push(1);
    assert_eq!(stack.to_vec(), [1]);
    let empty: SharedStack<i32> = SharedStack::default();
    assert_eq!(empty.iter().count(), 0);
    let _node = Node::new(1);
}

#[test]
fn a_stack_of_what_a_stack_gave_back_is_in_order() {
    let values = vec![1, 2, 3, 4];
    let once = drain(SharedStack::from_iter(values.clone()).into_iter());
    assert_eq!(once, [4, 3, 2, 1]);
    let twice = drain(SharedStack::from_iter(once).into_iter());
    assert_eq!(twice, values);
}

#[test]
fn a_push_goes_on_after_others() {
    let mut stack = SharedStack::new();
    let slow = stack.begin_push(0);
    stack.push(1);
    *stack.push_mut(2) += 10;
    stack.extend(vec![3, 4]);
    let mut other = SharedStack::new();
    other.push(5);
    stack.push_stack(other);
    assert_eq!(finish(&mut stack, slow), 2);
    assert_eq!(stack.to_vec(), [0, 5, 4, 3, 12, 1]);
    assert_eq!(stack.count(), 6);
}

#[test]
fn each_pusher_keeps_its_order() {
    let mut stack = SharedStack::new();
    stack.push((9, 0));
    let mut under_way: Vec<_> = (0..3).map(|pusher| Some(stack.begin_push((pusher, 0)))).collect();
    let mut begun = vec![1; 3];
    let mut turn = 0;
    while under_way.iter().any(|push| push.is_some()) {
        turn = (turn * 5 + 3) % 7;
        let pusher = turn % 3;
        let push = match under_way[pusher].take() {
            Some(push) => push,
            None => match under_way.iter().position(|push| push.is_some()) {
                Some(other) => {
                    let push = under_way[other].take().unwrap();
                    finish(&mut stack, push);
                    continue;
                }
                None => unreachable!(),
            },
        };
        match stack.try_push(push) {
            Ok(_) => {
                stack.finish_push();
                if begun[pusher] < 10 {
                    under_way[pusher] = Some(stack.begin_push((pusher, begun[pusher])));
                    begun[pusher] += 1;
                }
            }
            Err(again) => under_way[pusher] = Some(again),
        }
    }
    let values = stack.to_vec();
    for pusher in 0..3 {
        let pushed: Vec<_> = values.iter().rev().filter(|v| v.0 == pusher).map(|v| v.1).collect();
        assert_eq!(pushed, (0..begun[pusher]).collect::<Vec<_>>());
    }
    assert_eq!(values.last(), Some(&(9, 0)));
    assert_eq!(stack.count(), values.len());
}

#[test]
fn a_cursor_ignores_what_is_pushed_meanwhile() {
    let mut stack = stack();
    let mut cursor = stack.cursor();
    let mut seen = Vec::new();
    loop {
        stack.push(10);
        match cursor.next(&stack) {
            Some(val) => seen.push(*val),
            None => break,
        }
        stack.extend(vec![20, 30]);
    }
    assert_eq!(seen, [2, 1, 0]);
    assert_eq!(cursor.next(&stack), None);
    assert_eq!(stack.count(), 3 + 4 + 6);
    let mut nodes = stack.cursor();
    assert_eq!(nodes.next_node(&stack), Some(stack.top_node()));
}

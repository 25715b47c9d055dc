use hzrd::linked_list::{LinkedList, Node};

#[test]
fn make_empty() {
    let list: LinkedList<i32> = LinkedList::new();
    assert!(list.is_empty());
}

#[test]
fn list_i32() {
    let mut list = LinkedList::new();
    list.push_back(0);
    list.push_back(1);
    assert_eq!(list.pop_back(), Some(1));
    assert_eq!(list.pop_back(), Some(0));
    assert_eq!(list.pop_back(), None);
}

#[test]
fn list_from_arr() {
    let mut list = LinkedList::from([1, 2, 3]);
    assert_eq!(list.pop_back(), Some(3));
    assert_eq!(list.pop_back(), Some(2));
    assert_eq!(list.pop_back(), Some(1));
    assert_eq!(list.pop_back(), None);
}

#[test]
fn list_from_vec() {
    let vec = vec![1, 2, 3, 4, 5];
    let mut list = LinkedList::from(vec);
    assert_eq!(list.pop_back(), Some(5));
    assert_eq!(list.pop_back(), Some(4));
    assert_eq!(list.pop_back(), Some(3));
    assert_eq!(list.pop_back(), Some(2));
    assert_eq!(list.pop_back(), Some(1));
    assert_eq!(list.pop_back(), None);
}

#[test]
fn frees() {
    let vec = vec![1, 2, 3, 4, 5];
    let _ = LinkedList::from(vec);
}

#[test]
fn linked_list_iterator() {
    let vec_1 = vec![1, 2, 3, 4, 5];
    let list = LinkedList::from(vec_1.clone());
    let vec_2 = list.collect();
    assert_eq!(vec_1, vec_2);
}

#[test]
fn iter() {
    struct NonCopyInt(i32);
    let vec: Vec<NonCopyInt> = [1, 2, 3, 4, 5].into_iter().map(NonCopyInt).collect();
    let list = LinkedList::from(vec);
    let mut refs: Vec<&NonCopyInt> = Vec::new();
    let mut iter = list.iter();
    while let Some(elem) = iter.next() {
        refs.push(elem);
    }
    assert_eq!(refs.iter().map(|elem| elem.0).collect::<Vec<_>>(), [1, 2, 3, 4, 5]);
}

#[test]
fn iter_mut() {
    let vec = vec![1, 2, 3, 4, 5];
    let mut list = LinkedList::from(vec);
    let mut iter = list.iter_mut();
    while let Some(element) = iter.next() {
        *element += 1;
    }
    let vec = list.collect();
    assert_eq!(vec, [2, 3, 4, 5, 6]);
}

#[test]
fn remove_node() {
    let mut list = LinkedList::from([1, 2, 3]);
    let first = list.head_node().unwrap();
    let middle = list.tail_node().unwrap();
    list.push_back(4);
    list.push_back(5);
    let last = list.tail_node().unwrap();

    assert_eq!(list.remove_node(first), 1);
    assert_eq!(list.remove_node(middle), 3);
    assert_eq!(list.remove_node(last), 5);
    assert_eq!(list.collect(), [2, 4]);
}

#[test]
fn length() {
    let mut list = LinkedList::from([1, 2, 3]);
    assert_eq!(list.len(), 3);
    assert!(!list.is_empty());

    list.push_front(0);
    list.push_back(4);
    assert_eq!(list.len(), 5);
    assert!(!list.is_empty());

    list.pop_front().unwrap();
    assert_eq!(list.len(), 4);
    assert!(!list.is_empty());

    list.pop_front().unwrap();
    list.pop_back().unwrap();
    assert_eq!(list.len(), 2);
    assert!(!list.is_empty());

    list.pop_back().unwrap();
    list.pop_back().unwrap();
    assert_eq!(list.len(), 0);
    assert!(list.is_empty());

    assert!(list.pop_back().is_none());
    assert_eq!(list.len(), 0);
    assert!(list.is_empty());
}

#[test]
fn both_ends_of_an_iterator_meet() {
    let list = LinkedList::from(vec!['a', 'b', 'c']);
    let mut iter = list.iter();
    assert_eq!(iter.size_hint(), (3, Some(3)));
    assert_eq!(iter.next(), Some(&'a'));
    assert_eq!(iter.next_back(), Some(&'c'));
    assert_eq!(iter.size_hint(), (1, Some(1)));
    assert_eq!(iter.next_back(), Some(&'b'));
    assert_eq!(iter.size_hint(), (0, Some(0)));
}

#[test]
fn an_iterator_ends_at_the_end_that_it_came_to() {
    let list = LinkedList::from(vec!['a', 'b']);
    let mut iter = list.iter();
    assert_eq!(iter.next(), Some(&'a'));
    assert_eq!(iter.next(), Some(&'b'));
    assert_eq!(iter.next(), None);
    assert_eq!(iter.next(), None);

    let mut iter = list.iter();
    assert_eq!(iter.next_back(), Some(&'b'));
    assert_eq!(iter.next_back(), Some(&'a'));
    assert_eq!(iter.next_back(), None);
    assert_eq!(iter.size_hint(), (0, Some(0)));

    let mut list: LinkedList<char> = LinkedList::new();
    assert_eq!(list.iter().next(), None);
    assert_eq!(list.iter().next_back(), None);
    assert!(list.iter_mut().next().is_none());
    assert!(list.iter_mut().next_back().is_none());
}

#[test]
fn iter_mut_from_the_back() {
    let mut list = LinkedList::from(vec![1, 2, 3]);
    let mut iter = list.iter_mut();
    assert_eq!(iter.size_hint(), (3, Some(3)));
    *iter.next_back().unwrap() = 30;
    *iter.next().unwrap() = 10;
    *iter.next_back().unwrap() = 20;
    assert_eq!(iter.size_hint(), (0, Some(0)));
    assert_eq!(list.collect(), [10, 20, 30]);
}

#[test]
fn single_and_push_front() {
    let mut list = LinkedList::single(2);
    list.push_front(1);
    assert_eq!(list.len(), 2);
    assert_eq!(list.next(), Some(1));
    assert_eq!(list.next(), Some(2));
    assert_eq!(list.next(), None);
    list.push_front(7);
    assert_eq!(list.head_node(), list.tail_node());
    assert_eq!(list.pop_front(), Some(7));
    assert_eq!(list.head_node(), None);
}

#[test]
fn nodes_are_found_by_address() {
    let mut list = LinkedList::from(vec![5, 6, 7]);
    let first = list.head_node().unwrap();
    let second = list.next_node(first).unwrap();
    assert_eq!(*list.get(second), 6);
    *Node::get_from_ptr(&mut list, second) = 60;
    let third = list.next_node(second).unwrap();
    assert_eq!(list.next_node(third), None);
    assert_eq!(list.remove_node(second), 60);
    assert_eq!(list.next_node(first), Some(third));
    assert_eq!(list.collect(), [5, 7]);
}

#[test]
fn default_is_empty() {
    let list: LinkedList<u8> = LinkedList::default();
    assert!(list.is_empty());
    assert_eq!(list.collect(), []);
}

#[test]
fn nodes_stay_when_others_go() {
    let mut list = LinkedList::from(vec![1, 2, 3]);
    let last = list.tail_node().unwrap();
    assert_eq!(list.next(), Some(1));
    assert_eq!(*list.get(last), 3);
    assert_eq!(list.remove_node(last), 3);
    list.push_back(4);
    assert_eq!(list.pop_back(), Some(4));
    list.push_front(0);
    assert_eq!(list.pop_front(), Some(0));
    list.push_back(5);
    assert_eq!(list.pop_front(), Some(2));
    assert_eq!(list.collect(), [5]);
}

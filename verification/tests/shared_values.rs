use std::cell::Cell;
use std::rc::Rc;

use hzrd::cell::HzrdCell;
use hzrd::gc;
use hzrd::hazard::{Domain, RetiredPtr};
use hzrd::heap::Heap;
use hzrd::pair::{HzrdReader, HzrdWriter, Ptrs};

/// Counts how many of its kind were dropped.
struct Counted(Rc<Cell<usize>>);

impl Drop for Counted {
    fn drop(&mut self) {
        self.0.set(self.0.get() + 1);
    }
}

#[test]
fn shallow_drop_test() {
    let mut heap = Heap::new();
    HzrdCell::new(0, &mut heap).drop(&mut heap);
}

#[test]
fn cell_deep_drop_test() {
    let mut heap = Heap::new();
    HzrdCell::new(vec![1, 2, 3], &mut heap).drop(&mut heap);
}

#[test]
fn single() {
    let mut heap = Heap::new();
    let string = String::new();
    let mut cell = HzrdCell::new(string, &mut heap);

    {
        let handle = HzrdCell::read(&mut cell, &mut heap);
        assert_eq!(cell.deref(&handle, &heap).len(), 0);
        assert_eq!(*cell.deref(&handle, &heap), "");
        cell.done(handle, &mut heap);
    }

    let new_string = String::from("Hello world!");
    cell.set(&mut heap, new_string);

    {
        let handle = HzrdCell::read(&mut cell, &mut heap);
        assert_eq!(cell.deref(&handle, &heap).len(), 12);
        assert_eq!(*cell.deref(&handle, &heap), "Hello world!");
        cell.done(handle, &mut heap);
    }

    cell.reclaim(&mut heap);
}

#[test]
fn double() {
    let mut heap = Heap::new();
    let string = String::new();
    let mut cell = HzrdCell::new(string, &mut heap);

    let mut cell_1 = HzrdCell::clone(&cell, &mut heap);
    let slow = HzrdCell::read(&mut cell_1, &mut heap);

    let mut cell_2 = HzrdCell::clone(&cell, &mut heap);
    let handle = HzrdCell::read(&mut cell_2, &mut heap);
    assert_eq!(*cell_2.deref(&handle, &heap), "");
    cell_2.done(handle, &mut heap);
    let new_string = String::from("Hello world!");
    cell_2.set(&mut heap, new_string);
    cell_2.drop(&mut heap);

    assert_eq!(*cell_1.deref(&slow, &heap), "");
    cell_1.done(slow, &mut heap);
    cell_1.drop(&mut heap);

    cell.reclaim(&mut heap);
    assert_eq!(cell.cloned(&mut heap), "Hello world!");
}

#[test]
fn cell_manual_reclaim() {
    let mut heap = Heap::new();
    let cell = HzrdCell::new([1, 2, 3], &mut heap);

    cell.just_set(&mut heap, [4, 5, 6]);
    assert_eq!(cell.num_retired(&heap), 1);

    cell.just_set(&mut heap, [7, 8, 9]);
    assert_eq!(cell.num_retired(&heap), 2);

    cell.reclaim(&mut heap);
    assert_eq!(cell.num_retired(&heap), 0);
}

#[test]
fn cell_from_boxed() {
    let mut heap = Heap::new();
    let boxed = Box::new([1, 2, 3]);
    let mut cell = HzrdCell::from(boxed, &mut heap);
    let arr = cell.cloned(&mut heap);
    assert_eq!(arr, [1, 2, 3]);
    cell.set(&mut heap, arr.map(|x| x + 1));
    assert_eq!(cell.cloned(&mut heap), [2, 3, 4]);
}

#[test]
fn the_value_goes_with_the_last_clone() {
    let drops = Rc::new(Cell::new(0));
    let mut heap = Heap::new();
    let cell = HzrdCell::new(Counted(Rc::clone(&drops)), &mut heap);
    let clone = cell.clone(&mut heap);
    cell.drop(&mut heap);
    assert_eq!(drops.get(), 0);
    let another = clone.clone(&mut heap);
    clone.just_set(&mut heap, Counted(Rc::clone(&drops)));
    clone.drop(&mut heap);
    assert_eq!(drops.get(), 0);
    assert_eq!(another.num_retired(&heap), 1);
    another.drop(&mut heap);
    assert_eq!(drops.get(), 2);
}

#[test]
fn clones_lead_to_the_same_value() {
    let mut heap = Heap::new();
    let mut cell = HzrdCell::new(1, &mut heap);
    let mut clone = cell.clone(&mut heap);
    let mut other = HzrdCell::new(10, &mut heap);
    clone.set(&mut heap, 2);
    assert_eq!(cell.get(&mut heap), 2);
    cell.set(&mut heap, 3);
    assert_eq!(clone.get(&mut heap), 3);
    assert_eq!(other.get(&mut heap), 10);
}

#[test]
fn pair_deep_drop_test() {
    let _ = HzrdWriter::new(String::from("Hello"));
}

#[test]
fn writer_moved() {
    let writer = HzrdWriter::new('a');
    let mut moved = writer;
    let mut reader = moved.new_reader();
    let val: char = reader.get(&mut moved);
    assert_eq!(val, 'a');
}

#[test]
fn pair_from_boxed() {
    let boxed = Box::new([1, 2, 3]);
    let _ = HzrdWriter::from(boxed);
}

#[test]
fn fancy() {
    let mut writer = HzrdWriter::new(0);

    let mut reader_1 = writer.new_reader();
    let handle_1 = reader_1.read(&mut writer);
    let mut reader_2 = writer.new_reader();

    writer.set(1);

    let handle_2 = reader_2.read(&mut writer);
    assert!(matches!(*HzrdReader::deref(&handle_1, &writer), 0 | 1));
    assert!(matches!(*HzrdReader::deref(&handle_2, &writer), 0 | 1));
    assert_eq!(*HzrdReader::deref(&handle_1, &writer), 0);

    let mut reader_3 = writer.new_reader();
    let handle_3 = reader_3.read(&mut writer);
    assert_eq!(*HzrdReader::deref(&handle_3, &writer), 1);

    HzrdReader::done(handle_1, &mut writer);
    HzrdReader::done(handle_2, &mut writer);
    HzrdReader::done(handle_3, &mut writer);
    reader_1.drop(&mut writer);
    reader_2.drop(&mut writer);
    reader_3.drop(&mut writer);
}

#[test]
fn a_reader_follows_its_writer() {
    let mut writer = HzrdWriter::new(String::from("0"));
    let mut reader = HzrdReader::from_writer(&mut writer);
    assert_eq!(reader.cloned(&mut writer), "0");
    writer.set(String::from("1"));
    assert_eq!(reader.cloned(&mut writer), "1");
    let mut number = HzrdWriter::from(Box::new(5));
    let mut reader = number.new_reader();
    assert_eq!(reader.get(&mut number), 5);
    number.set(6);
    assert_eq!(reader.get(&mut number), 6);
}

#[test]
fn old_values_are_freed_once_they_are_read() {
    let drops = Rc::new(Cell::new(0));
    let mut writer = HzrdWriter::new(Counted(Rc::clone(&drops)));
    let mut reader = writer.new_reader();
    let handle = reader.read(&mut writer);
    writer.set(Counted(Rc::clone(&drops)));
    assert_eq!(drops.get(), 0);
    HzrdReader::done(handle, &mut writer);
    writer.set(Counted(Rc::clone(&drops)));
    assert_eq!(drops.get(), 2);
    drop(writer);
    assert_eq!(drops.get(), 3);
}

#[test]
fn pointers_of_a_value() {
    let mut heap = Heap::new();
    let mut ptrs = Ptrs::new();
    assert!(ptrs.all_available());
    let a = heap.insert('a');
    let b = heap.insert('b');
    let id = ptrs.hzrd_ptr();
    ptrs.hazard_mut(id).protect(b);
    ptrs.just_retire(RetiredPtr::new(a));
    ptrs.just_retire(RetiredPtr::new(b));
    assert_eq!(ptrs.num_retired(), 2);
    assert_eq!(ptrs.reclaim(&mut heap), 1);
    assert_eq!(*heap.get(b), 'b');
    ptrs.hazard_mut(id).release();
    assert!(ptrs.all_available());
    assert_eq!(ptrs.reclaim(&mut heap), 1);
    assert_eq!(ptrs.num_retired(), 0);
    assert_eq!(ptrs.reclaim(&mut heap), 0);
}

#[test]
fn writer_on_the_heap() {
    let mut heap = Heap::new();
    let writer = gc::HzrdWriter::new(1, &mut heap);
    let reader = gc::HzrdReader::from_writer(&writer, &mut heap);
    let other = gc::HzrdReader::from_writer(&writer, &mut heap);
    reader.drop(&mut heap);
    other.drop(&mut heap);
    let _boxed = gc::HzrdWriter::from(Box::new(2), &mut heap);
}

#[test]
fn a_clone_reads_while_another_one_writes() {
    let drops = Rc::new(Cell::new(0));
    let counted = || Counted(Rc::clone(&drops));
    let mut heap = Heap::new();
    let cell = HzrdCell::new(counted(), &mut heap);
    let mut clone = cell.clone(&mut heap);

    let read = clone.begin_read(&heap);
    let retired = cell.begin_set(&mut heap, counted());
    clone.protect(&read, &mut heap);

    // The address is held in time, so nothing is freed, but the cell has changed
    cell.finish_set(&mut heap, retired);
    assert_eq!(drops.get(), 0);
    let read = match clone.validate(read, &heap) {
        Ok(_) => panic!("the cell has changed"),
        Err(read) => read,
    };
    clone.protect(&read, &mut heap);
    cell.reclaim(&mut heap);
    assert_eq!(drops.get(), 1);
    let handle = match clone.validate(read, &heap) {
        Ok(handle) => handle,
        Err(_) => panic!("the cell has not changed"),
    };
    cell.set(&mut heap, counted());
    assert_eq!(drops.get(), 1);
    clone.done(handle, &mut heap);
    cell.reclaim(&mut heap);
    assert_eq!(drops.get(), 2);
}

#[test]
fn a_reader_reads_while_its_writer_writes() {
    let mut writer = HzrdWriter::new(0);
    let mut reader = writer.new_reader();
    let read = reader.begin_read(&writer);
    let retired = writer.begin_set(1);
    reader.protect(&read, &mut writer);
    let read = match reader.validate(read, &writer) {
        Ok(_) => panic!("the value has changed"),
        Err(read) => read,
    };
    writer.finish_set(retired);
    reader.protect(&read, &mut writer);
    let handle = match reader.validate(read, &writer) {
        Ok(handle) => handle,
        Err(_) => panic!("the value has not changed"),
    };
    writer.set(2);
    assert_eq!(*HzrdReader::deref(&handle, &writer), 1);
    HzrdReader::done(handle, &mut writer);
    assert_eq!(reader.get(&mut writer), 2);
}

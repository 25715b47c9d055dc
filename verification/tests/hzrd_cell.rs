use std::cell::Cell;
use std::rc::Rc;

use hzrd::domains::{Config, GlobalConfig, GlobalDomain, LocalDomain, SharedDomain, Sweep};
use hzrd::hazard::{Action, Domain, Read, ReadHandle, RetiredPtr};
use hzrd::heap::{Either, Heap};
use hzrd::kinds::{InFirst, InSecond, KindCell, Whole};
use hzrd::region::Region;
use hzrd::HzrdCell;

/// Counts how many of its kind were dropped.
struct Counted(Rc<Cell<usize>>);

impl Drop for Counted {
    fn drop(&mut self) {
        self.0.set(self.0.get() + 1);
    }
}

#[test]
fn drop_test() {
    // Shallow drop
    let mut region = Region::new(GlobalDomain::new());
    HzrdCell::new(0, &mut region).drop(&mut region);

    // Deep drop
    let mut region = Region::new(GlobalDomain::new());
    HzrdCell::new(vec![1, 2, 3], &mut region).drop(&mut region);

    // The value goes with the cell
    let drops = Rc::new(Cell::new(0));
    let mut region = Region::new(GlobalDomain::new());
    let cell = HzrdCell::new(Counted(Rc::clone(&drops)), &mut region);
    assert_eq!(drops.get(), 0);
    cell.drop(&mut region);
    assert_eq!(drops.get(), 1);
}

#[test]
fn types() {
    let mut global = Region::new(GlobalDomain::new());
    let _cell_1: HzrdCell<usize> = HzrdCell::new(0, &mut global);
    let mut local = Region::new(LocalDomain::new());
    let _cell_2: HzrdCell<_, LocalDomain> = HzrdCell::new_in(0, &mut local);

    let mut shared = Region::new(SharedDomain::new());
    let _cell_3: HzrdCell<_, SharedDomain> = HzrdCell::new_in(0, &mut shared);
    let _cell_4: HzrdCell<_, SharedDomain> = HzrdCell::new_in(0, &mut shared);

    let mut boxed = Region::new(Box::new(SharedDomain::new()));
    let _cell_4: HzrdCell<_, _> = HzrdCell::new_in(0, &mut boxed);

    let _cell_5: HzrdCell<usize, _> = HzrdCell::new_in(0, &mut Region::new(LocalDomain::new()));
    let _cell_6: HzrdCell<usize, LocalDomain> = HzrdCell::new_in(0, &mut Region::new(LocalDomain::new()));
}

#[test]
fn single_threaded() {
    let string = String::new();
    let mut region = Region::new(GlobalDomain::new());
    let cell = HzrdCell::new(string, &mut region);

    {
        let handle = cell.read(&mut region);
        assert_eq!(handle.deref(&region).len(), 0);
        assert_eq!(*handle.deref(&region), "");
        handle.drop(&mut region);
    }

    let new_string = String::from("Hello world!");
    cell.set(&mut region, new_string);

    {
        let handle = cell.read(&mut region);
        assert_eq!(handle.deref(&region).len(), 12);
        assert_eq!(*handle.deref(&region), "Hello world!");
        handle.drop(&mut region);
    }

    cell.reclaim(&mut region);
}

#[test]
fn multi_threaded() {
    let string = String::new();
    let mut region = Region::new(GlobalDomain::new());
    let cell = HzrdCell::new(string, &mut region);

    let slow = cell.read(&mut region);

    let handle = cell.read(&mut region);
    assert_eq!(*handle.deref(&region), "");
    handle.drop(&mut region);
    let new_string = String::from("Hello world!");
    cell.set(&mut region, new_string);

    assert_eq!(*slow.deref(&region), "");
    slow.drop(&mut region);

    cell.reclaim(&mut region);
    let handle = cell.read(&mut region);
    assert_eq!(handle.deref(&region).clone(), "Hello world!");
    assert_eq!(region.domain().number_of_retired_ptrs(), 0);
}

#[test]
fn static_threads() {
    let mut region = Region::new(GlobalDomain::new());
    let cell = HzrdCell::new(Vec::new(), &mut region);

    let slow = cell.read(&mut region);
    let handle = cell.read(&mut region);
    assert!(handle.deref(&region).is_empty());
    handle.drop(&mut region);
    let new_vec = vec![false, false, true];
    cell.set(&mut region, new_vec);

    assert!(slow.deref(&region).is_empty());
    slow.drop(&mut region);

    cell.reclaim(&mut region);
    let handle = cell.read(&mut region);
    assert_eq!(handle.deref(&region).as_slice(), [false, false, true]);
}

#[test]
fn retirement() {
    let mut region = Region::new(SharedDomain::new());
    let cell = HzrdCell::new_in(String::new(), &mut region);
    assert_eq!(region.domain().number_of_hzrd_ptrs(), 0);

    let _handle_1 = cell.read(&mut region);
    assert_eq!(region.domain().number_of_hzrd_ptrs(), 1);

    cell.set(&mut region, "Hello world".into());
    assert_eq!(region.domain().number_of_retired_ptrs(), 1);

    // ------------

    let _handle_2 = cell.read(&mut region);
    assert_eq!(region.domain().number_of_hzrd_ptrs(), 2);

    cell.set(&mut region, "Pizza world".into());
    assert_eq!(region.domain().number_of_retired_ptrs(), 2);

    // ------------

    _handle_2.drop(&mut region);
    cell.set(&mut region, "Ramen world".into());
    assert_eq!(region.domain().number_of_retired_ptrs(), 1);

    // ------------

    _handle_1.drop(&mut region);
    cell.reclaim(&mut region);
    assert_eq!(region.domain().number_of_retired_ptrs(), 0);
}

#[test]
fn readers() {
    let mut region = Region::new(GlobalDomain::new());
    let cell = HzrdCell::new(vec![0, 1, 2], &mut region);

    let readers: Vec<_> = (0..10).map(|_| cell.reader(&mut region)).collect();

    for mut reader in readers {
        let handle = reader.read(&mut region);
        assert_eq!(handle.deref(&region).as_slice(), [0, 1, 2]);
        handle.drop(&mut region);
        reader.drop(&mut region);
    }
    assert_eq!(region.domain().number_of_hzrd_ptrs(), 10);
}

#[test]
fn lib_manual_reclaim() {
    let mut region = Region::new(SharedDomain::new());
    let cell = HzrdCell::new_in([1, 2, 3], &mut region);

    cell.just_set(&mut region, [4, 5, 6]);
    assert_eq!(region.domain().number_of_retired_ptrs(), 1);

    cell.just_set(&mut region, [7, 8, 9]);
    assert_eq!(region.domain().number_of_retired_ptrs(), 2);

    cell.reclaim(&mut region);
    assert_eq!(region.domain().number_of_retired_ptrs(), 0);
}

#[test]
fn lib_simple_test() {
    let mut region = Region::new(SharedDomain::new());
    let cell = HzrdCell::new_in(String::from("hello"), &mut region);
    for string in (0..40).map(|i| i.to_string()) {
        cell.set(&mut region, string);
        let handle = cell.read(&mut region);
        let found = *handle.deref(&region) == "32";
        handle.drop(&mut region);
        if found {
            cell.set(&mut region, String::from("world"));
        }
    }
    let handle = cell.read(&mut region);
    assert_eq!(*handle.deref(&region), "39");
}

#[test]
fn integration_holding_handles() {
    let mut region = Region::new(SharedDomain::new());
    let cell = HzrdCell::new_in(String::from("hello"), &mut region);
    let handles: Vec<_> = (0..40).map(|_| cell.read(&mut region)).collect();
    for string in (0..40).map(|i| i.to_string()) {
        cell.set(&mut region, string);
    }
    for handle in handles {
        assert_eq!(*handle.deref(&region), "hello");
        handle.drop(&mut region);
    }
    assert_eq!(region.domain().number_of_retired_ptrs(), 1);
    cell.reclaim(&mut region);
    assert_eq!(region.domain().number_of_retired_ptrs(), 0);
}

#[test]
fn hazard_pointers_are_reused() {
    let mut region = Region::new(LocalDomain::new());
    let cell = HzrdCell::new_in(0, &mut region);

    assert_eq!(region.domain().number_of_hzrd_ptrs(), 0);

    assert_eq!(cell.get(&mut region), 0);
    assert_eq!(region.domain().number_of_hzrd_ptrs(), 1);

    // Should just reuse the same hazard pointer each read
    for _ in 0..10 {
        assert_eq!(cell.get(&mut region), 0);
    }
    assert_eq!(region.domain().number_of_hzrd_ptrs(), 1);

    // We should still only be using this one hazard pointer
    let reader = cell.reader(&mut region);
    assert_eq!(region.domain().number_of_hzrd_ptrs(), 1);
    reader.drop(&mut region);

    // Should just reuse the same hazard pointer for each reader
    for _ in 0..10 {
        cell.reader(&mut region).drop(&mut region);
    }
    assert_eq!(region.domain().number_of_hzrd_ptrs(), 1);
}

#[test]
fn a_read_that_overlaps_with_writes_starts_over() {
    let mut region = Region::new(SharedDomain::new());
    let cell = HzrdCell::new_in(0, &mut region);
    let hzrd_ptr = region.hzrd_ptr();

    // The value is replaced and freed before the hazard pointer gets to guard it
    let read = Read::begin(&region, cell.locate(), hzrd_ptr);
    cell.set(&mut region, 1);
    assert_eq!(region.domain().number_of_retired_ptrs(), 0);
    read.protect(&mut region);
    let read = match read.validate(&region, Action::Reset) {
        Ok(_) => panic!("the cell has changed"),
        Err(read) => read,
    };

    // The value is replaced after the hazard pointer came to hold its address
    read.protect(&mut region);
    cell.set(&mut region, 2);
    assert_eq!(region.domain().number_of_retired_ptrs(), 1);
    let read = match read.validate(&region, Action::Reset) {
        Ok(_) => panic!("the cell has changed again"),
        Err(read) => read,
    };

    // Nobody comes in between
    read.protect(&mut region);
    let handle: ReadHandle<i32> = match read.validate(&region, Action::Reset) {
        Ok(handle) => handle,
        Err(_) => panic!("the cell has not changed"),
    };
    cell.set(&mut region, 3);
    assert_eq!(*handle.deref(&region), 2);
    handle.drop(&mut region);
    cell.reclaim(&mut region);
    assert_eq!(region.domain().number_of_retired_ptrs(), 0);
}

#[test]
fn a_read_during_a_reclamation_is_safe() {
    let mut region = Region::new(SharedDomain::new());
    let cell = HzrdCell::new_in('a', &mut region);
    let handle = cell.read(&mut region);
    cell.just_set(&mut region, 'b');
    cell.just_set(&mut region, 'c');

    // A reclamation takes the garbage and begins to look at the hazard pointers
    let taken = region.take_retired();
    assert_eq!(region.domain().number_of_retired_ptrs(), 0);
    let mut scan = region.begin_scan();

    // Somebody reads and writes in between, with a hazard pointer that is new
    let late = cell.read(&mut region);
    cell.just_set(&mut region, 'd');
    assert_eq!(region.domain().number_of_hzrd_ptrs(), 2);

    let mut scanned = 0;
    while region.scan(&mut scan) {
        scanned += 1;
    }
    assert_eq!(scanned, 1);
    let hzrd_ptrs = scan.finish();
    let mut sweep = Sweep::new(taken);
    let mut swept = 0;
    while region.sweep(&mut sweep, &hzrd_ptrs) {
        swept += 1;
    }
    assert_eq!(swept, 2);
    region.put_back(sweep.finish());

    assert_eq!(*handle.deref(&region), 'a');
    assert_eq!(*late.deref(&region), 'c');
    assert_eq!(region.domain().number_of_retired_ptrs(), 2);
    handle.drop(&mut region);
    assert_eq!(region.reclaim(), 1);
    late.drop(&mut region);
    assert_eq!(region.reclaim(), 1);
    assert_eq!(cell.get(&mut region), 'd');
}

#[test]
fn bulk_size_of_four() {
    let my_config = Config::default().bulk_size(4);
    let mut region = Region::new(LocalDomain::with_config(my_config));
    let cell = HzrdCell::new_in(0, &mut region);

    // Let's try and update the value a few times
    cell.set(&mut region, 1); // Current garbage: { 0 }
    cell.set(&mut region, 2); // Current garbage: { 0, 1 }
    cell.set(&mut region, 3); // Current garbage: { 0, 1, 2 }
    assert_eq!(region.domain().number_of_retired_ptrs(), 3);

    // This time we will not try to reclaim (we'll do that manually)
    cell.just_set(&mut region, 4); // Current garbage: { 0, 1, 2, 3 }

    // If we now reclaim memory it will reclaim all four
    assert_eq!(region.reclaim(), 4);
}

#[test]
fn two_cells_share_a_domain() {
    let mut region = Region::new(GlobalDomain::new());
    let cell_1 = HzrdCell::new(0, &mut region);
    let cell_2 = HzrdCell::new(100, &mut region);

    let handle_1 = cell_1.read(&mut region);
    let handle_2 = cell_2.read(&mut region);
    assert_eq!(region.domain().number_of_hzrd_ptrs(), 2);

    cell_1.set(&mut region, 1);
    cell_2.set(&mut region, 101);
    assert_eq!(region.domain().number_of_retired_ptrs(), 2);

    handle_1.drop(&mut region);
    handle_2.drop(&mut region);

    // There is no need to reclaim through the second cell
    cell_1.reclaim(&mut region);
    assert_eq!(region.domain().number_of_retired_ptrs(), 0);
    assert_eq!(cell_1.get(&mut region), 1);
    assert_eq!(cell_2.get(&mut region), 101);
}

#[test]
fn values_of_several_types_share_a_domain() {
    #[derive(Debug, Clone, Copy, PartialEq)]
    enum Value {
        Number(i32),
        Flag(bool),
    }

    let mut region = Region::new(GlobalDomain::new());
    let cell_1 = HzrdCell::new_in(Value::Number(0), &mut region);
    let cell_2 = HzrdCell::new(Value::Flag(false), &mut region);

    let handle_1 = cell_1.read(&mut region);
    let handle_2 = cell_2.read(&mut region);
    cell_1.set(&mut region, Value::Number(1));
    cell_2.set(&mut region, Value::Flag(true));

    // The domain now has the following garbage: (0, false)
    assert_eq!(region.domain().number_of_retired_ptrs(), 2);
    assert_eq!(*handle_1.deref(&region), Value::Number(0));
    assert_eq!(*handle_2.deref(&region), Value::Flag(false));

    handle_1.drop(&mut region);
    handle_2.drop(&mut region);
    cell_1.reclaim(&mut region);
    assert_eq!(region.domain().number_of_retired_ptrs(), 0);
    assert_eq!(cell_1.get(&mut region), Value::Number(1));
    assert_eq!(cell_2.get(&mut region), Value::Flag(true));
}

#[test]
fn a_boxed_domain_is_a_domain() {
    let mut region = Region::new(Box::new(LocalDomain::with_config(Config::default().bulk_size(2))));
    let cell = HzrdCell::new_in('a', &mut region);
    let handle = cell.read(&mut region);
    cell.set(&mut region, 'b');
    assert_eq!(region.domain().number_of_retired_ptrs(), 1);
    cell.just_set(&mut region, 'c');
    assert_eq!(region.reclaim(), 1);
    assert_eq!(*handle.deref(&region), 'a');
    handle.drop(&mut region);
    assert_eq!(region.reclaim(), 0);
    assert_eq!(cell.get(&mut region), 'c');
}

#[test]
fn a_handle_leads_to_the_value_as_it_was() {
    let mut region = Region::new(GlobalDomain::new());
    let cell = HzrdCell::new(vec![1, 2, 3, 4], &mut region);

    let handle = cell.read(&mut region);
    assert_eq!(handle.deref(&region)[..], [1, 2, 3, 4]);

    // NOTE: The value is not updated when the cell is written to
    cell.set(&mut region, Vec::new());
    assert_eq!(handle.deref(&region)[..], [1, 2, 3, 4]);
    handle.drop(&mut region);
}

#[test]
fn a_reader_uses_one_hazard_pointer() {
    let mut region = Region::new(LocalDomain::new());
    let cell = HzrdCell::new_in('z', &mut region);
    let mut reader = cell.reader(&mut region);
    assert_eq!(reader.get(&mut region), 'z');
    cell.set(&mut region, 'y');
    assert_eq!(reader.get(&mut region), 'y');
    let handle = reader.read(&mut region);
    cell.set(&mut region, 'x');
    assert_eq!(*handle.deref(&region), 'y');
    assert_eq!(region.domain().number_of_retired_ptrs(), 1);
    handle.drop(&mut region);
    // The reader keeps its hazard pointer
    let other = cell.reader(&mut region);
    assert_eq!(region.domain().number_of_hzrd_ptrs(), 2);
    assert_eq!(reader.get(&mut region), 'x');
    reader.drop(&mut region);
    other.drop(&mut region);
    assert_eq!(cell.get(&mut region), 'x');
    assert_eq!(region.domain().number_of_hzrd_ptrs(), 2);
}

fn values_are_freed_once(domain: impl Domain) {
    let drops = Rc::new(Cell::new(0));
    let mut region = Region::new(domain);
    let cell = HzrdCell::new_in(Counted(Rc::clone(&drops)), &mut region);
    for i in 0..5 {
        cell.set(&mut region, Counted(Rc::clone(&drops)));
        assert_eq!(drops.get(), i + 1);
    }
    let handle = cell.read(&mut region);
    cell.set(&mut region, Counted(Rc::clone(&drops)));
    cell.set(&mut region, Counted(Rc::clone(&drops)));
    assert_eq!(drops.get(), 6);
    handle.drop(&mut region);
    cell.reclaim(&mut region);
    assert_eq!(drops.get(), 7);
    cell.reclaim(&mut region);
    assert_eq!(drops.get(), 7);
    let last = cell.read(&mut region);
    cell.just_set(&mut region, Counted(Rc::clone(&drops)));
    drop(last);
    // All garbage is cleaned up along with the region
    drop(region);
    assert_eq!(drops.get(), 9);
}

#[test]
fn every_value_is_freed_once() {
    values_are_freed_once(SharedDomain::new());
    values_are_freed_once(LocalDomain::new());
    values_are_freed_once(GlobalDomain::new());
}

fn read_unchecked(domain: impl Domain) {
    let mut region = Region::new(domain);
    let first = region.allocate(-1);
    let value = region.new_cell(first);
    let hzrd_ptr = region.hzrd_ptr();
    let mut read = Vec::new();
    for i in 0..40 {
        let new_ptr = region.allocate(i);
        let old_ptr = region.swap(value, new_ptr);
        assert_eq!(region.retire(RetiredPtr::new(old_ptr)), 1);
        let handle = ReadHandle::read_unchecked(&mut region, value, hzrd_ptr, Action::Reset);
        read.push(*handle.deref(&region));
        handle.drop(&mut region);
    }
    assert_eq!(read, (0..40).collect::<Vec<_>>());
}

#[test]
fn stress_read_unchecked() {
    read_unchecked(GlobalDomain::new());
    read_unchecked(SharedDomain::new());
    read_unchecked(LocalDomain::new());
}

fn hzrd_ptrs(domain: impl Domain) {
    let mut region = Region::new(domain);
    let cell = HzrdCell::new_in(String::new(), &mut region);
    let mut ids = Vec::new();
    for _ in 0..40 {
        ids.push(region.hzrd_ptr());
        cell.set(&mut region, String::from("Hello world"));
    }
    ids.sort();
    ids.dedup();
    assert_eq!(ids.len(), 40);
    assert_eq!(region.reclaim(), 0);
}

#[test]
fn stress_hzrd_ptrs() {
    hzrd_ptrs(GlobalDomain::new());
    hzrd_ptrs(SharedDomain::new());
    hzrd_ptrs(LocalDomain::new());
}

#[test]
fn bulk_size_is_set_later() {
    let mut region = Region::new(LocalDomain::new());
    let cell = HzrdCell::new_in(0, &mut region);
    let my_config = Config::default().bulk_size(4);
    assert_eq!(region.set_config(my_config), Ok(()));
    cell.set(&mut region, 1);
    cell.set(&mut region, 2);
    cell.set(&mut region, 3);
    cell.just_set(&mut region, 4);
    assert_eq!(region.reclaim(), 4);
    assert_eq!(region.set_config(my_config), Err(my_config));

    let mut region = Region::new(GlobalDomain::new());
    let cell = HzrdCell::new(0, &mut region);
    cell.set(&mut region, 1);
    assert_eq!(region.set_config(my_config), Err(my_config));
    assert_eq!(region.domain().number_of_retired_ptrs(), 0);
}

#[test]
fn one_config_for_all_domains() {
    let config = Config::default().bulk_size(3);
    let mut global = GlobalConfig::new();
    assert_eq!(global.set(config), Ok(()));

    let mut local = Region::new(LocalDomain::new());
    let mut shared = Region::new(SharedDomain::new());
    let mut own = Region::new(SharedDomain::with_config(Config::default()));
    local.go_by(&mut global);
    shared.go_by(&mut global);
    own.go_by(&mut global);
    assert_eq!(local.set_config(Config::default()), Err(Config::default()));

    let cell = HzrdCell::new_in('a', &mut local);
    cell.set(&mut local, 'b');
    cell.set(&mut local, 'c');
    assert_eq!(local.domain().number_of_retired_ptrs(), 2);
    cell.set(&mut local, 'd');
    assert_eq!(local.domain().number_of_retired_ptrs(), 0);

    let cell = HzrdCell::new_in('a', &mut shared);
    cell.set(&mut shared, 'b');
    assert_eq!(shared.domain().number_of_retired_ptrs(), 1);

    let cell = HzrdCell::new_in('a', &mut own);
    cell.set(&mut own, 'b');
    assert_eq!(own.domain().number_of_retired_ptrs(), 0);

    // Once somebody went by it, it is too late.
    let mut global = GlobalConfig::new();
    let mut region: Region<char, _> = Region::new(GlobalDomain::new());
    region.go_by(&mut global);
    assert_eq!(global.set(config), Err(config));
    assert_eq!(region.set_config(config), Err(config));
}

#[test]
fn garbage_goes_with_the_region() {
    let dropped = Rc::new(Cell::new(0));
    let mut region = Region::new(SharedDomain::new());
    let cell = HzrdCell::new_in(Counted(Rc::clone(&dropped)), &mut region);
    let handle = cell.read(&mut region);
    cell.set(&mut region, Counted(Rc::clone(&dropped)));
    cell.just_set(&mut region, Counted(Rc::clone(&dropped)));
    assert_eq!(dropped.get(), 0);
    handle.drop(&mut region);

    let values = region.into_values();
    assert_eq!(dropped.get(), 2);
    drop(values);
    assert_eq!(dropped.get(), 3);
}

#[test]
fn a_region_of_values_that_were_retired_before() {
    let mut heap = Heap::new();
    let mut domain = SharedDomain::new();
    let kept = heap.insert('k');
    let retired = heap.insert('r');
    domain.just_retire(RetiredPtr::new(retired));
    let mut region = Region::with_values(heap, domain);
    let cell = region.new_cell(kept);
    assert_eq!(region.reclaim(), 1);
    assert_eq!(*region.value(region.load(cell)), 'k');
}

#[test]
fn cells_of_several_types_share_a_domain() {
    type Values = Either<i32, Either<bool, String>>;
    let mut region: Region<Values, _> = Region::new(GlobalDomain::new());
    let cell_1: KindCell<_, _, InFirst> = KindCell::new_in(0, &mut region);
    let cell_2: KindCell<_, _, InSecond<InFirst>> = KindCell::new_in(false, &mut region);
    let cell_3: KindCell<_, _, InSecond<InSecond>> = KindCell::new_in("a".into(), &mut region);

    let handle_1 = cell_1.read(&mut region);
    let handle_2 = cell_2.read(&mut region);
    assert_eq!(region.domain().number_of_hzrd_ptrs(), 2);
    cell_1.set(&mut region, 1);
    cell_2.set(&mut region, true);
    cell_3.just_set(&mut region, "b".into());

    // The domain now has the following garbage: (0, false, "a")
    assert_eq!(region.domain().number_of_retired_ptrs(), 3);
    assert_eq!(*handle_1.deref(&region), 0);
    assert!(!*handle_2.deref(&region));
    assert_eq!(region.reclaim(), 1);
    handle_1.drop(&mut region);
    handle_2.drop(&mut region);
    cell_1.reclaim(&mut region);
    assert_eq!(region.domain().number_of_retired_ptrs(), 0);
    assert_eq!(cell_1.get(&mut region), 1);
    assert!(cell_2.get(&mut region));
    let handle_3 = cell_3.read(&mut region);
    assert_eq!(handle_3.deref(&region), "b");
    handle_3.drop(&mut region);
    cell_3.drop(&mut region);

    let whole: KindCell<_, _, Whole> = KindCell::new_in(Either::First(5), &mut region);
    let handle = whole.read(&mut region);
    assert!(matches!(handle.deref(&region), Either::First(5)));
}

use std::cell::RefCell;
use std::rc::Rc;

use hzrd::domains::{Config, GlobalConfig, GlobalDomain, HzrdPtrs, LocalDomain, SharedDomain};
use hzrd::hazard::{Domain, HzrdPtr, RetiredPtr};
use hzrd::heap::{Both, Heap, DUMMY, NULL};
use hzrd::pair::Ptrs;
use hzrd::ptr;
use hzrd::utils::{allocate, free, SharedCell};

#[test]
fn core_hzrd_ptr() {
    let mut heap = Heap::new();
    let value = allocate(&mut heap, String::from("Danger!"));
    let mut hzrd_ptr = HzrdPtr::new();
    assert_eq!(hzrd_ptr.get(), DUMMY);
    hzrd_ptr.protect(value);
    assert_eq!(hzrd_ptr.get(), value);
    hzrd_ptr.reset();
    assert_eq!(hzrd_ptr.get(), DUMMY);
    hzrd_ptr.protect(value);

    hzrd_ptr.release();
    assert_eq!(hzrd_ptr.get(), NULL);
    hzrd_ptr.protect(value);
    assert_eq!(hzrd_ptr.get(), value);
}

#[test]
fn only_an_available_hazard_pointer_is_acquired() {
    let mut hzrd_ptr = HzrdPtr::default();
    assert_eq!(hzrd_ptr.get(), DUMMY);
    assert!(hzrd_ptr.try_acquire().is_none());
    hzrd_ptr.protect(40);
    assert!(hzrd_ptr.try_acquire().is_none());
    assert_eq!(hzrd_ptr.get(), 40);
    hzrd_ptr.release();
    assert!(hzrd_ptr.try_acquire().is_some());
    assert_eq!(hzrd_ptr.get(), DUMMY);
}

#[test]
fn ptr_hzrd_ptr() {
    let mut heap = Heap::new();
    let value = allocate(&mut heap, String::from("Danger!"));
    let mut hzrd_ptr = ptr::HzrdPtr::new();
    hzrd_ptr.store(value);
    hzrd_ptr.clear();
    assert_eq!(hzrd_ptr.get(), DUMMY);
    hzrd_ptr.store(value);
    assert_eq!(hzrd_ptr.get(), value);
    assert!(!hzrd_ptr.is_available());

    hzrd_ptr.free();
    assert!(hzrd_ptr.is_available());
    hzrd_ptr.store(value);
    assert!(hzrd_ptr.try_take().is_none());
    hzrd_ptr.free();
    assert!(hzrd_ptr.try_take().is_some());
    assert_eq!(hzrd_ptr.get(), DUMMY);
    hzrd_ptr.store(NULL);
    assert!(hzrd_ptr.is_available());
}

#[test]
fn retired_ptr() {
    let mut heap = Heap::new();
    let object = vec![String::from("Hello"), String::from("World")];
    let ptr = allocate(&mut heap, object);

    let retired = RetiredPtr::new(ptr);
    assert_eq!(retired.addr(), ptr);
    retired.drop(&mut heap);
    assert_eq!(allocate(&mut heap, Vec::new()), ptr);
}

#[test]
fn global_domain() {
    let mut heap = Heap::new();
    let ptr = heap.insert(['a', 'b', 'c', 'd']);
    let mut domain = GlobalDomain::new();

    let hzrd_ptr = domain.hzrd_ptr();
    assert_eq!(domain.number_of_hzrd_ptrs(), 1);

    domain.hazard_mut(hzrd_ptr).protect(ptr);
    let hzrd_ptrs = domain.load_hzrd_ptrs();
    assert!(hzrd_ptrs.contains(ptr));

    // Retire the pointer. Nothing should be reclaimed this time
    {
        let reclaimed = domain.retire(RetiredPtr::new(ptr), &mut heap);
        assert_eq!(reclaimed, 0);
        assert_eq!(domain.number_of_retired_ptrs(), 1);
    }

    // Nothing has changed with the hazard pointer, nothing will be reclaimed
    {
        let reclaimed = domain.reclaim(&mut heap);
        assert_eq!(reclaimed, 0);
        assert_eq!(domain.number_of_retired_ptrs(), 1);
        assert_eq!(*heap.get(ptr), ['a', 'b', 'c', 'd']);
    }

    // We now reset the hazard pointer and try again
    domain.hazard_mut(hzrd_ptr).reset();

    // This time there should be one reclaimed object, zero left
    {
        let reclaimed = domain.reclaim(&mut heap);
        assert_eq!(reclaimed, 1);
        assert_eq!(domain.number_of_retired_ptrs(), 0);
    }
}

#[test]
fn shared_domain() {
    let mut heap = Heap::new();
    let ptr = heap.insert(['a', 'b', 'c', 'd']);
    let mut domain = SharedDomain::new();

    let hzrd_ptr = domain.hzrd_ptr();
    assert_eq!(domain.number_of_hzrd_ptrs(), 1);

    domain.hazard_mut(hzrd_ptr).protect(ptr);
    let hzrd_ptrs = domain.load_hzrd_ptrs();
    assert!(hzrd_ptrs.contains(ptr));

    // Retire the pointer. Nothing should be reclaimed this time
    {
        let reclaimed = domain.retire(RetiredPtr::new(ptr), &mut heap);
        assert_eq!(reclaimed, 0);
        assert_eq!(domain.number_of_retired_ptrs(), 1);
    }

    // Nothing has changed with the hazard pointer, nothing will be reclaimed
    {
        let reclaimed = domain.reclaim(&mut heap);
        assert_eq!(reclaimed, 0);
        assert_eq!(domain.number_of_retired_ptrs(), 1);
        assert_eq!(*heap.get(ptr), ['a', 'b', 'c', 'd']);
    }

    // We now reset the hazard pointer and try again
    domain.hazard_mut(hzrd_ptr).reset();

    // This time there should be one reclaimed object, zero left
    {
        let reclaimed = domain.reclaim(&mut heap);
        assert_eq!(reclaimed, 1);
        assert_eq!(domain.number_of_retired_ptrs(), 0);
    }
}

#[test]
fn local_domain() {
    let mut heap = Heap::new();
    let ptr = heap.insert(['a', 'b', 'c', 'd']);
    let mut domain = LocalDomain::new();

    let hzrd_ptr = domain.hzrd_ptr();
    assert_eq!(domain.number_of_hzrd_ptrs(), 1);

    domain.hazard_mut(hzrd_ptr).protect(ptr);
    let hzrd_ptrs = domain.load_hzrd_ptrs();
    assert!(hzrd_ptrs.contains(ptr));

    // Retire the pointer. Nothing should be reclaimed this time
    {
        let reclaimed = domain.retire(RetiredPtr::new(ptr), &mut heap);
        assert_eq!(reclaimed, 0);
        assert_eq!(domain.number_of_retired_ptrs(), 1);
    }

    // Nothing has changed with the hazard pointer, nothing will be reclaimed
    {
        let reclaimed = domain.reclaim(&mut heap);
        assert_eq!(reclaimed, 0);
        assert_eq!(domain.number_of_retired_ptrs(), 1);
        assert_eq!(*heap.get(ptr), ['a', 'b', 'c', 'd']);
    }

    // We now reset the hazard pointer and try again
    domain.hazard_mut(hzrd_ptr).reset();

    // This time there should be one reclaimed object, zero left
    {
        let reclaimed = domain.reclaim(&mut heap);
        assert_eq!(reclaimed, 1);
        assert_eq!(domain.number_of_retired_ptrs(), 0);
    }
}

fn below_bulk_size(mut domain: impl Domain) {
    let mut heap = Heap::new();
    let ptrs: Vec<usize> = (0..4).map(|i| heap.insert(i)).collect();
    for i in 0..3 {
        assert_eq!(domain.retire(RetiredPtr::new(ptrs[i]), &mut heap), 0);
    }
    // What was retired is still there
    for i in 0..3 {
        assert_eq!(*heap.get(ptrs[i]), i);
    }
    domain.just_retire(RetiredPtr::new(ptrs[3]));
    assert_eq!(domain.reclaim(&mut heap), 4);
    assert_eq!(domain.reclaim(&mut heap), 0);
}

#[test]
fn nothing_is_reclaimed_below_the_bulk_size() {
    let config = Config::default().bulk_size(4);
    below_bulk_size(SharedDomain::with_config(config));
    below_bulk_size(GlobalDomain::with_config(config));
    below_bulk_size(LocalDomain::with_config(config));
}

fn only_guarded_remain(mut domain: impl Domain) -> Vec<usize> {
    let mut heap = Heap::new();
    let ptrs: Vec<usize> = (0..6).map(|i| heap.insert(i * 10)).collect();
    let one = domain.hzrd_ptr();
    let other = domain.hzrd_ptr();
    assert_ne!(one, other);
    domain.hazard_mut(one).protect(ptrs[1]);
    domain.hazard_mut(other).protect(ptrs[4]);
    for ptr in &ptrs {
        domain.just_retire(RetiredPtr::new(*ptr));
    }
    let first = domain.reclaim(&mut heap);
    assert_eq!(*heap.get(ptrs[1]), 10);
    assert_eq!(*heap.get(ptrs[4]), 40);
    assert_eq!(domain.hazard(one).get(), ptrs[1]);
    domain.hazard_mut(one).release();
    let second = domain.reclaim(&mut heap);
    assert_eq!(*heap.get(ptrs[4]), 40);
    // The released one is handed out again
    assert_eq!(domain.hzrd_ptr(), one);
    domain.hazard_mut(other).reset();
    let third = domain.reclaim(&mut heap);
    vec![first, second, third]
}

#[test]
fn only_what_is_guarded_remains() {
    assert_eq!(only_guarded_remain(SharedDomain::default()), [4, 1, 1]);
    assert_eq!(only_guarded_remain(LocalDomain::default()), [4, 1, 1]);
    assert_eq!(only_guarded_remain(GlobalDomain::new()), [4, 1, 1]);
}

#[test]
fn caching_makes_no_difference() {
    let config = Config::default().caching(true);
    assert_eq!(only_guarded_remain(SharedDomain::with_config(config)), [4, 1, 1]);
    assert_eq!(only_guarded_remain(LocalDomain::with_config(config)), [4, 1, 1]);
}

#[test]
fn hazard_pointers_are_handed_out_in_order() {
    let mut shared = SharedDomain::new();
    let (a, b, c) = (shared.hzrd_ptr(), shared.hzrd_ptr(), shared.hzrd_ptr());
    shared.hazard_mut(a).release();
    shared.hazard_mut(b).release();
    // The latest comes first
    assert_eq!(shared.hzrd_ptr(), b);
    assert_eq!(shared.hzrd_ptr(), a);
    assert_eq!(shared.number_of_hzrd_ptrs(), 3);
    assert_eq!(shared.hazard(c).get(), DUMMY);

    let mut local = LocalDomain::new();
    let (a, b, _c) = (local.hzrd_ptr(), local.hzrd_ptr(), local.hzrd_ptr());
    local.hazard_mut(b).release();
    local.hazard_mut(a).release();
    // The earliest comes first
    assert_eq!(local.hzrd_ptr(), a);
    assert_eq!(local.hzrd_ptr(), b);
    assert_eq!(local.number_of_hzrd_ptrs(), 3);
}

#[test]
fn config_options_are_independent() {
    let default = Config::default();
    assert_eq!(default, Config::default().caching(false).bulk_size(1));
    assert_eq!(default.caching(true).bulk_size(7), default.bulk_size(7).caching(true));
    assert_ne!(default, default.caching(true));
    assert_ne!(default, default.bulk_size(2));
}

#[test]
fn the_cache_is_given_back() {
    let mut cache = vec![1, 2, 3];
    let caching = Config::default().caching(true);
    let mut hzrd_ptrs = HzrdPtrs::load(&caching, &mut cache);
    assert_eq!(cache, []);
    assert!(!hzrd_ptrs.contains(2));
    let mut hzrd_ptr = HzrdPtr::new();
    hzrd_ptr.protect(40);
    hzrd_ptrs.add(&hzrd_ptr);
    assert!(hzrd_ptrs.contains(40));
    hzrd_ptrs.drop(&mut cache);
    assert_eq!(cache, [40]);

    let mut hzrd_ptrs = HzrdPtrs::load(&Config::default(), &mut cache);
    hzrd_ptrs.add(&HzrdPtr::new());
    hzrd_ptrs.drop(&mut cache);
    assert_eq!(cache, [40]);
}

#[test]
fn list_of_hazard_pointers() {
    let mut hzrd_ptrs = ptr::HzrdPtrs::new();
    assert!(hzrd_ptrs.all_available());
    let first = hzrd_ptrs.get();
    assert!(!hzrd_ptrs.all_available());
    hzrd_ptrs.hazard_mut(first).store(77);
    let second = hzrd_ptrs.get();
    assert_ne!(first, second);
    assert!(hzrd_ptrs.contains(77));
    assert!(hzrd_ptrs.contains(DUMMY));
    assert!(!hzrd_ptrs.contains(78));
    assert_eq!(hzrd_ptrs.hazard(first).get(), 77);
    hzrd_ptrs.hazard_mut(first).free();
    assert!(!hzrd_ptrs.contains(77));
    assert_eq!(hzrd_ptrs.get(), first);
    hzrd_ptrs.hazard_mut(first).free();
    hzrd_ptrs.hazard_mut(second).free();
    assert!(hzrd_ptrs.all_available());
    assert_eq!(hzrd_ptrs.len(), 2);
}

#[test]
fn heap_addresses() {
    let mut heap = Heap::new();
    let a = allocate(&mut heap, 'a');
    let b = allocate(&mut heap, 'b');
    assert_ne!(a, b);
    for addr in [a, b] {
        assert_ne!(addr, NULL);
        assert_ne!(addr, DUMMY);
    }
    free(&mut heap, a);
    assert_eq!(*heap.get(b), 'b');
    let c = allocate(&mut heap, 'c');
    assert_ne!(c, b);
    *heap.get_mut(c) = 'C';
    assert_eq!(heap.remove(c), 'C');
    assert_eq!(heap.remove(b), 'b');
}

#[test]
fn shared_cell() {
    let cell = SharedCell::new(vec![1, 2]);
    assert_eq!(cell.get().len(), 2);
    assert_eq!(*cell.get(), [1, 2]);
}

#[test]
fn a_config_is_set_once() {
    let mut global = GlobalConfig::new();
    assert_eq!(global.get(), None);
    let config = Config::default().caching(true);
    assert_eq!(global.set(config), Ok(()));
    let other = Config::default().bulk_size(3);
    assert_eq!(global.set(other), Err(other));
    assert_eq!(global.get_or_init(), config);
    assert_eq!(global.get(), Some(config));
}

#[test]
fn a_config_that_was_gone_by_is_settled() {
    let mut global = GlobalConfig::default();
    assert_eq!(global.get_or_init(), Config::default());
    let late = Config::default().bulk_size(3);
    assert_eq!(global.set(late), Err(late));
    assert_eq!(global.get_or_init(), Config::default());
}

#[test]
fn a_domain_goes_by_the_config_that_was_set_first() {
    let mut heap = Heap::new();
    let mut domain = SharedDomain::new();
    let config = Config::default().bulk_size(2);
    assert_eq!(domain.set_config(config), Ok(()));
    assert_eq!(domain.retire(RetiredPtr::new(heap.insert('a')), &mut heap), 0);
    assert_eq!(domain.retire(RetiredPtr::new(heap.insert('b')), &mut heap), 2);
    assert_eq!(domain.set_config(Config::default()), Err(Config::default()));
    assert_eq!(domain.retire(RetiredPtr::new(heap.insert('c')), &mut heap), 0);

    let mut global = GlobalDomain::new();
    assert_eq!(global.reclaim(&mut heap), 0);
    assert_eq!(global.set_config(config), Err(config));
    assert_eq!(global.retire(RetiredPtr::new(heap.insert('d')), &mut heap), 1);

    let mut local = LocalDomain::with_config(config);
    assert_eq!(local.set_config(Config::default()), Err(Config::default()));
    assert_eq!(local.retire(RetiredPtr::new(heap.insert('e')), &mut heap), 0);
    let mut local = LocalDomain::new();
    assert_eq!(local.set_config(config), Ok(()));
}

#[test]
fn hazard_pointers_are_loaded_in_order() {
    let mut shared = SharedDomain::new();
    let mut local = LocalDomain::new();
    for addr in [10, 20, 30] {
        let id = shared.hzrd_ptr();
        shared.hazard_mut(id).protect(addr);
        let id = local.hzrd_ptr();
        local.hazard_mut(id).protect(addr);
    }
    let mut cache = Vec::new();
    let caching = Config::default().caching(true);
    assert_eq!(shared.set_config(caching), Ok(()));
    assert_eq!(local.set_config(caching), Ok(()));
    shared.load_hzrd_ptrs().drop(&mut cache);
    assert_eq!(cache, [30, 20, 10]);
    local.load_hzrd_ptrs().drop(&mut cache);
    assert_eq!(cache, [10, 20, 30]);

    // Without caching the buffer is not kept
    SharedDomain::new().load_hzrd_ptrs().drop(&mut cache);
    assert_eq!(cache, [10, 20, 30]);
    let hzrd_ptrs = shared.load_hzrd_ptrs();
    assert!(hzrd_ptrs.contains(20));
    shared.unload(hzrd_ptrs);
}

fn two_types(mut domain: impl Domain) {
    let mut store = Both::new();
    let number = store.insert_first(7);
    let flag = store.insert_second(false);
    let other = store.insert_second(true);
    assert_ne!(number, flag);
    let id = domain.hzrd_ptr();
    domain.hazard_mut(id).protect(flag);
    domain.just_retire(RetiredPtr::new(number));
    domain.just_retire(RetiredPtr::new(flag));
    assert_eq!(domain.retire(RetiredPtr::new(other), &mut store), 2);
    assert_eq!(store.get_second(flag), Some(&false));
    assert_eq!(store.get_first(flag), None);
    domain.hazard_mut(id).reset();
    assert_eq!(domain.reclaim(&mut store), 1);
    let again = store.insert_first(8);
    assert_eq!(store.get_first(again), Some(&8));
    assert_eq!(store.get_second(again), None);
}

#[test]
fn objects_of_two_types_are_retired_to_one_domain() {
    two_types(SharedDomain::new());
    two_types(GlobalDomain::new());
    two_types(LocalDomain::new());
}

struct Logged(char, Rc<RefCell<Vec<char>>>);

impl Drop for Logged {
    fn drop(&mut self) {
        self.1.borrow_mut().push(self.0);
    }
}

fn garbage_goes_with(mut domain: impl Domain) -> Vec<char> {
    let log = Rc::new(RefCell::new(Vec::new()));
    let mut heap = Heap::new();
    let kept = heap.insert(Logged('k', Rc::clone(&log)));
    for name in ['a', 'b', 'c'] {
        let addr = heap.insert(Logged(name, Rc::clone(&log)));
        let id = domain.hzrd_ptr();
        domain.hazard_mut(id).protect(addr);
        domain.just_retire(RetiredPtr::new(addr));
    }
    assert_eq!(domain.reclaim(&mut heap), 0);
    assert!(log.borrow().is_empty());

    domain.drop(&mut heap);
    let freed = log.borrow().clone();
    assert_eq!(heap.get(kept).0, 'k');
    freed
}

#[test]
fn garbage_goes_with_its_domain() {
    assert_eq!(garbage_goes_with(GlobalDomain::new()), ['a', 'b', 'c']);
    assert_eq!(garbage_goes_with(SharedDomain::new()), ['a', 'b', 'c']);
    assert_eq!(garbage_goes_with(LocalDomain::new()), ['a', 'b', 'c']);
    assert_eq!(garbage_goes_with(Ptrs::new()), ['a', 'b', 'c']);
    assert_eq!(garbage_goes_with(Box::new(LocalDomain::new())), ['a', 'b', 'c']);
    // Below the bulk size nothing changes places.
    let config = Config::default().bulk_size(4);
    assert_eq!(garbage_goes_with(SharedDomain::with_config(config)), ['c', 'b', 'a']);
    assert_eq!(garbage_goes_with(LocalDomain::with_config(config)), ['a', 'b', 'c']);
}

fn guarded_one_by_one(mut domain: impl Domain) -> Vec<char> {
    let log = Rc::new(RefCell::new(Vec::new()));
    let mut heap = Heap::new();
    let mut ids = Vec::new();
    for name in ['a', 'b', 'c'] {
        let addr = heap.insert(Logged(name, Rc::clone(&log)));
        let id = domain.hzrd_ptr();
        domain.hazard_mut(id).protect(addr);
        assert_eq!(domain.retire(RetiredPtr::new(addr), &mut heap), 0);
        ids.push(id);
    }
    for id in ids {
        domain.hazard_mut(id).release();
    }
    assert_eq!(domain.reclaim(&mut heap), 3);
    let freed = log.borrow().clone();
    freed
}

#[test]
fn what_is_kept_changes_places_on_a_stack() {
    // Each of the reclamations turns what it keeps around: a, then a b, then b a c.
    assert_eq!(guarded_one_by_one(SharedDomain::new()), ['b', 'a', 'c']);
    assert_eq!(guarded_one_by_one(GlobalDomain::new()), ['b', 'a', 'c']);
    assert_eq!(guarded_one_by_one(LocalDomain::new()), ['a', 'b', 'c']);
    assert_eq!(guarded_one_by_one(Ptrs::new()), ['a', 'b', 'c']);
}

#[test]
fn retiring_settles_the_config() {
    let config = Config::default().bulk_size(9);
    let mut heap = Heap::new();
    let mut domain = GlobalDomain::new();
    let first = heap.insert(1);
    domain.just_retire(RetiredPtr::new(first));
    let second = heap.insert(2);
    assert_eq!(domain.retire(RetiredPtr::new(second), &mut heap), 2);
    assert_eq!(domain.set_config(config), Err(config));

    let mut domain = LocalDomain::new();
    domain.hzrd_ptr();
    let third = heap.insert(3);
    domain.just_retire(RetiredPtr::new(third));
    assert_eq!(domain.set_config(config), Ok(()));
    assert_eq!(domain.reclaim(&mut heap), 0);

    let mut ptrs = Ptrs::new();
    assert_eq!(ptrs.set_config(config), Err(config));
    domain.drop(&mut heap);
}

use fastack::arena::Arena;
use fastack::hazard::{BoxedPointer, Doer, Guard, Holder, Loaded, Protect, RetiredEntry};
use fastack::sync::{AtomicPtr, NULL};

#[test]
fn holders_register_on_the_lowest_free_slot() {
    let mut registry = BoxedPointer::new();
    let first = registry.register();
    let second = registry.register();
    let third = registry.register();
    assert_eq!(first, Holder { slot: 0, stage: Protect::Idle });
    assert_eq!((second.slot, third.slot), (1, 2));
    second.release(&mut registry);
    let again = registry.register();
    assert_eq!(again.slot, 1);
    let fourth = registry.register();
    assert_eq!(fourth.slot, 3);
}

#[test]
fn load_pointer_publishes_and_then_validates() {
    let mut registry = BoxedPointer::new();
    let mut holder = registry.register();
    let cell = AtomicPtr::new(5);
    assert_eq!(holder.guarded(), NULL);
    assert_eq!(holder.load_pointer(&cell, &mut registry), Loaded::Pending);
    assert_eq!(holder.stage, Protect::Seen(5));
    assert!(!registry.is_protected(5));
    assert_eq!(holder.load_pointer(&cell, &mut registry), Loaded::Pending);
    assert_eq!(holder.stage, Protect::Published(5));
    assert!(registry.is_protected(5));
    assert_eq!(holder.guarded(), NULL);
    assert_eq!(
        holder.load_pointer(&cell, &mut registry),
        Loaded::Ready(Some(Guard { data: 5 }))
    );
    assert_eq!(holder.stage, Protect::Holding(5));
    assert_eq!(holder.guarded(), 5);
    // A guard that is in place is handed out again.
    assert_eq!(
        holder.load_pointer(&cell, &mut registry),
        Loaded::Ready(Some(Guard { data: 5 }))
    );
    assert!(registry.is_protected(5));
}

#[test]
fn load_pointer_of_null_gives_no_guard() {
    let mut registry = BoxedPointer::new();
    let mut holder = registry.register();
    let cell = AtomicPtr::new(NULL);
    assert_eq!(holder.load_pointer(&cell, &mut registry), Loaded::Ready(None));
    assert_eq!(holder.stage, Protect::Idle);
    assert!(!registry.is_protected(NULL));
}

#[test]
fn load_pointer_starts_over_when_the_cell_changed() {
    let mut registry = BoxedPointer::new();
    let mut holder = registry.register();
    let mut cell = AtomicPtr::new(5);
    assert_eq!(holder.load_pointer(&cell, &mut registry), Loaded::Pending);
    assert_eq!(holder.load_pointer(&cell, &mut registry), Loaded::Pending);
    cell.store(9);
    assert_eq!(holder.load_pointer(&cell, &mut registry), Loaded::Pending);
    assert_eq!(holder.stage, Protect::Seen(9));
    // Until the new address is published the old one still is.
    assert!(registry.is_protected(5));
    assert!(!registry.is_protected(9));
    assert_eq!(holder.load_pointer(&cell, &mut registry), Loaded::Pending);
    assert!(!registry.is_protected(5));
    assert!(registry.is_protected(9));
    assert_eq!(
        holder.load_pointer(&cell, &mut registry),
        Loaded::Ready(Some(Guard { data: 9 }))
    );
}

#[test]
fn load_pointer_ends_when_the_cell_became_null() {
    let mut registry = BoxedPointer::new();
    let mut holder = registry.register();
    let mut cell = AtomicPtr::new(5);
    assert_eq!(holder.load_pointer(&cell, &mut registry), Loaded::Pending);
    assert_eq!(holder.load_pointer(&cell, &mut registry), Loaded::Pending);
    assert!(registry.is_protected(5));
    cell.store(NULL);
    assert_eq!(holder.load_pointer(&cell, &mut registry), Loaded::Ready(None));
    assert_eq!(holder.stage, Protect::Idle);
    // The read wrote nothing: what was published stays until it is cleared.
    assert!(registry.is_protected(5));
    holder.clear(&mut registry);
    assert!(!registry.is_protected(5));
}

#[test]
fn get_wrapper_protects_and_wraps() {
    let mut registry = BoxedPointer::new();
    let mut holder = registry.register();
    let cell = AtomicPtr::new(3);
    assert_eq!(
        holder.get_wrapper(&cell, &mut registry),
        Some(RetiredEntry { addr: 3, doer: Doer })
    );
    assert_eq!(holder.stage, Protect::Holding(3));
    assert!(registry.is_protected(3));
    // Another cell moves the protection.
    let other = AtomicPtr::new(4);
    assert_eq!(
        holder.get_wrapper(&other, &mut registry),
        Some(RetiredEntry { addr: 4, doer: Doer })
    );
    assert!(!registry.is_protected(3));
    assert!(registry.is_protected(4));
    let null = AtomicPtr::new(NULL);
    assert_eq!(holder.get_wrapper(&null, &mut registry), None);
    assert_eq!(holder.stage, Protect::Idle);
    assert!(!registry.is_protected(4));
}

#[test]
fn clear_and_release_withdraw_the_publication() {
    let mut registry = BoxedPointer::new();
    let mut holder = registry.register();
    let cell = AtomicPtr::new(3);
    assert!(holder.get_wrapper(&cell, &mut registry).is_some());
    holder.clear(&mut registry);
    assert_eq!(holder, Holder { slot: 0, stage: Protect::Idle });
    assert!(!registry.is_protected(3));
    assert!(holder.get_wrapper(&cell, &mut registry).is_some());
    assert!(registry.is_protected(3));
    holder.release(&mut registry);
    assert!(!registry.is_protected(3));
}

#[test]
fn a_sweep_destroys_what_nobody_publishes() {
    let mut heap: Arena<&str> = Arena::new();
    let kept = heap.allocate("kept");
    let gone = heap.allocate("gone");
    let also_gone = heap.allocate("also gone");
    let untouched = heap.allocate("never retired");
    let mut registry = BoxedPointer::new();
    let mut holder = registry.register();
    let cell = AtomicPtr::new(kept);
    let wrapper = holder.get_wrapper(&cell, &mut registry).unwrap();
    assert_eq!(wrapper.addr, kept);
    registry.retire(RetiredEntry { addr: gone, doer: Doer });
    registry.retire(wrapper);
    registry.retire(RetiredEntry { addr: also_gone, doer: Doer });
    // Retiring destroys nothing.
    assert_eq!(registry.pending_len(), 3);
    assert!(heap.is_live(kept) && heap.is_live(gone) && heap.is_live(also_gone));
    registry.try_reclaim(&mut heap);
    assert_eq!(registry.pending_len(), 1);
    assert!(heap.is_live(kept));
    assert_eq!(*heap.get(kept), "kept");
    assert!(!heap.is_live(gone));
    assert!(!heap.is_live(also_gone));
    assert!(heap.is_live(untouched));
    // Another sweep under the same guard changes nothing.
    registry.try_reclaim(&mut heap);
    assert_eq!(registry.pending_len(), 1);
    assert!(heap.is_live(kept));
    holder.release(&mut registry);
    registry.try_reclaim(&mut heap);
    assert_eq!(registry.pending_len(), 0);
    assert!(!heap.is_live(kept));
    assert!(heap.is_live(untouched));
}

#[test]
fn any_guard_on_an_address_keeps_it() {
    let mut heap: Arena<u8> = Arena::new();
    let addr = heap.allocate(1);
    let mut registry = BoxedPointer::new();
    let mut first = registry.register();
    let mut second = registry.register();
    let cell = AtomicPtr::new(addr);
    assert!(first.get_wrapper(&cell, &mut registry).is_some());
    let wrapper = second.get_wrapper(&cell, &mut registry).unwrap();
    registry.retire(wrapper);
    first.release(&mut registry);
    registry.try_reclaim(&mut heap);
    assert!(heap.is_live(addr));
    second.release(&mut registry);
    registry.try_reclaim(&mut heap);
    assert!(!heap.is_live(addr));
}

#[test]
fn a_sweep_of_an_empty_list_does_nothing() {
    let mut heap: Arena<u8> = Arena::new();
    let addr = heap.allocate(1);
    let mut registry = BoxedPointer::new();
    registry.try_reclaim(&mut heap);
    assert_eq!(registry.pending_len(), 0);
    assert!(heap.is_live(addr));
}

#[test]
fn the_doer_destroys_one_object() {
    let mut heap: Arena<String> = Arena::new();
    let first = heap.allocate(String::from("a"));
    let second = heap.allocate(String::from("b"));
    Doer.destroy(&mut heap, first);
    assert!(!heap.is_live(first));
    assert_eq!(heap.get(second), "b");
}

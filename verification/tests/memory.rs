use fastack::arena::Arena;
use fastack::stack::Node;
use fastack::sync::{AtomicPtr, NULL};

#[test]
fn null_is_zero() {
    assert_eq!(NULL, 0);
}

#[test]
fn a_new_arena_holds_nothing() {
    let arena: Arena<u32> = Arena::new();
    assert!(!arena.is_live(NULL));
    assert!(!arena.is_live(1));
    assert!(!arena.is_live(usize::MAX));
}

#[test]
fn addresses_are_handed_out_lowest_first() {
    let mut arena: Arena<u32> = Arena::new();
    assert_eq!(arena.allocate(10), 1);
    assert_eq!(arena.allocate(20), 2);
    assert_eq!(arena.allocate(30), 3);
    assert_eq!(*arena.get(1), 10);
    assert_eq!(*arena.get(2), 20);
    assert_eq!(*arena.get(3), 30);
    assert!(!arena.is_live(NULL));
    assert!(!arena.is_live(4));
}

#[test]
fn a_freed_address_is_the_next_one_handed_out() {
    let mut arena: Arena<u32> = Arena::new();
    for value in 0..6 {
        arena.allocate(value);
    }
    arena.free(4);
    arena.free(2);
    assert!(!arena.is_live(2) && !arena.is_live(4));
    assert!(arena.is_live(3));
    assert_eq!(arena.allocate(100), 2);
    assert_eq!(arena.allocate(200), 4);
    assert_eq!(arena.allocate(300), 7);
    assert_eq!(*arena.get(2), 100);
    assert_eq!(*arena.get(3), 2);
    assert_eq!(*arena.get(4), 200);
    arena.free(7);
    arena.free(1);
    assert_eq!(arena.allocate(400), 1);
    assert_eq!(arena.allocate(500), 7);
}

#[test]
fn a_new_node_is_not_linked() {
    let node = Node::new('x');
    assert_eq!(node.value, 'x');
    assert_eq!(node.next, NULL);
}

#[test]
fn the_cell_keeps_what_was_stored() {
    let mut cell = AtomicPtr::new(NULL);
    assert_eq!(cell.load(), NULL);
    cell.store(12);
    assert_eq!(cell.load(), 12);
}

#[test]
fn an_exchange_needs_the_expected_address() {
    let mut cell = AtomicPtr::new(4);
    assert_eq!(cell.compare_exchange(5, 6), Err(4));
    assert_eq!(cell.load(), 4);
    assert_eq!(cell.compare_exchange(4, 6), Ok(4));
    assert_eq!(cell.load(), 6);
    assert_eq!(cell.compare_exchange(4, 7), Err(6));
    assert_eq!(cell.compare_exchange(6, 6), Ok(6));
    assert_eq!(cell.load(), 6);
}

use fastack::op::{Ack, DeleteError};
use fastack::stack::Stack;

#[test]
fn insert_three_then_delete_four() {
    let mut stack: Stack<u32> = Stack::new();
    assert_eq!(stack.insert(1), Ok(Ack));
    assert_eq!(stack.insert(2), Ok(Ack));
    assert_eq!(stack.insert(3), Ok(Ack));
    assert_eq!(stack.delete(), Ok(3));
    assert_eq!(stack.delete(), Ok(2));
    assert_eq!(stack.delete(), Ok(1));
    assert_eq!(stack.delete(), Err(DeleteError::Empty));
}

#[test]
fn delete_on_a_new_stack_is_empty() {
    let mut stack: Stack<u64> = Stack::new();
    assert!(stack.is_empty());
    assert_eq!(stack.delete(), Err(DeleteError::Empty));
    assert_eq!(stack.delete(), Err(DeleteError::Empty));
    assert!(stack.is_empty());
    assert_eq!(stack.pending_len(), 0);
    assert!(stack.is_quiescent());
}

#[test]
fn values_come_back_in_reverse_order() {
    let mut stack: Stack<usize> = Stack::new();
    for value in 0..200 {
        assert_eq!(stack.insert(value), Ok(Ack));
    }
    for value in (0..200).rev() {
        assert_eq!(stack.delete(), Ok(value));
    }
    assert_eq!(stack.delete(), Err(DeleteError::Empty));
}

#[test]
fn insertions_and_deletions_alternate() {
    let mut stack: Stack<i32> = Stack::new();
    assert_eq!(stack.insert(10), Ok(Ack));
    assert_eq!(stack.insert(20), Ok(Ack));
    assert_eq!(stack.delete(), Ok(20));
    assert_eq!(stack.insert(30), Ok(Ack));
    assert_eq!(stack.insert(40), Ok(Ack));
    assert_eq!(stack.delete(), Ok(40));
    assert_eq!(stack.delete(), Ok(30));
    assert_eq!(stack.delete(), Ok(10));
    assert_eq!(stack.delete(), Err(DeleteError::Empty));
    assert_eq!(stack.insert(50), Ok(Ack));
    assert_eq!(stack.delete(), Ok(50));
    assert!(stack.is_empty());
}

#[test]
fn equal_values_are_kept_apart() {
    let mut stack: Stack<u8> = Stack::new();
    assert_eq!(stack.insert(7), Ok(Ack));
    assert_eq!(stack.insert(7), Ok(Ack));
    assert_eq!(stack.insert(7), Ok(Ack));
    assert_eq!(stack.delete(), Ok(7));
    assert_eq!(stack.delete(), Ok(7));
    assert!(!stack.is_empty());
    assert_eq!(stack.delete(), Ok(7));
    assert!(stack.is_empty());
}

#[test]
fn values_that_own_memory_are_duplicated() {
    let mut stack: Stack<String> = Stack::new();
    let word = String::from("hazard");
    assert_eq!(stack.insert(word.clone()), Ok(Ack));
    assert_eq!(stack.insert(String::from("pointer")), Ok(Ack));
    assert_eq!(stack.delete(), Ok(String::from("pointer")));
    assert_eq!(stack.delete(), Ok(word));
    assert_eq!(stack.delete(), Err(DeleteError::Empty));
}

#[test]
fn a_deleted_node_stays_retired_until_the_next_sweep() {
    let mut stack: Stack<u32> = Stack::new();
    assert_eq!(stack.insert(1), Ok(Ack));
    assert_eq!(stack.insert(2), Ok(Ack));
    assert_eq!(stack.pending_len(), 0);
    // The closing sweep of a deletion runs under the deletion's own guard.
    assert_eq!(stack.delete(), Ok(2));
    assert_eq!(stack.pending_len(), 1);
    // The next deletion destroys the node before and retires its own.
    assert_eq!(stack.delete(), Ok(1));
    assert_eq!(stack.pending_len(), 1);
    // An insertion protects the head, which is never a retired node.
    assert_eq!(stack.insert(3), Ok(Ack));
    assert_eq!(stack.pending_len(), 0);
}

#[test]
fn a_sweep_without_guards_drains_the_pending_list() {
    let mut stack: Stack<u32> = Stack::new();
    for value in 0..50 {
        assert_eq!(stack.insert(value), Ok(Ack));
    }
    for _ in 0..50 {
        assert!(stack.delete().is_ok());
    }
    assert!(stack.is_quiescent());
    assert_eq!(stack.pending_len(), 1);
    stack.try_reclaim();
    assert_eq!(stack.pending_len(), 0);
    stack.try_reclaim();
    assert_eq!(stack.pending_len(), 0);
}

#[test]
fn teardown_releases_linked_and_retired_nodes() {
    let mut stack: Stack<u32> = Stack::new();
    for value in 0..10 {
        assert_eq!(stack.insert(value), Ok(Ack));
    }
    assert_eq!(stack.delete(), Ok(9));
    assert_eq!(stack.pending_len(), 1);
    assert!(stack.is_quiescent());
    stack.teardown();
    assert!(stack.is_empty());
    assert_eq!(stack.pending_len(), 0);
    assert_eq!(stack.delete(), Err(DeleteError::Empty));
    assert_eq!(stack.insert(11), Ok(Ack));
    assert_eq!(stack.delete(), Ok(11));
}

#[test]
fn teardown_of_an_empty_stack_changes_nothing() {
    let mut stack: Stack<u32> = Stack::new();
    stack.teardown();
    assert!(stack.is_empty());
    assert_eq!(stack.pending_len(), 0);
}

use fastack::hazard::Protect;
use fastack::op::{Ack, ContentionError, DeleteError, Outcome, Phase, Progress, Request};
use fastack::op::RETRY_BUDGET;
use fastack::stack::Stack;

fn advance(stack: &mut Stack<u32>, id: usize, actions: usize) {
    for _ in 0..actions {
        assert!(stack.in_flight(id));
        assert_eq!(stack.step(id), Progress::Pending);
    }
}

#[test]
fn the_retry_budget_is_fifteen() {
    assert_eq!(RETRY_BUDGET, 15);
}

#[test]
fn an_insertion_on_an_empty_stack_takes_four_actions() {
    let mut stack: Stack<u32> = Stack::new();
    let id = stack.begin_insert(5);
    assert_eq!(id, 0);
    assert!(stack.in_flight(id));
    assert!(!stack.is_quiescent());
    // The head is null: there is nothing to publish.
    assert_eq!(stack.step(id), Progress::Pending);
    assert_eq!(stack.op(id).unwrap().phase, Phase::Guarded);
    assert_eq!(stack.op(id).unwrap().holder.stage, Protect::Idle);
    assert!(stack.is_empty());
    // The exchange.
    assert_eq!(stack.step(id), Progress::Pending);
    assert_eq!(stack.op(id).unwrap().phase, Phase::Sweep);
    assert!(!stack.is_empty());
    // The sweep.
    assert_eq!(stack.step(id), Progress::Pending);
    assert_eq!(stack.op(id).unwrap().phase, Phase::Leave);
    // The release.
    assert_eq!(stack.step(id), Progress::Done(Outcome::Insert(Ok(Ack))));
    assert!(!stack.in_flight(id));
    assert!(stack.op(id).is_none());
    assert!(stack.is_quiescent());
    assert_eq!(stack.delete(), Ok(5));
}

#[test]
fn an_insertion_above_a_node_takes_six_actions() {
    let mut stack: Stack<u32> = Stack::new();
    assert_eq!(stack.insert(1), Ok(Ack));
    let id = stack.begin_insert(2);
    assert_eq!(stack.op(id).unwrap().request, Request::Insert(2));
    assert_eq!(stack.op(id).unwrap().phase, Phase::Acquire);
    assert_eq!(stack.op(id).unwrap().holder.stage, Protect::Idle);
    assert_eq!(stack.step(id), Progress::Pending);
    let top = match stack.op(id).unwrap().holder.stage {
        Protect::Seen(addr) => addr,
        other => panic!("the head was read, not {:?}", other),
    };
    assert_ne!(top, 0);
    assert_eq!(stack.step(id), Progress::Pending);
    assert_eq!(stack.op(id).unwrap().holder.stage, Protect::Published(top));
    assert_eq!(stack.op(id).unwrap().phase, Phase::Acquire);
    assert_eq!(stack.step(id), Progress::Pending);
    assert_eq!(stack.op(id).unwrap().holder.stage, Protect::Holding(top));
    assert_eq!(stack.op(id).unwrap().phase, Phase::Guarded);
    assert_eq!(stack.step(id), Progress::Pending);
    assert_eq!(stack.op(id).unwrap().phase, Phase::Sweep);
    assert_eq!(stack.step(id), Progress::Pending);
    assert_eq!(stack.op(id).unwrap().phase, Phase::Leave);
    assert_eq!(stack.step(id), Progress::Done(Outcome::Insert(Ok(Ack))));
    assert_eq!(stack.delete(), Ok(2));
    assert_eq!(stack.delete(), Ok(1));
}

#[test]
fn a_deletion_takes_nine_actions() {
    let mut stack: Stack<u32> = Stack::new();
    assert_eq!(stack.insert(1), Ok(Ack));
    assert_eq!(stack.insert(2), Ok(Ack));
    let id = stack.begin_delete();
    assert_eq!(stack.op(id).unwrap().request, Request::Delete);
    // Read the head, publish it, read it again.
    advance(&mut stack, id, 3);
    assert_eq!(stack.op(id).unwrap().phase, Phase::Guarded);
    // Read the link of the guarded node.
    assert_eq!(stack.step(id), Progress::Pending);
    let below = match stack.op(id).unwrap().phase {
        Phase::Swap { next } => next,
        other => panic!("the link was read, not {:?}", other),
    };
    assert_ne!(below, 0);
    // Exchange the head.
    assert_eq!(stack.step(id), Progress::Pending);
    assert_eq!(stack.op(id).unwrap().phase, Phase::Unlinked);
    assert_eq!(stack.op(id).unwrap().taken, None);
    assert_eq!(stack.pending_len(), 0);
    // Duplicate the value.
    assert_eq!(stack.step(id), Progress::Pending);
    assert_eq!(stack.op(id).unwrap().phase, Phase::Retire);
    assert_eq!(stack.op(id).unwrap().taken, Some(2));
    assert_eq!(stack.pending_len(), 0);
    // Retire the node.
    assert_eq!(stack.step(id), Progress::Pending);
    assert_eq!(stack.op(id).unwrap().phase, Phase::Sweep);
    assert_eq!(stack.pending_len(), 1);
    // Sweep under the deletion's own guard.
    assert_eq!(stack.step(id), Progress::Pending);
    assert_eq!(stack.op(id).unwrap().phase, Phase::Leave);
    assert_eq!(stack.pending_len(), 1);
    // Release.
    assert_eq!(stack.step(id), Progress::Done(Outcome::Delete(Ok(2))));
    assert_eq!(stack.pending_len(), 1);
    assert_eq!(stack.delete(), Ok(1));
}

#[test]
fn a_deletion_that_finds_the_head_null_takes_two_actions() {
    let mut stack: Stack<u32> = Stack::new();
    let id = stack.begin_delete();
    assert_eq!(stack.step(id), Progress::Pending);
    assert_eq!(stack.op(id).unwrap().phase, Phase::Leave);
    assert_eq!(
        stack.step(id),
        Progress::Done(Outcome::Delete(Err(DeleteError::Empty)))
    );
    assert!(!stack.in_flight(id));
}

#[test]
fn operations_register_at_the_lowest_free_index() {
    let mut stack: Stack<u32> = Stack::new();
    let first = stack.begin_insert(1);
    let second = stack.begin_delete();
    let third = stack.begin_insert(3);
    assert_eq!((first, second, third), (0, 1, 2));
    // The head is null: the deletion reads it and leaves.
    advance(&mut stack, second, 1);
    assert_eq!(
        stack.step(second),
        Progress::Done(Outcome::Delete(Err(DeleteError::Empty)))
    );
    assert!(!stack.in_flight(second));
    assert!(!stack.in_flight(7));
    let fourth = stack.begin_delete();
    assert_eq!(fourth, 1);
    assert!(stack.in_flight(first) && stack.in_flight(third) && stack.in_flight(fourth));
}

#[test]
fn a_deletion_gives_up_after_fifteen_lost_exchanges() {
    let mut stack: Stack<u32> = Stack::new();
    assert_eq!(stack.insert(0), Ok(Ack));
    let id = stack.begin_delete();
    for round in 1..=15u32 {
        // Protect the head and read its link.
        advance(&mut stack, id, 4);
        assert_eq!(stack.op(id).unwrap().attempts as u32, round - 1);
        // Somebody else changes the head in the meantime.
        assert_eq!(stack.insert(round), Ok(Ack));
        // The exchange is lost and counted.
        assert_eq!(stack.step(id), Progress::Pending);
        assert_eq!(stack.op(id).unwrap().phase, Phase::Lost);
        assert_eq!(stack.op(id).unwrap().attempts as u32, round);
        let withdrawn = stack.step(id);
        if round < 15 {
            assert_eq!(withdrawn, Progress::Pending);
            assert_eq!(stack.op(id).unwrap().attempts as u32, round);
            assert_eq!(stack.op(id).unwrap().phase, Phase::Acquire);
            assert_eq!(stack.op(id).unwrap().holder.stage, Protect::Idle);
        } else {
            assert_eq!(
                withdrawn,
                Progress::Done(Outcome::Delete(Err(DeleteError::ContentionExceeded)))
            );
        }
    }
    assert!(!stack.in_flight(id));
    // Nothing was deleted.
    for value in (0..=15u32).rev() {
        assert_eq!(stack.delete(), Ok(value));
    }
    assert_eq!(stack.delete(), Err(DeleteError::Empty));
}

#[test]
fn an_insertion_gives_up_after_fifteen_lost_exchanges() {
    let mut stack: Stack<u32> = Stack::new();
    let id = stack.begin_insert(99);
    for round in 1..=15u32 {
        // With the head null one action protects it, otherwise three do.
        let actions = if stack.is_empty() { 1 } else { 3 };
        advance(&mut stack, id, actions);
        assert_eq!(stack.op(id).unwrap().phase, Phase::Guarded);
        assert_eq!(stack.insert(round), Ok(Ack));
        assert_eq!(stack.step(id), Progress::Pending);
        assert_eq!(stack.op(id).unwrap().phase, Phase::Lost);
        let withdrawn = stack.step(id);
        if round < 15 {
            assert_eq!(withdrawn, Progress::Pending);
        } else {
            assert_eq!(
                withdrawn,
                Progress::Done(Outcome::Insert(Err(ContentionError)))
            );
        }
    }
    assert!(!stack.in_flight(id));
    // Nothing was inserted by the operation that gave up.
    for value in (1..=15u32).rev() {
        assert_eq!(stack.delete(), Ok(value));
    }
    assert_eq!(stack.delete(), Err(DeleteError::Empty));
}

#[test]
fn fourteen_lost_exchanges_leave_one_attempt() {
    let mut stack: Stack<u32> = Stack::new();
    assert_eq!(stack.insert(0), Ok(Ack));
    let id = stack.begin_delete();
    for round in 1..=14u32 {
        advance(&mut stack, id, 4);
        assert_eq!(stack.insert(round), Ok(Ack));
        advance(&mut stack, id, 2);
    }
    assert_eq!(stack.op(id).unwrap().attempts, 14);
    advance(&mut stack, id, 8);
    assert_eq!(stack.step(id), Progress::Done(Outcome::Delete(Ok(14))));
    assert_eq!(stack.delete(), Ok(13));
}

#[test]
fn finding_the_stack_empty_costs_no_attempt() {
    let mut stack: Stack<u32> = Stack::new();
    assert_eq!(stack.insert(1), Ok(Ack));
    let id = stack.begin_delete();
    advance(&mut stack, id, 4);
    // The only value goes to somebody else.
    assert_eq!(stack.delete(), Ok(1));
    // The exchange is lost, the publication withdrawn.
    advance(&mut stack, id, 2);
    assert_eq!(stack.op(id).unwrap().attempts, 1);
    // The head is null.
    assert_eq!(stack.step(id), Progress::Pending);
    assert_eq!(stack.op(id).unwrap().phase, Phase::Leave);
    assert_eq!(stack.op(id).unwrap().attempts, 1);
    assert_eq!(
        stack.step(id),
        Progress::Done(Outcome::Delete(Err(DeleteError::Empty)))
    );
}

#[test]
fn a_validation_that_fails_starts_over_with_the_new_head() {
    let mut stack: Stack<u32> = Stack::new();
    assert_eq!(stack.insert(1), Ok(Ack));
    let id = stack.begin_delete();
    advance(&mut stack, id, 2);
    let old_top = match stack.op(id).unwrap().holder.stage {
        Protect::Published(addr) => addr,
        other => panic!("the head was published, not {:?}", other),
    };
    assert_eq!(stack.insert(2), Ok(Ack));
    // The re-read finds another address: nothing is lost, nothing is won.
    assert_eq!(stack.step(id), Progress::Pending);
    let new_top = match stack.op(id).unwrap().holder.stage {
        Protect::Seen(addr) => addr,
        other => panic!("the new head was read, not {:?}", other),
    };
    assert_ne!(new_top, old_top);
    assert_eq!(stack.op(id).unwrap().attempts, 0);
    assert_eq!(stack.op(id).unwrap().phase, Phase::Acquire);
    advance(&mut stack, id, 7);
    assert_eq!(stack.step(id), Progress::Done(Outcome::Delete(Ok(2))));
}

#[test]
fn a_validation_that_finds_null_ends_the_protection() {
    let mut stack: Stack<u32> = Stack::new();
    assert_eq!(stack.insert(1), Ok(Ack));
    let deletion = stack.begin_delete();
    let insertion = stack.begin_insert(2);
    advance(&mut stack, deletion, 2);
    advance(&mut stack, insertion, 2);
    assert_eq!(stack.delete(), Ok(1));
    // The insertion goes on with a null guard, the deletion has its result.
    assert_eq!(stack.step(insertion), Progress::Pending);
    assert_eq!(stack.op(insertion).unwrap().phase, Phase::Guarded);
    assert_eq!(stack.op(insertion).unwrap().holder.stage, Protect::Idle);
    assert_eq!(stack.step(deletion), Progress::Pending);
    assert_eq!(stack.op(deletion).unwrap().phase, Phase::Leave);
    assert_eq!(
        stack.step(deletion),
        Progress::Done(Outcome::Delete(Err(DeleteError::Empty)))
    );
    advance(&mut stack, insertion, 2);
    assert_eq!(
        stack.step(insertion),
        Progress::Done(Outcome::Insert(Ok(Ack)))
    );
    assert_eq!(stack.delete(), Ok(2));
}

#[test]
fn a_publication_lasts_until_it_is_withdrawn() {
    let mut stack: Stack<u32> = Stack::new();
    assert_eq!(stack.insert(1), Ok(Ack));
    let insertion = stack.begin_insert(2);
    advance(&mut stack, insertion, 2);
    assert_eq!(stack.delete(), Ok(1));
    // The insertion reads null and goes on without a guard.
    advance(&mut stack, insertion, 1);
    assert_eq!(stack.op(insertion).unwrap().holder.stage, Protect::Idle);
    // Its slot still shows the node it published, which is retired by now.
    stack.try_reclaim();
    assert_eq!(stack.pending_len(), 1);
    // Exchange and sweep: the sweep runs before the release.
    advance(&mut stack, insertion, 2);
    assert_eq!(stack.pending_len(), 1);
    assert_eq!(
        stack.step(insertion),
        Progress::Done(Outcome::Insert(Ok(Ack)))
    );
    stack.try_reclaim();
    assert_eq!(stack.pending_len(), 0);
}

#[test]
fn a_guard_keeps_a_retired_node_from_the_sweep() {
    let mut stack: Stack<u32> = Stack::new();
    assert_eq!(stack.insert(7), Ok(Ack));
    let id = stack.begin_delete();
    advance(&mut stack, id, 3);
    assert_eq!(stack.op(id).unwrap().phase, Phase::Guarded);
    // Somebody else unlinks the guarded node.
    assert_eq!(stack.delete(), Ok(7));
    assert_eq!(stack.pending_len(), 1);
    stack.try_reclaim();
    stack.try_reclaim();
    assert_eq!(stack.pending_len(), 1);
    // The guarded node can still be read.
    assert_eq!(stack.step(id), Progress::Pending);
    assert_eq!(stack.op(id).unwrap().phase, Phase::Swap { next: 0 });
    stack.try_reclaim();
    assert_eq!(stack.pending_len(), 1);
    // The exchange is lost; the publication is still there.
    assert_eq!(stack.step(id), Progress::Pending);
    assert_eq!(stack.op(id).unwrap().phase, Phase::Lost);
    stack.try_reclaim();
    assert_eq!(stack.pending_len(), 1);
    // The publication is withdrawn.
    assert_eq!(stack.step(id), Progress::Pending);
    stack.try_reclaim();
    assert_eq!(stack.pending_len(), 0);
    advance(&mut stack, id, 1);
    assert_eq!(
        stack.step(id),
        Progress::Done(Outcome::Delete(Err(DeleteError::Empty)))
    );
}

#[test]
fn an_unlinked_node_waits_for_its_deletion() {
    let mut stack: Stack<u32> = Stack::new();
    assert_eq!(stack.insert(1), Ok(Ack));
    assert_eq!(stack.insert(2), Ok(Ack));
    let id = stack.begin_delete();
    advance(&mut stack, id, 5);
    assert_eq!(stack.op(id).unwrap().phase, Phase::Unlinked);
    // The node of 2 is unlinked and not retired yet. Others come and go.
    assert_eq!(stack.delete(), Ok(1));
    assert_eq!(stack.insert(3), Ok(Ack));
    assert_eq!(stack.insert(4), Ok(Ack));
    stack.try_reclaim();
    assert_eq!(stack.delete(), Ok(4));
    stack.try_reclaim();
    // The value is still there to be duplicated.
    assert_eq!(stack.step(id), Progress::Pending);
    assert_eq!(stack.op(id).unwrap().taken, Some(2));
    advance(&mut stack, id, 2);
    assert_eq!(stack.step(id), Progress::Done(Outcome::Delete(Ok(2))));
    assert_eq!(stack.delete(), Ok(3));
    assert_eq!(stack.delete(), Err(DeleteError::Empty));
    stack.try_reclaim();
    assert_eq!(stack.pending_len(), 0);
}

#[test]
fn a_guarded_address_is_not_handed_out_again() {
    let mut stack: Stack<u32> = Stack::new();
    assert_eq!(stack.insert(1), Ok(Ack));
    assert_eq!(stack.insert(2), Ok(Ack));
    let id = stack.begin_delete();
    // The deletion guards the node of 2 and has read the link to the node of 1.
    advance(&mut stack, id, 4);
    let guarded = match stack.op(id).unwrap().holder.stage {
        Protect::Holding(addr) => addr,
        other => panic!("the head was guarded, not {:?}", other),
    };
    // Both nodes go, and a new node comes.
    assert_eq!(stack.delete(), Ok(2));
    assert_eq!(stack.delete(), Ok(1));
    stack.try_reclaim();
    assert_eq!(stack.pending_len(), 1);
    assert_eq!(stack.insert(3), Ok(Ack));
    // The new node lives elsewhere, so the stale exchange cannot win.
    let watcher = stack.begin_delete();
    advance(&mut stack, watcher, 1);
    assert_ne!(
        stack.op(watcher).unwrap().holder.stage,
        Protect::Seen(guarded)
    );
    assert_eq!(stack.step(id), Progress::Pending);
    assert_eq!(stack.op(id).unwrap().phase, Phase::Lost);
    assert_eq!(stack.op(id).unwrap().attempts, 1);
    advance(&mut stack, id, 9);
    assert_eq!(stack.step(id), Progress::Done(Outcome::Delete(Ok(3))));
    // The watcher publishes what it saw, finds the head null and leaves.
    advance(&mut stack, watcher, 2);
    assert_eq!(
        stack.step(watcher),
        Progress::Done(Outcome::Delete(Err(DeleteError::Empty)))
    );
    assert!(stack.is_empty());
}

#[test]
fn a_freed_address_is_handed_out_again() {
    let mut stack: Stack<u32> = Stack::new();
    assert_eq!(stack.insert(1), Ok(Ack));
    let probe = stack.begin_delete();
    advance(&mut stack, probe, 1);
    let first = match stack.op(probe).unwrap().holder.stage {
        Protect::Seen(addr) => addr,
        other => panic!("the head was read, not {:?}", other),
    };
    // The probe has published nothing yet: the node is destroyed.
    assert_eq!(stack.delete(), Ok(1));
    stack.try_reclaim();
    assert_eq!(stack.pending_len(), 0);
    assert_eq!(stack.insert(2), Ok(Ack));
    // The probe publishes the address it saw, and the head holds it again.
    advance(&mut stack, probe, 2);
    assert_eq!(
        stack.op(probe).unwrap().holder.stage,
        Protect::Holding(first)
    );
    advance(&mut stack, probe, 5);
    assert_eq!(stack.step(probe), Progress::Done(Outcome::Delete(Ok(2))));
}

#[test]
fn two_deletions_race_for_one_value() {
    let mut stack: Stack<u32> = Stack::new();
    assert_eq!(stack.insert(1), Ok(Ack));
    let left = stack.begin_delete();
    let right = stack.begin_delete();
    advance(&mut stack, left, 4);
    advance(&mut stack, right, 4);
    // Exactly one exchange wins.
    assert_eq!(stack.step(right), Progress::Pending);
    assert_eq!(stack.op(right).unwrap().phase, Phase::Unlinked);
    assert_eq!(stack.step(left), Progress::Pending);
    assert_eq!(stack.op(left).unwrap().phase, Phase::Lost);
    assert_eq!(stack.op(left).unwrap().attempts, 1);
    advance(&mut stack, right, 3);
    assert_eq!(stack.step(right), Progress::Done(Outcome::Delete(Ok(1))));
    advance(&mut stack, left, 2);
    assert_eq!(
        stack.step(left),
        Progress::Done(Outcome::Delete(Err(DeleteError::Empty)))
    );
}

#[test]
fn two_insertions_race_for_the_head() {
    let mut stack: Stack<u32> = Stack::new();
    let left = stack.begin_insert(1);
    let right = stack.begin_insert(2);
    advance(&mut stack, left, 1);
    advance(&mut stack, right, 1);
    assert_eq!(stack.step(left), Progress::Pending);
    assert_eq!(stack.op(left).unwrap().phase, Phase::Sweep);
    assert_eq!(stack.step(right), Progress::Pending);
    assert_eq!(stack.op(right).unwrap().phase, Phase::Lost);
    assert_eq!(stack.op(right).unwrap().attempts, 1);
    advance(&mut stack, left, 1);
    assert_eq!(stack.step(left), Progress::Done(Outcome::Insert(Ok(Ack))));
    advance(&mut stack, right, 6);
    assert_eq!(stack.step(right), Progress::Done(Outcome::Insert(Ok(Ack))));
    assert_eq!(stack.delete(), Ok(2));
    assert_eq!(stack.delete(), Ok(1));
}

use fastack::op::{Ack, DeleteError, Outcome, Progress};
use fastack::stack::Stack;

/// What one participant of a simulated execution is doing.
struct Participant {
    inserts: bool,
    deletes: bool,
    left: usize,
    running: Option<usize>,
    next_value: u64,
}

/// What an execution did to the values.
struct Tally {
    inserted: Vec<u64>,
    deleted: Vec<u64>,
    refused: usize,
    empty: usize,
    sweeps: usize,
}

fn draw(seed: &mut u64) -> u64 {
    let mut x = *seed;
    x ^= x << 13;
    x ^= x >> 7;
    x ^= x << 17;
    *seed = x;
    x
}

/// Lets the participants take turns, one atomic action per turn, in an order
/// drawn from `seed`, until each has run all its operations.
fn execute(stack: &mut Stack<u64>, participants: &mut Vec<Participant>, seed: u64) -> Tally {
    let mut seed = seed | 1;
    let mut tally = Tally {
        inserted: Vec::new(),
        deleted: Vec::new(),
        refused: 0,
        empty: 0,
        sweeps: 0,
    };
    loop {
        let busy: Vec<usize> = (0..participants.len())
            .filter(|&i| participants[i].left > 0 || participants[i].running.is_some())
            .collect();
        if busy.is_empty() {
            break;
        }
        let turn = busy[(draw(&mut seed) % busy.len() as u64) as usize];
        let who = &mut participants[turn];
        match who.running {
            None => {
                who.left -= 1;
                let pick = draw(&mut seed) % 8;
                if who.inserts && who.deletes && pick == 0 {
                    stack.try_reclaim();
                    tally.sweeps += 1;
                } else if who.inserts && (!who.deletes || pick % 2 == 1) {
                    who.next_value += 1;
                    who.running = Some(stack.begin_insert(who.next_value));
                } else {
                    who.running = Some(stack.begin_delete());
                }
            }
            Some(id) => {
                assert!(stack.in_flight(id));
                match stack.step(id) {
                    Progress::Pending => {}
                    Progress::Done(outcome) => {
                        who.running = None;
                        match outcome {
                            Outcome::Insert(Ok(Ack)) => tally.inserted.push(who.next_value),
                            Outcome::Insert(Err(_)) => tally.refused += 1,
                            Outcome::Delete(Ok(value)) => tally.deleted.push(value),
                            Outcome::Delete(Err(DeleteError::Empty)) => tally.empty += 1,
                            Outcome::Delete(Err(DeleteError::ContentionExceeded)) => {
                                tally.refused += 1
                            }
                        }
                    }
                }
            }
        }
    }
    tally
}

fn crowd(inserters: usize, deleters: usize, mixed: usize, each: usize) -> Vec<Participant> {
    let mut all = Vec::new();
    for i in 0..inserters + deleters + mixed {
        all.push(Participant {
            inserts: i < inserters || i >= inserters + deleters,
            deletes: i >= inserters,
            left: each,
            running: None,
            next_value: (i as u64) << 32,
        });
    }
    all
}

fn drain(stack: &mut Stack<u64>) -> Vec<u64> {
    let mut rest = Vec::new();
    while let Ok(value) = stack.delete() {
        rest.push(value);
    }
    rest
}

fn assert_conserved(tally: &Tally, rest: &[u64]) {
    let mut put = tally.inserted.clone();
    let mut got = tally.deleted.clone();
    got.extend_from_slice(rest);
    put.sort();
    got.sort();
    assert_eq!(put, got);
}

#[test]
fn one_inserter_and_one_deleter_conserve_the_values() {
    for seed in 1..40u64 {
        let mut stack: Stack<u64> = Stack::new();
        let mut participants = crowd(1, 1, 0, 300);
        let tally = execute(&mut stack, &mut participants, seed * 7919);
        assert!(stack.is_quiescent());
        let rest = drain(&mut stack);
        assert_conserved(&tally, &rest);
        assert_eq!(tally.inserted.len() + tally.refused + tally.empty + tally.deleted.len(), 600);
    }
}

#[test]
fn many_inserters_and_deleters_conserve_the_values() {
    for (inserters, deleters) in [(1, 4), (4, 1), (3, 3), (5, 2), (2, 7)] {
        for seed in 1..12u64 {
            let mut stack: Stack<u64> = Stack::new();
            let mut participants = crowd(inserters, deleters, 0, 200);
            let tally = execute(&mut stack, &mut participants, seed * 104_729 + inserters as u64);
            assert!(stack.is_quiescent());
            let rest = drain(&mut stack);
            assert_conserved(&tally, &rest);
        }
    }
}

#[test]
fn no_value_is_returned_twice() {
    let mut stack: Stack<u64> = Stack::new();
    let mut participants = crowd(4, 4, 0, 500);
    let tally = execute(&mut stack, &mut participants, 0x9e37_79b9_7f4a_7c15);
    let mut got = tally.deleted.clone();
    got.extend(drain(&mut stack));
    let before = got.len();
    got.sort();
    got.dedup();
    assert_eq!(got.len(), before);
}

#[test]
fn contention_refuses_operations_without_losing_values() {
    // Sixteen participants on one head lose exchanges often enough for some
    // of them to use up their attempts.
    let mut refused = 0;
    for seed in 1..30u64 {
        let mut stack: Stack<u64> = Stack::new();
        let mut participants = crowd(16, 16, 0, 40);
        let tally = execute(&mut stack, &mut participants, seed * 15_485_863);
        refused += tally.refused;
        let rest = drain(&mut stack);
        assert_conserved(&tally, &rest);
    }
    assert!(refused > 0);
    assert!(refused < 30 * 32 * 40);
}

#[test]
fn eight_participants_mix_a_hundred_thousand_operations_each() {
    let mut stack: Stack<u64> = Stack::new();
    let mut participants = crowd(0, 0, 8, 100_000);
    let tally = execute(&mut stack, &mut participants, 0x2545_f491_4f6c_dd1d);
    assert!(stack.is_quiescent());
    assert!(tally.sweeps > 0);
    assert!(tally.deleted.len() > 0);
    let operations = tally.inserted.len() + tally.deleted.len() + tally.refused + tally.empty
        + tally.sweeps;
    assert_eq!(operations, 800_000);
    let rest = drain(&mut stack);
    assert_conserved(&tally, &rest);
    // With every guard gone one sweep destroys what was retired.
    stack.try_reclaim();
    assert_eq!(stack.pending_len(), 0);
    stack.teardown();
    assert!(stack.is_empty());
}

#[test]
fn the_pending_list_drains_after_a_burst() {
    let mut stack: Stack<u64> = Stack::new();
    let mut participants = crowd(6, 0, 0, 50);
    let put = execute(&mut stack, &mut participants, 77);
    let mut participants = crowd(0, 6, 0, 80);
    let got = execute(&mut stack, &mut participants, 78);
    assert!(stack.is_quiescent());
    assert_eq!(put.inserted.len() - got.deleted.len(), drain(&mut stack).len());
    stack.try_reclaim();
    assert_eq!(stack.pending_len(), 0);
}

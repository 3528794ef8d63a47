//! The operations on a stack as values: what was asked for, how far it has
//! come, and how it ended.

use crate::hazard::{Holder, Protect};
use vstd::prelude::*;

verus! {

/// How many exchanges of the head an operation may lose before it gives up.
pub const RETRY_BUDGET: usize = 15;

/// The answer to an insertion that took effect.
#[derive(Clone, Copy, Debug, PartialEq, Eq)]
pub struct Ack;

/// An insertion gave up: it lost [`RETRY_BUDGET`] exchanges of the head to
/// other operations. Nothing was inserted; the caller may insert again.
#[derive(Clone, Copy, Debug, PartialEq, Eq)]
pub struct ContentionError;

/// Why a deletion returned no value.
#[derive(Clone, Copy, Debug, PartialEq, Eq)]
pub enum DeleteError {
    /// The deletion found the head null. This costs no attempt.
    Empty,
    /// The deletion lost [`RETRY_BUDGET`] exchanges of the head to other
    /// operations. Nothing was deleted; the caller may delete again.
    ContentionExceeded,
}

/// What an operation was started for.
#[derive(Debug, PartialEq, Eq)]
pub enum Request<T> {
    /// Put a copy of the value on top of the stack.
    Insert(T),
    /// Take the top value off the stack.
    Delete,
}

/// Where an operation stands: what its next action is.
#[derive(Clone, Copy, Debug, PartialEq, Eq)]
pub enum Phase {
    /// It is protecting the address in the head; the next action is the
    /// next one of the protection protocol.
    Acquire,
    /// Its guard is in place. An insertion exchanges the head next, a
    /// deletion reads the link of the guarded node.
    Guarded,
    /// A deletion has read `next` out of the guarded node and exchanges the
    /// head for it next.
    Swap { next: usize },
    /// A deletion won its exchange: the guarded node is unlinked, and the
    /// deletion duplicates its value next.
    Unlinked,
    /// A deletion has its value and hands the unlinked node to the registry
    /// next.
    Retire,
    /// It won its exchange and sweeps the registry next.
    Sweep,
    /// It lost its exchange and withdraws its publication next; with that it
    /// starts another attempt or gives up.
    Lost,
    /// It knows its result and releases its holder next; with that it ends.
    Leave,
}

/// An operation in flight: the registers that only the operation itself
/// reads and writes.
#[derive(Debug, PartialEq, Eq)]
pub struct Op<T> {
    pub request: Request<T>,
    /// The exchanges lost so far.
    pub attempts: usize,
    /// The guard of the operation; its slot is the operation's index.
    pub holder: Holder,
    pub phase: Phase,
    /// The copy that a deletion made of the value it unlinked.
    pub taken: Option<T>,
}

/// How an operation ended.
#[derive(Debug, PartialEq, Eq)]
pub enum Outcome<T> {
    Insert(Result<Ack, ContentionError>),
    Delete(Result<T, DeleteError>),
}

/// What one action of an operation led to.
#[derive(Debug, PartialEq, Eq)]
pub enum Progress<T> {
    /// The operation has more to do.
    Pending,
    /// The operation is over and has left the table of operations.
    Done(Outcome<T>),
}

impl<T> Request<T> {
    /// How the request ends when its attempts are used up.
    pub open spec fn gives_up(self) -> Outcome<T> {
        match self {
            Request::Insert(_) => Outcome::Insert(Err(ContentionError)),
            Request::Delete => Outcome::Delete(Err(DeleteError::ContentionExceeded)),
        }
    }

    /// Tells whether the request is a deletion.
    pub fn is_delete(&self) -> (delete: bool)
        ensures
            delete == (self is Delete),
    {
        match self {
            Request::Insert(_) => false,
            Request::Delete => true,
        }
    }

    /// The outcome of the request when its attempts are used up.
    pub fn give_up(self) -> (outcome: Outcome<T>)
        ensures
            outcome == self.gives_up(),
    {
        match self {
            Request::Insert(_) => Outcome::Insert(Err(ContentionError)),
            Request::Delete => Outcome::Delete(Err(DeleteError::ContentionExceeded)),
        }
    }
}

impl<T> Op<T> {
    /// An operation that has done nothing yet, with its holder on `slot`.
    pub open spec fn fresh(request: Request<T>, slot: usize) -> Op<T> {
        Op {
            request,
            attempts: 0,
            holder: Holder { slot, stage: Protect::Idle },
            phase: Phase::Acquire,
            taken: None,
        }
    }

    /// The operation in the given phase, otherwise unchanged.
    pub open spec fn at(self, phase: Phase) -> Op<T> {
        Op { phase, ..self }
    }

    /// The operation has unlinked a node and not yet handed it to the
    /// registry: until it does, the node is its own.
    pub open spec fn owns_node(self) -> bool {
        self.phase is Unlinked || self.phase is Retire
    }

    /// How the operation ends when it leaves.
    pub open spec fn result(self) -> Outcome<T> {
        match self.request {
            Request::Insert(_) => Outcome::Insert(Ok(Ack)),
            Request::Delete => match self.taken {
                Some(value) => Outcome::Delete(Ok(value)),
                None => Outcome::Delete(Err(DeleteError::Empty)),
            },
        }
    }
}

} // verus!

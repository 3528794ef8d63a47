//! A lock-free LIFO stack with hazard-pointer reclamation.
//!
//! The stack is a chain of heap nodes behind one atomic head pointer.
//! Insertions and deletions change the head by compare-and-exchange and give
//! up after a fixed number of lost exchanges. A node that a deletion unlinks
//! is retired to a registry and destroyed by a later sweep, once no
//! operation publishes its address any more.
//!
//! The crate states the algorithm as an executable state machine. Nodes live
//! in an [`arena`] and are named by index, the head is a [`sync::AtomicPtr`]
//! holding such an index, and every access to shared state is one call that
//! takes the state by `&mut`. An operation in flight is a value in the
//! stack's table of operations; [`Stack::step`] performs its next access.
//! Any order of `step` calls is one interleaving of a concurrent execution,
//! and the contract of `step` holds for each of them:
//!
//! * [`hazard`] holds the guard and the registry,
//! * [`op`] the operations as values,
//! * [`model`] the state of a stack, its invariant and its transitions,
//! * [`stack`] the executable stack,
//! * [`laws`] what holds of every execution.

pub mod arena;
pub mod hazard;
pub mod laws;
pub mod model;
pub mod op;
pub mod stack;
pub mod sync;

pub use crate::hazard::{BoxedPointer, Doer, Holder};
pub use crate::stack::Stack;

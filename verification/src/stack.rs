//! The stack: its nodes, its shared state, and the operations on it.
//!
//! A [`Stack`] owns the head pointer, the arena of nodes and its own
//! registry of hazard slots and retired nodes. A registry per stack keeps
//! the proof local to one stack and lets a sweep look only at that stack's
//! nodes; stacks therefore never delay one another's reclamation.
//!
//! An operation is started with [`Stack::begin_insert`] or
//! [`Stack::begin_delete`] and advanced by [`Stack::step`], one access to
//! shared state at a time. Whoever calls `step` chooses the interleaving;
//! the contracts hold for every choice. [`Stack::insert`] and
//! [`Stack::delete`] run one operation from start to end with nothing in
//! between; [`Stack::teardown`] gives up the nodes of a stack that nobody
//! uses any more.

use crate::arena::Arena;
use crate::hazard::{claimed, first_vacant, shield};
use crate::hazard::{BoxedPointer, Doer, Holder, Loaded};
use crate::model::{op_ok, pushed, visited, State};
use crate::op::{Ack, ContentionError, DeleteError, Op, Outcome, Phase, Progress, Request};
use crate::op::RETRY_BUDGET;
use crate::sync::{AtomicPtr, NULL};
use vstd::pervasive::unreached;
use vstd::prelude::*;

verus! {

/// One element of the chain: a value and the address of the node below it.
pub struct Node<T> {
    pub value: T,
    pub next: usize,
}

impl<T> Node<T> {
    /// A node that is not linked to anything yet.
    pub fn new(value: T) -> (node: Self)
        ensures
            node == (Node { value, next: NULL }),
    {
        Node { value, next: NULL }
    }
}

/// A last-in-first-out stack of heap nodes behind one atomic head pointer.
pub struct Stack<T> {
    head: AtomicPtr,
    heap: Arena<Node<T>>,
    dropbox: BoxedPointer,
    ops: Vec<Option<Op<T>>>,
    chain: Ghost<Seq<usize>>,
}

impl<T> View for Stack<T> {
    type V = State<T>;

    closed spec fn view(&self) -> State<T> {
        State {
            head: self.head@,
            nodes: self.heap@,
            chain: self.chain@,
            hazards: self.dropbox.hazards(),
            pending: self.dropbox.pending(),
            ops: self.ops@,
        }
    }
}

impl<T: Clone> Stack<T> {
    /// The stack satisfies its invariant.
    pub closed spec fn wf(&self) -> bool {
        &&& self.heap.wf()
        &&& self@.inv()
    }

    /// A well-formed stack is in a state that satisfies the invariant.
    pub proof fn lemma_wf(&self)
        requires
            self.wf(),
        ensures
            self@.inv(),
    {
    }

    /// The operation at `id` has been taken out of the table of `pre` for
    /// its next action; everything else is as in `pre`.
    spec fn checked_out(&self, pre: State<T>, id: int) -> bool {
        &&& self.heap.wf()
        &&& pre.inv()
        &&& pre.active(id)
        &&& self@ == (State { ops: pre.ops.update(id, None), ..pre })
    }

    /// An empty stack.
    pub fn new() -> (stack: Self)
        ensures
            stack.wf(),
            stack@ == State::<T>::empty(),
    {
        let stack = Stack {
            head: AtomicPtr::new(NULL),
            heap: Arena::new(),
            dropbox: BoxedPointer::new(),
            ops: Vec::new(),
            chain: Ghost(Seq::empty()),
        };
        proof {
            State::<T>::lemma_empty_inv();
        }
        stack
    }

    /// Tells whether the stack holds no value.
    pub fn is_empty(&self) -> (empty: bool)
        requires
            self.wf(),
        ensures
            empty == (self@.items().len() == 0),
    {
        self.head.load() == NULL
    }

    /// The number of retired nodes that no sweep has destroyed yet.
    pub fn pending_len(&self) -> (n: usize)
        ensures
            n == self@.pending.len(),
    {
        self.dropbox.pending_len()
    }

    /// Tells whether an operation is in flight at `id`.
    pub fn in_flight(&self, id: usize) -> (active: bool)
        ensures
            active == self@.active(id as int),
    {
        id < self.ops.len() && self.ops[id].is_some()
    }

    /// The operation in flight at `id`, if there is one.
    pub fn op(&self, id: usize) -> (op: Option<&Op<T>>)
        ensures
            op is Some == self@.active(id as int),
            op matches Some(found) ==> Some(*found) == self@.ops[id as int],
    {
        if id < self.ops.len() {
            self.ops[id].as_ref()
        } else {
            None
        }
    }

    /// Tells whether no operation is in flight.
    pub fn is_quiescent(&self) -> (quiet: bool)
        ensures
            quiet == self@.quiescent(),
    {
        let mut i: usize = 0;
        while i < self.ops.len()
            invariant
                i <= self.ops@.len(),
                forall|k: int| 0 <= k < i ==> self.ops@[k] is None,
            decreases self.ops@.len() - i,
        {
            if self.ops[i].is_some() {
                return false;
            }
            i = i + 1;
        }
        true
    }

    /// Registers `request` as an operation in flight and returns its index.
    fn begin(&mut self, request: Request<T>) -> (id: usize)
        requires
            old(self).wf(),
        ensures
            final(self).wf(),
            first_vacant(old(self)@.hazards, id as int),
            final(self)@ == old(self)@.begin(id as int, request),
    {
        let holder = self.dropbox.register();
        let id = holder.slot;
        let op = Op { request, attempts: 0, holder, phase: Phase::Acquire, taken: None };
        if id < self.ops.len() {
            self.ops.set(id, Some(op));
        } else {
            self.ops.push(Some(op));
        }
        let n = self.ops.len();
        proof {
            assert(id < n);
            assert(self.heap.wf());
            assert(self.dropbox.hazards() == claimed(old(self)@.hazards, id as int));
            assert(self.ops@ == old(self)@.begin(id as int, request).ops);
            assert(self@ =~= old(self)@.begin(id as int, request));
            old(self)@.lemma_begin_keeps_inv(id as int, request);
        }
        id
    }

    /// Starts an insertion of `value` and returns the index under which
    /// [`Stack::step`] advances it: the lowest index without operation.
    pub fn begin_insert(&mut self, value: T) -> (id: usize)
        requires
            old(self).wf(),
        ensures
            final(self).wf(),
            first_vacant(old(self)@.hazards, id as int),
            final(self)@ == old(self)@.begin(id as int, Request::Insert(value)),
    {
        self.begin(Request::Insert(value))
    }

    /// Starts a deletion and returns the index under which [`Stack::step`]
    /// advances it: the lowest index without operation.
    pub fn begin_delete(&mut self) -> (id: usize)
        requires
            old(self).wf(),
        ensures
            final(self).wf(),
            first_vacant(old(self)@.hazards, id as int),
            final(self)@ == old(self)@.begin(id as int, Request::Delete),
    {
        self.begin(Request::Delete)
    }

    /// Performs the next action of the operation at `id`, which is one
    /// access to shared state: a read of the head or of a guarded node, a
    /// write to the operation's hazard slot, an exchange of the head, the
    /// retirement of a node, or a sweep.
    ///
    /// An exchange that finds the head changed costs the operation one of
    /// its [`RETRY_BUDGET`] attempts; having lost the last, the operation
    /// ends with its contention error. An operation that ends frees its
    /// index.
    pub fn step(&mut self, id: usize) -> (p: Progress<T>)
        requires
            old(self).wf(),
            old(self)@.active(id as int),
        ensures
            final(self).wf(),
            old(self)@.steps_to(final(self)@, id as int),
            p == old(self)@.progress(id as int),
    {
        let ghost pre = self@;
        let mut slot: Option<Op<T>> = None;
        self.ops.set_and_swap(id, &mut slot);
        let Op { request, attempts, holder, phase, taken } = slot.unwrap();
        proof {
            assert(op_ok(pre.ops[id as int], id as int, pre.hazards[id as int], pre.nodes));
        }
        match request {
            Request::Insert(value) => self.advance_insert(
                id,
                value,
                attempts,
                holder,
                phase,
                taken,
                Ghost(pre),
            ),
            Request::Delete => self.advance_delete(id, attempts, holder, phase, taken, Ghost(pre)),
        }
    }

    /// The next action of an insertion: protect the head, exchange it for a
    /// new node that holds a copy of `value` and points at the protected
    /// address, sweep, leave; after a lost exchange, withdraw and protect
    /// again.
    fn advance_insert(
        &mut self,
        id: usize,
        value: T,
        attempts: usize,
        holder: Holder,
        phase: Phase,
        taken: Option<T>,
        Ghost(pre): Ghost<State<T>>,
    ) -> (p: Progress<T>)
        requires
            old(self).checked_out(pre, id as int),
            pre.ops[id as int] == Some(
                Op { request: Request::Insert(value), attempts, holder, phase, taken },
            ),
        ensures
            final(self).wf(),
            pre.steps_to(final(self)@, id as int),
            p == pre.progress(id as int),
    {
        proof {
            assert(op_ok(pre.ops[id as int], id as int, pre.hazards[id as int], pre.nodes));
        }
        match phase {
            Phase::Acquire => self.protect(
                id,
                Request::Insert(value),
                attempts,
                holder,
                taken,
                Ghost(pre),
            ),
            Phase::Guarded => {
                let cur = holder.guarded();
                let mut node = Node::new(value.clone());
                node.next = cur;
                let ghost copy = node.value;
                let fresh = self.heap.allocate(node);
                let request = Request::Insert(value);
                if self.head.compare_exchange(cur, fresh).is_ok() {
                    self.chain = Ghost(seq![fresh] + self.chain@);
                    self.ops.set(
                        id,
                        Some(Op { request, attempts, holder, phase: Phase::Sweep, taken }),
                    );
                    proof {
                        assert(self@ =~= pre.link(id as int, fresh, copy));
                        pre.lemma_link_keeps_inv(id as int, fresh, copy);
                    }
                    Progress::Pending
                } else {
                    // The node was never published: nobody can hold its address.
                    Doer.destroy(&mut self.heap, fresh);
                    proof {
                        assert(self.heap@ =~= pre.nodes);
                    }
                    self.lose(id, request, attempts, holder, taken, Ghost(pre))
                }
            },
            Phase::Sweep => self.sweep(id, Request::Insert(value), attempts, holder, taken, Ghost(pre)),
            Phase::Lost => self.withdraw(
                id,
                Request::Insert(value),
                attempts,
                holder,
                taken,
                Ghost(pre),
            ),
            Phase::Leave => self.leave(id, Request::Insert(value), holder, taken, Ghost(pre)),
            _ => unreached(),
        }
    }

    /// The next action of a deletion: protect the head, read the link of the
    /// protected node, exchange the head for that link, duplicate the value
    /// of the unlinked node, retire the node, sweep, leave; after a lost
    /// exchange, withdraw and protect again.
    fn advance_delete(
        &mut self,
        id: usize,
        attempts: usize,
        holder: Holder,
        phase: Phase,
        taken: Option<T>,
        Ghost(pre): Ghost<State<T>>,
    ) -> (p: Progress<T>)
        requires
            old(self).checked_out(pre, id as int),
            pre.ops[id as int] == Some(Op { request: Request::Delete, attempts, holder, phase, taken }),
        ensures
            final(self).wf(),
            pre.steps_to(final(self)@, id as int),
            p == pre.progress(id as int),
    {
        let request = Request::Delete;
        let mut holder = holder;
        proof {
            assert(op_ok(pre.ops[id as int], id as int, pre.hazards[id as int], pre.nodes));
        }
        match phase {
            Phase::Acquire => self.protect(id, request, attempts, holder, taken, Ghost(pre)),
            Phase::Guarded => {
                let next = self.heap.get(holder.guarded()).next;
                self.ops.set(
                    id,
                    Some(Op { request, attempts, holder, phase: Phase::Swap { next }, taken }),
                );
                proof {
                    assert(self@ =~= pre.peek(id as int));
                    pre.lemma_peek_keeps_inv(id as int);
                }
                Progress::Pending
            },
            Phase::Swap { next } => {
                let cur = holder.guarded();
                if self.head.compare_exchange(cur, next).is_ok() {
                    self.chain = Ghost(self.chain@.drop_first());
                    self.ops.set(
                        id,
                        Some(Op { request, attempts, holder, phase: Phase::Unlinked, taken }),
                    );
                    proof {
                        assert(self@ =~= pre.unlink(id as int, next));
                        pre.lemma_unlink_keeps_inv(id as int);
                    }
                    Progress::Pending
                } else {
                    self.lose(id, request, attempts, holder, taken, Ghost(pre))
                }
            },
            Phase::Unlinked => {
                let copy = self.heap.get(holder.guarded()).value.clone();
                self.ops.set(
                    id,
                    Some(Op { request, attempts, holder, phase: Phase::Retire, taken: Some(copy) }),
                );
                proof {
                    assert(self@ =~= pre.copy_out(id as int, copy));
                    pre.lemma_copy_out_keeps_inv(id as int, copy);
                }
                Progress::Pending
            },
            Phase::Retire => {
                proof {
                    pre.lemma_retire_keeps_inv(id as int);
                    pre.lemma_pending_is_sound();
                    assert(pre.hazards =~= pre.hazards.update(
                        id as int,
                        Some(holder.address()),
                    ));
                }
                let unlinked = AtomicPtr::new(holder.guarded());
                let wrapper = holder.get_wrapper(&unlinked, &mut self.dropbox);
                self.dropbox.retire(wrapper.expect("Has to be there"));
                self.ops.set(id, Some(Op { request, attempts, holder, phase: Phase::Sweep, taken }));
                proof {
                    assert(self@ =~= pre.retire(id as int));
                }
                Progress::Pending
            },
            Phase::Sweep => self.sweep(id, request, attempts, holder, taken, Ghost(pre)),
            Phase::Lost => self.withdraw(id, request, attempts, holder, taken, Ghost(pre)),
            Phase::Leave => self.leave(id, request, holder, taken, Ghost(pre)),
        }
    }

    /// One action of [`Holder::load_pointer`] on the head. With the guard
    /// in place the operation goes on to use it; a deletion that reads null
    /// goes on to leave with `Empty`.
    fn protect(
        &mut self,
        id: usize,
        request: Request<T>,
        attempts: usize,
        holder: Holder,
        taken: Option<T>,
        Ghost(pre): Ghost<State<T>>,
    ) -> (p: Progress<T>)
        requires
            old(self).checked_out(pre, id as int),
            pre.ops[id as int] == Some(Op { request, attempts, holder, phase: Phase::Acquire, taken }),
        ensures
            final(self).wf(),
            final(self)@ == pre.acquire(id as int),
            p == Progress::<T>::Pending,
    {
        let mut holder = holder;
        proof {
            assert(op_ok(pre.ops[id as int], id as int, pre.hazards[id as int], pre.nodes));
            pre.lemma_acquire_keeps_inv(id as int);
        }
        let phase = match holder.load_pointer(&self.head, &mut self.dropbox) {
            Loaded::Pending => Phase::Acquire,
            Loaded::Ready(guard) => if request.is_delete() && guard.is_none() {
                Phase::Leave
            } else {
                Phase::Guarded
            },
        };
        self.ops.set(id, Some(Op { request, attempts, holder, phase, taken }));
        assert(self@ =~= pre.acquire(id as int));
        Progress::Pending
    }

    /// The operation found the head changed: it counts the lost exchange.
    fn lose(
        &mut self,
        id: usize,
        request: Request<T>,
        attempts: usize,
        holder: Holder,
        taken: Option<T>,
        Ghost(pre): Ghost<State<T>>,
    ) -> (p: Progress<T>)
        requires
            old(self).checked_out(pre, id as int),
            pre.ops[id as int] matches Some(op) && op.request == request && op.attempts == attempts
                && op.holder == holder && op.taken == taken,
            pre.loses(id as int),
        ensures
            final(self).wf(),
            final(self)@ == pre.lose(id as int),
            p == Progress::<T>::Pending,
    {
        proof {
            assert(op_ok(pre.ops[id as int], id as int, pre.hazards[id as int], pre.nodes));
            pre.lemma_lose_keeps_inv(id as int);
        }
        self.ops.set(
            id,
            Some(Op { request, attempts: attempts + 1, holder, phase: Phase::Lost, taken }),
        );
        assert(self@ =~= pre.lose(id as int));
        Progress::Pending
    }

    /// The action after a lost exchange. With attempts left the operation
    /// withdraws its publication and starts over; without, it releases its
    /// holder and ends with its contention error.
    fn withdraw(
        &mut self,
        id: usize,
        request: Request<T>,
        attempts: usize,
        holder: Holder,
        taken: Option<T>,
        Ghost(pre): Ghost<State<T>>,
    ) -> (p: Progress<T>)
        requires
            old(self).checked_out(pre, id as int),
            pre.ops[id as int] == Some(Op { request, attempts, holder, phase: Phase::Lost, taken }),
        ensures
            final(self).wf(),
            final(self)@ == pre.withdraw(id as int),
            p == pre.progress(id as int),
    {
        let mut holder = holder;
        proof {
            assert(op_ok(pre.ops[id as int], id as int, pre.hazards[id as int], pre.nodes));
            pre.lemma_withdraw_keeps_inv(id as int);
        }
        if attempts >= RETRY_BUDGET {
            holder.release(&mut self.dropbox);
            assert(self@ =~= pre.withdraw(id as int));
            Progress::Done(request.give_up())
        } else {
            holder.clear(&mut self.dropbox);
            self.ops.set(id, Some(Op { request, attempts, holder, phase: Phase::Acquire, taken }));
            assert(self@ =~= pre.withdraw(id as int));
            Progress::Pending
        }
    }

    /// The sweep of an operation that won its exchange. It runs while the
    /// operation's guard is still in place.
    fn sweep(
        &mut self,
        id: usize,
        request: Request<T>,
        attempts: usize,
        holder: Holder,
        taken: Option<T>,
        Ghost(pre): Ghost<State<T>>,
    ) -> (p: Progress<T>)
        requires
            old(self).checked_out(pre, id as int),
            pre.ops[id as int] == Some(Op { request, attempts, holder, phase: Phase::Sweep, taken }),
        ensures
            final(self).wf(),
            final(self)@ == pre.sweep(id as int),
            p == Progress::<T>::Pending,
    {
        proof {
            assert(op_ok(pre.ops[id as int], id as int, pre.hazards[id as int], pre.nodes));
            pre.lemma_pending_is_sound();
            pre.lemma_sweep_keeps_inv(id as int);
        }
        self.dropbox.try_reclaim(&mut self.heap);
        self.ops.set(id, Some(Op { request, attempts, holder, phase: Phase::Leave, taken }));
        assert(self@ =~= pre.sweep(id as int));
        Progress::Pending
    }

    /// The last action of an operation: it releases its holder and reports
    /// its result.
    fn leave(
        &mut self,
        id: usize,
        request: Request<T>,
        holder: Holder,
        taken: Option<T>,
        Ghost(pre): Ghost<State<T>>,
    ) -> (p: Progress<T>)
        requires
            old(self).checked_out(pre, id as int),
            pre.ops[id as int] matches Some(op) && op.request == request && op.holder == holder
                && op.taken == taken && op.phase is Leave,
        ensures
            final(self).wf(),
            final(self)@ == pre.finish(id as int),
            p == pre.progress(id as int),
    {
        proof {
            assert(op_ok(pre.ops[id as int], id as int, pre.hazards[id as int], pre.nodes));
            pre.lemma_finish_keeps_inv(id as int);
        }
        holder.release(&mut self.dropbox);
        assert(self@ =~= pre.finish(id as int));
        Progress::Done(
            match request {
                Request::Insert(_) => Outcome::Insert(Ok(Ack)),
                Request::Delete => match taken {
                    Some(value) => Outcome::Delete(Ok(value)),
                    None => Outcome::Delete(Err(DeleteError::Empty)),
                },
            },
        )
    }

    /// Sweeps the registry once: every retired node whose address no
    /// operation publishes is destroyed.
    pub fn try_reclaim(&mut self)
        requires
            old(self).wf(),
        ensures
            final(self).wf(),
            final(self)@ == old(self)@.reclaim(),
    {
        proof {
            self@.lemma_pending_is_sound();
            self@.lemma_reclaim_keeps_inv();
        }
        self.dropbox.try_reclaim(&mut self.heap);
    }

    /// Puts a copy of `value` on top of the stack: one insertion run from
    /// start to end with no other action in between. Nothing can change the
    /// head under it, so it wins its first exchange and never reports
    /// contention. Its closing sweep destroys every retired node that no
    /// operation in flight publishes. Operations in flight are left as they
    /// are.
    pub fn insert(&mut self, value: T) -> (r: Result<Ack, ContentionError>)
        requires
            old(self).wf(),
        ensures
            final(self).wf(),
            r == Ok::<Ack, ContentionError>(Ack),
            final(self)@.items() == pushed(old(self)@.items(), final(self)@.items()[0]),
            cloned(value, final(self)@.items()[0]),
            final(self)@.pending == old(self)@.pending.filter(shield(old(self)@.hazards)),
            final(self)@.hazards == visited(old(self)@.hazards),
            final(self)@.ops == visited(old(self)@.ops),
    {
        let ghost start = self@;
        let id = self.begin_insert(value);
        if self.head.load() != NULL {
            // Read the head, then publish what was read.
            let _ = self.step(id);
            let _ = self.step(id);
        }
        // Read the head: it is null, or it is what was published.
        let _ = self.step(id);
        let ghost guarded = self@;
        proof {
            assert(guarded.active(id as int));
            assert(guarded.ops[id as int]->0.phase is Guarded);
            assert(guarded.wins(id as int));
            assert(guarded.chain == start.chain && guarded.nodes == start.nodes && guarded.pending
                == start.pending);
        }
        // Exchange the head.
        let _ = self.step(id);
        let ghost linked = self@;
        proof {
            let copy = linked.nodes[linked.head].value;
            guarded.lemma_link_keeps_inv(id as int, linked.head, copy);
            assert(linked.items() == pushed(start.items(), copy));
            linked.lemma_sweep_keeps_inv(id as int);
            start.lemma_guard_is_moot(id as int, linked.hazards);
            start.lemma_visit(
                id as int,
                linked.hazards.update(id as int, None),
                linked.ops.update(id as int, None),
            );
        }
        // Sweep, then leave.
        let _ = self.step(id);
        match self.step(id) {
            Progress::Done(Outcome::Insert(r)) => r,
            _ => unreached(),
        }
    }

    /// Takes the top value off the stack and returns a copy of it: one
    /// deletion run from start to end with no other action in between. On an
    /// empty stack it returns `Empty` and changes nothing; it never reports
    /// contention. The node it unlinks is retired and survives the closing
    /// sweep, which runs under the deletion's own guard; that sweep destroys
    /// every other retired node that no operation in flight publishes.
    pub fn delete(&mut self) -> (r: Result<T, DeleteError>)
        requires
            old(self).wf(),
        ensures
            final(self).wf(),
            final(self)@.hazards == visited(old(self)@.hazards),
            final(self)@.ops == visited(old(self)@.ops),
            old(self)@.items().len() == 0 ==> {
                &&& r == Err::<T, DeleteError>(DeleteError::Empty)
                &&& final(self)@.items() == old(self)@.items()
                &&& final(self)@.pending == old(self)@.pending
            },
            old(self)@.items().len() > 0 ==> {
                &&& r matches Ok(value)
                &&& cloned(old(self)@.items()[0], value)
                &&& final(self)@.items() == old(self)@.items().drop_first()
                &&& final(self)@.pending == old(self)@.pending.filter(
                    shield(old(self)@.hazards),
                ).push(old(self)@.head)
            },
    {
        let ghost start = self@;
        let id = self.begin_delete();
        let ghost begun = self@;
        if self.head.load() == NULL {
            proof {
                start.lemma_visit(
                    id as int,
                    begun.hazards.update(id as int, None),
                    begun.ops.update(id as int, None),
                );
            }
            // Read the head: it is null. Then leave.
            let _ = self.step(id);
            return match self.step(id) {
                Progress::Done(Outcome::Delete(r)) => r,
                _ => unreached(),
            };
        }
        // Read the head, publish what was read, read the head again.
        let _ = self.step(id);
        let _ = self.step(id);
        let _ = self.step(id);
        let ghost guarded = self@;
        proof {
            assert(guarded.active(id as int));
            assert(guarded.ops[id as int]->0.phase is Guarded);
            assert(guarded.chain == start.chain && guarded.nodes == start.nodes && guarded.pending
                == start.pending);
        }
        // Read the link of the guarded node.
        let _ = self.step(id);
        let ghost peeked = self@;
        proof {
            assert(peeked.wins(id as int));
            peeked.lemma_unlink_keeps_inv(id as int);
        }
        // Exchange the head, then duplicate the value of the unlinked node.
        let _ = self.step(id);
        let _ = self.step(id);
        let ghost copied = self@;
        proof {
            assert(copied.ops[id as int]->0.phase is Retire);
            assert(cloned(start.items()[0], copied.ops[id as int]->0.taken->0));
        }
        // Retire the node.
        let _ = self.step(id);
        let ghost retired = self@;
        proof {
            assert(retired.pending == start.pending.push(start.head));
            retired.lemma_sweep_keeps_inv(id as int);
            start.lemma_guard_is_moot(id as int, retired.hazards);
            start.lemma_visit(
                id as int,
                retired.hazards.update(id as int, None),
                retired.ops.update(id as int, None),
            );
            assert(retired.hazards[id as int] == Some(start.head));
            assert(retired.hazards.contains(Some(start.head)));
            Seq::lemma_filter_push(start.pending, start.head, shield(retired.hazards));
        }
        // Sweep, then leave.
        let _ = self.step(id);
        match self.step(id) {
            Progress::Done(Outcome::Delete(r)) => r,
            _ => unreached(),
        }
    }

    /// Gives up everything the stack owns. With no operation in flight
    /// nothing can be reading a node, so the chain is walked from the head
    /// and every node on it destroyed directly; one last sweep then
    /// destroys the nodes that were retired before.
    pub fn teardown(&mut self)
        requires
            old(self).wf(),
            old(self)@.quiescent(),
        ensures
            final(self).wf(),
            final(self)@ == old(self)@.torn_down(),
    {
        let ghost pre = self@;
        let ghost chain = self.chain@;
        let ghost mut walked: int = 0;
        let mut current = self.head.load();
        proof {
            assert(chain.take(0) =~= Seq::<usize>::empty());
            assert(self.heap@ =~= pre.nodes.remove_keys(chain.take(0).to_set()));
        }
        while current != NULL
            invariant
                pre.inv(),
                chain == pre.chain,
                0 <= walked <= chain.len(),
                current == (if walked < chain.len() {
                    chain[walked]
                } else {
                    NULL
                }),
                self.heap.wf(),
                self.heap@ == pre.nodes.remove_keys(chain.take(walked).to_set()),
                self.dropbox.hazards() == pre.hazards,
                self.dropbox.pending() == pre.pending,
                self.ops@ == pre.ops,
            decreases chain.len() - walked,
        {
            proof {
                assert(pre.nodes.contains_key(chain[walked]));
                assert(!chain.take(walked).contains(current)) by {
                    if chain.take(walked).contains(current) {
                        let k = choose|k: int|
                            0 <= k < chain.take(walked).len() && chain.take(walked)[k] == current;
                        assert(chain[k] == chain[walked]);
                    }
                }
            }
            let next = self.heap.get(current).next;
            Doer.destroy(&mut self.heap, current);
            proof {
                assert(chain.take(walked + 1) =~= chain.take(walked).push(current));
                assert(chain.take(walked + 1).to_set() =~= chain.take(walked).to_set().insert(
                    current,
                )) by {
                    let longer = chain.take(walked + 1);
                    let shorter = chain.take(walked);
                    assert forall|a: usize| longer.contains(a) <==> shorter.contains(a) || a
                        == current by {
                        if longer.contains(a) {
                            let k = choose|k: int| 0 <= k < longer.len() && longer[k] == a;
                            if k < walked {
                                assert(shorter[k] == a);
                            }
                        }
                        if shorter.contains(a) {
                            let k = choose|k: int| 0 <= k < shorter.len() && shorter[k] == a;
                            assert(longer[k] == a);
                        }
                        assert(longer[walked] == current);
                    }
                }
                assert(self.heap@ =~= pre.nodes.remove_keys(chain.take(walked + 1).to_set()));
                walked = walked + 1;
            }
            current = next;
        }
        self.head.store(NULL);
        self.chain = Ghost(Seq::empty());
        proof {
            assert(chain.take(walked) =~= chain);
            pre.lemma_pending_is_sound();
            assert forall|a: usize| self.dropbox.pending().contains(a) implies self.heap@.contains_key(
                a,
            ) by {
                let k = choose|k: int| 0 <= k < pre.pending.len() && pre.pending[k] == a;
                assert(!pre.chain.contains(pre.pending[k]));
            }
        }
        self.dropbox.try_reclaim(&mut self.heap);
        proof {
            pre.lemma_torn_down();
            assert(self.heap@ =~= Map::<usize, Node<T>>::empty()) by {
                assert forall|a: usize| !self.heap@.contains_key(a) by {
                    if pre.nodes.contains_key(a) && !chain.contains(a) {
                        assert(pre.pending.contains(a));
                    }
                }
            }
            assert(self@ =~= pre.torn_down());
        }
    }
}

} // verus!

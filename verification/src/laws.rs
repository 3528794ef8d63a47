//! What holds of every execution.
//!
//! An execution is a list of atomic actions: operations register, operations
//! take their next action, and the registry is swept, in any order and by
//! any number of participants. The laws below are stated over such lists, so
//! they cover every interleaving of every number of inserting and deleting
//! participants.

use crate::hazard::{doomed, first_vacant, lemma_filter_keeps_order, shield};
use crate::model::{carries, op_ok, pushed, State};
use crate::op::{Outcome, Phase, Progress, Request, RETRY_BUDGET};
use crate::sync::NULL;
use vstd::multiset::Multiset;
use vstd::prelude::*;
use vstd::seq_lib::{to_multiset_insert, to_multiset_remove};

verus! {

/// One atomic action of an execution.
pub enum Action<T> {
    /// An operation registers at index `id`.
    Begin { id: int, request: Request<T> },
    /// The operation at `id` takes its next action; if that allocates a node
    /// the node gets address `fresh`, and if it duplicates a value the
    /// duplicate is `copy`.
    Step { id: int, fresh: usize, copy: T },
    /// The registry is swept outside any operation.
    Reclaim,
}

impl<T: Clone> State<T> {
    /// `action` can happen in this state.
    pub open spec fn allows(self, action: Action<T>) -> bool {
        match action {
            Action::Begin { id, request } => first_vacant(self.hazards, id) && id < usize::MAX,
            Action::Step { id, fresh, copy } => self.active(id) && self.admits(id, fresh, copy),
            Action::Reclaim => true,
        }
    }

    /// The state that `action` leads to.
    pub open spec fn after(self, action: Action<T>) -> State<T> {
        match action {
            Action::Begin { id, request } => self.begin(id, request),
            Action::Step { id, fresh, copy } => self.step(id, fresh, copy),
            Action::Reclaim => self.reclaim(),
        }
    }

    /// The value that `action` puts on the stack: the copy stored by an
    /// insertion that wins its exchange, and nothing for any other action.
    pub open spec fn puts(self, action: Action<T>) -> Multiset<T> {
        match action {
            Action::Step { id, fresh, copy } => if self.wins(id)
                && self.ops[id]->0.request is Insert {
                Multiset::singleton(copy)
            } else {
                Multiset::empty()
            },
            _ => Multiset::empty(),
        }
    }

    /// The value that `action` takes off the stack: the value in the node
    /// unlinked by a deletion that wins its exchange, and nothing for any
    /// other action.
    pub open spec fn takes(self, action: Action<T>) -> Multiset<T> {
        match action {
            Action::Step { id, fresh, copy } => if self.wins(id) && self.ops[id]->0.phase is Swap {
                Multiset::singleton(self.nodes[self.ops[id]->0.holder.address()].value)
            } else {
                Multiset::empty()
            },
            _ => Multiset::empty(),
        }
    }

    /// Every action of the list can happen when its turn comes.
    pub open spec fn admits_all(self, actions: Seq<Action<T>>) -> bool
        decreases actions.len(),
    {
        actions.len() > 0 ==> self.allows(actions[0]) && self.after(actions[0]).admits_all(
            actions.drop_first(),
        )
    }

    /// The state after all actions of the list, in order.
    pub open spec fn after_all(self, actions: Seq<Action<T>>) -> State<T>
        decreases actions.len(),
    {
        if actions.len() == 0 {
            self
        } else {
            self.after(actions[0]).after_all(actions.drop_first())
        }
    }

    /// All values that the actions of the list put on the stack.
    pub open spec fn inserted(self, actions: Seq<Action<T>>) -> Multiset<T>
        decreases actions.len(),
    {
        if actions.len() == 0 {
            Multiset::empty()
        } else {
            self.puts(actions[0]).add(self.after(actions[0]).inserted(actions.drop_first()))
        }
    }

    /// All values that the actions of the list take off the stack.
    pub open spec fn deleted(self, actions: Seq<Action<T>>) -> Multiset<T>
        decreases actions.len(),
    {
        if actions.len() == 0 {
            Multiset::empty()
        } else {
            self.takes(actions[0]).add(self.after(actions[0]).deleted(actions.drop_first()))
        }
    }

    /// The values on the stack after `action`: one more on top after an
    /// insertion's winning exchange, the top one gone after a deletion's
    /// winning exchange, and the same values after any other action.
    pub open spec fn items_after(self, action: Action<T>) -> Seq<T> {
        match action {
            Action::Step { id, fresh, copy } => if !self.wins(id) {
                self.items()
            } else if self.ops[id]->0.request is Insert {
                pushed(self.items(), copy)
            } else {
                self.items().drop_first()
            },
            _ => self.items(),
        }
    }

    /// Every operation takes effect in one action: an action keeps the
    /// invariant, only a winning exchange changes the values on the stack,
    /// and it moves exactly the value it puts or takes. What a deletion
    /// takes is the top value.
    pub proof fn lemma_action(self, action: Action<T>)
        requires
            self.inv(),
            self.allows(action),
        ensures
            self.after(action).inv(),
            self.after(action).items() == self.items_after(action),
            self.takes(action).len() > 0 ==> self.items().len() > 0 && self.takes(action)
                == Multiset::singleton(self.items()[0]),
            self.items().to_multiset().add(self.puts(action)) == self.takes(action).add(
                self.after(action).items().to_multiset(),
            ),
    {
        let before = self.items();
        let post = self.after(action);
        match action {
            Action::Begin { id, request } => {
                self.lemma_begin_keeps_inv(id, request);
            },
            Action::Reclaim => {
                self.lemma_reclaim_keeps_inv();
            },
            Action::Step { id, fresh, copy } => {
                let op = self.ops[id]->0;
                assert(op_ok(self.ops[id], id, self.hazards[id], self.nodes));
                self.lemma_step_keeps_inv(id, fresh, copy);
                match op.phase {
                    Phase::Acquire => self.lemma_acquire_keeps_inv(id),
                    Phase::Guarded => match op.request {
                        Request::Insert(_) => {
                            self.lemma_link_keeps_inv(id, fresh, copy);
                            if self.wins(id) {
                                assert(post.items() =~= before.insert(0, copy));
                                to_multiset_insert(before, 0, copy);
                            }
                        },
                        Request::Delete => self.lemma_peek_keeps_inv(id),
                    },
                    Phase::Swap { next } => {
                        self.lemma_unlink_keeps_inv(id);
                        if self.wins(id) {
                            assert(post.items() =~= before.remove(0));
                            to_multiset_remove(before, 0);
                            assert(before.to_multiset().count(before[0]) > 0) by {
                                assert(before.contains(before[0]));
                                before.to_multiset_ensures();
                            }
                        }
                    },
                    Phase::Unlinked => self.lemma_copy_out_keeps_inv(id, copy),
                    Phase::Retire => self.lemma_retire_keeps_inv(id),
                    Phase::Sweep => self.lemma_sweep_keeps_inv(id),
                    Phase::Lost => self.lemma_withdraw_keeps_inv(id),
                    Phase::Leave => self.lemma_finish_keeps_inv(id),
                }
            },
        }
        assert(self.items().to_multiset().add(self.puts(action)) =~= self.takes(action).add(
            post.items().to_multiset(),
        ));
    }

    /// The invariant holds after every execution that starts where it holds.
    pub proof fn lemma_invariant(self, actions: Seq<Action<T>>)
        requires
            self.inv(),
            self.admits_all(actions),
        ensures
            self.after_all(actions).inv(),
        decreases actions.len(),
    {
        if actions.len() > 0 {
            self.lemma_action(actions[0]);
            self.after(actions[0]).lemma_invariant(actions.drop_first());
        }
    }

    /// Conservation: over every execution, the values on the stack at the
    /// start together with the values put on it are the values taken off it
    /// together with the values on it at the end, each as often as the
    /// other. A value put on the stack is the duplicate an insertion made of
    /// its argument, and a deletion returns a duplicate of the value it
    /// takes off.
    pub proof fn lemma_conservation(self, actions: Seq<Action<T>>)
        requires
            self.inv(),
            self.admits_all(actions),
        ensures
            self.items().to_multiset().add(self.inserted(actions)) == self.deleted(actions).add(
                self.after_all(actions).items().to_multiset(),
            ),
        decreases actions.len(),
    {
        if actions.len() > 0 {
            let next = self.after(actions[0]);
            self.lemma_action(actions[0]);
            next.lemma_conservation(actions.drop_first());
            assert(self.items().to_multiset().add(self.inserted(actions)) =~= self.deleted(
                actions,
            ).add(self.after_all(actions).items().to_multiset())) by {
                let a = self.items().to_multiset();
                let p = self.puts(actions[0]);
                let t = self.takes(actions[0]);
                let b = next.items().to_multiset();
                let ins = next.inserted(actions.drop_first());
                let del = next.deleted(actions.drop_first());
                let z = self.after_all(actions).items().to_multiset();
                assert(a.add(p) == t.add(b));
                assert(b.add(ins) == del.add(z));
                assert(a.add(p.add(ins)) =~= a.add(p).add(ins));
                assert(t.add(b).add(ins) =~= t.add(b.add(ins)));
                assert(t.add(del.add(z)) =~= t.add(del).add(z));
            }
        } else {
            assert(self.items().to_multiset().add(Multiset::empty()) =~= Multiset::empty().add(
                self.items().to_multiset(),
            ));
        }
    }

    /// Conservation from a created stack: what was put on it is what was
    /// taken off it together with what is still on it.
    pub proof fn lemma_conservation_from_empty(actions: Seq<Action<T>>)
        requires
            State::<T>::empty().admits_all(actions),
        ensures
            State::<T>::empty().inserted(actions) == State::<T>::empty().deleted(actions).add(
                State::<T>::empty().after_all(actions).items().to_multiset(),
            ),
    {
        let start = State::<T>::empty();
        State::<T>::lemma_empty_inv();
        start.lemma_conservation(actions);
        assert(start.items().to_multiset() =~= Multiset::empty()) by {
            start.items().to_multiset_ensures();
            assert(start.items().to_multiset().len() == 0);
            vstd::multiset::lemma_multiset_empty_len(start.items().to_multiset());
        }
        assert(start.items().to_multiset().add(start.inserted(actions)) =~= start.inserted(actions));
    }

    /// One winner: when an exchange wins, every other operation that was
    /// about to exchange the same head loses its exchange.
    pub proof fn lemma_one_winner(self, winner: int, other: int, fresh: usize, copy: T)
        requires
            self.inv(),
            self.active(winner),
            self.active(other),
            winner != other,
            self.wins(winner),
            self.wins(other),
            self.admits(winner, fresh, copy),
        ensures
            self.step(winner, fresh, copy).active(other),
            self.step(winner, fresh, copy).loses(other),
    {
        let op = self.ops[winner]->0;
        assert(op_ok(self.ops[winner], winner, self.hazards[winner], self.nodes));
        assert(op_ok(self.ops[other], other, self.hazards[other], self.nodes));
        if self.chain.len() > 0 {
            assert(self.nodes.contains_key(self.chain[0]));
        }
        if self.chain.len() > 1 {
            assert(self.chain[0] != self.chain[1]);
        }
    }

    /// The next action of the operation at `id` reads the node at the
    /// address it guards: a deletion reads the link of the node before its
    /// exchange and the value of the node after it.
    pub open spec fn dereferences(self, id: int) -> bool {
        let op = self.ops[id]->0;
        (op.phase is Guarded && op.request is Delete) || op.phase is Unlinked
    }

    /// No use after free: in every execution from a created stack, an
    /// action that reads a node finds the node at its address.
    pub proof fn lemma_no_use_after_free(actions: Seq<Action<T>>, id: int)
        requires
            State::<T>::empty().admits_all(actions),
            State::<T>::empty().after_all(actions).active(id),
            State::<T>::empty().after_all(actions).dereferences(id),
        ensures
            State::<T>::empty().after_all(actions).nodes.contains_key(
                State::<T>::empty().after_all(actions).ops[id]->0.holder.address(),
            ),
    {
        let now = State::<T>::empty().after_all(actions);
        State::<T>::lemma_empty_inv();
        State::<T>::empty().lemma_invariant(actions);
        assert(op_ok(now.ops[id], id, now.hazards[id], now.nodes));
    }

    /// No double free: what a sweep destroys are nodes that exist, each
    /// retired once, none of them linked and none of them in the hands of an
    /// operation.
    pub proof fn lemma_sweep_destroys_retired_nodes(self, addr: usize)
        requires
            self.inv(),
            doomed(self.hazards, self.pending).contains(addr),
        ensures
            self.nodes.contains_key(addr),
            !self.reclaim().nodes.contains_key(addr),
            !self.reclaim().pending.contains(addr),
            !self.chain.contains(addr),
            forall|i: int| 0 <= i < self.ops.len() ==> !carries(#[trigger] self.ops[i], addr),
            forall|i: int|
                0 <= i < self.ops.len() && (#[trigger] self.ops[i]) is Some
                    && self.ops[i]->0.holder.stage is Holding ==> self.ops[i]->0.holder.address()
                    != addr,
    {
        self.lemma_pending_is_sound();
        let k = choose|k: int| 0 <= k < self.pending.len() && self.pending[k] == addr;
        assert(!self.chain.contains(self.pending[k]));
        lemma_filter_keeps_order(self.pending, shield(self.hazards));
        assert forall|i: int| 0 <= i < self.ops.len() implies !carries(
            #[trigger] self.ops[i],
            addr,
        ) by {}
        assert forall|i: int|
            0 <= i < self.ops.len() && (#[trigger] self.ops[i]) is Some
                && self.ops[i]->0.holder.stage is Holding implies self.ops[i]->0.holder.address()
                != addr by {
            assert(op_ok(self.ops[i], i, self.hazards[i], self.nodes));
            if self.ops[i]->0.holder.address() == addr {
                assert(self.hazards[i] == Some(addr));
                assert(self.hazards.contains(Some(addr)));
            }
        }
    }

    /// A guard keeps its node alive: in every state of every execution, the
    /// address under a completed protection holds a node, and a sweep leaves
    /// that node as it is.
    pub proof fn lemma_guarded_node_lives(self, id: int)
        requires
            self.inv(),
            self.active(id),
            self.ops[id]->0.holder.stage is Holding,
        ensures
            self.nodes.contains_key(self.ops[id]->0.holder.address()),
            self.reclaim().nodes.contains_key(self.ops[id]->0.holder.address()),
            self.reclaim().nodes[self.ops[id]->0.holder.address()]
                == self.nodes[self.ops[id]->0.holder.address()],
    {
        let p = self.ops[id]->0.holder.address();
        assert(op_ok(self.ops[id], id, self.hazards[id], self.nodes));
        assert(self.hazards[id] == Some(p));
        self.lemma_sweep_spares_published(p);
    }

    /// A sweep never destroys the node at an address that some slot
    /// publishes.
    pub proof fn lemma_sweep_spares_published(self, addr: usize)
        requires
            addr != NULL,
            self.hazards.contains(Some(addr)),
        ensures
            self.reclaim().nodes.contains_key(addr) == self.nodes.contains_key(addr),
            self.nodes.contains_key(addr) ==> self.reclaim().nodes[addr] == self.nodes[addr],
    {
        assert(shield(self.hazards)(addr));
        assert(!doomed(self.hazards, self.pending).contains(addr));
    }

    /// Reclamation progress: where no slot publishes an address, one sweep
    /// empties the pending list, and the nodes that remain are the linked
    /// ones.
    pub proof fn lemma_sweep_drains(self)
        requires
            self.inv(),
            self.unguarded(),
        ensures
            self.reclaim().pending.len() == 0,
            forall|a: usize| self.reclaim().nodes.contains_key(a) <==> self.chain.contains(a),
    {
        self.lemma_unguarded_keeps_nothing();
        self.lemma_reclaim_keeps_inv();
        assert forall|a: usize| self.reclaim().nodes.contains_key(a) <==> self.chain.contains(
            a,
        ) by {
            if self.chain.contains(a) {
                let k = choose|k: int| 0 <= k < self.chain.len() && self.chain[k] == a;
                assert(self.reclaim().nodes.contains_key(self.reclaim().chain[k]));
            }
        }
    }

    /// The retry budget: an operation about to exchange the head has lost
    /// fewer than [`RETRY_BUDGET`] exchanges. A lost exchange is counted and
    /// changes no value; the action after it ends the operation with its
    /// contention error if the count has reached the budget, and starts
    /// another attempt otherwise.
    pub proof fn lemma_budget(self, id: int, fresh: usize, copy: T)
        requires
            self.inv(),
            self.active(id),
            self.loses(id),
        ensures
            self.ops[id]->0.attempts < RETRY_BUDGET,
            self.progress(id) == Progress::<T>::Pending,
            self.step(id, fresh, copy).items() == self.items(),
            self.step(id, fresh, copy).active(id),
            self.step(id, fresh, copy).ops[id]->0.phase is Lost,
            self.step(id, fresh, copy).ops[id]->0.attempts == self.ops[id]->0.attempts + 1,
            self.step(id, fresh, copy).progress(id) == if self.ops[id]->0.attempts + 1
                == RETRY_BUDGET {
                Progress::Done(self.ops[id]->0.request.gives_up())
            } else {
                Progress::<T>::Pending
            },
            self.step(id, fresh, copy).step(id, fresh, copy).active(id) == (
            self.ops[id]->0.attempts + 1 < RETRY_BUDGET),
    {
        assert(op_ok(self.ops[id], id, self.hazards[id], self.nodes));
        self.lemma_lose_keeps_inv(id);
    }

    /// The registers of an operation are its own: no action of another
    /// operation, no registration and no sweep changes them.
    pub proof fn lemma_registers_are_private(self, id: int, action: Action<T>)
        requires
            self.inv(),
            self.active(id),
            self.allows(action),
            !(action matches Action::Step { id: other, .. } && other == id),
        ensures
            self.after(action).active(id),
            self.after(action).ops[id] == self.ops[id],
    {
        match action {
            Action::Begin { id: other, request } => {
                assert(op_ok(self.ops[id], id, self.hazards[id], self.nodes));
            },
            _ => {},
        }
    }

    /// A node is never changed: an action creates a node at a free address
    /// or destroys nodes, and leaves every other node as it is.
    pub proof fn lemma_nodes_are_immutable(self, action: Action<T>, addr: usize)
        requires
            self.inv(),
            self.allows(action),
            self.nodes.contains_key(addr),
            self.after(action).nodes.contains_key(addr),
        ensures
            self.after(action).nodes[addr] == self.nodes[addr],
    {
    }

    /// What a deletion unlinked waits for it: whatever other operations do
    /// after a deletion won its exchange, the deletion is still in flight
    /// with the same registers, and the node it unlinked is still there with
    /// the value it had, to be duplicated and retired.
    pub proof fn lemma_unlinked_node_waits(self, id: int, actions: Seq<Action<T>>)
        requires
            self.inv(),
            self.active(id),
            self.ops[id]->0.owns_node(),
            self.admits_all(actions),
            forall|k: int|
                0 <= k < actions.len() ==> !(#[trigger] actions[k] matches Action::Step {
                    id: other,
                    ..
                } && other == id),
        ensures
            self.after_all(actions).inv(),
            self.after_all(actions).active(id),
            self.after_all(actions).ops[id] == self.ops[id],
            self.after_all(actions).nodes.contains_key(self.ops[id]->0.holder.address()),
            self.after_all(actions).nodes[self.ops[id]->0.holder.address()]
                == self.nodes[self.ops[id]->0.holder.address()],
        decreases actions.len(),
    {
        let addr = self.ops[id]->0.holder.address();
        assert(op_ok(self.ops[id], id, self.hazards[id], self.nodes));
        if actions.len() > 0 {
            let next = self.after(actions[0]);
            self.lemma_action(actions[0]);
            self.lemma_registers_are_private(id, actions[0]);
            assert(op_ok(next.ops[id], id, next.hazards[id], next.nodes));
            self.lemma_nodes_are_immutable(actions[0], addr);
            assert forall|k: int| 0 <= k < actions.drop_first().len() implies !(
            #[trigger] actions.drop_first()[k] matches Action::Step { id: other, .. } && other
                == id) by {
                assert(actions.drop_first()[k] == actions[k + 1]);
            }
            next.lemma_unlinked_node_waits(id, actions.drop_first());
        }
    }

    /// A deletion returns a duplicate of the value in the node it unlinked:
    /// it duplicates that value while the node is its own, keeps the
    /// duplicate through the retirement and the sweep, and reports it when
    /// it leaves.
    pub proof fn lemma_delete_returns_taken(self, id: int, fresh: usize, copy: T)
        requires
            self.inv(),
            self.active(id),
            self.ops[id]->0.phase is Unlinked,
            self.admits(id, fresh, copy),
        ensures
            self.nodes.contains_key(self.ops[id]->0.holder.address()),
            cloned(self.nodes[self.ops[id]->0.holder.address()].value, copy),
            self.step(id, fresh, copy).step(id, fresh, copy).step(id, fresh, copy).active(id),
            self.step(id, fresh, copy).step(id, fresh, copy).step(id, fresh, copy).progress(id)
                == Progress::Done(Outcome::Delete(Ok(copy))),
    {
        assert(op_ok(self.ops[id], id, self.hazards[id], self.nodes));
        let copied = self.step(id, fresh, copy);
        self.lemma_copy_out_keeps_inv(id, copy);
        assert(op_ok(copied.ops[id], id, copied.hazards[id], copied.nodes));
        let retired = copied.step(id, fresh, copy);
        copied.lemma_retire_keeps_inv(id);
        assert(op_ok(retired.ops[id], id, retired.hazards[id], retired.nodes));
        retired.lemma_sweep_keeps_inv(id);
    }
}

/// The values of a stack that held `base` after an insertion of each value
/// of `values`, in order.
pub open spec fn stacked<T>(base: Seq<T>, values: Seq<T>) -> Seq<T>
    decreases values.len(),
{
    if values.len() == 0 {
        base
    } else {
        pushed(stacked(base, values.drop_last()), values.last())
    }
}

/// The values of a stack that held `items` after `count` deletions.
pub open spec fn unstacked<T>(items: Seq<T>, count: nat) -> Seq<T>
    decreases count,
{
    if count == 0 {
        items
    } else {
        unstacked(items.drop_first(), (count - 1) as nat)
    }
}

/// Deleting `count` times drops the first `count` values.
pub proof fn lemma_unstacked<T>(items: Seq<T>, count: nat)
    requires
        count <= items.len(),
    ensures
        unstacked(items, count) == items.skip(count as int),
    decreases count,
{
    if count > 0 {
        lemma_unstacked(items.drop_first(), (count - 1) as nat);
        assert(items.drop_first().skip(count - 1) =~= items.skip(count as int));
    } else {
        assert(items.skip(0) =~= items);
    }
}

/// Last in, first out: after the values of `values` were inserted in order
/// with nothing in between, the deletions that follow find them on top in
/// reverse order, and after as many deletions as there were insertions the
/// stack holds what it held before.
pub proof fn lemma_lifo<T>(base: Seq<T>, values: Seq<T>)
    ensures
        stacked(base, values) == values.reverse() + base,
        forall|k: nat|
            k < values.len() ==> (#[trigger] unstacked(stacked(base, values), k))[0]
                == values[values.len() - 1 - k],
        unstacked(stacked(base, values), values.len()) == base,
    decreases values.len(),
{
    if values.len() > 0 {
        lemma_lifo(base, values.drop_last());
        assert(values.reverse() =~= seq![values.last()] + values.drop_last().reverse());
    }
    assert(stacked(base, values) =~= values.reverse() + base);
    assert forall|k: nat| k < values.len() implies (#[trigger] unstacked(
        stacked(base, values),
        k,
    ))[0] == values[values.len() - 1 - k] by {
        lemma_unstacked(stacked(base, values), k);
    }
    lemma_unstacked(stacked(base, values), values.len());
    assert(stacked(base, values).skip(values.len() as int) =~= base);
}

} // verus!

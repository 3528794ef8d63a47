//! The stack as a mathematical state and its atomic actions as functions on
//! that state.
//!
//! A [`State`] holds what every participant can see (the head, the nodes, the
//! published addresses, the retired nodes) together with the private
//! registers of every operation in flight. One action of one operation is one
//! application of [`State::step`]; a concurrent execution is any sequence of
//! such applications. What is proved of every action therefore holds of every
//! interleaving.
//!
//! An action is one access to shared state: a read of the head, a read of a
//! node, a write to the operation's own hazard slot, an exchange of the
//! head, the addition of a node to the pending list, or a sweep. What an
//! operation does to memory that nobody else can reach belongs to the action
//! it prepares or follows: the node of an insertion is allocated and, where
//! the exchange is lost, destroyed again within the exchange, since its
//! address was never stored anywhere. Actions are totally ordered; the
//! weaker orderings that a processor offers are outside this description.

use crate::arena::Arena;
use crate::hazard::{claimed, doomed, first_vacant, lemma_filter_keeps_order, shield};
use crate::hazard::{Holder, Loaded, Protect};
use crate::op::{Op, Phase, Progress, Request, RETRY_BUDGET};
use crate::stack::Node;
use crate::sync::NULL;
use vstd::prelude::*;

verus! {

/// Everything that determines how the stack behaves next.
#[verifier::ext_equal]
pub struct State<T> {
    /// The address of the top node, or null.
    pub head: usize,
    /// The nodes that exist, by address.
    pub nodes: Map<usize, Node<T>>,
    /// The addresses of the linked nodes, top first.
    pub chain: Seq<usize>,
    /// What each hazard slot publishes; `None` for a slot without holder.
    pub hazards: Seq<Option<usize>>,
    /// The addresses of the unlinked nodes not yet destroyed, oldest first.
    pub pending: Seq<usize>,
    /// The operations in flight, each at the index of its hazard slot.
    pub ops: Seq<Option<Op<T>>>,
}

/// The table of slots after an operation came and went: as it was where it
/// had a vacant slot, and one vacant slot longer where it had none.
pub open spec fn visited<A>(table: Seq<Option<A>>) -> Seq<Option<A>> {
    if exists|i: int| 0 <= i < table.len() && table[i] is None {
        table
    } else {
        table.push(None)
    }
}

/// The values of a stack after `value` was put on top of `items`.
pub open spec fn pushed<T>(items: Seq<T>, value: T) -> Seq<T> {
    seq![value] + items
}

/// Two tests that agree on every element of a list keep the same elements.
pub proof fn lemma_filter_agree<A>(list: Seq<A>, p: spec_fn(A) -> bool, q: spec_fn(A) -> bool)
    requires
        forall|i: int| 0 <= i < list.len() ==> p(list[i]) == q(list[i]),
    ensures
        list.filter(p) == list.filter(q),
    decreases list.len(),
{
    reveal(Seq::filter);
    if list.len() > 0 {
        lemma_filter_agree(list.drop_last(), p, q);
    }
}

/// Following `next` from `head` visits exactly `chain`, each node once.
pub open spec fn linked<T>(head: usize, nodes: Map<usize, Node<T>>, chain: Seq<usize>) -> bool {
    &&& chain.no_duplicates()
    &&& head == (if chain.len() == 0 {
        NULL
    } else {
        chain[0]
    })
    &&& forall|k: int|
        0 <= k < chain.len() ==> nodes.contains_key(#[trigger] chain[k]) && nodes[chain[k]].next
            == (if k + 1 < chain.len() {
            chain[k + 1]
        } else {
            NULL
        })
}

/// The retired nodes exist, none twice, and none of them is linked.
pub open spec fn apart<T>(nodes: Map<usize, Node<T>>, chain: Seq<usize>, pending: Seq<usize>) -> bool {
    &&& pending.no_duplicates()
    &&& forall|k: int|
        0 <= k < pending.len() ==> nodes.contains_key(#[trigger] pending[k]) && !chain.contains(
            pending[k],
        )
}

/// The operation `op` has unlinked the node at `addr` and not retired it.
pub open spec fn carries<T>(op: Option<Op<T>>, addr: usize) -> bool {
    op matches Some(op) && op.owns_node() && op.holder.address() == addr
}

/// Some operation of the table holds the node at `addr` between unlinking
/// and retiring it.
pub open spec fn carried<T>(ops: Seq<Option<Op<T>>>, addr: usize) -> bool {
    exists|i: int| 0 <= i < ops.len() && #[trigger] carries(ops[i], addr)
}

/// A node between unlinking and retiring is neither linked nor retired, and
/// one operation alone holds it.
pub open spec fn detached<T>(ops: Seq<Option<Op<T>>>, chain: Seq<usize>, pending: Seq<usize>) -> bool {
    &&& forall|i: int, a: usize|
        0 <= i < ops.len() && #[trigger] carries(ops[i], a) ==> !chain.contains(a)
            && !pending.contains(a)
    &&& forall|i: int, j: int, a: usize|
        0 <= i < ops.len() && 0 <= j < ops.len() && i != j && #[trigger] carries(ops[i], a)
            ==> !#[trigger] carries(ops[j], a)
}

/// Every node that exists is linked, retired, or held by the operation that
/// unlinked it.
pub open spec fn accounted<T>(
    nodes: Map<usize, Node<T>>,
    chain: Seq<usize>,
    pending: Seq<usize>,
    ops: Seq<Option<Op<T>>>,
) -> bool {
    forall|a: usize| #[trigger]
        nodes.contains_key(a) ==> chain.contains(a) || pending.contains(a) || carried(ops, a)
}

/// What has to hold of the operation at index `id`, given what its slot
/// shows and which nodes exist.
pub open spec fn op_ok<T>(
    op: Option<Op<T>>,
    id: int,
    shown: Option<usize>,
    nodes: Map<usize, Node<T>>,
) -> bool {
    match op {
        None => shown is None,
        Some(op) => {
            &&& op.holder.slot == id
            &&& if op.phase is Lost {
                0 < op.attempts <= RETRY_BUDGET
            } else {
                op.attempts < RETRY_BUDGET
            }
            &&& op.holder.stage.agrees(shown)
            &&& op.holder.stage is Holding ==> nodes.contains_key(op.holder.address())
            &&& match op.phase {
                Phase::Acquire => !(op.holder.stage is Holding) && op.taken is None,
                Phase::Guarded => {
                    &&& op.taken is None
                    &&& op.holder.stage is Holding || (op.holder.stage is Idle
                        && op.request is Insert)
                },
                Phase::Swap { next } => {
                    &&& op.taken is None
                    &&& op.request is Delete
                    &&& op.holder.stage is Holding
                    &&& nodes[op.holder.address()].next == next
                },
                Phase::Unlinked => {
                    &&& op.taken is None
                    &&& op.request is Delete
                    &&& op.holder.stage is Holding
                },
                Phase::Retire => {
                    &&& op.taken is Some
                    &&& op.request is Delete
                    &&& op.holder.stage is Holding
                },
                Phase::Sweep => op.request is Delete <==> op.taken is Some,
                Phase::Lost => op.taken is None,
                Phase::Leave => op.request is Insert ==> op.taken is None,
            }
        },
    }
}

impl<T> State<T> {
    /// The state of a stack that was just created.
    pub open spec fn empty() -> State<T> {
        State {
            head: NULL,
            nodes: Map::empty(),
            chain: Seq::empty(),
            hazards: Seq::empty(),
            pending: Seq::empty(),
            ops: Seq::empty(),
        }
    }

    /// The values on the stack, top first.
    pub open spec fn items(self) -> Seq<T> {
        self.chain.map_values(|a: usize| self.nodes[a].value)
    }

    /// An operation is in flight at index `id`.
    pub open spec fn active(self, id: int) -> bool {
        0 <= id < self.ops.len() && self.ops[id] is Some
    }

    /// No operation is in flight.
    pub open spec fn quiescent(self) -> bool {
        forall|i: int| 0 <= i < self.ops.len() ==> self.ops[i] is None
    }

    /// No slot publishes an address.
    pub open spec fn unguarded(self) -> bool {
        forall|i: int|
            0 <= i < self.hazards.len() ==> #[trigger] self.hazards[i] is None || self.hazards[i]
                == Some(NULL)
    }

    /// The invariant of the stack: the chain is intact, the retired nodes
    /// are separate from it, no node is lost, and every operation in flight
    /// is consistent with what it published and with the nodes it relies on.
    pub open spec fn inv(self) -> bool {
        &&& !self.nodes.contains_key(NULL)
        &&& linked(self.head, self.nodes, self.chain)
        &&& apart(self.nodes, self.chain, self.pending)
        &&& detached(self.ops, self.chain, self.pending)
        &&& accounted(self.nodes, self.chain, self.pending, self.ops)
        &&& self.ops.len() == self.hazards.len()
        &&& self.ops.len() <= usize::MAX
        &&& forall|i: int|
            0 <= i < self.ops.len() ==> op_ok(#[trigger] self.ops[i], i, self.hazards[i], self.nodes)
    }

    /// The state with the operation at `id` replaced and its slot showing
    /// `shown`.
    pub open spec fn put(self, id: int, op: Op<T>, shown: Option<usize>) -> State<T> {
        State { ops: self.ops.update(id, Some(op)), hazards: self.hazards.update(id, shown), ..self }
    }

    /// The state after the operation at `id` left the table and its holder
    /// was released.
    pub open spec fn finish(self, id: int) -> State<T> {
        State { ops: self.ops.update(id, None), hazards: self.hazards.update(id, None), ..self }
    }

    /// The state after a new operation registered at `id`.
    pub open spec fn begin(self, id: int, request: Request<T>) -> State<T> {
        let op = Some(Op::fresh(request, id as usize));
        State {
            ops: if id < self.ops.len() {
                self.ops.update(id, op)
            } else {
                self.ops.push(op)
            },
            hazards: claimed(self.hazards, id),
            ..self
        }
    }

    /// One action of the protection protocol: a read of the head or a
    /// publication. With the guard in place the operation goes on to use
    /// it; a deletion that reads null has its result and goes on to leave.
    pub open spec fn acquire(self, id: int) -> State<T> {
        let op = self.ops[id]->0;
        let stage = op.holder.stage;
        let shown = stage.publishes(self.hazards[id]);
        let holder = Holder { slot: op.holder.slot, stage: stage.next(self.head) };
        match stage.reports(self.head) {
            Loaded::Pending => self.put(id, Op { holder, ..op }, shown),
            Loaded::Ready(guard) => if op.request is Delete && guard is None {
                self.put(id, Op { holder, phase: Phase::Leave, ..op }, shown)
            } else {
                self.put(id, Op { holder, phase: Phase::Guarded, ..op }, shown)
            },
        }
    }

    /// An exchange that finds the head changed: the operation counts the
    /// loss.
    pub open spec fn lose(self, id: int) -> State<T> {
        let op = self.ops[id]->0;
        State {
            ops: self.ops.update(
                id,
                Some(Op { attempts: (op.attempts + 1) as usize, phase: Phase::Lost, ..op }),
            ),
            ..self
        }
    }

    /// The action after a lost exchange: the operation withdraws its
    /// publication and starts another attempt, or releases its holder and
    /// ends when the loss was its last.
    pub open spec fn withdraw(self, id: int) -> State<T> {
        let op = self.ops[id]->0;
        if op.attempts >= RETRY_BUDGET {
            self.finish(id)
        } else {
            self.put(
                id,
                Op {
                    holder: Holder { slot: op.holder.slot, stage: Protect::Idle },
                    phase: Phase::Acquire,
                    ..op
                },
                Some(NULL),
            )
        }
    }

    /// The exchange of an insertion: if the head still holds the guarded
    /// address, a node with `copy` at address `fresh` becomes the top.
    pub open spec fn link(self, id: int, fresh: usize, copy: T) -> State<T> {
        let op = self.ops[id]->0;
        let cur = op.holder.address();
        if self.head == cur {
            State {
                head: fresh,
                nodes: self.nodes.insert(fresh, Node { value: copy, next: cur }),
                chain: seq![fresh] + self.chain,
                ops: self.ops.update(id, Some(op.at(Phase::Sweep))),
                ..self
            }
        } else {
            self.lose(id)
        }
    }

    /// A deletion reads the link of the node it guards.
    pub open spec fn peek(self, id: int) -> State<T> {
        let op = self.ops[id]->0;
        let next = self.nodes[op.holder.address()].next;
        State { ops: self.ops.update(id, Some(op.at(Phase::Swap { next }))), ..self }
    }

    /// The exchange of a deletion: if the head still holds the guarded
    /// address, the node below becomes the top and the guarded node is the
    /// deletion's own.
    pub open spec fn unlink(self, id: int, next: usize) -> State<T> {
        let op = self.ops[id]->0;
        if self.head == op.holder.address() {
            State {
                head: next,
                chain: self.chain.drop_first(),
                ops: self.ops.update(id, Some(op.at(Phase::Unlinked))),
                ..self
            }
        } else {
            self.lose(id)
        }
    }

    /// A deletion duplicates the value of the node it unlinked.
    pub open spec fn copy_out(self, id: int, copy: T) -> State<T> {
        let op = self.ops[id]->0;
        State {
            ops: self.ops.update(id, Some(Op { phase: Phase::Retire, taken: Some(copy), ..op })),
            ..self
        }
    }

    /// A deletion hands the node it unlinked to the registry.
    pub open spec fn retire(self, id: int) -> State<T> {
        let op = self.ops[id]->0;
        State {
            pending: self.pending.push(op.holder.address()),
            ops: self.ops.update(id, Some(op.at(Phase::Sweep))),
            ..self
        }
    }

    /// One sweep of the registry: every retired node that no slot publishes
    /// is destroyed.
    pub open spec fn reclaim(self) -> State<T> {
        State {
            nodes: self.nodes.remove_keys(doomed(self.hazards, self.pending)),
            pending: self.pending.filter(shield(self.hazards)),
            ..self
        }
    }

    /// The sweep that an operation runs after it won its exchange.
    pub open spec fn sweep(self, id: int) -> State<T> {
        let swept = self.reclaim();
        State { ops: swept.ops.update(id, Some(swept.ops[id]->0.at(Phase::Leave))), ..swept }
    }

    /// The state after the stack gave up all its nodes.
    pub open spec fn torn_down(self) -> State<T> {
        State {
            head: NULL,
            nodes: Map::empty(),
            chain: Seq::empty(),
            pending: Seq::empty(),
            ..self
        }
    }

    /// The state after the next action of the operation at `id`. Where that
    /// action allocates a node it gets the address `fresh`, and where it
    /// duplicates a value the duplicate is `copy`.
    pub open spec fn step(self, id: int, fresh: usize, copy: T) -> State<T> {
        let op = self.ops[id]->0;
        match op.phase {
            Phase::Acquire => self.acquire(id),
            Phase::Guarded => match op.request {
                Request::Insert(_) => self.link(id, fresh, copy),
                Request::Delete => self.peek(id),
            },
            Phase::Swap { next } => self.unlink(id, next),
            Phase::Unlinked => self.copy_out(id, copy),
            Phase::Retire => self.retire(id),
            Phase::Sweep => self.sweep(id),
            Phase::Lost => self.withdraw(id),
            Phase::Leave => self.finish(id),
        }
    }

    /// The next action of the operation at `id` is an exchange.
    pub open spec fn exchanges(self, id: int) -> bool {
        let op = self.ops[id]->0;
        op.phase is Swap || (op.phase is Guarded && op.request is Insert)
    }

    /// The next action of the operation at `id` is an exchange that finds
    /// the head changed.
    pub open spec fn loses(self, id: int) -> bool {
        self.exchanges(id) && self.head != self.ops[id]->0.holder.address()
    }

    /// The next action of the operation at `id` is an exchange that finds
    /// the head unchanged.
    pub open spec fn wins(self, id: int) -> bool {
        self.exchanges(id) && self.head == self.ops[id]->0.holder.address()
    }

    /// What the next action of the operation at `id` reports: the operation
    /// ends when it leaves with its result, and when it withdraws after the
    /// loss that used up its attempts.
    pub open spec fn progress(self, id: int) -> Progress<T> {
        let op = self.ops[id]->0;
        match op.phase {
            Phase::Leave => Progress::Done(op.result()),
            Phase::Lost => if op.attempts >= RETRY_BUDGET {
                Progress::Done(op.request.gives_up())
            } else {
                Progress::Pending
            },
            _ => Progress::Pending,
        }
    }
}

impl<T: Clone> State<T> {
    /// `fresh` and `copy` are what the next action of the operation at `id`
    /// can get from an allocator and from `clone`: an address that holds no
    /// node, and a duplicate of the value that the action duplicates.
    pub open spec fn admits(self, id: int, fresh: usize, copy: T) -> bool {
        let op = self.ops[id]->0;
        &&& self.wins(id) ==> (op.request matches Request::Insert(value) ==> {
            &&& fresh != NULL
            &&& !self.nodes.contains_key(fresh)
            &&& cloned(value, copy)
        })
        &&& op.phase is Unlinked ==> cloned(self.nodes[op.holder.address()].value, copy)
    }

    /// `post` is the state that the next action of the operation at `id`
    /// leads to, with the arena handing out its lowest free address.
    pub open spec fn steps_to(self, post: State<T>, id: int) -> bool {
        let copy = match self.ops[id]->0.request {
            Request::Insert(_) => post.nodes[post.head].value,
            Request::Delete => post.ops[id]->0.taken->0,
        };
        &&& self.admits(id, post.head, copy)
        &&& self.wins(id) && self.ops[id]->0.request is Insert ==> Arena::lowest_free(
            self.nodes,
            post.head,
        )
        &&& post == self.step(id, post.head, copy)
    }
}

impl<T> State<T> {
    /// A created stack satisfies the invariant.
    pub proof fn lemma_empty_inv()
        ensures
            Self::empty().inv(),
            Self::empty().items() == Seq::<T>::empty(),
    {
        assert(Self::empty().items() =~= Seq::<T>::empty());
    }

    /// Under the invariant the pending list is one that the registry
    /// accepts: no address twice, never null, and a node behind each.
    pub proof fn lemma_pending_is_sound(self)
        requires
            self.inv(),
        ensures
            self.pending.no_duplicates(),
            !self.pending.contains(NULL),
            forall|a: usize| self.pending.contains(a) ==> self.nodes.contains_key(a),
    {
        assert forall|a: usize| self.pending.contains(a) implies self.nodes.contains_key(a) by {
            let k = choose|k: int| 0 <= k < self.pending.len() && self.pending[k] == a;
            assert(self.nodes.contains_key(self.pending[k]));
        }
    }

    /// The operations of `ops` hold the same nodes as those of this state,
    /// index by index.
    pub open spec fn same_owners(self, ops: Seq<Option<Op<T>>>) -> bool {
        &&& ops.len() == self.ops.len()
        &&& forall|i: int, a: usize|
            0 <= i < ops.len() ==> #[trigger] carries(ops[i], a) == carries(self.ops[i], a)
    }

    /// A change of the operations that leaves every node with its owner
    /// keeps what the invariant says about owned nodes.
    pub proof fn lemma_same_owners(self, ops: Seq<Option<Op<T>>>)
        requires
            self.inv(),
            self.same_owners(ops),
        ensures
            detached(ops, self.chain, self.pending),
            accounted(self.nodes, self.chain, self.pending, ops),
    {
        assert forall|i: int, a: usize| 0 <= i < ops.len() && #[trigger] carries(ops[i], a) implies !self.chain.contains(a) && !self.pending.contains(a) by {
            assert(carries(self.ops[i], a));
        }
        assert forall|i: int, j: int, a: usize|
            0 <= i < ops.len() && 0 <= j < ops.len() && i != j && #[trigger] carries(ops[i], a) implies !#[trigger] carries(ops[j], a) by {
            assert(carries(self.ops[i], a));
            assert(!carries(self.ops[j], a));
        }
        assert forall|a: usize| #[trigger] self.nodes.contains_key(a) implies self.chain.contains(
            a,
        ) || self.pending.contains(a) || carried(ops, a) by {
            if carried(self.ops, a) {
                let i = choose|i: int| 0 <= i < self.ops.len() && #[trigger] carries(self.ops[i], a);
                assert(carries(ops[i], a));
            }
        }
    }

    /// Registering an operation keeps the invariant.
    pub proof fn lemma_begin_keeps_inv(self, id: int, request: Request<T>)
        requires
            self.inv(),
            first_vacant(self.hazards, id),
            id < usize::MAX,
        ensures
            self.begin(id, request).inv(),
            self.begin(id, request).active(id),
            self.begin(id, request).items() == self.items(),
    {
        let post = self.begin(id, request);
        assert forall|i: int| 0 <= i < post.ops.len() implies op_ok(
            #[trigger] post.ops[i],
            i,
            post.hazards[i],
            post.nodes,
        ) by {
            if i != id {
                assert(op_ok(self.ops[i], i, self.hazards[i], self.nodes));
            }
        }
        if id < self.ops.len() {
            assert(op_ok(self.ops[id], id, self.hazards[id], self.nodes));
            self.lemma_same_owners(post.ops);
        } else {
            assert forall|i: int, a: usize| 0 <= i < post.ops.len() && #[trigger] carries(post.ops[i], a) implies !post.chain.contains(a) && !post.pending.contains(a) by {
                assert(carries(self.ops[i], a));
            }
            assert forall|i: int, j: int, a: usize|
                0 <= i < post.ops.len() && 0 <= j < post.ops.len() && i != j && #[trigger] carries(post.ops[i], a) implies !#[trigger] carries(post.ops[j], a) by {
                assert(carries(self.ops[i], a));
                if j < self.ops.len() {
                    assert(!carries(self.ops[j], a));
                }
            }
            assert forall|a: usize| #[trigger] post.nodes.contains_key(a) implies post.chain.contains(
                a,
            ) || post.pending.contains(a) || carried(post.ops, a) by {
                if carried(self.ops, a) {
                    let i = choose|i: int|
                        0 <= i < self.ops.len() && #[trigger] carries(self.ops[i], a);
                    assert(carries(post.ops[i], a));
                }
            }
        }
    }

    /// Changing the operation at `id` and what its slot shows keeps the
    /// invariant as long as the new operation fits the new slot and holds
    /// the node that the old one held.
    pub proof fn lemma_put_keeps_inv(self, id: int, op: Op<T>, shown: Option<usize>)
        requires
            self.inv(),
            0 <= id < self.ops.len(),
            op_ok(Some(op), id, shown, self.nodes),
            forall|a: usize| carries(Some(op), a) == carries(self.ops[id], a),
        ensures
            self.put(id, op, shown).inv(),
            self.put(id, op, shown).items() == self.items(),
    {
        let post = self.put(id, op, shown);
        assert forall|i: int| 0 <= i < post.ops.len() implies op_ok(
            #[trigger] post.ops[i],
            i,
            post.hazards[i],
            post.nodes,
        ) by {
            if i != id {
                assert(op_ok(self.ops[i], i, self.hazards[i], self.nodes));
            }
        }
        self.lemma_same_owners(post.ops);
    }

    /// An operation that holds no node and leaves the table keeps the
    /// invariant.
    pub proof fn lemma_finish_keeps_inv(self, id: int)
        requires
            self.inv(),
            0 <= id < self.ops.len(),
            self.ops[id] is Some ==> !self.ops[id]->0.owns_node(),
        ensures
            self.finish(id).inv(),
            self.finish(id).items() == self.items(),
    {
        let post = self.finish(id);
        assert forall|i: int| 0 <= i < post.ops.len() implies op_ok(
            #[trigger] post.ops[i],
            i,
            post.hazards[i],
            post.nodes,
        ) by {
            if i != id {
                assert(op_ok(self.ops[i], i, self.hazards[i], self.nodes));
            }
        }
        self.lemma_same_owners(post.ops);
    }

    /// An action of the protection protocol keeps the invariant: a
    /// validation that succeeds finds its address at the top of the chain,
    /// where a node exists.
    pub proof fn lemma_acquire_keeps_inv(self, id: int)
        requires
            self.inv(),
            self.active(id),
            self.ops[id]->0.phase is Acquire,
        ensures
            self.acquire(id).inv(),
            self.acquire(id).items() == self.items(),
    {
        let op = self.ops[id]->0;
        assert(op_ok(self.ops[id], id, self.hazards[id], self.nodes));
        let stage = op.holder.stage;
        let shown = stage.publishes(self.hazards[id]);
        let holder = Holder { slot: op.holder.slot, stage: stage.next(self.head) };
        if self.chain.len() > 0 {
            assert(self.nodes.contains_key(self.chain[0]));
        }
        match stage.reports(self.head) {
            Loaded::Pending => {
                self.lemma_put_keeps_inv(id, Op { holder, ..op }, shown);
            },
            Loaded::Ready(guard) => {
                if op.request is Delete && guard is None {
                    self.lemma_put_keeps_inv(id, Op { holder, phase: Phase::Leave, ..op }, shown);
                } else {
                    self.lemma_put_keeps_inv(id, Op { holder, phase: Phase::Guarded, ..op }, shown);
                }
            },
        }
    }

    /// A lost exchange keeps the invariant and changes no value.
    pub proof fn lemma_lose_keeps_inv(self, id: int)
        requires
            self.inv(),
            self.active(id),
            self.exchanges(id),
        ensures
            self.lose(id).inv(),
            self.lose(id).items() == self.items(),
    {
        let op = self.ops[id]->0;
        assert(op_ok(self.ops[id], id, self.hazards[id], self.nodes));
        let lost = Op { attempts: (op.attempts + 1) as usize, phase: Phase::Lost, ..op };
        self.lemma_put_keeps_inv(id, lost, self.hazards[id]);
        assert(self.put(id, lost, self.hazards[id]) =~= self.lose(id));
    }

    /// Withdrawing after a lost exchange keeps the invariant and changes no
    /// value.
    pub proof fn lemma_withdraw_keeps_inv(self, id: int)
        requires
            self.inv(),
            self.active(id),
            self.ops[id]->0.phase is Lost,
        ensures
            self.withdraw(id).inv(),
            self.withdraw(id).items() == self.items(),
    {
        let op = self.ops[id]->0;
        assert(op_ok(self.ops[id], id, self.hazards[id], self.nodes));
        if op.attempts >= RETRY_BUDGET {
            self.lemma_finish_keeps_inv(id);
        } else {
            let again = Op {
                holder: Holder { slot: op.holder.slot, stage: Protect::Idle },
                phase: Phase::Acquire,
                ..op
            };
            self.lemma_put_keeps_inv(id, again, Some(NULL));
        }
    }

    /// The exchange of an insertion keeps the invariant, and where it wins
    /// the new value is on top of the values that were there.
    pub proof fn lemma_link_keeps_inv(self, id: int, fresh: usize, copy: T)
        requires
            self.inv(),
            self.active(id),
            self.ops[id]->0.phase is Guarded,
            self.ops[id]->0.request is Insert,
            self.wins(id) ==> fresh != NULL && !self.nodes.contains_key(fresh),
        ensures
            self.link(id, fresh, copy).inv(),
            self.wins(id) ==> self.link(id, fresh, copy).items() == pushed(self.items(), copy),
            !self.wins(id) ==> self.link(id, fresh, copy).items() == self.items(),
    {
        let op = self.ops[id]->0;
        assert(op_ok(self.ops[id], id, self.hazards[id], self.nodes));
        let cur = op.holder.address();
        if self.head == cur {
            let post = self.link(id, fresh, copy);
            assert(!self.chain.contains(fresh)) by {
                if self.chain.contains(fresh) {
                    let k = choose|k: int| 0 <= k < self.chain.len() && self.chain[k] == fresh;
                    assert(self.nodes.contains_key(self.chain[k]));
                }
            }
            assert(!self.pending.contains(fresh)) by {
                if self.pending.contains(fresh) {
                    let k = choose|k: int| 0 <= k < self.pending.len() && self.pending[k] == fresh;
                    assert(self.nodes.contains_key(self.pending[k]));
                }
            }
            assert forall|a: usize| post.chain.contains(a) <==> a == fresh || self.chain.contains(
                a,
            ) by {
                if post.chain.contains(a) {
                    let k = choose|k: int| 0 <= k < post.chain.len() && post.chain[k] == a;
                    if k > 0 {
                        assert(self.chain[k - 1] == a);
                    }
                }
                if self.chain.contains(a) {
                    let k = choose|k: int| 0 <= k < self.chain.len() && self.chain[k] == a;
                    assert(post.chain[k + 1] == a);
                }
                assert(post.chain[0] == fresh);
            }
            assert(linked(post.head, post.nodes, post.chain)) by {
                assert forall|i: int, j: int|
                    0 <= i < post.chain.len() && 0 <= j < post.chain.len() && i
                        != j implies post.chain[i] != post.chain[j] by {
                    if i > 0 {
                        assert(self.chain.contains(self.chain[i - 1]));
                    }
                    if j > 0 {
                        assert(self.chain.contains(self.chain[j - 1]));
                    }
                }
                assert forall|k: int| 0 <= k < post.chain.len() implies post.nodes.contains_key(
                    #[trigger] post.chain[k],
                ) && post.nodes[post.chain[k]].next == (if k + 1 < post.chain.len() {
                    post.chain[k + 1]
                } else {
                    NULL
                }) by {
                    if k > 0 {
                        assert(self.nodes.contains_key(self.chain[k - 1]));
                        assert(self.chain.contains(self.chain[k - 1]));
                    }
                }
            }
            assert(apart(post.nodes, post.chain, post.pending)) by {
                assert forall|k: int| 0 <= k < post.pending.len() implies post.nodes.contains_key(
                    #[trigger] post.pending[k],
                ) && !post.chain.contains(post.pending[k]) by {
                    assert(self.nodes.contains_key(self.pending[k]));
                    assert(self.pending.contains(self.pending[k]));
                }
            }
            assert forall|i: int, a: usize| 0 <= i < post.ops.len() implies #[trigger] carries(post.ops[i], a) == carries(self.ops[i], a) by {}
            assert(detached(post.ops, post.chain, post.pending)) by {
                assert forall|i: int, a: usize| 0 <= i < post.ops.len() && #[trigger] carries(post.ops[i], a) implies !post.chain.contains(a) && !post.pending.contains(a) by {
                    assert(carries(self.ops[i], a));
                    assert(op_ok(self.ops[i], i, self.hazards[i], self.nodes));
                }
                assert forall|i: int, j: int, a: usize|
                    0 <= i < post.ops.len() && 0 <= j < post.ops.len() && i != j && #[trigger] carries(post.ops[i], a) implies !#[trigger] carries(post.ops[j], a) by {
                    assert(carries(self.ops[i], a));
                    assert(!carries(self.ops[j], a));
                }
            }
            assert(accounted(post.nodes, post.chain, post.pending, post.ops)) by {
                assert forall|a: usize| #[trigger] post.nodes.contains_key(a) implies post.chain.contains(
                    a,
                ) || post.pending.contains(a) || carried(post.ops, a) by {
                    if a != fresh {
                        assert(self.nodes.contains_key(a));
                        if carried(self.ops, a) {
                            let i = choose|i: int|
                                0 <= i < self.ops.len() && #[trigger] carries(self.ops[i], a);
                            assert(carries(post.ops[i], a));
                        }
                    }
                }
            }
            assert forall|i: int| 0 <= i < post.ops.len() implies op_ok(
                #[trigger] post.ops[i],
                i,
                post.hazards[i],
                post.nodes,
            ) by {
                assert(op_ok(self.ops[i], i, self.hazards[i], self.nodes));
            }
            assert(post.items() =~= pushed(self.items(), copy)) by {
                assert forall|k: int| 0 < k < post.chain.len() implies post.nodes[post.chain[k]]
                    == self.nodes[self.chain[k - 1]] by {
                    assert(self.chain.contains(self.chain[k - 1]));
                }
            }
        } else {
            self.lemma_lose_keeps_inv(id);
        }
    }

    /// Reading the link of the guarded node keeps the invariant, and the
    /// node is there to be read.
    pub proof fn lemma_peek_keeps_inv(self, id: int)
        requires
            self.inv(),
            self.active(id),
            self.ops[id]->0.phase is Guarded,
            self.ops[id]->0.request is Delete,
        ensures
            self.peek(id).inv(),
            self.peek(id).items() == self.items(),
            self.nodes.contains_key(self.ops[id]->0.holder.address()),
    {
        let op = self.ops[id]->0;
        assert(op_ok(self.ops[id], id, self.hazards[id], self.nodes));
        let next = self.nodes[op.holder.address()].next;
        self.lemma_put_keeps_inv(id, op.at(Phase::Swap { next }), self.hazards[id]);
        assert(self.put(id, op.at(Phase::Swap { next }), self.hazards[id]) =~= self.peek(id));
    }

    /// The exchange of a deletion keeps the invariant, and where it wins,
    /// the node it guards is the top node and the values below the top are
    /// what is left.
    pub proof fn lemma_unlink_keeps_inv(self, id: int)
        requires
            self.inv(),
            self.active(id),
            self.ops[id]->0.phase is Swap,
        ensures
            self.unlink(id, self.ops[id]->0.phase->next).inv(),
            self.wins(id) ==> {
                &&& self.items().len() > 0
                &&& self.items()[0] == self.nodes[self.ops[id]->0.holder.address()].value
                &&& self.unlink(id, self.ops[id]->0.phase->next).items()
                    == self.items().drop_first()
            },
            !self.wins(id) ==> self.unlink(id, self.ops[id]->0.phase->next).items()
                == self.items(),
    {
        let op = self.ops[id]->0;
        let next = op.phase->next;
        assert(op_ok(self.ops[id], id, self.hazards[id], self.nodes));
        let cur = op.holder.address();
        if self.head == cur {
            let post = self.unlink(id, next);
            assert(self.chain.len() > 0);
            assert(self.chain[0] == cur);
            assert(self.nodes.contains_key(self.chain[0]));
            assert(self.chain.contains(self.chain[0]));
            assert(!self.pending.contains(cur)) by {
                if self.pending.contains(cur) {
                    let k = choose|k: int| 0 <= k < self.pending.len() && self.pending[k] == cur;
                    assert(!self.chain.contains(self.pending[k]));
                }
            }
            assert forall|k: int| 0 <= k < post.chain.len() implies post.chain[k] == self.chain[k
                + 1] && self.chain.contains(post.chain[k]) && post.chain[k] != cur by {
                assert(self.chain[k + 1] == post.chain[k]);
            }
            assert forall|a: usize| self.chain.contains(a) <==> a == cur || post.chain.contains(
                a,
            ) by {
                if self.chain.contains(a) && a != cur {
                    let k = choose|k: int| 0 <= k < self.chain.len() && self.chain[k] == a;
                    assert(post.chain[k - 1] == a);
                }
                if post.chain.contains(a) {
                    let k = choose|k: int| 0 <= k < post.chain.len() && post.chain[k] == a;
                    assert(self.chain[k + 1] == a);
                }
            }
            assert(!post.chain.contains(cur));
            assert(linked(post.head, post.nodes, post.chain)) by {
                assert forall|k: int| 0 <= k < post.chain.len() implies post.nodes.contains_key(
                    #[trigger] post.chain[k],
                ) && post.nodes[post.chain[k]].next == (if k + 1 < post.chain.len() {
                    post.chain[k + 1]
                } else {
                    NULL
                }) by {
                    assert(self.nodes.contains_key(self.chain[k + 1]));
                }
            }
            assert(apart(post.nodes, post.chain, post.pending)) by {
                assert forall|k: int| 0 <= k < post.pending.len() implies post.nodes.contains_key(
                    #[trigger] post.pending[k],
                ) && !post.chain.contains(post.pending[k]) by {
                    assert(self.nodes.contains_key(self.pending[k]));
                }
            }
            assert forall|i: int, a: usize| 0 <= i < post.ops.len() implies #[trigger] carries(post.ops[i], a) == (carries(self.ops[i], a) || (i == id && a == cur)) by {}
            assert(detached(post.ops, post.chain, post.pending)) by {
                assert forall|i: int, a: usize| 0 <= i < post.ops.len() && #[trigger] carries(post.ops[i], a) implies !post.chain.contains(a) && !post.pending.contains(a) by {
                    if !(i == id && a == cur) {
                        assert(carries(self.ops[i], a));
                    }
                }
                assert forall|i: int, j: int, a: usize|
                    0 <= i < post.ops.len() && 0 <= j < post.ops.len() && i != j && #[trigger] carries(post.ops[i], a) implies !#[trigger] carries(post.ops[j], a) by {
                    if carries(self.ops[i], a) {
                        assert(!carries(self.ops[j], a));
                        assert(!self.chain.contains(a));
                    }
                    if carries(self.ops[j], a) {
                        assert(!self.chain.contains(a));
                    }
                }
            }
            assert(accounted(post.nodes, post.chain, post.pending, post.ops)) by {
                assert forall|a: usize| #[trigger] post.nodes.contains_key(a) implies post.chain.contains(
                    a,
                ) || post.pending.contains(a) || carried(post.ops, a) by {
                    if a == cur {
                        assert(carries(post.ops[id], a));
                    } else if carried(self.ops, a) {
                        let i = choose|i: int|
                            0 <= i < self.ops.len() && #[trigger] carries(self.ops[i], a);
                        assert(carries(post.ops[i], a));
                    }
                }
            }
            assert forall|i: int| 0 <= i < post.ops.len() implies op_ok(
                #[trigger] post.ops[i],
                i,
                post.hazards[i],
                post.nodes,
            ) by {
                assert(op_ok(self.ops[i], i, self.hazards[i], self.nodes));
            }
            assert(post.items() =~= self.items().drop_first());
        } else {
            self.lemma_lose_keeps_inv(id);
        }
    }

    /// Duplicating the value of the unlinked node keeps the invariant, and
    /// the node is there to be read: it is the operation's own, and the
    /// operation's guard is still in place.
    pub proof fn lemma_copy_out_keeps_inv(self, id: int, copy: T)
        requires
            self.inv(),
            self.active(id),
            self.ops[id]->0.phase is Unlinked,
        ensures
            self.copy_out(id, copy).inv(),
            self.copy_out(id, copy).items() == self.items(),
            self.nodes.contains_key(self.ops[id]->0.holder.address()),
    {
        let op = self.ops[id]->0;
        assert(op_ok(self.ops[id], id, self.hazards[id], self.nodes));
        let copied = Op { phase: Phase::Retire, taken: Some(copy), ..op };
        self.lemma_put_keeps_inv(id, copied, self.hazards[id]);
        assert(self.put(id, copied, self.hazards[id]) =~= self.copy_out(id, copy));
    }

    /// Retiring the unlinked node keeps the invariant: the node was in
    /// nobody's hands but the operation's, so the registry gets it once.
    pub proof fn lemma_retire_keeps_inv(self, id: int)
        requires
            self.inv(),
            self.active(id),
            self.ops[id]->0.phase is Retire,
        ensures
            self.retire(id).inv(),
            self.retire(id).items() == self.items(),
            self.ops[id]->0.holder.address() != NULL,
            !self.pending.contains(self.ops[id]->0.holder.address()),
            self.hazards[id] == Some(self.ops[id]->0.holder.address()),
    {
        let op = self.ops[id]->0;
        assert(op_ok(self.ops[id], id, self.hazards[id], self.nodes));
        let cur = op.holder.address();
        let post = self.retire(id);
        assert(carries(self.ops[id], cur));
        assert forall|a: usize| post.pending.contains(a) <==> a == cur || self.pending.contains(
            a,
        ) by {
            if post.pending.contains(a) {
                let k = choose|k: int| 0 <= k < post.pending.len() && post.pending[k] == a;
                if k < self.pending.len() {
                    assert(self.pending[k] == a);
                }
            }
            if self.pending.contains(a) {
                let k = choose|k: int| 0 <= k < self.pending.len() && self.pending[k] == a;
                assert(post.pending[k] == a);
            }
            assert(post.pending[self.pending.len() as int] == cur);
        }
        assert(apart(post.nodes, post.chain, post.pending)) by {
            assert forall|i: int, j: int|
                0 <= i < post.pending.len() && 0 <= j < post.pending.len() && i
                    != j implies post.pending[i] != post.pending[j] by {
                if i < self.pending.len() {
                    assert(self.pending.contains(self.pending[i]));
                }
                if j < self.pending.len() {
                    assert(self.pending.contains(self.pending[j]));
                }
            }
            assert forall|k: int| 0 <= k < post.pending.len() implies post.nodes.contains_key(
                #[trigger] post.pending[k],
            ) && !post.chain.contains(post.pending[k]) by {
                if k < self.pending.len() {
                    assert(self.nodes.contains_key(self.pending[k]));
                }
            }
        }
        assert forall|i: int, a: usize| 0 <= i < post.ops.len() implies #[trigger] carries(post.ops[i], a) == (carries(self.ops[i], a) && i != id) by {}
        assert(detached(post.ops, post.chain, post.pending)) by {
            assert forall|i: int, a: usize| 0 <= i < post.ops.len() && #[trigger] carries(post.ops[i], a) implies !post.chain.contains(a) && !post.pending.contains(a) by {
                assert(carries(self.ops[i], a));
                assert(!carries(self.ops[id], a));
            }
            assert forall|i: int, j: int, a: usize|
                0 <= i < post.ops.len() && 0 <= j < post.ops.len() && i != j && #[trigger] carries(post.ops[i], a) implies !#[trigger] carries(post.ops[j], a) by {
                assert(carries(self.ops[i], a));
                assert(!carries(self.ops[j], a));
            }
        }
        assert(accounted(post.nodes, post.chain, post.pending, post.ops)) by {
            assert forall|a: usize| #[trigger] post.nodes.contains_key(a) implies post.chain.contains(
                a,
            ) || post.pending.contains(a) || carried(post.ops, a) by {
                if a != cur && carried(self.ops, a) {
                    let i = choose|i: int|
                        0 <= i < self.ops.len() && #[trigger] carries(self.ops[i], a);
                    assert(carries(post.ops[i], a));
                }
            }
        }
        assert forall|i: int| 0 <= i < post.ops.len() implies op_ok(
            #[trigger] post.ops[i],
            i,
            post.hazards[i],
            post.nodes,
        ) by {
            assert(op_ok(self.ops[i], i, self.hazards[i], self.nodes));
        }
    }

    /// A sweep keeps the invariant and changes no value on the stack: what it
    /// destroys is retired, and no operation relies on a node that no slot
    /// publishes.
    pub proof fn lemma_reclaim_keeps_inv(self)
        requires
            self.inv(),
        ensures
            self.reclaim().inv(),
            self.reclaim().items() == self.items(),
    {
        let post = self.reclaim();
        let keep = shield(self.hazards);
        let gone = doomed(self.hazards, self.pending);
        self.lemma_pending_is_sound();
        lemma_filter_keeps_order(self.pending, keep);
        assert forall|k: int| 0 <= k < self.chain.len() implies !gone.contains(
            #[trigger] self.chain[k],
        ) by {
            if self.pending.contains(self.chain[k]) {
                let m = choose|m: int|
                    0 <= m < self.pending.len() && self.pending[m] == self.chain[k];
                assert(!self.chain.contains(self.pending[m]));
            }
        }
        assert(linked(post.head, post.nodes, post.chain)) by {
            assert forall|k: int| 0 <= k < post.chain.len() implies post.nodes.contains_key(
                #[trigger] post.chain[k],
            ) && post.nodes[post.chain[k]].next == (if k + 1 < post.chain.len() {
                post.chain[k + 1]
            } else {
                NULL
            }) by {
                assert(self.nodes.contains_key(self.chain[k]));
                assert(!gone.contains(self.chain[k]));
            }
        }
        assert(apart(post.nodes, post.chain, post.pending)) by {
            assert forall|k: int| 0 <= k < post.pending.len() implies post.nodes.contains_key(
                #[trigger] post.pending[k],
            ) && !post.chain.contains(post.pending[k]) by {
                let a = post.pending[k];
                assert(post.pending.contains(a));
                assert(self.pending.contains(a) && keep(a));
                let m = choose|m: int| 0 <= m < self.pending.len() && self.pending[m] == a;
                assert(self.nodes.contains_key(self.pending[m]));
                assert(!self.chain.contains(self.pending[m]));
            }
        }
        assert(detached(post.ops, post.chain, post.pending)) by {
            assert forall|i: int, a: usize| 0 <= i < post.ops.len() && #[trigger] carries(post.ops[i], a) implies !post.chain.contains(a) && !post.pending.contains(a) by {
                assert(carries(self.ops[i], a));
            }
        }
        assert(accounted(post.nodes, post.chain, post.pending, post.ops)) by {
            assert forall|a: usize| #[trigger] post.nodes.contains_key(a) implies post.chain.contains(
                a,
            ) || post.pending.contains(a) || carried(post.ops, a) by {
                assert(self.nodes.contains_key(a));
            }
        }
        assert forall|i: int| 0 <= i < post.ops.len() implies op_ok(
            #[trigger] post.ops[i],
            i,
            post.hazards[i],
            post.nodes,
        ) by {
            assert(op_ok(self.ops[i], i, self.hazards[i], self.nodes));
            if self.ops[i] is Some && self.ops[i]->0.holder.stage is Holding {
                let p = self.ops[i]->0.holder.address();
                assert(self.hazards[i] == Some(p));
                assert(self.hazards.contains(Some(p)));
                assert(keep(p));
                assert(!gone.contains(p));
            }
        }
        assert(post.items() =~= self.items()) by {
            assert forall|k: int| 0 <= k < self.chain.len() implies post.nodes[self.chain[k]]
                == self.nodes[self.chain[k]] by {
                assert(!gone.contains(self.chain[k]));
            }
        }
    }

    /// The sweep of an operation keeps the invariant and changes no value.
    pub proof fn lemma_sweep_keeps_inv(self, id: int)
        requires
            self.inv(),
            self.active(id),
            self.ops[id]->0.phase is Sweep,
        ensures
            self.sweep(id).inv(),
            self.sweep(id).items() == self.items(),
    {
        let swept = self.reclaim();
        self.lemma_reclaim_keeps_inv();
        assert(op_ok(swept.ops[id], id, swept.hazards[id], swept.nodes));
        let leaving = swept.ops[id]->0.at(Phase::Leave);
        swept.lemma_put_keeps_inv(id, leaving, swept.hazards[id]);
        assert(swept.put(id, leaving, swept.hazards[id]) =~= self.sweep(id));
    }

    /// The publication of an operation that protects the head does not
    /// change what a sweep keeps: the head is linked, and no linked node is
    /// retired.
    pub proof fn lemma_guard_is_moot(self, id: int, hazards: Seq<Option<usize>>)
        requires
            self.inv(),
            first_vacant(self.hazards, id),
            hazards.len() == claimed(self.hazards, id).len(),
            forall|i: int| 0 <= i < hazards.len() && i != id ==> hazards[i] == self.hazards[i],
            hazards[id] == Some(NULL) || hazards[id] == Some(self.head),
        ensures
            self.pending.filter(shield(hazards)) == self.pending.filter(shield(self.hazards)),
    {
        assert forall|k: int| 0 <= k < self.pending.len() implies shield(hazards)(self.pending[k])
            == shield(self.hazards)(self.pending[k]) by {
            let a = self.pending[k];
            assert(self.nodes.contains_key(self.pending[k]));
            assert(!self.chain.contains(self.pending[k]));
            if self.chain.len() > 0 {
                assert(self.chain.contains(self.chain[0]));
            }
            if hazards.contains(Some(a)) {
                let i = choose|i: int| 0 <= i < hazards.len() && hazards[i] == Some(a);
                assert(self.hazards[i] == Some(a));
            }
            if self.hazards.contains(Some(a)) {
                let i = choose|i: int| 0 <= i < self.hazards.len() && self.hazards[i] == Some(a);
                assert(hazards[i] == Some(a));
            }
        }
        lemma_filter_agree(self.pending, shield(hazards), shield(self.hazards));
    }

    /// An operation that registered at the lowest vacant index and left
    /// again leaves the tables as [`visited`] describes.
    pub proof fn lemma_visit(
        self,
        id: int,
        hazards: Seq<Option<usize>>,
        ops: Seq<Option<Op<T>>>,
    )
        requires
            self.inv(),
            first_vacant(self.hazards, id),
            hazards.len() == claimed(self.hazards, id).len(),
            ops.len() == hazards.len(),
            forall|i: int| 0 <= i < hazards.len() && i != id ==> hazards[i] == self.hazards[i],
            forall|i: int| 0 <= i < ops.len() && i != id ==> ops[i] == self.ops[i],
            hazards[id] is None,
            ops[id] is None,
        ensures
            hazards == visited(self.hazards),
            ops == visited(self.ops),
    {
        if id < self.hazards.len() {
            assert(op_ok(self.ops[id], id, self.hazards[id], self.nodes));
            assert(hazards =~= self.hazards);
            assert(ops =~= self.ops);
        } else {
            assert forall|i: int| 0 <= i < self.ops.len() implies self.ops[i] is Some by {
                assert(op_ok(self.ops[i], i, self.hazards[i], self.nodes));
            }
            assert(hazards =~= self.hazards.push(None));
            assert(ops =~= self.ops.push(None));
        }
    }

    /// With no operation in flight no slot has a holder, a sweep keeps
    /// nothing, every node is linked or retired, and the stack without its
    /// nodes satisfies the invariant.
    pub proof fn lemma_torn_down(self)
        requires
            self.inv(),
            self.quiescent(),
        ensures
            self.unguarded(),
            self.pending.filter(shield(self.hazards)) == Seq::<usize>::empty(),
            forall|a: usize| self.pending.contains(a) ==> doomed(self.hazards, self.pending).contains(a),
            forall|a: usize|
                self.nodes.contains_key(a) ==> self.chain.contains(a) || self.pending.contains(a),
            self.torn_down().inv(),
    {
        assert forall|i: int| 0 <= i < self.hazards.len() implies #[trigger] self.hazards[i] is None by {
            assert(op_ok(self.ops[i], i, self.hazards[i], self.nodes));
        }
        self.lemma_unguarded_keeps_nothing();
        let post = self.torn_down();
        assert forall|i: int| 0 <= i < post.ops.len() implies op_ok(
            #[trigger] post.ops[i],
            i,
            post.hazards[i],
            post.nodes,
        ) by {
            assert(op_ok(self.ops[i], i, self.hazards[i], self.nodes));
        }
        assert forall|a: usize| self.nodes.contains_key(a) implies self.chain.contains(a)
            || self.pending.contains(a) by {
            if carried(self.ops, a) {
                let i = choose|i: int| 0 <= i < self.ops.len() && #[trigger] carries(self.ops[i], a);
                assert(self.ops[i] is None);
            }
        }
    }

    /// Where no slot publishes an address a sweep keeps nothing.
    pub proof fn lemma_unguarded_keeps_nothing(self)
        requires
            self.inv(),
            self.unguarded(),
        ensures
            self.pending.filter(shield(self.hazards)) == Seq::<usize>::empty(),
            forall|a: usize| self.pending.contains(a) ==> doomed(self.hazards, self.pending).contains(a),
    {
        let keep = shield(self.hazards);
        assert forall|a: usize| !self.hazards.contains(Some(a)) || a == NULL by {
            if a != NULL && self.hazards.contains(Some(a)) {
                let i = choose|i: int| 0 <= i < self.hazards.len() && self.hazards[i] == Some(a);
                assert(self.hazards[i] is None || self.hazards[i] == Some(NULL));
            }
        }
        self.lemma_pending_is_sound();
        lemma_filter_keeps_order(self.pending, keep);
        let kept = self.pending.filter(keep);
        if kept.len() > 0 {
            assert(kept.contains(kept[0]));
            assert(keep(kept[0]));
        }
        assert(kept =~= Seq::<usize>::empty());
        assert forall|a: usize| self.pending.contains(a) implies doomed(
            self.hazards,
            self.pending,
        ).contains(a) by {
            assert(!keep(a));
        }
    }

    /// Every action of every operation keeps the invariant, whatever address
    /// the allocator hands out among the free ones and whatever `clone`
    /// returns.
    pub proof fn lemma_step_keeps_inv(self, id: int, fresh: usize, copy: T)
        requires
            self.inv(),
            self.active(id),
            self.wins(id) && self.ops[id]->0.request is Insert ==> fresh != NULL
                && !self.nodes.contains_key(fresh),
        ensures
            self.step(id, fresh, copy).inv(),
    {
        let op = self.ops[id]->0;
        assert(op_ok(self.ops[id], id, self.hazards[id], self.nodes));
        match op.phase {
            Phase::Acquire => self.lemma_acquire_keeps_inv(id),
            Phase::Guarded => match op.request {
                Request::Insert(_) => self.lemma_link_keeps_inv(id, fresh, copy),
                Request::Delete => self.lemma_peek_keeps_inv(id),
            },
            Phase::Swap { next } => self.lemma_unlink_keeps_inv(id),
            Phase::Unlinked => self.lemma_copy_out_keeps_inv(id, copy),
            Phase::Retire => self.lemma_retire_keeps_inv(id),
            Phase::Sweep => self.lemma_sweep_keeps_inv(id),
            Phase::Lost => self.lemma_withdraw_keeps_inv(id),
            Phase::Leave => self.lemma_finish_keeps_inv(id),
        }
    }
}

} // verus!

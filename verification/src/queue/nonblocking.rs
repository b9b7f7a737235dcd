//! The bounded queue.
//!
//! Every push takes the next push ticket and every pop the next pop ticket.
//! Ticket `t` of a queue of `N` slots belongs to slot `t mod N` and to
//! generation `t div N` of that slot, so the `k`-th push meets the `k`-th
//! pop in one slot and the queue hands items out in the order in which it
//! took them.

use vstd::prelude::*;
use crate::queue::sequencer::{Sequencer, SpinSequencer};
use crate::queue::slot::Slot;

verus! {

/// Whether a push may take the ticket `cur_push` while the next pop ticket
/// is `cur_pop`. The difference is taken with its sign: a pop ticket that
/// was read after a later push ticket may be the larger one.
pub fn push_admits(cur_push: usize, cur_pop: usize, capacity: usize) -> (admits: bool)
    ensures
        admits <==> cur_push - cur_pop < capacity,
{
    cur_push < cur_pop || cur_push - cur_pop < capacity
}

/// Whether a pop may take the ticket `cur_pop` while the next push ticket is
/// `cur_push`.
pub fn pop_admits(cur_pop: usize, cur_push: usize) -> (admits: bool)
    ensures
        admits <==> cur_pop < cur_push,
{
    cur_pop < cur_push
}

/// The slot and the generation of `ticket` in a queue of `capacity` slots.
pub fn slot_of(ticket: usize, capacity: usize) -> (place: (usize, usize))
    requires
        capacity > 0,
    ensures
        place.0 == ticket % capacity,
        place.1 == ticket / capacity,
{
    (ticket % capacity, ticket / capacity)
}

/// The generation that slot `slot` serves next while the next pop ticket is
/// `pop`: that of the first ticket from `pop` on that belongs to the slot.
pub open spec fn generation_of(slot: int, pop: int, n: int) -> int {
    pop / n + if slot < pop % n {
        1int
    } else {
        0int
    }
}

/// Whether slot `slot` holds an item while the next tickets are `pop` and
/// `push`: whether its next ticket has been given to a push.
pub open spec fn slot_full(slot: int, pop: int, push: int, n: int) -> bool {
    generation_of(slot, pop, n) * n + slot < push
}

/// The turn at which slot `slot` stands while the next tickets are `pop`
/// and `push`.
pub open spec fn turn_of(slot: int, pop: int, push: int, n: int) -> int {
    2 * generation_of(slot, pop, n) + if slot_full(slot, pop, push, n) {
        1int
    } else {
        0int
    }
}

/// What a queue that holds `contents` holds after a push of `t`.
pub open spec fn after_push<T>(contents: Seq<T>, capacity: nat, t: T) -> Seq<T> {
    if contents.len() < capacity {
        contents.push(t)
    } else {
        contents
    }
}

/// What a queue that holds `contents` holds after a pop.
pub open spec fn after_pop<T>(contents: Seq<T>) -> Seq<T> {
    if contents.len() > 0 {
        contents.drop_first()
    } else {
        contents
    }
}

/// A bounded first-in, first-out queue.
pub trait Queue: Sized {
    type Item;

    /// The items in the queue, the oldest first.
    spec fn contents(&self) -> Seq<Self::Item>;

    /// The number of items that the queue can hold.
    spec fn capacity(&self) -> nat;

    /// The number of push tickets given out.
    spec fn pushed(&self) -> nat;

    /// The number of pop tickets given out.
    spec fn popped(&self) -> nat;

    /// The number of push tickets that the queue can give out in all.
    spec fn ticket_limit(&self) -> nat;

    /// What holds of every queue that the operations below have produced.
    spec fn inv(&self) -> bool;

    /// The items in the queue are those whose push ticket has no pop ticket
    /// yet, and they are no more than the queue can hold.
    proof fn lemma_resident(&self)
        requires
            self.inv(),
        ensures
            self.popped() <= self.pushed() <= self.ticket_limit(),
            self.contents().len() == self.pushed() - self.popped(),
            self.contents().len() <= self.capacity(),
    ;

    /// Puts `t` at the end of the queue, or hands it back when the queue is
    /// full. The ticket counter must not have run out.
    fn shared_push(&mut self, t: Self::Item) -> (r: Result<(), Self::Item>)
        requires
            old(self).inv(),
            old(self).pushed() < old(self).ticket_limit(),
        ensures
            final(self).inv(),
            final(self).capacity() == old(self).capacity(),
            final(self).ticket_limit() == old(self).ticket_limit(),
            final(self).contents() == after_push(old(self).contents(), old(self).capacity(), t),
            final(self).popped() == old(self).popped(),
            r is Ok <==> old(self).contents().len() < old(self).capacity(),
            r is Ok ==> final(self).pushed() == old(self).pushed() + 1,
            r is Err ==> r == Err::<(), Self::Item>(t) && final(self).pushed() == old(self).pushed(),
    ;

    /// Takes the oldest item out of the queue, if there is one.
    fn shared_pop(&mut self) -> (r: Option<Self::Item>)
        requires
            old(self).inv(),
        ensures
            final(self).inv(),
            final(self).capacity() == old(self).capacity(),
            final(self).ticket_limit() == old(self).ticket_limit(),
            final(self).contents() == after_pop(old(self).contents()),
            final(self).pushed() == old(self).pushed(),
            r == (if old(self).contents().len() > 0 {
                Some(old(self).contents()[0])
            } else {
                None
            }),
            r is Some ==> final(self).popped() == old(self).popped() + 1,
            r is None ==> final(self).popped() == old(self).popped(),
    ;

    /// A handle that pushes into this queue.
    fn producer<'a>(&'a mut self) -> (handle: Producer<'a, Self>)
        ensures
            *handle.queue == *old(self),
            *final(self) == *final(handle.queue),
    {
        Producer { queue: self }
    }

    /// A handle that pops from this queue.
    fn consumer<'a>(&'a mut self) -> (handle: Consumer<'a, Self>)
        ensures
            *handle.queue == *old(self),
            *final(self) == *final(handle.queue),
    {
        Consumer { queue: self }
    }
}

/// A queue of `N` slots.
pub struct StaticQueue<T, S: Sequencer, const N: usize> {
    slots: Vec<Slot<T, S>>,
    push_ticket: usize,
    pop_ticket: usize,
}

/// A queue whose slots take turns without deadlines.
pub type StaticSpinQueue<T, const N: usize> = StaticQueue<T, SpinSequencer, N>;

impl<T, S: Sequencer, const N: usize> StaticQueue<T, S, N> {
    /// The next push ticket.
    pub closed spec fn push_ticket(&self) -> usize {
        self.push_ticket
    }

    /// The next pop ticket.
    pub closed spec fn pop_ticket(&self) -> usize {
        self.pop_ticket
    }

    /// What slot `slot` holds.
    pub closed spec fn held(&self, slot: int) -> Option<T> {
        self.slots@[slot].content()
    }

    /// The turn at which slot `slot` stands.
    pub closed spec fn turn(&self, slot: int) -> usize {
        self.slots@[slot].turn()
    }

    /// Every slot is valid and stands at the turn that the tickets `pop` and
    /// `push` give it.
    closed spec fn slots_at(&self, pop: int, push: int) -> bool {
        &&& self.slots@.len() == N
        &&& forall|j: int|
            0 <= j < N ==> (#[trigger] self.slots@[j]).wf() && self.slots@[j].turn() == turn_of(
                j,
                pop,
                push,
                N as int,
            )
    }

    /// The tickets are in order and every slot stands at its turn.
    pub closed spec fn wf(&self) -> bool {
        &&& self.pop_ticket <= self.push_ticket <= self.pop_ticket + N
        &&& self.push_ticket <= usize::MAX / 2
        &&& self.slots_at(self.pop_ticket as int, self.push_ticket as int)
    }

    /// The items in the queue, the oldest first: what the slots of the
    /// tickets from the next pop ticket to the next push ticket hold.
    pub closed spec fn resident(&self) -> Seq<T> {
        Seq::new(
            (self.push_ticket - self.pop_ticket) as nat,
            |i: int| self.slots@[(self.pop_ticket + i) % (N as int)].content()->0,
        )
    }

    /// Every slot stands at the turn that the tickets give it, and holds an
    /// item exactly at the turns of a pop.
    pub proof fn lemma_turns(&self, slot: int)
        requires
            self.wf(),
            0 <= slot < N,
        ensures
            self.turn(slot) == turn_of(
                slot,
                self.pop_ticket() as int,
                self.push_ticket() as int,
                N as int,
            ),
            self.held(slot) is Some <==> slot_full(
                slot,
                self.pop_ticket() as int,
                self.push_ticket() as int,
                N as int,
            ),
    {
        self.slots@[slot].lemma_turn();
    }

    /// The item of a ticket waits in the slot of that ticket: the `i`-th
    /// item of the queue has the `i`-th ticket from the next pop ticket on.
    pub proof fn lemma_held(&self, i: int)
        requires
            self.wf(),
            0 <= i < self.resident().len(),
        ensures
            self.held((self.pop_ticket() + i) % (N as int)) == Some(self.resident()[i]),
    {
        let n = N as int;
        let pop = self.pop_ticket as int;
        let at = (pop + i) % n;
        lemma_join(pop + i, n);
        lemma_due(at, pop, n);
        let due = generation_of(at, pop, n) * n + at;
        if due < pop + i {
            lemma_apart(due, pop + i, n);
        } else if due > pop + i {
            lemma_apart(pop + i, due, n);
        }
        self.lemma_turns(at);
    }

    /// Takes the next push ticket, unless the queue is full.
    fn obtain_push_ticket(&mut self) -> (r: Option<usize>)
        requires
            old(self).push_ticket < usize::MAX,
        ensures
            r == (if old(self).push_ticket - old(self).pop_ticket < N {
                Some(old(self).push_ticket)
            } else {
                None
            }),
            final(self).push_ticket == old(self).push_ticket + (if r is Some {
                1int
            } else {
                0int
            }),
            final(self).pop_ticket == old(self).pop_ticket,
            final(self).slots == old(self).slots,
    {
        let cur_push = self.push_ticket;
        let cur_pop = self.pop_ticket;
        if !push_admits(cur_push, cur_pop, N) {
            return None;
        }
        self.push_ticket = cur_push + 1;
        Some(cur_push)
    }

    /// Takes the next pop ticket, unless the queue is empty.
    fn obtain_pop_ticket(&mut self) -> (r: Option<usize>)
        requires
            old(self).pop_ticket < usize::MAX,
        ensures
            r == (if old(self).pop_ticket < old(self).push_ticket {
                Some(old(self).pop_ticket)
            } else {
                None
            }),
            final(self).pop_ticket == old(self).pop_ticket + (if r is Some {
                1int
            } else {
                0int
            }),
            final(self).push_ticket == old(self).push_ticket,
            final(self).slots == old(self).slots,
    {
        let cur_pop = self.pop_ticket;
        let cur_push = self.push_ticket;
        if !pop_admits(cur_pop, cur_push) {
            return None;
        }
        self.pop_ticket = cur_pop + 1;
        Some(cur_pop)
    }
}

impl<T, S: Sequencer, const N: usize> Default for StaticQueue<T, S, N> {
    fn default() -> (fresh: Self)
        ensures
            fresh.wf(),
            fresh.resident() == Seq::<T>::empty(),
            fresh.push_ticket() == 0,
            fresh.pop_ticket() == 0,
    {
        let mut slots: Vec<Slot<T, S>> = Vec::new();
        while slots.len() < N
            invariant
                slots@.len() <= N,
                forall|j: int|
                    0 <= j < slots@.len() ==> (#[trigger] slots@[j]).wf() && slots@[j].turn() == 0,
            decreases N - slots@.len(),
        {
            slots.push(Slot::default());
        }
        let fresh = StaticQueue { slots, push_ticket: 0, pop_ticket: 0 };
        proof {
            assert forall|j: int| 0 <= j < N implies #[trigger] turn_of(j, 0, 0, N as int) == 0 by {
                lemma_split(0, N as int, 0, 0);
            }
        }
        fresh
    }
}

impl<T, S: Sequencer, const N: usize> Queue for StaticQueue<T, S, N> {
    type Item = T;

    open spec fn contents(&self) -> Seq<T> {
        self.resident()
    }

    open spec fn capacity(&self) -> nat {
        N as nat
    }

    open spec fn pushed(&self) -> nat {
        self.push_ticket() as nat
    }

    open spec fn popped(&self) -> nat {
        self.pop_ticket() as nat
    }

    open spec fn ticket_limit(&self) -> nat {
        (usize::MAX / 2) as nat
    }

    open spec fn inv(&self) -> bool {
        self.wf()
    }

    proof fn lemma_resident(&self) {
    }

    fn shared_pop(&mut self) -> (r: Option<T>) {
        let ghost before = *self;
        let ticket = match self.obtain_pop_ticket() {
            None => {
                return None;
            },
            Some(ticket) => ticket,
        };
        proof {
            lemma_pop_turns(before.pop_ticket as int, before.push_ticket as int, N as int);
        }
        let (offset, seq) = slot_of(ticket, N);
        proof {
            assert(seq <= ticket) by (nonlinear_arith)
                requires
                    seq == ticket / N,
                    N > 0,
            ;
        }
        let item = self.slots[offset].pop(seq);
        proof {
            let n = N as int;
            let pop = before.pop_ticket as int;
            let push = before.push_ticket as int;
            before.slots@[offset as int].lemma_turn();
            assert forall|j: int| 0 <= j < N implies (#[trigger] self.slots@[j]).wf()
                && self.slots@[j].turn() == turn_of(j, pop + 1, push, n) by {
                if j != offset {
                    assert(self.slots@[j] == before.slots@[j]);
                }
            }
            assert((pop + 0) % n == offset);
            assert(self.resident() =~= after_pop(before.resident())) by {
                assert forall|i: int| 0 <= i < push - pop - 1 implies self.resident()[i]
                    == before.resident()[i + 1] by {
                    lemma_apart(pop, pop + 1 + i, n);
                    assert(self.slots@[(pop + 1 + i) % n] == before.slots@[(pop + 1 + i) % n]);
                }
            }
        }
        Some(item)
    }

    fn shared_push(&mut self, t: T) -> (r: Result<(), T>) {
        let ghost before = *self;
        let ticket = match self.obtain_push_ticket() {
            None => {
                return Err(t);
            },
            Some(ticket) => ticket,
        };
        proof {
            lemma_push_turns(before.pop_ticket as int, before.push_ticket as int, N as int);
        }
        let (offset, seq) = slot_of(ticket, N);
        proof {
            assert(seq <= ticket) by (nonlinear_arith)
                requires
                    seq == ticket / N,
                    N > 0,
            ;
        }
        self.slots[offset].push(t, seq);
        proof {
            let n = N as int;
            let pop = before.pop_ticket as int;
            let push = before.push_ticket as int;
            assert forall|j: int| 0 <= j < N implies (#[trigger] self.slots@[j]).wf()
                && self.slots@[j].turn() == turn_of(j, pop, push + 1, n) by {
                if j != offset {
                    assert(self.slots@[j] == before.slots@[j]);
                }
            }
            assert(self.resident() =~= before.resident().push(t)) by {
                assert forall|i: int| 0 <= i < push - pop implies self.resident()[i]
                    == before.resident()[i] by {
                    lemma_apart(pop + i, push, n);
                    assert(self.slots@[(pop + i) % n] == before.slots@[(pop + i) % n]);
                }
                assert((pop + (push - pop)) % n == offset);
            }
        }
        Ok(())
    }
}

/// Quotient and remainder of a number that is given as a multiple and a
/// rest.
proof fn lemma_split(x: int, n: int, q: int, r: int)
    requires
        0 <= r < n,
        x == q * n + r,
    ensures
        x / n == q,
        x % n == r,
{
    vstd::arithmetic::div_mod::lemma_fundamental_div_mod_converse(x, n, q, r);
}

/// A number as quotient and remainder.
proof fn lemma_join(x: int, n: int)
    requires
        n > 0,
    ensures
        x == (x / n) * n + x % n,
        0 <= x % n < n,
{
    vstd::arithmetic::div_mod::lemma_fundamental_div_mod(x, n);
    vstd::arithmetic::div_mod::lemma_mod_bound(x, n);
    assert((x / n) * n == n * (x / n)) by (nonlinear_arith);
}

/// Tickets that are less than `n` apart belong to different slots.
proof fn lemma_apart(a: int, b: int, n: int)
    requires
        0 < b - a < n,
    ensures
        a % n != b % n,
{
    lemma_join(a, n);
    lemma_join(b, n);
    let d = b / n - a / n;
    if a % n == b % n {
        assert(b - a == d * n) by (nonlinear_arith)
            requires
                a == (a / n) * n + a % n,
                b == (b / n) * n + b % n,
                a % n == b % n,
                d == b / n - a / n,
        ;
        assert(d * n <= 0 || d * n >= n) by (nonlinear_arith)
            requires
                n > 0,
        ;
    }
}

/// The ticket that belongs to slot `slot` in generation `generation_of`
/// is the first one from `pop` on that belongs to the slot.
proof fn lemma_due(slot: int, pop: int, n: int)
    requires
        0 <= slot < n,
        0 <= pop,
    ensures
        pop <= generation_of(slot, pop, n) * n + slot < pop + n,
        (generation_of(slot, pop, n) * n + slot) % n == slot,
        (generation_of(slot, pop, n) * n + slot) / n == generation_of(slot, pop, n),
{
    lemma_join(pop, n);
    let g = generation_of(slot, pop, n);
    lemma_split(g * n + slot, n, g, slot);
    assert((pop / n + 1) * n == (pop / n) * n + n) by (nonlinear_arith);
}

/// The turns of the slots before and after the push of ticket `push`.
proof fn lemma_push_turns(pop: int, push: int, n: int)
    requires
        0 <= pop <= push < pop + n,
    ensures
        turn_of(push % n, pop, push, n) == 2 * (push / n),
        turn_of(push % n, pop, push + 1, n) == 2 * (push / n) + 1,
        forall|j: int|
            0 <= j < n && j != push % n ==> #[trigger] turn_of(j, pop, push + 1, n) == turn_of(
                j,
                pop,
                push,
                n,
            ),
{
    let at = push % n;
    lemma_join(push, n);
    lemma_due(at, pop, n);
    let due = generation_of(at, pop, n) * n + at;
    if due != push {
        if due < push {
            lemma_apart(due, push, n);
        } else {
            lemma_apart(push, due, n);
        }
    }
    assert forall|j: int| 0 <= j < n && j != at implies #[trigger] turn_of(j, pop, push + 1, n)
        == turn_of(j, pop, push, n) by {
        lemma_due(j, pop, n);
    }
}

/// The turns of the slots before and after the pop of ticket `pop`.
proof fn lemma_pop_turns(pop: int, push: int, n: int)
    requires
        0 <= pop < push <= pop + n,
    ensures
        turn_of(pop % n, pop, push, n) == 2 * (pop / n) + 1,
        turn_of(pop % n, pop + 1, push, n) == 2 * (pop / n) + 2,
        forall|j: int|
            0 <= j < n && j != pop % n ==> #[trigger] turn_of(j, pop + 1, push, n) == turn_of(
                j,
                pop,
                push,
                n,
            ),
{
    let at = pop % n;
    let q = pop / n;
    lemma_join(pop, n);
    if at + 1 < n {
        lemma_split(pop + 1, n, q, at + 1);
    } else {
        assert(pop + 1 == (q + 1) * n + 0) by (nonlinear_arith)
            requires
                pop == q * n + at,
                at + 1 == n,
        ;
        lemma_split(pop + 1, n, q + 1, 0);
    }
    assert((q + 1) * n == q * n + n) by (nonlinear_arith);
}

/// A handle that pushes into a queue.
pub struct Producer<'a, Q: Queue> {
    pub queue: &'a mut Q,
}

/// A handle that pops from a queue.
pub struct Consumer<'a, Q: Queue> {
    pub queue: &'a mut Q,
}

impl<'a, Q: Queue> Producer<'a, Q> {
    /// Puts `data` at the end of the queue, or hands it back when the queue
    /// is full.
    pub fn push(&mut self, data: Q::Item) -> (r: Result<(), Q::Item>)
        requires
            old(self).queue.inv(),
            old(self).queue.pushed() < old(self).queue.ticket_limit(),
        ensures
            final(self).queue.inv(),
            final(self).queue.capacity() == old(self).queue.capacity(),
            final(self).queue.ticket_limit() == old(self).queue.ticket_limit(),
            final(self).queue.contents() == after_push(
                old(self).queue.contents(),
                old(self).queue.capacity(),
                data,
            ),
            final(self).queue.popped() == old(self).queue.popped(),
            r is Ok <==> old(self).queue.contents().len() < old(self).queue.capacity(),
            r is Ok ==> final(self).queue.pushed() == old(self).queue.pushed() + 1,
            r is Err ==> r == Err::<(), Q::Item>(data) && final(self).queue.pushed() == old(
                self,
            ).queue.pushed(),
            *final(final(self).queue) == *final(old(self).queue),
    {
        self.queue.shared_push(data)
    }
}

impl<'a, Q: Queue> Consumer<'a, Q> {
    /// Takes the oldest item out of the queue, if there is one.
    pub fn pop(&mut self) -> (r: Option<Q::Item>)
        requires
            old(self).queue.inv(),
        ensures
            final(self).queue.inv(),
            final(self).queue.capacity() == old(self).queue.capacity(),
            final(self).queue.ticket_limit() == old(self).queue.ticket_limit(),
            final(self).queue.contents() == after_pop(old(self).queue.contents()),
            final(self).queue.pushed() == old(self).queue.pushed(),
            r == (if old(self).queue.contents().len() > 0 {
                Some(old(self).queue.contents()[0])
            } else {
                None
            }),
            r is Some ==> final(self).queue.popped() == old(self).queue.popped() + 1,
            r is None ==> final(self).queue.popped() == old(self).queue.popped(),
            *final(final(self).queue) == *final(old(self).queue),
    {
        self.queue.shared_pop()
    }
}

/// One call on a queue.
pub enum Op<T> {
    /// A push of the item.
    Push(T),
    /// A pop.
    Pop,
}

/// What a run of calls has done: the items in the queue, the items that the
/// pushes got in and the items that the pops got out, each in order.
pub struct Run<T> {
    pub resident: Seq<T>,
    pub accepted: Seq<T>,
    pub handed_out: Seq<T>,
}

/// The run of `ops` on an empty queue that can hold `capacity` items, by
/// what `shared_push` and `shared_pop` say of each call.
pub open spec fn replay<T>(ops: Seq<Op<T>>, capacity: nat) -> Run<T>
    decreases ops.len(),
{
    if ops.len() == 0 {
        Run { resident: Seq::empty(), accepted: Seq::empty(), handed_out: Seq::empty() }
    } else {
        let before = replay(ops.drop_last(), capacity);
        match ops.last() {
            Op::Push(t) => Run {
                resident: after_push(before.resident, capacity, t),
                accepted: if before.resident.len() < capacity {
                    before.accepted.push(t)
                } else {
                    before.accepted
                },
                handed_out: before.handed_out,
            },
            Op::Pop => Run {
                resident: after_pop(before.resident),
                accepted: before.accepted,
                handed_out: if before.resident.len() > 0 {
                    before.handed_out.push(before.resident[0])
                } else {
                    before.handed_out
                },
            },
        }
    }
}

/// First in, first out: after any run of calls, the items that the pops got
/// out, followed by the items still in the queue, are the items that the
/// pushes got in, in the order of the pushes.
pub proof fn lemma_first_in_first_out<T>(ops: Seq<Op<T>>, capacity: nat)
    ensures
        replay(ops, capacity).handed_out + replay(ops, capacity).resident =~= replay(
            ops,
            capacity,
        ).accepted,
    decreases ops.len(),
{
    if ops.len() > 0 {
        lemma_first_in_first_out(ops.drop_last(), capacity);
        let before = replay(ops.drop_last(), capacity);
        let run = replay(ops, capacity);
        match ops.last() {
            Op::Push(t) => {
                assert(run.handed_out + run.resident =~= run.accepted);
            },
            Op::Pop => {
                if before.resident.len() > 0 {
                    assert(run.handed_out + run.resident =~= before.handed_out + before.resident);
                }
            },
        }
    }
}

/// Nothing is lost and nothing is made up: after any run of calls, the items
/// that the pops got out are, each as often as it occurs, the items that
/// the pushes got in without the items still in the queue.
pub proof fn lemma_conservation<T>(ops: Seq<Op<T>>, capacity: nat)
    ensures
        replay(ops, capacity).handed_out.to_multiset() =~= replay(
            ops,
            capacity,
        ).accepted.to_multiset().sub(replay(ops, capacity).resident.to_multiset()),
{
    let run = replay(ops, capacity);
    lemma_first_in_first_out(ops, capacity);
    vstd::seq_lib::lemma_multiset_commutative(run.handed_out, run.resident);
}

/// The bound: after any run of calls, the queue holds no more items than it
/// can hold.
pub proof fn lemma_bound<T>(ops: Seq<Op<T>>, capacity: nat)
    ensures
        replay(ops, capacity).resident.len() <= capacity,
    decreases ops.len(),
{
    if ops.len() > 0 {
        lemma_bound(ops.drop_last(), capacity);
    }
}

} // verus!

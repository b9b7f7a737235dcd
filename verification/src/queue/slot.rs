//! A slot: storage for one value, filled and emptied in turns.
//!
//! The turns of generation `g` are the sequencer values `2g` (empty, to be
//! filled), `2g + 1` (full, to be emptied) and `2g + 2` (empty again, for
//! generation `g + 1`).

use vstd::prelude::*;
use crate::queue::sequencer::Sequencer;

verus! {

/// The sequencer value at which generation `generation` fills its slot.
pub open spec fn push_turn(generation: int) -> int {
    2 * generation
}

/// The sequencer value at which generation `generation` empties its slot.
pub open spec fn pop_turn(generation: int) -> int {
    2 * generation + 1
}

/// The turn at which generation `generation` fills its slot.
pub fn turn_to_push(generation: usize) -> (turn: usize)
    requires
        push_turn(generation as int) <= usize::MAX,
    ensures
        turn == push_turn(generation as int),
{
    generation * 2
}

/// The turn at which generation `generation` empties its slot.
pub fn turn_to_pop(generation: usize) -> (turn: usize)
    requires
        pop_turn(generation as int) <= usize::MAX,
    ensures
        turn == pop_turn(generation as int),
{
    generation * 2 + 1
}

/// One cell of a queue, with its occupancy flag and its sequencer.
pub struct Slot<T, S: Sequencer> {
    data: Option<T>,
    occupied: bool,
    seq: S,
}

impl<T, S: Sequencer> Default for Slot<T, S> {
    fn default() -> (fresh: Self)
        ensures
            fresh.wf(),
            fresh.turn() == 0,
            fresh.content() is None,
    {
        let seq = S::default();
        proof {
            S::lemma_default_is_zero(seq);
        }
        Slot { data: None, occupied: false, seq }
    }
}

impl<T, S: Sequencer> Slot<T, S> {
    /// The value of the slot's sequencer.
    pub closed spec fn turn(&self) -> usize {
        self.seq.value()
    }

    /// What the slot holds.
    pub closed spec fn content(&self) -> Option<T> {
        self.data
    }

    /// The slot is occupied exactly while it holds a value, and that is at
    /// the odd turns.
    pub closed spec fn wf(&self) -> bool {
        &&& self.occupied <==> self.data is Some
        &&& self.data is Some <==> self.seq.value() % 2 == 1
    }

    /// What the turn of a valid slot says of its content.
    pub proof fn lemma_turn(&self)
        requires
            self.wf(),
        ensures
            self.content() is Some <==> self.turn() % 2 == 1,
    {
    }

    /// Fills the slot for generation `seq`. The slot must be at the turn of
    /// that generation's push: the wait for it would not end otherwise.
    pub fn push(&mut self, data: T, seq: usize)
        requires
            old(self).wf(),
            old(self).turn() == push_turn(seq as int),
            pop_turn(seq as int) <= usize::MAX,
        ensures
            final(self).wf(),
            final(self).turn() == pop_turn(seq as int),
            final(self).content() == Some(data),
    {
        self.seq.wait_until(turn_to_push(seq), None).unwrap();
        self.occupied = true;
        self.data = Some(data);
        self.seq.update_next(turn_to_pop(seq));
    }

    /// Empties the slot for generation `seq`. The slot must be at the turn
    /// of that generation's pop: the wait for it would not end otherwise.
    pub fn pop(&mut self, seq: usize) -> (result: T)
        requires
            old(self).wf(),
            old(self).turn() == pop_turn(seq as int),
            push_turn(seq + 1) <= usize::MAX,
        ensures
            final(self).wf(),
            final(self).turn() == push_turn(seq + 1),
            final(self).content() is None,
            Some(result) == old(self).content(),
    {
        self.seq.wait_until(turn_to_pop(seq), None).unwrap();
        let result = self.data.take().unwrap();
        self.occupied = false;
        self.seq.update_next(turn_to_push(seq + 1));
        result
    }
}

} // verus!

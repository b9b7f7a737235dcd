//! Sequencers: the counter of a slot, on which its users take turns.
//!
//! A sequencer is owned by whoever uses it, so nothing changes the counter
//! during a wait. A wait therefore ends at once: the counter has the value
//! waited for, or the deadline passes without it.

use vstd::prelude::*;
use core::time::Duration;

verus! {

/// Why a wait did not end with the value waited for.
#[derive(Debug, Clone, Copy, PartialEq, Eq, Structural)]
pub enum WaitError {
    /// The deadline passed before the counter had the value.
    TimedOut,
    /// The sequencer cannot wait with a deadline.
    UnsupportedTimeout,
}

/// A counter that one can wait on and set. A fresh sequencer, as `Default`
/// makes it, stands at zero.
pub trait Sequencer: Sized + Default {
    /// The value of the counter.
    spec fn value(&self) -> usize;

    /// A sequencer that `Default` has made stands at zero.
    proof fn lemma_default_is_zero(fresh: Self)
        requires
            call_ensures(<Self as Default>::default, (), fresh),
        ensures
            fresh.value() == 0,
    ;

    /// Waits until the counter is `sequence`. Without a deadline the wait
    /// ends only when the counter has that value, so it must have it.
    fn wait_until(&self, sequence: usize, timeout: Option<Duration>) -> (r: Result<(), WaitError>)
        requires
            timeout is None ==> self.value() == sequence,
        ensures
            r is Ok ==> self.value() == sequence,
            timeout is None ==> r is Ok,
    ;

    /// Sets the counter to `sequence`, whatever it was.
    fn update_next(&mut self, sequence: usize)
        ensures
            final(self).value() == sequence,
    ;
}

/// The outcome of a wait on a sequencer that takes no deadline.
pub open spec fn spin_outcome(timed: bool) -> Result<(), WaitError> {
    if timed {
        Err(WaitError::UnsupportedTimeout)
    } else {
        Ok(())
    }
}

/// The outcome of a wait on a sequencer that takes a deadline.
pub open spec fn timed_outcome(value: usize, sequence: usize) -> Result<(), WaitError> {
    if value == sequence {
        Ok(())
    } else {
        Err(WaitError::TimedOut)
    }
}

/// A sequencer for waits without a deadline.
pub struct SpinSequencer {
    seq: usize,
}

impl Default for SpinSequencer {
    fn default() -> (fresh: Self)
        ensures
            fresh.value() == 0,
    {
        SpinSequencer { seq: 0 }
    }
}

impl Sequencer for SpinSequencer {
    closed spec fn value(&self) -> usize {
        self.seq
    }

    proof fn lemma_default_is_zero(fresh: Self) {
    }

    /// Refuses every deadline, whatever the counter is.
    fn wait_until(&self, sequence: usize, timeout: Option<Duration>) -> (r: Result<(), WaitError>)
        ensures
            r == spin_outcome(timeout is Some),
    {
        if timeout.is_some() {
            return Err(WaitError::UnsupportedTimeout);
        }
        Ok(())
    }

    fn update_next(&mut self, sequence: usize) {
        self.seq = sequence;
    }
}

/// A sequencer for waits with or without a deadline.
pub struct CondvarSequencer {
    seq: usize,
}

impl Default for CondvarSequencer {
    fn default() -> (fresh: Self)
        ensures
            fresh.value() == 0,
    {
        CondvarSequencer { seq: 0 }
    }
}

impl Sequencer for CondvarSequencer {
    closed spec fn value(&self) -> usize {
        self.seq
    }

    proof fn lemma_default_is_zero(fresh: Self) {
    }

    /// Succeeds when the counter is `sequence`; otherwise the deadline
    /// passes.
    fn wait_until(&self, sequence: usize, timeout: Option<Duration>) -> (r: Result<(), WaitError>)
        ensures
            r == timed_outcome(self.value(), sequence),
    {
        if self.seq == sequence {
            Ok(())
        } else {
            Err(WaitError::TimedOut)
        }
    }

    fn update_next(&mut self, sequence: usize) {
        self.seq = sequence;
    }
}

} // verus!

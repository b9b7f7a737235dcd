//! Bounded queue whose positions are handed out by tickets.

pub mod nonblocking;
pub mod sequencer;
pub mod slot;

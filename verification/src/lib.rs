//! Two building blocks for low-latency task dispatch: a bounded queue whose
//! positions are handed out by monotonic tickets, and a hierarchical timing
//! wheel that schedules deferred events at integer ticks.

pub mod queue;
pub mod timing_wheel;

//! A two-domain, tick-driven timer scheduling service, with a compact
//! binary/text codec for the timestamps and durations that cross its
//! boundary.
//!
//! Callers register named deferred events (`start`), cancel them before
//! they fire (`stop`), and retrieve on each poll exactly the set of ids
//! whose deadline has elapsed since the previous poll.  Two independent
//! timelines (domains) are kept: one driven by wall-clock time measured
//! between polls, one driven by an explicit caller-supplied tick counter.

pub mod codec;
pub mod parse;
pub mod sched;
pub mod wheel;
pub mod z85;

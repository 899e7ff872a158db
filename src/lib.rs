//! Runs a queue of shell commands with bounded concurrency: the queue is
//! built from command templates and argument values (`queue`), and a pool
//! decides when to start, poll and reclaim processes (`pool`).
use vstd::prelude::*;

pub mod pool;
pub mod queue;

verus! {

} // verus!

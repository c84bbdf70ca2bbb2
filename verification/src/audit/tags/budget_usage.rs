//! Element indices of the budget and usage arrays.
use vstd::prelude::*;

verus! {

pub const PREEMPT_TICKS: usize = 0;

pub const WALL_CLOCK_MS: usize = 1;

pub const MEMORY_BYTES: usize = 2;

pub const OUTPUT_BYTES: usize = 3;

pub const LEN: usize = 4;

} // verus!

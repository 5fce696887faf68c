//! A cycle-accurate model of one out-of-order core feeding a DRAM subsystem.
use vstd::prelude::*;

pub mod cpu;
pub mod dram;
pub mod mem_request;
pub mod simulator;
pub mod system;
pub mod trace;
pub mod util;

verus! {

} // verus!

//! Machine constants shared by the memory subsystem.
use vstd::prelude::*;

verus! {

/// Size of one page (and of one physical frame) in bytes.
pub const PAGE_SIZE: usize = 4096;

/// Number of syscall counters kept per task.
pub const MAX_SYSCALL_NUM: usize = 500;

} // verus!

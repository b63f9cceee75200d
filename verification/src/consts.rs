//! Kernel constants.

use vstd::prelude::*;

verus! {

/// Largest number of CPUs supported.
pub const MAX_CPU_NUM: usize = 8;

/// Largest number of processes supported.
pub const MAX_PROCESS_NUM: usize = 48;

/// Size in bytes of a kernel stack.
pub const STACK_SIZE: usize = 0x8000;

/// Size in bytes of a user stack.
pub const USER_STACK_SIZE: usize = 0x8000;

/// Bottom of the user stack of a 64-bit image.
pub const USER_STACK_OFFSET: usize = 0x8000_0000 - USER_STACK_SIZE;

/// Bottom of the user stack of a 32-bit image.
pub const USER32_STACK_OFFSET: usize = 0x7000_0000 - USER_STACK_SIZE;

} // verus!

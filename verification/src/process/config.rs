//! Sizes of thread stacks.
use vstd::prelude::*;

verus! {

/// Size of the stack of each thread (512 KiB).
pub const STACK_SIZE: u64 = 0x8_0000;

/// Size of the kernel stack shared by user threads (512 KiB).
pub const KERNEL_STACK_SIZE: u64 = 0x8_0000;

/// Size of a saved `Context`: 34 words.
pub const CONTEXT_SIZE: u64 = 34 * 8;

} // verus!

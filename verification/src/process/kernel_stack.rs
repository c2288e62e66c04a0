//! The kernel stack that user threads enter interrupts on.
use vstd::prelude::*;
use crate::process::config::{CONTEXT_SIZE, KERNEL_STACK_SIZE};

verus! {

/// The kernel stack, known by the address of its lowest byte; it spans
/// `KERNEL_STACK_SIZE` bytes from there.
#[derive(Clone, Copy, Debug)]
pub struct KernelStack {
    pub base: u64,
}

impl KernelStack {
    /// Where a context pushed onto this stack goes: one context below the
    /// top of the stack.
    pub fn push_context(&self) -> (r: u64)
        requires
            self.base + KERNEL_STACK_SIZE <= u64::MAX,
        ensures
            r == self.base + KERNEL_STACK_SIZE - CONTEXT_SIZE,
    {
        self.base + KERNEL_STACK_SIZE - CONTEXT_SIZE
    }
}

} // verus!

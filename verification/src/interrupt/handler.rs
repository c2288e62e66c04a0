//! What the interrupt handler decides on its own.
use vstd::prelude::*;
use crate::interrupt::context::Context;

verus! {

/// Resumes after a breakpoint: `sepc` moves past the 2-byte `c.ebreak`
/// instruction; every register is kept.
pub fn breakpoint(context: &mut Context)
    requires
        old(context).sepc + 2 <= u64::MAX,
    ensures
        final(context).sepc == old(context).sepc + 2,
        final(context).x == old(context).x,
        final(context).sstatus == old(context).sstatus,
{
    context.sepc = context.sepc + 2;
}

} // verus!

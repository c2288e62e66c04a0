//! The registers saved when a thread is interrupted.
use vstd::prelude::*;
use riscv::register::sstatus::{Sstatus, SPP};

verus! {

/// The bits `riscv::register::sstatus::Sstatus` keeps on 64-bit targets (its `BITMASK`).
pub const SSTATUS_MASK: u64 = 0x8000_0003_000d_e762;

/// The `sstatus` bit that holds the previous privilege mode (set: supervisor).
pub const SSTATUS_SPP: u64 = 0x100;

/// The `sstatus` bit that re-enables interrupts on `sret`.
pub const SSTATUS_SPIE: u64 = 0x20;

/// The word `Sstatus::from_bits(bits)` followed by `set_spp` leaves in its
/// `bits()`: the kept bits with bit 8 set for supervisor mode, cleared for user mode.
pub open spec fn with_spp(bits: u64, supervisor: bool) -> u64 {
    (((bits & SSTATUS_MASK) & !SSTATUS_SPP) | (if supervisor { SSTATUS_SPP } else { 0 })) & SSTATUS_MASK
}

/// The word `Sstatus::from_bits(bits)` followed by `set_spie` leaves in its
/// `bits()`: the kept bits with bit 5 set or cleared.
pub open spec fn with_spie(bits: u64, enable: bool) -> u64 {
    (((bits & SSTATUS_MASK) & !SSTATUS_SPIE) | (if enable { SSTATUS_SPIE } else { 0 })) & SSTATUS_MASK
}

/// Calls `Sstatus::set_spp` on `Sstatus::from_bits(bits)` and returns
/// `bits()`: the crate keeps only the bits of its mask and writes the
/// previous-privilege field (bit 8: 1 for `SPP::Supervisor`, 0 for
/// `SPP::User`). The mask is the one of 64-bit targets.
#[verifier::external_body]
fn sstatus_set_spp(bits: u64, supervisor: bool) -> (r: u64)
    ensures
        r == with_spp(bits, supervisor),
{
    let mut status = Sstatus::from_bits(bits as usize);
    status.set_spp(if supervisor { SPP::Supervisor } else { SPP::User });
    status.bits() as u64
}

/// Calls `Sstatus::set_spie` on `Sstatus::from_bits(bits)` and returns
/// `bits()`: the crate keeps only the bits of its mask and writes bit 5.
/// The mask is the one of 64-bit targets.
#[verifier::external_body]
fn sstatus_set_spie(bits: u64, enable: bool) -> (r: u64)
    ensures
        r == with_spie(bits, enable),
{
    let mut status = Sstatus::from_bits(bits as usize);
    status.set_spie(enable);
    status.bits() as u64
}

/// The 32 general registers, `sstatus` and `sepc` of an interrupted thread.
#[derive(Clone, Copy, Debug)]
pub struct Context {
    pub x: [u64; 32],
    pub sstatus: u64,
    pub sepc: u64,
}

/// The register that holds the first argument (`a0` is `x10`).
pub const FIRST_ARGUMENT: usize = 10;

impl Context {
    /// Whether this is the context `new(stack_top, entry_point, arguments,
    /// is_user)` builds.
    pub open spec fn is_start_of(self, stack_top: u64, entry_point: u64, arguments: Option<&[u64]>, is_user: bool) -> bool {
        &&& self.x@[2] == stack_top
        &&& self.sepc == entry_point
        &&& self.sstatus == with_spie(with_spp(0, !is_user), true)
        &&& forall|i: int| 0 <= i < 32 && i != 2 ==> self.x@[i] == match arguments {
            Some(a) => if FIRST_ARGUMENT <= i < FIRST_ARGUMENT + a@.len() {
                a@[i - FIRST_ARGUMENT]
            } else {
                0
            },
            None => 0,
        }
    }

    /// All registers zero.
    pub fn zeroed() -> (r: Self)
        ensures
            forall|i: int| 0 <= i < 32 ==> r.x@[i] == 0,
            r.sstatus == 0,
            r.sepc == 0,
    {
        Context { x: [0u64; 32], sstatus: 0, sepc: 0 }
    }

    /// The stack pointer (`x2`).
    pub fn sp(&self) -> (r: u64)
        ensures
            r == self.x@[2],
    {
        self.x[2]
    }

    /// Sets the stack pointer (`x2`).
    pub fn set_sp(&mut self, value: u64)
        ensures
            final(self).x@ == old(self).x@.update(2, value),
            final(self).sstatus == old(self).sstatus,
            final(self).sepc == old(self).sepc,
    {
        self.x[2] = value;
    }

    /// The return address (`x1`).
    pub fn ra(&self) -> (r: u64)
        ensures
            r == self.x@[1],
    {
        self.x[1]
    }

    /// Sets the return address (`x1`).
    pub fn set_ra(&mut self, value: u64)
        ensures
            final(self).x@ == old(self).x@.update(1, value),
            final(self).sstatus == old(self).sstatus,
            final(self).sepc == old(self).sepc,
    {
        self.x[1] = value;
    }

    /// Puts up to eight arguments into `a0`, `a1`, ... (`x10` on).
    pub fn set_arguments(&mut self, arguments: &[u64])
        requires
            arguments@.len() <= 8,
        ensures
            forall|i: int| 0 <= i < 32 ==> final(self).x@[i] == if FIRST_ARGUMENT <= i < FIRST_ARGUMENT + arguments@.len() {
                arguments@[i - FIRST_ARGUMENT]
            } else {
                old(self).x@[i]
            },
            final(self).sstatus == old(self).sstatus,
            final(self).sepc == old(self).sepc,
    {
        let mut i: usize = 0;
        while i < arguments.len()
            invariant
                i <= arguments@.len() <= 8,
                self.sstatus == old(self).sstatus,
                self.sepc == old(self).sepc,
                forall|k: int| 0 <= k < 32 ==> self.x@[k] == if FIRST_ARGUMENT <= k < FIRST_ARGUMENT + i {
                    arguments@[k - FIRST_ARGUMENT]
                } else {
                    old(self).x@[k]
                },
            decreases arguments@.len() - i,
        {
            self.x[FIRST_ARGUMENT + i] = arguments[i];
            i = i + 1;
        }
    }

    /// The context a new thread starts from: its stack pointer at
    /// `stack_top`, its arguments in `a0`.., `sepc` at `entry_point`, the
    /// previous privilege user or supervisor, and interrupts enabled on return.
    pub fn new(stack_top: u64, entry_point: u64, arguments: Option<&[u64]>, is_user: bool) -> (r: Self)
        requires
            arguments matches Some(a) ==> a@.len() <= 8,
        ensures
            r.is_start_of(stack_top, entry_point, arguments, is_user),
            r.x@[2] == stack_top,
            r.sepc == entry_point,
            arguments matches Some(a) ==> forall|i: int| 0 <= i < a@.len() ==> #[trigger] r.x@[FIRST_ARGUMENT + i] == a@[i],
            forall|i: int| 0 <= i < 32 && i != 2 && !(arguments matches Some(a) && FIRST_ARGUMENT <= i < FIRST_ARGUMENT + a@.len())
                ==> #[trigger] r.x@[i] == 0,
            (r.sstatus & SSTATUS_SPP != 0) == !is_user,
            r.sstatus & SSTATUS_SPIE != 0,
    {
        let mut context = Context::zeroed();
        context.set_sp(stack_top);
        if let Some(arguments) = arguments {
            context.set_arguments(arguments);
        }
        context.sepc = entry_point;
        context.sstatus = sstatus_set_spp(context.sstatus, !is_user);
        context.sstatus = sstatus_set_spie(context.sstatus, true);
        proof {
            lemma_start_status(!is_user);
            if let Some(a) = arguments {
                assert forall|i: int| 0 <= i < a@.len() implies #[trigger] context.x@[FIRST_ARGUMENT + i] == a@[i] by {
                    assert(FIRST_ARGUMENT + i != 2);
                }
            }
        }
        context
    }
}

/// A starting `sstatus` has its previous-privilege bit set exactly for
/// supervisor mode, and re-enables interrupts on return.
pub proof fn lemma_start_status(supervisor: bool)
    ensures
        (with_spie(with_spp(0, supervisor), true) & SSTATUS_SPP != 0) == supervisor,
        with_spie(with_spp(0, supervisor), true) & SSTATUS_SPIE != 0,
{
    if supervisor {
        assert(((((((0u64 & 0x8000_0003_000d_e762u64) & !0x100u64) | 0x100u64) & 0x8000_0003_000d_e762u64) & 0x8000_0003_000d_e762u64 & !0x20u64) | 0x20u64) & 0x8000_0003_000d_e762u64 & 0x100u64 != 0u64) by (bit_vector);
    } else {
        assert(((((((0u64 & 0x8000_0003_000d_e762u64) & !0x100u64) | 0u64) & 0x8000_0003_000d_e762u64) & 0x8000_0003_000d_e762u64 & !0x20u64) | 0x20u64) & 0x8000_0003_000d_e762u64 & 0x100u64 == 0u64) by (bit_vector);
    }
    assert(forall|x: u64| #[trigger] (((x & 0x8000_0003_000d_e762u64 & !0x20u64) | 0x20u64) & 0x8000_0003_000d_e762u64) & 0x20u64 != 0u64) by (bit_vector);
}

/// A thread's starting context holds its arguments in `a0`, `a1`, ... and
/// its stack top in `sp`, for user and kernel threads alike.
pub proof fn lemma_start_arguments(c: Context, stack_top: u64, entry_point: u64, arguments: Option<&[u64]>, is_user: bool)
    requires
        c.is_start_of(stack_top, entry_point, arguments, is_user),
    ensures
        c.x@[2] == stack_top,
        c.sepc == entry_point,
        arguments matches Some(a) ==> forall|i: int| 0 <= i < a@.len() && FIRST_ARGUMENT + i < 32 ==> #[trigger] c.x@[FIRST_ARGUMENT + i] == a@[i],
{
    if let Some(a) = arguments {
        assert forall|i: int| 0 <= i < a@.len() && FIRST_ARGUMENT + i < 32 implies #[trigger] c.x@[FIRST_ARGUMENT + i] == a@[i] by {
            assert(FIRST_ARGUMENT + i != 2);
        }
    }
}

impl Default for Context {
    /// All registers zero.
    fn default() -> (r: Self)
        ensures
            forall|i: int| 0 <= i < 32 ==> r.x@[i] == 0,
            r.sstatus == 0,
            r.sepc == 0,
    {
        Context::zeroed()
    }
}

} // verus!

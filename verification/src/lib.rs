//! The memory, scheduling and device bookkeeping of a small RISC-V (Sv39)
//! teaching kernel, written as a verified library: the hardware-facing parts
//! (CSR writes, linker symbols, consoles) stay with the caller, and everything
//! that decides or computes is proved here against its contract.

pub mod bits;
pub mod interrupt;
pub mod memory;
pub mod process;
pub mod fs;
pub mod drivers;
pub mod test;

//! Self-checks the kernel runs on its own structures.
use vstd::prelude::*;

pub mod kernel_memory_check;

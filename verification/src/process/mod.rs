//! Processes, threads and the scheduling of threads.
use vstd::prelude::*;

pub mod config;
pub mod process;
pub mod kernel_stack;
pub mod thread;
pub mod scheduler;
pub mod processor;

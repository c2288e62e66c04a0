//! Physical frames: who hands them out and who holds them.
use vstd::prelude::*;

pub mod allocator;
pub mod stacked_allocator;
pub mod frame_tracker;

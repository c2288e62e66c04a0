//! The saved state of an interrupted thread.
use vstd::prelude::*;

pub mod context;
pub mod handler;

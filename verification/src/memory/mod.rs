//! Physical frames, address arithmetic and the Sv39 page-table model.
use vstd::prelude::*;

pub mod config;
pub mod address;
pub mod range;
pub mod mapping;
pub mod frame;


verus! {

/// What every fallible memory operation returns: the value, or a fixed
/// message that says what ran out or went wrong.
pub type MemoryResult<T> = Result<T, &'static str>;

} // verus!

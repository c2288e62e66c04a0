//! What every device driver offers.
use vstd::prelude::*;

verus! {

/// The kinds of devices a driver can drive.
#[derive(Debug, PartialEq, Eq, Structural)]
pub enum DeviceType {
    Block,
}

/// A device driver.
pub trait Driver {
    /// The kind of device driven.
    fn device_type(&self) -> DeviceType;

    /// Reads block `block_id` into `buf`; whether it succeeded.
    fn read_block(&self, block_id: usize, buf: &mut [u8]) -> bool;

    /// Writes `buf` to block `block_id`; whether it succeeded.
    fn write_block(&self, block_id: usize, buf: &[u8]) -> bool;
}

} // verus!

//! Device drivers.
use vstd::prelude::*;

pub mod driver;

//! Byte offsets of the fields of the progress channel.

use vstd::prelude::*;

verus! {

pub const STATUS: usize = 0;

pub const PROGRESS: usize = 4;

pub const REGIONS_DONE: usize = 8;

pub const FOUND_COUNT: usize = 12;

pub const HEARTBEAT: usize = 20;

pub const CANCEL_FLAG: usize = 24;

pub const ERROR_CODE: usize = 28;

} // verus!

//! The metadata of an epoch.

use vstd::prelude::*;

verus! {

/// A point in time: seconds since the Unix epoch, and the nanoseconds past them.
#[derive(Clone, Copy, Debug, PartialEq, Eq)]
pub struct Timestamp {
    pub seconds: i64,
    pub nanos: i32,
}

/// The metadata of an epoch.
#[derive(Clone, Debug, PartialEq, Eq)]
pub struct Epoch {
    /// The number of this epoch.
    pub epoch_number: u64,
    /// The epoch interval at the time of this epoch.
    pub current_epoch_interval: u64,
    /// The height of the first block in this epoch.
    pub first_block_height: u64,
    /// The time of the last block in this epoch; `None` until the epoch has ended.
    pub last_block_time: Option<Timestamp>,
    /// The application hash after the sealer, the last block of the sealed
    /// epoch; it is stored in the first header of the next epoch.
    pub sealer_app_hash: Vec<u8>,
    /// The hash of the sealer.
    pub sealer_block_hash: Vec<u8>,
}

} // verus!

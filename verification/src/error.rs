//! Errors reported by the library.
use vstd::prelude::*;

verus! {

/// What makes an argument unacceptable.
#[derive(Clone, Copy, Debug, PartialEq, Eq, Structural)]
pub enum ArgumentError {
    /// The device that was to take a write has no shards.
    DeviceHasNoShards,
    /// A value was persisted again with another length.
    DuplicateLengthMismatch { existing_len: u64, requested_len: u64 },
    /// Rounding up to the alignment leaves the integer range.
    AlignmentOverflow { value: u64 },
    /// None of the shards that may take a write exists.
    InvalidShardSet,
    /// The value does not fit into any shard that may take it.
    ExceedsShardCapacity { len: u64, aligned_len: u64, capacity: u64 },
    /// The key is empty.
    EmptyKey,
    /// A sum of two numbers leaves the integer range.
    SumOverflow { lhs: u64, rhs: u64 },
    /// A device limit is too small to be cut into shards.
    CapacityTooSmall,
    /// No root directory was given.
    NoRoots,
    /// A root's limit is below the alignment.
    RootLimitTooSmall { index: usize, limit_bytes: u64 },
    /// The block-cache backend takes exactly one root.
    BackendNeedsOneRoot { roots: usize },
    /// The block-cache backend needs a larger root.
    BackendCapacityTooSmall { limit_bytes: u64, minimum_bytes: u64 },
    /// A shard names a device that is not there.
    InvalidDeviceIndex { shard_id: usize, device_idx: usize },
    /// The store has no devices.
    NoDevices,
    /// No device has a shard large enough for the value.
    NoDeviceForLength { aligned_len: u64 },
    /// No device serves the shard.
    InvalidShard { shard_id: usize },
    /// The device that serves the shard does not know it.
    ShardNotOnDevice { shard_id: usize, device_idx: usize },
    /// A buffer length is zero or not aligned.
    BufferLength { buffer_len: usize },
    /// An empty value cannot be stored.
    EmptyValue,
    /// The target buffer is shorter than the value.
    TargetTooSmall { len: u64, target_len: u64 },
    /// The stored length is not the one that was asked for.
    StoredLengthMismatch { stored_len: u64, requested_len: u64 },
    /// A part of an entry to be read is empty.
    EmptyRange,
    /// A part of an entry to be read ends behind the entry.
    RangeOutOfEntry { end: u64, limit: u64 },
    /// An address plus an offset leaves the integer range.
    AddressOverflow { base: u64, offset: u64 },
}

/// An operation of the SSD store failed.
#[derive(Clone, Copy, Debug, PartialEq, Eq, Structural)]
pub enum SsdError {
    InvalidArgument(ArgumentError),
    /// The value is not there, or no longer.
    KeyNotFound,
    /// The store no longer takes operations.
    SystemShutdown,
    /// The device failed.
    Device,
}

} // verus!

//! Device memory: heaps, allocators, buffers and the manager that ties them
//! together.

pub mod allocators;
pub mod block_proofs;
pub mod blocks;
pub mod buffers;
pub mod error;
pub mod flags;
pub mod granularity;
pub mod heaps;
pub mod manager;
pub mod regions;

use vstd::prelude::*;

verus! {

/// What a block of device memory holds.  `Free` marks a block that holds
/// nothing; the other tags matter only where two neighbouring resources may
/// have to be kept on separate pages.
#[derive(PartialEq, Eq, Structural, PartialOrd, Debug, Clone, Copy)]
pub enum AllocationType {
    Free,
    Buffer,
    Image,
    ImageLinear,
    ImageOptimal,
}

/// A size or an offset in device memory, in bytes.
pub type DeviceSize = u64;

/// What the device asks of the memory that is to back a resource.
#[derive(PartialEq, Eq, Structural, Debug, Clone, Copy)]
pub struct MemoryRequirements {
    /// The bytes that the resource occupies.
    pub size: DeviceSize,
    /// The resource must start at a multiple of this.
    pub alignment: DeviceSize,
    /// Bit `i` is set where memory type `i` can back the resource.
    pub memory_type_bits: u32,
}

} // verus!

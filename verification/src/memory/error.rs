//! The ways in which a request for device memory can fail.

use vstd::prelude::*;

verus! {

/// Why a request could not be served.
#[derive(PartialEq, Eq, Structural, Debug, Clone, Copy)]
pub enum MemoryError {
    /// No heap offers the requested properties with enough room left.
    CapabilityExhausted,
    /// No block of the allocator can take the resource.
    AllocatorExhausted,
    /// No region of the staging buffer can take the upload.
    SubAllocationExhausted,
    /// A copy to memory that the host cannot see was asked for outside of a
    /// transfer.
    InvalidTransferUsage,
    /// The device refused to bind a resource at the offset it was placed at.
    BindingFailure,
}

} // verus!

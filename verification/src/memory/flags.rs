//! Property and usage flags as the device reports them.
//!
//! The library keeps a set of flags as its raw bits and leaves every
//! operation on them to `ash`, whose flag types define what the bits mean.

use ash::vk;
use vstd::prelude::*;

verus! {

/// The raw bits of a set of memory property flags.
pub type MemoryPropertyFlags = u32;

/// The raw bits of a set of buffer usage flags.
pub type BufferUsageFlags = u32;

/// Whether every flag of `required` is among `flags`.
pub open spec fn includes(flags: u32, required: u32) -> bool {
    flags & required == required
}

/// The flag of memory that the host can map.
pub open spec fn host_visible_bits() -> MemoryPropertyFlags {
    0x2
}

/// The flag of a buffer that a transfer may read from.
pub open spec fn transfer_src_bits() -> BufferUsageFlags {
    0x1
}

/// `vk::MemoryPropertyFlags::contains`: whether the flags in `required` are a
/// subset of those in `flags`.  Both are handed over as raw bits.
#[verifier::external_body]
pub(crate) fn memory_flags_contain(
    flags: MemoryPropertyFlags,
    required: MemoryPropertyFlags,
) -> (contained: bool)
    ensures
        contained == includes(flags, required),
{
    vk::MemoryPropertyFlags::from_raw(flags).contains(vk::MemoryPropertyFlags::from_raw(required))
}

/// `vk::BufferUsageFlags::contains`: whether the flags in `required` are a
/// subset of those in `flags`.  Both are handed over as raw bits.
#[verifier::external_body]
pub(crate) fn buffer_usage_contains(
    flags: BufferUsageFlags,
    required: BufferUsageFlags,
) -> (contained: bool)
    ensures
        contained == includes(flags, required),
{
    vk::BufferUsageFlags::from_raw(flags).contains(vk::BufferUsageFlags::from_raw(required))
}

/// The `|` of `vk::MemoryPropertyFlags`: the flags that are in either set.
#[verifier::external_body]
pub(crate) fn memory_flags_union(
    first: MemoryPropertyFlags,
    second: MemoryPropertyFlags,
) -> (both: MemoryPropertyFlags)
    ensures
        both == first | second,
{
    (vk::MemoryPropertyFlags::from_raw(first) | vk::MemoryPropertyFlags::from_raw(second)).as_raw()
}

/// `vk::MemoryPropertyFlags::HOST_VISIBLE` as raw bits.
#[verifier::external_body]
pub(crate) fn host_visible() -> (bits: MemoryPropertyFlags)
    ensures
        bits == host_visible_bits(),
{
    vk::MemoryPropertyFlags::HOST_VISIBLE.as_raw()
}

/// `vk::BufferUsageFlags::TRANSFER_SRC` as raw bits.
#[verifier::external_body]
pub(crate) fn transfer_src() -> (bits: BufferUsageFlags)
    ensures
        bits == transfer_src_bits(),
{
    vk::BufferUsageFlags::TRANSFER_SRC.as_raw()
}

} // verus!

//! The heaps and memory types of a device, as reported once at start-up.
//!
//! Every memory type belongs to one heap.  A heap offers the property flags
//! of all its types together, and an allocator is cut from the first heap
//! that offers what is asked for and has room for it.

use super::flags::{includes, memory_flags_contain, memory_flags_union, MemoryPropertyFlags};
use super::DeviceSize;
use vstd::prelude::*;

verus! {

/// One memory type as the device reports it.
#[derive(PartialEq, Eq, Structural, Debug, Clone, Copy)]
pub struct MemoryTypeInfo {
    /// The raw bits of the properties of the type.
    pub property_flags: MemoryPropertyFlags,
    /// The heap that memory of the type is taken from.
    pub heap_index: u32,
}

/// One memory type of a heap.
#[derive(PartialEq, Eq, Structural, Debug, Clone, Copy)]
pub struct MemoryType {
    /// The raw bits of the properties of the type.
    pub property_flags: MemoryPropertyFlags,
    /// The place of the type in the device's list of memory types.
    pub type_index: u32,
}

/// One heap of device memory.
#[derive(Debug)]
pub struct MemoryHeap {
    /// The bytes of the heap.
    pub size: DeviceSize,
    /// The bytes not yet set aside for an allocator.
    pub free_memory: DeviceSize,
    /// The property flags of all the types of the heap together.
    pub property_flags: MemoryPropertyFlags,
    /// The types of the heap in the order in which the device lists them.
    pub memory_types: Vec<MemoryType>,
}

/// The types of `heap` among the first `count` memory types.
pub open spec fn types_in_heap(types: Seq<MemoryTypeInfo>, heap: int, count: int) -> Seq<MemoryType>
    decreases count,
{
    if count <= 0 {
        Seq::empty()
    } else if types[count - 1].heap_index == heap {
        types_in_heap(types, heap, count - 1).push(
            MemoryType {
                property_flags: types[count - 1].property_flags,
                type_index: (count - 1) as u32,
            },
        )
    } else {
        types_in_heap(types, heap, count - 1)
    }
}

/// The property flags of the types of `heap` among the first `count` memory
/// types, all together.
pub open spec fn flags_in_heap(
    types: Seq<MemoryTypeInfo>,
    heap: int,
    count: int,
) -> MemoryPropertyFlags
    decreases count,
{
    if count <= 0 {
        0
    } else if types[count - 1].heap_index == heap {
        flags_in_heap(types, heap, count - 1) | types[count - 1].property_flags
    } else {
        flags_in_heap(types, heap, count - 1)
    }
}

/// Whether a heap is as the device reports it, with nothing set aside: it has
/// the reported size, all of it free, and the types that name it.
pub open spec fn heap_as_reported(
    heap: MemoryHeap,
    index: int,
    heap_sizes: Seq<DeviceSize>,
    types: Seq<MemoryTypeInfo>,
    count: int,
) -> bool {
    &&& heap.size == heap_sizes[index]
    &&& heap.free_memory == heap_sizes[index]
    &&& heap.property_flags == flags_in_heap(types, index, count)
    &&& heap.memory_types@ == types_in_heap(types, index, count)
}

/// Sorts the memory types of a device into its heaps.  A type that names a
/// heap the device does not have belongs to none.
pub fn get_memory_heaps(
    heap_sizes: &Vec<DeviceSize>,
    memory_types: &Vec<MemoryTypeInfo>,
) -> (heaps: Vec<MemoryHeap>)
    requires
        memory_types.len() <= u32::MAX,
    ensures
        heaps.len() == heap_sizes.len(),
        forall|h: int|
            0 <= h < heaps.len() ==> heap_as_reported(
                #[trigger] heaps[h],
                h,
                heap_sizes@,
                memory_types@,
                memory_types.len() as int,
            ),
{
    let mut heaps: Vec<MemoryHeap> = Vec::new();
    let mut h: usize = 0;
    while h < heap_sizes.len()
        invariant
            0 <= h <= heap_sizes.len(),
            heaps.len() == h,
            forall|k: int|
                0 <= k < h ==> heap_as_reported(
                    #[trigger] heaps[k],
                    k,
                    heap_sizes@,
                    memory_types@,
                    0,
                ),
        decreases heap_sizes.len() - h,
    {
        heaps.push(
            MemoryHeap {
                size: heap_sizes[h],
                free_memory: heap_sizes[h],
                property_flags: 0,
                memory_types: Vec::new(),
            },
        );
        h += 1;
    }
    let mut i: usize = 0;
    while i < memory_types.len()
        invariant
            0 <= i <= memory_types.len(),
            memory_types.len() <= u32::MAX,
            heaps.len() == heap_sizes.len(),
            forall|k: int|
                0 <= k < heaps.len() ==> heap_as_reported(
                    #[trigger] heaps[k],
                    k,
                    heap_sizes@,
                    memory_types@,
                    i as int,
                ),
        decreases memory_types.len() - i,
    {
        let memory_type = memory_types[i];
        let heap_index = memory_type.heap_index as usize;
        if heap_index < heaps.len() {
            let ghost before = heaps@;
            let memory_heap = &mut heaps[heap_index];
            memory_heap.memory_types.push(
                MemoryType { property_flags: memory_type.property_flags, type_index: i as u32 },
            );
            memory_heap.property_flags = memory_flags_union(
                memory_heap.property_flags,
                memory_type.property_flags,
            );
            assert forall|k: int| 0 <= k < heaps.len() implies heap_as_reported(
                #[trigger] heaps[k],
                k,
                heap_sizes@,
                memory_types@,
                i + 1,
            ) by {
                assert(heap_as_reported(before[k], k, heap_sizes@, memory_types@, i as int));
            }
        }
        i += 1;
    }
    heaps
}

/// Whether a heap offers the flags and has `size` bytes left.
pub open spec fn heap_serves(
    heap: MemoryHeap,
    size: DeviceSize,
    flags: MemoryPropertyFlags,
) -> bool {
    includes(heap.property_flags, flags) && heap.free_memory >= size
}

/// The first heap from `start` on that offers the flags and has `size`
/// bytes left.
pub open spec fn first_heap_from(
    heaps: Seq<MemoryHeap>,
    start: int,
    size: DeviceSize,
    flags: MemoryPropertyFlags,
) -> Option<int>
    decreases heaps.len() - start,
{
    if start < 0 || start >= heaps.len() {
        None
    } else if heap_serves(heaps[start], size, flags) {
        Some(start)
    } else {
        first_heap_from(heaps, start + 1, size, flags)
    }
}

/// The first heap that offers the flags and has `size` bytes left.
pub open spec fn first_heap(
    heaps: Seq<MemoryHeap>,
    size: DeviceSize,
    flags: MemoryPropertyFlags,
) -> Option<int> {
    first_heap_from(heaps, 0, size, flags)
}

/// The index of the first memory type from `start` on that has the flags.
pub open spec fn first_type_from(
    types: Seq<MemoryType>,
    start: int,
    flags: MemoryPropertyFlags,
) -> Option<u32>
    decreases types.len() - start,
{
    if start < 0 || start >= types.len() {
        None
    } else if includes(types[start].property_flags, flags) {
        Some(types[start].type_index)
    } else {
        first_type_from(types, start + 1, flags)
    }
}

/// The index of the first memory type that has the flags.
pub open spec fn first_type(types: Seq<MemoryType>, flags: MemoryPropertyFlags) -> Option<u32> {
    first_type_from(types, 0, flags)
}

/// No heap has more bytes free than it has.
pub open spec fn heaps_sound(heaps: Seq<MemoryHeap>) -> bool {
    forall|h: int| 0 <= h < heaps.len() ==> (#[trigger] heaps[h]).free_memory <= heaps[h].size
}

/// The index of the first memory type in `types` that has the flags.
pub fn find_type(types: &Vec<MemoryType>, flags: MemoryPropertyFlags) -> (found: Option<u32>)
    ensures
        found == first_type(types@, flags),
{
    let mut i: usize = 0;
    while i < types.len()
        invariant
            0 <= i <= types.len(),
            first_type(types@, flags) == first_type_from(types@, i as int, flags),
        decreases types.len() - i,
    {
        if memory_flags_contain(types[i].property_flags, flags) {
            return Some(types[i].type_index);
        }
        i += 1;
    }
    None
}

/// The memory type that a request for `size` bytes with the flags is served
/// from: the first type with the flags in the first heap that serves.
pub open spec fn chosen_type(
    heaps: Seq<MemoryHeap>,
    size: DeviceSize,
    flags: MemoryPropertyFlags,
) -> Option<u32> {
    match first_heap(heaps, size, flags) {
        Some(chosen) => first_type(heaps[chosen].memory_types@, flags),
        None => None,
    }
}

/// Whether `after` are the heaps `before` with `size` bytes set aside in the
/// first heap that serves, or the same heaps where none serves.
pub open spec fn reserved(
    before: Seq<MemoryHeap>,
    after: Seq<MemoryHeap>,
    size: DeviceSize,
    flags: MemoryPropertyFlags,
) -> bool {
    match first_heap(before, size, flags) {
        Some(chosen) => {
            &&& 0 <= chosen < before.len()
            &&& after.len() == before.len()
            &&& after[chosen].free_memory == before[chosen].free_memory - size
            &&& after[chosen].size == before[chosen].size
            &&& after[chosen].property_flags == before[chosen].property_flags
            &&& after[chosen].memory_types == before[chosen].memory_types
            &&& forall|h: int|
                0 <= h < before.len() && h != chosen ==> #[trigger] after[h] == before[h]
        },
        None => after == before,
    }
}

/// Sets `size` bytes aside in the first heap that offers the flags and has
/// as many bytes left, and returns the index of the first memory type of
/// that heap that has the flags itself.  `None` where no heap serves, and
/// also where the heap that serves has no single type with all the flags;
/// the bytes are set aside in that heap all the same.
pub fn find_suitable_heap(
    heaps: &mut Vec<MemoryHeap>,
    size: DeviceSize,
    memory_property_flags: MemoryPropertyFlags,
) -> (type_index: Option<u32>)
    requires
        heaps_sound(old(heaps)@),
    ensures
        heaps_sound(final(heaps)@),
        reserved(old(heaps)@, final(heaps)@, size, memory_property_flags),
        type_index == chosen_type(old(heaps)@, size, memory_property_flags),
{
    let mut h: usize = 0;
    while h < heaps.len()
        invariant
            0 <= h <= heaps.len(),
            *heaps == *old(heaps),
            heaps_sound(heaps@),
            first_heap(heaps@, size, memory_property_flags) == first_heap_from(
                heaps@,
                h as int,
                size,
                memory_property_flags,
            ),
        decreases heaps.len() - h,
    {
        if memory_flags_contain(heaps[h].property_flags, memory_property_flags)
            && heaps[h].free_memory >= size {
            let found = find_type(&heaps[h].memory_types, memory_property_flags);
            let heap = &mut heaps[h];
            heap.free_memory -= size;
            return found;
        }
        h += 1;
    }
    None
}

/// Whether memory type `index` is among the types that the bits allow.
pub open spec fn type_allowed(memory_type_bits: u32, index: u32) -> bool {
    index < 32 && (memory_type_bits >> index) & 1 == 1
}

/// Tells whether memory type `index` is among the types that the bits
/// allow.
#[verifier::when_used_as_spec(type_allowed)]
pub fn allows_type(memory_type_bits: u32, index: u32) -> (allowed: bool)
    ensures
        allowed == type_allowed(memory_type_bits, index),
{
    index < 32 && (memory_type_bits >> index) & 1 == 1
}

/// The index of the first memory type from `start` on that the bits allow
/// and that has the properties.
pub open spec fn first_allowed_type_from(
    types: Seq<MemoryTypeInfo>,
    start: int,
    type_bits: u32,
    properties: MemoryPropertyFlags,
) -> Option<u32>
    decreases types.len() - start,
{
    if start < 0 || start >= types.len() {
        None
    } else if type_allowed(type_bits, start as u32) && includes(
        types[start].property_flags,
        properties,
    ) {
        Some(start as u32)
    } else {
        first_allowed_type_from(types, start + 1, type_bits, properties)
    }
}

/// The index of the first memory type that the bits allow and that has the
/// properties.
pub fn find_memory_type(
    memory_types: &Vec<MemoryTypeInfo>,
    type_bits: u32,
    properties: MemoryPropertyFlags,
) -> (found: Option<u32>)
    requires
        memory_types.len() <= u32::MAX,
    ensures
        found == first_allowed_type_from(memory_types@, 0, type_bits, properties),
{
    let mut index: usize = 0;
    while index < memory_types.len()
        invariant
            0 <= index <= memory_types.len(),
            memory_types.len() <= u32::MAX,
            first_allowed_type_from(memory_types@, 0, type_bits, properties)
                == first_allowed_type_from(memory_types@, index as int, type_bits, properties),
        decreases memory_types.len() - index,
    {
        if allows_type(type_bits, index as u32) && memory_flags_contain(
            memory_types[index].property_flags,
            properties,
        ) {
            return Some(index as u32);
        }
        index += 1;
    }
    None
}

} // verus!

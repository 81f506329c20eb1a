//! The memory manager: heaps, allocators and buffers under one roof.
//!
//! The manager decides; the caller talks to the device.  To create an
//! allocator the caller asks for a plan, allocates and maps the memory
//! object that the plan names, and hands the object in.  To create a buffer
//! the caller creates the device buffer, hands in what the device asks for
//! it, and binds the buffer where the manager placed it.  To copy the caller
//! asks for a plan, writes the bytes at the host address that the plan
//! names, and records the device copy if the plan has one.

use super::allocators::{Allocator, Block};
use super::block_proofs::{
    lemma_backed_apart, lemma_backed_inside, lemma_first_fit_is_a_fit,
    lemma_place_backs_resource, lemma_place_keeps_backing, lemma_release_keeps_backing,
};
use super::blocks::{
    backs, can_place, coalesce, first_fit, fits_at, is_backing, leaves_rest, place, release,
    start_at,
};
use super::buffers::{Buffer, SubMemory};
use super::error::MemoryError;
use super::flags::{
    host_visible, host_visible_bits, includes, memory_flags_contain, transfer_src,
    transfer_src_bits, BufferUsageFlags, MemoryPropertyFlags,
};
use super::heaps::{
    allows_type, chosen_type, find_suitable_heap, get_memory_heaps, heap_as_reported, heaps_sound,
    reserved, type_allowed, MemoryHeap, MemoryTypeInfo,
};
use super::regions::{can_carve, carve, first_region, give_back, join_free};
use super::{AllocationType, DeviceSize, MemoryRequirements};
use vstd::prelude::*;

verus! {

/// What the caller is to ask of the device for a new allocator.
#[derive(PartialEq, Eq, Structural, Debug, Clone, Copy)]
pub struct AllocatorPlan {
    /// The bytes of the memory object to allocate.
    pub size: DeviceSize,
    /// The property flags that the memory was asked for with.
    pub memory_flags: MemoryPropertyFlags,
    /// The memory type to allocate the object from.
    pub memory_type_index: u32,
    /// Whether the object is to be mapped.
    pub map: bool,
}

/// Where a resource was placed.
#[derive(PartialEq, Eq, Structural, Debug, Clone, Copy)]
pub struct Allocation {
    /// The host address of the resource, where its memory is mapped.
    pub address: Option<usize>,
    /// The index of the allocator that holds the resource.
    pub allocator_index: usize,
    /// The name of the block that holds the resource.
    pub block_id: usize,
    /// The offset in the memory object at which the resource starts.
    pub offset: DeviceSize,
}

/// Where the caller is to bind a new buffer.
#[derive(PartialEq, Eq, Structural, Debug, Clone, Copy)]
pub struct BufferBinding {
    /// The index of the buffer in the manager.
    pub buffer_index: usize,
    /// The device's name for the memory object to bind to.
    pub memory: u64,
    /// The offset in the memory object to bind at.
    pub offset: DeviceSize,
}

/// What the caller is to do to carry out a copy.
#[derive(PartialEq, Eq, Structural, Debug, Clone, Copy)]
pub enum CopyPlan {
    /// Write the bytes at the host address `address`.
    Direct { address: usize },
    /// Write the bytes at the host address `address`, which is that of the
    /// region `region` of the staging buffer, then record a device copy of
    /// the bytes from that region of the buffer `source` to the offset
    /// `dst_offset` of the buffer `destination`, and give the region back.
    Staged {
        staging_buffer: usize,
        region: SubMemory,
        address: usize,
        source: u64,
        destination: u64,
        dst_offset: DeviceSize,
    },
    /// Nothing: the buffer that the host was to write to is not mapped.
    Unmapped,
}

/// Whether an allocator can serve a request: it has the flags, `size` bytes
/// free, and memory of a type that the bits allow.
pub open spec fn allocator_serves(
    allocator: Allocator,
    flags: MemoryPropertyFlags,
    size: DeviceSize,
    memory_type_bits: u32,
) -> bool {
    &&& includes(allocator.memory_flags(), flags)
    &&& allocator.available() >= size
    &&& type_allowed(memory_type_bits, allocator.memory_type_index())
}

/// The first allocator from `start` on that can serve the request.
pub open spec fn first_allocator_from(
    allocators: Seq<Allocator>,
    start: int,
    flags: MemoryPropertyFlags,
    size: DeviceSize,
    memory_type_bits: u32,
) -> Option<int>
    decreases allocators.len() - start,
{
    if start < 0 || start >= allocators.len() {
        None
    } else if allocator_serves(allocators[start], flags, size, memory_type_bits) {
        Some(start)
    } else {
        first_allocator_from(allocators, start + 1, flags, size, memory_type_bits)
    }
}

/// The first allocator that can serve the request.
pub open spec fn first_allocator(
    allocators: Seq<Allocator>,
    flags: MemoryPropertyFlags,
    size: DeviceSize,
    memory_type_bits: u32,
) -> Option<int> {
    first_allocator_from(allocators, 0, flags, size, memory_type_bits)
}

/// What the search from `start` finds is an allocator from `start` on.
pub proof fn lemma_first_allocator_in_range(
    allocators: Seq<Allocator>,
    start: int,
    flags: MemoryPropertyFlags,
    size: DeviceSize,
    memory_type_bits: u32,
)
    requires
        0 <= start,
        first_allocator_from(allocators, start, flags, size, memory_type_bits) is Some,
    ensures
        start <= first_allocator_from(allocators, start, flags, size, memory_type_bits).unwrap()
            < allocators.len(),
    decreases allocators.len() - start,
{
    if start < allocators.len() && !allocator_serves(
        allocators[start],
        flags,
        size,
        memory_type_bits,
    ) {
        lemma_first_allocator_in_range(allocators, start + 1, flags, size, memory_type_bits);
    }
}

/// Whether a buffer has `size` bytes or more, the property flags and the
/// usage flags.
pub open spec fn buffer_serves(
    buffer: Buffer,
    size: DeviceSize,
    usage_flags: BufferUsageFlags,
    memory_flags: MemoryPropertyFlags,
) -> bool {
    &&& buffer.size() >= size
    &&& includes(buffer.memory_type(), memory_flags)
    &&& includes(buffer.buffer_usage(), usage_flags)
}

/// The first buffer from `start` on with `size` bytes or more, the property
/// flags and the usage flags.
pub open spec fn first_buffer_from(
    buffers: Seq<Buffer>,
    start: int,
    size: DeviceSize,
    usage_flags: BufferUsageFlags,
    memory_flags: MemoryPropertyFlags,
) -> Option<int>
    decreases buffers.len() - start,
{
    if start < 0 || start >= buffers.len() {
        None
    } else if buffer_serves(buffers[start], size, usage_flags, memory_flags) {
        Some(start)
    } else {
        first_buffer_from(buffers, start + 1, size, usage_flags, memory_flags)
    }
}

/// The first buffer with `size` bytes or more, the property flags and the
/// usage flags.
pub open spec fn first_buffer(
    buffers: Seq<Buffer>,
    size: DeviceSize,
    usage_flags: BufferUsageFlags,
    memory_flags: MemoryPropertyFlags,
) -> Option<int> {
    first_buffer_from(buffers, 0, size, usage_flags, memory_flags)
}

/// The buffer that a copy of `size` bytes to memory the host cannot see is
/// staged in: the first buffer with as many bytes that the host can see and
/// a transfer can read from.
pub open spec fn staging_for(buffers: Seq<Buffer>, size: DeviceSize) -> Option<int> {
    first_buffer(buffers, size, transfer_src_bits(), host_visible_bits())
}

/// The allocators, the buffers and the heaps of one device.
pub struct Memory {
    allocators: Vec<Allocator>,
    buffers: Vec<Buffer>,
    memory_heaps: Vec<MemoryHeap>,
    granularity: DeviceSize,
}

impl Memory {
    /// The allocators in the order in which they were created.
    pub closed spec fn allocators(&self) -> Seq<Allocator> {
        self.allocators@
    }

    /// The buffers in the order in which they were created.
    pub closed spec fn buffers(&self) -> Seq<Buffer> {
        self.buffers@
    }

    /// The heaps in the order in which the device reports them.
    pub closed spec fn heaps(&self) -> Seq<MemoryHeap> {
        self.memory_heaps@
    }

    /// What [`Self::granularity`] returns.
    pub closed spec fn spec_granularity(&self) -> DeviceSize {
        self.granularity
    }

    /// Whether a buffer is bound to a block of one of the allocators: the
    /// block that it names is in use and holds, at the offset at which the
    /// buffer is bound, as many bytes as the device asks for the buffer; and
    /// the host address of the buffer, if it has one, is that of this offset
    /// in the mapping of the memory object.
    pub open spec fn bound(&self, buffer: Buffer) -> bool {
        &&& buffer.allocator_id() is Some
        &&& buffer.allocator_id().unwrap() < self.allocators().len()
        &&& buffer.block_id() is Some
        &&& buffer.offsets().len() > 0
        &&& backs(
            self.allocators()[buffer.allocator_id().unwrap() as int]@,
            buffer.block_id().unwrap(),
            buffer.offsets().last(),
            buffer.memory_requirements().size,
        )
        &&& buffer.data() is Some ==> Self::mapped_at(
            self.allocators()[buffer.allocator_id().unwrap() as int],
            buffer,
        )
    }

    /// Whether the host address of the buffer is that of its offset in the
    /// mapping of the memory object.
    pub open spec fn mapped_at(allocator: Allocator, buffer: Buffer) -> bool {
        &&& allocator.data() is Some
        &&& buffer.data().unwrap() == allocator.data().unwrap() + buffer.offsets().last()
    }

    /// Whether two buffers are bound to the same block.
    pub open spec fn share_block(first: Buffer, second: Buffer) -> bool {
        first.allocator_id() == second.allocator_id() && first.block_id() == second.block_id()
    }

    /// No two buffers are bound to the same block.
    pub open spec fn apart(&self) -> bool {
        forall|i: int, j: int|
            0 <= i < j < self.buffers().len() ==> !Self::share_block(
                #[trigger] self.buffers()[i],
                #[trigger] self.buffers()[j],
            )
    }

    /// The page size is not zero, no heap has more bytes free than it has,
    /// every allocator and every buffer is well formed, and every buffer is
    /// bound to a block of one of the allocators, each to one of its own.
    pub open spec fn wf(&self) -> bool {
        &&& self.granularity() > 0
        &&& heaps_sound(self.heaps())
        &&& forall|a: int|
            0 <= a < self.allocators().len() ==> (#[trigger] self.allocators()[a]).wf()
        &&& forall|b: int|
            0 <= b < self.buffers().len() ==> (#[trigger] self.buffers()[b]).wf() && self.bound(
                self.buffers()[b],
            )
        &&& self.apart()
    }

    /// A manager for a device with the given heaps, memory types and page
    /// size, with no allocator and no buffer yet.
    pub fn new(
        heap_sizes: &Vec<DeviceSize>,
        memory_types: &Vec<MemoryTypeInfo>,
        granularity: DeviceSize,
    ) -> (memory: Self)
        requires
            granularity > 0,
            memory_types.len() <= u32::MAX,
        ensures
            memory.wf(),
            memory.granularity() == granularity,
            memory.allocators().len() == 0,
            memory.buffers().len() == 0,
            memory.heaps().len() == heap_sizes.len(),
            forall|h: int|
                0 <= h < heap_sizes.len() ==> heap_as_reported(
                    #[trigger] memory.heaps()[h],
                    h,
                    heap_sizes@,
                    memory_types@,
                    memory_types.len() as int,
                ),
    {
        Self {
            memory_heaps: get_memory_heaps(heap_sizes, memory_types),
            allocators: Vec::new(),
            buffers: Vec::new(),
            granularity,
        }
    }

    /// The page size below which linear and tiled resources must not meet.
    #[verifier::when_used_as_spec(spec_granularity)]
    pub fn granularity(&self) -> (granularity: DeviceSize)
        ensures
            granularity == self.spec_granularity(),
    {
        self.granularity
    }

    /// The number of allocators.
    pub fn allocator_count(&self) -> (count: usize)
        ensures
            count == self.allocators().len(),
    {
        self.allocators.len()
    }

    /// The allocator at `index`.
    pub fn allocator(&self, index: usize) -> (allocator: &Allocator)
        requires
            index < self.allocators().len(),
        ensures
            *allocator == self.allocators()[index as int],
    {
        &self.allocators[index]
    }

    /// The number of buffers.
    pub fn buffer_count(&self) -> (count: usize)
        ensures
            count == self.buffers().len(),
    {
        self.buffers.len()
    }

    /// The buffer at `index`.
    pub fn buffer(&self, index: usize) -> (buffer: &Buffer)
        requires
            index < self.buffers().len(),
        ensures
            *buffer == self.buffers()[index as int],
    {
        &self.buffers[index]
    }

    /// The number of heaps.
    pub fn heap_count(&self) -> (count: usize)
        ensures
            count == self.heaps().len(),
    {
        self.memory_heaps.len()
    }

    /// The heap at `index`.
    pub fn heap(&self, index: usize) -> (heap: &MemoryHeap)
        requires
            index < self.heaps().len(),
        ensures
            *heap == self.heaps()[index as int],
    {
        &self.memory_heaps[index]
    }

    /// Plans a new allocator of `size` bytes with the property flags: sets
    /// the bytes aside in the first heap that serves and names the memory
    /// type to allocate from.  `alignment` has no part in the choice.
    pub fn create_allocator(
        &mut self,
        size: DeviceSize,
        memory_property_flags: MemoryPropertyFlags,
        alignment: DeviceSize,
    ) -> (plan: Result<AllocatorPlan, MemoryError>)
        requires
            old(self).wf(),
        ensures
            final(self).wf(),
            final(self).allocators() == old(self).allocators(),
            final(self).buffers() == old(self).buffers(),
            final(self).granularity() == old(self).granularity(),
            reserved(old(self).heaps(), final(self).heaps(), size, memory_property_flags),
            plan == (match chosen_type(old(self).heaps(), size, memory_property_flags) {
                Some(memory_type_index) => Ok(
                    AllocatorPlan {
                        size,
                        memory_flags: memory_property_flags,
                        memory_type_index,
                        map: includes(memory_property_flags, host_visible_bits()),
                    },
                ),
                None => Err(MemoryError::CapabilityExhausted),
            }),
    {
        let found = find_suitable_heap(&mut self.memory_heaps, size, memory_property_flags);
        assert(self.allocators() == old(self).allocators());
        assert(self.buffers() == old(self).buffers());
        match found {
            Some(memory_type_index) => Ok(
                AllocatorPlan {
                    size,
                    memory_flags: memory_property_flags,
                    memory_type_index,
                    map: memory_flags_contain(memory_property_flags, host_visible()),
                },
            ),
            None => Err(MemoryError::CapabilityExhausted),
        }
    }

    /// Takes in the memory object `handle` that the caller allocated after
    /// `plan`, mapped at the host address `address` if it is mapped, and
    /// returns the index of its allocator.
    pub fn add_allocator(
        &mut self,
        plan: AllocatorPlan,
        handle: u64,
        address: Option<usize>,
    ) -> (index: usize)
        requires
            old(self).wf(),
        ensures
            final(self).wf(),
            index == old(self).allocators().len(),
            final(self).allocators().len() == index + 1,
            final(self).allocators().drop_last() == old(self).allocators(),
            final(self).buffers() == old(self).buffers(),
            final(self).heaps() == old(self).heaps(),
            final(self).granularity() == old(self).granularity(),
            ({
                let allocator = final(self).allocators()[index as int];
                &&& allocator@ == seq![Block::vacant(0, 0, plan.size)]
                &&& allocator.handle() == handle
                &&& allocator.size() == plan.size
                &&& allocator.available() == plan.size
                &&& allocator.memory_flags() == plan.memory_flags
                &&& allocator.memory_type_index() == plan.memory_type_index
                &&& allocator.last_block_id() == 1
                &&& allocator.data() == (if address is Some && includes(
                    plan.memory_flags,
                    host_visible_bits(),
                ) && address.unwrap() + plan.size <= usize::MAX {
                    address
                } else {
                    None
                })
            }),
    {
        let mut allocator = Allocator::new(
            handle,
            plan.size,
            plan.memory_flags,
            plan.memory_type_index,
        );
        if let Some(first) = address {
            allocator.map_memory(first);
        }
        self.allocators.push(allocator);
        proof {
            assert(self.allocators().drop_last() =~= old(self).allocators());
            assert forall|a: int| 0 <= a < self.allocators().len() implies (
            #[trigger] self.allocators()[a]).wf() by {
                if a < old(self).allocators().len() {
                    assert(self.allocators()[a] == old(self).allocators()[a]);
                }
            }
            assert(self.buffers() == old(self).buffers());
            assert forall|b: int| 0 <= b < self.buffers().len() implies (
            #[trigger] self.buffers()[b]).wf() && self.bound(self.buffers()[b]) by {
                let buffer = old(self).buffers()[b];
                assert(old(self).bound(buffer));
                let owner = buffer.allocator_id().unwrap() as int;
                assert(self.allocators()[owner] == old(self).allocators()[owner]);
            }
        }
        self.allocators.len() - 1
    }

    /// The index of the first allocator that has the property flags, `size`
    /// bytes free and memory of a type that `memory_type_bits` allows.
    pub fn find_suitable_allocator(
        &self,
        memory_type: MemoryPropertyFlags,
        size: DeviceSize,
        memory_type_bits: u32,
    ) -> (found: Option<usize>)
        ensures
            found is Some == first_allocator(
                self.allocators(),
                memory_type,
                size,
                memory_type_bits,
            ) is Some,
            found is Some ==> found.unwrap() == first_allocator(
                self.allocators(),
                memory_type,
                size,
                memory_type_bits,
            ).unwrap() && found.unwrap() < self.allocators().len() && allocator_serves(
                self.allocators()[found.unwrap() as int],
                memory_type,
                size,
                memory_type_bits,
            ),
    {
        let mut index: usize = 0;
        while index < self.allocators.len()
            invariant
                0 <= index <= self.allocators.len(),
                first_allocator(self.allocators(), memory_type, size, memory_type_bits)
                    == first_allocator_from(
                    self.allocators(),
                    index as int,
                    memory_type,
                    size,
                    memory_type_bits,
                ),
            decreases self.allocators.len() - index,
        {
            let allocator = &self.allocators[index];
            if memory_flags_contain(allocator.memory_flags(), memory_type) && allocator.available()
                >= size && allows_type(memory_type_bits, allocator.memory_type_index()) {
                return Some(index);
            }
            index += 1;
        }
        None
    }

    /// The index of the first buffer with `size` bytes or more, the usage
    /// flags and the property flags.
    pub fn find_suitable_buffer(
        &self,
        size: DeviceSize,
        usage_flags: BufferUsageFlags,
        memory_flags: MemoryPropertyFlags,
    ) -> (found: Option<usize>)
        ensures
            found is Some == first_buffer(self.buffers(), size, usage_flags, memory_flags) is Some,
            found is Some ==> found.unwrap() == first_buffer(
                self.buffers(),
                size,
                usage_flags,
                memory_flags,
            ).unwrap() && found.unwrap() < self.buffers().len() && buffer_serves(
                self.buffers()[found.unwrap() as int],
                size,
                usage_flags,
                memory_flags,
            ),
    {
        let mut index: usize = 0;
        while index < self.buffers.len()
            invariant
                0 <= index <= self.buffers.len(),
                first_buffer(self.buffers(), size, usage_flags, memory_flags) == first_buffer_from(
                    self.buffers(),
                    index as int,
                    size,
                    usage_flags,
                    memory_flags,
                ),
            decreases self.buffers.len() - index,
        {
            if self.buffers[index].serves(size, usage_flags, memory_flags) {
                return Some(index);
            }
            index += 1;
        }
        None
    }
}

/// Whether `after` is the buffer `before` with nothing changed but its
/// regions.
pub open spec fn same_but_regions(before: Buffer, after: Buffer) -> bool {
    &&& after.handle() == before.handle()
    &&& after.offsets() == before.offsets()
    &&& after.allocator_id() == before.allocator_id()
    &&& after.block_id() == before.block_id()
    &&& after.size() == before.size()
    &&& after.memory_type() == before.memory_type()
    &&& after.memory_requirements() == before.memory_requirements()
    &&& after.buffer_usage() == before.buffer_usage()
    &&& after.data() == before.data()
}

/// Whether `after` is the allocator `before` with nothing changed but its
/// blocks.
pub open spec fn same_but_blocks(before: Allocator, after: Allocator) -> bool {
    &&& after.handle() == before.handle()
    &&& after.size() == before.size()
    &&& after.memory_flags() == before.memory_flags()
    &&& after.memory_type_index() == before.memory_type_index()
    &&& after.data() == before.data()
}

impl Memory {
    /// Whether a resource can be placed: an allocator serves, and the
    /// resource can be placed in it.
    pub open spec fn can_allocate(
        &self,
        memory_requirements: MemoryRequirements,
        allocation_type: AllocationType,
        memory_flags: MemoryPropertyFlags,
    ) -> bool {
        let chosen = first_allocator(
            self.allocators(),
            memory_flags,
            memory_requirements.size,
            memory_requirements.memory_type_bits,
        );
        &&& chosen is Some
        &&& can_place(
            self.allocators()[chosen.unwrap()]@,
            memory_requirements,
            allocation_type,
            self.granularity() as int,
            self.allocators()[chosen.unwrap()].last_block_id(),
        )
    }

    /// Where a resource is placed: in the first block that can take it of
    /// the first allocator that serves.
    pub open spec fn allocation(
        &self,
        memory_requirements: MemoryRequirements,
        allocation_type: AllocationType,
        memory_flags: MemoryPropertyFlags,
    ) -> Allocation {
        let chosen = first_allocator(
            self.allocators(),
            memory_flags,
            memory_requirements.size,
            memory_requirements.memory_type_bits,
        ).unwrap();
        let allocator = self.allocators()[chosen];
        let granularity = self.granularity() as int;
        let fit = first_fit(allocator@, memory_requirements, allocation_type, granularity).unwrap();
        let offset = start_at(allocator@, fit, memory_requirements, allocation_type, granularity);
        Allocation {
            address: match allocator.data() {
                Some(base) => Some((base + offset) as usize),
                None => None,
            },
            allocator_index: chosen as usize,
            block_id: allocator@[fit].id,
            offset: offset as u64,
        }
    }

    /// Whether `after` are the allocators of this manager with the resource
    /// placed: the first allocator that serves has the resource in its
    /// first block that can take it, and no other allocator has changed.
    pub open spec fn with_resource(
        &self,
        after: Seq<Allocator>,
        memory_requirements: MemoryRequirements,
        allocation_type: AllocationType,
        memory_flags: MemoryPropertyFlags,
    ) -> bool {
        let chosen = first_allocator(
            self.allocators(),
            memory_flags,
            memory_requirements.size,
            memory_requirements.memory_type_bits,
        ).unwrap();
        let allocator = self.allocators()[chosen];
        let granularity = self.granularity() as int;
        let fit = first_fit(allocator@, memory_requirements, allocation_type, granularity).unwrap();
        &&& 0 <= chosen < self.allocators().len()
        &&& 0 <= fit < allocator@.len()
        &&& after.len() == self.allocators().len()
        &&& forall|a: int|
            0 <= a < self.allocators().len() && a != chosen ==> #[trigger] after[a]
                == self.allocators()[a]
        &&& same_but_blocks(allocator, after[chosen])
        &&& after[chosen]@ == place(
            allocator@,
            fit,
            memory_requirements,
            allocation_type,
            granularity,
            allocator.last_block_id(),
        )
        &&& after[chosen].last_block_id() == allocator.last_block_id() + (if leaves_rest(
            allocator@,
            fit,
            memory_requirements,
            allocation_type,
            granularity,
        ) {
            1int
        } else {
            0int
        })
    }

    /// Whether `after` is this manager with the buffer at `index` taken out
    /// and its block given back to its allocator.
    pub open spec fn without_buffer(&self, after: Memory, index: int) -> bool {
        let buffer = self.buffers()[index];
        let owner = buffer.allocator_id().unwrap() as int;
        &&& after.buffers() == self.buffers().remove(index)
        &&& after.heaps() == self.heaps()
        &&& after.granularity() == self.granularity()
        &&& after.allocators().len() == self.allocators().len()
        &&& forall|a: int|
            0 <= a < self.allocators().len() && a != owner ==> #[trigger] after.allocators()[a]
                == self.allocators()[a]
        &&& same_but_blocks(self.allocators()[owner], after.allocators()[owner])
        &&& after.allocators()[owner].last_block_id() == self.allocators()[owner].last_block_id()
        &&& after.allocators()[owner]@ == coalesce(
            release(self.allocators()[owner]@, buffer.block_id().unwrap()),
        )
    }

    /// Where a resource can be placed, it is placed in a free block of one of
    /// the allocators.
    pub proof fn lemma_allocation(
        self,
        memory_requirements: MemoryRequirements,
        allocation_type: AllocationType,
        memory_flags: MemoryPropertyFlags,
    )
        requires
            self.wf(),
            self.can_allocate(memory_requirements, allocation_type, memory_flags),
        ensures
            ({
                let allocation = self.allocation(
                    memory_requirements,
                    allocation_type,
                    memory_flags,
                );
                let chosen = first_allocator(
                    self.allocators(),
                    memory_flags,
                    memory_requirements.size,
                    memory_requirements.memory_type_bits,
                );
                let allocator = self.allocators()[allocation.allocator_index as int];
                let fit = first_fit(
                    allocator@,
                    memory_requirements,
                    allocation_type,
                    self.granularity() as int,
                );
                &&& chosen is Some
                &&& allocation.allocator_index == chosen.unwrap()
                &&& allocation.allocator_index < self.allocators().len()
                &&& fit is Some
                &&& 0 <= fit.unwrap() < allocator@.len()
                &&& allocator@[fit.unwrap()].free()
                &&& allocation.block_id == allocator@[fit.unwrap()].id
                &&& fits_at(
                    allocator@,
                    fit.unwrap(),
                    memory_requirements,
                    allocation_type,
                    self.granularity() as int,
                )
            }),
    {
        let chosen = first_allocator(
            self.allocators(),
            memory_flags,
            memory_requirements.size,
            memory_requirements.memory_type_bits,
        ).unwrap();
        lemma_first_allocator_in_range(
            self.allocators(),
            0,
            memory_flags,
            memory_requirements.size,
            memory_requirements.memory_type_bits,
        );
        assert(self.allocators().len() == self.allocators.len());
        lemma_first_fit_is_a_fit(
            self.allocators()[chosen]@,
            0,
            memory_requirements,
            allocation_type,
            self.granularity() as int,
        );
    }

    /// Places a resource in the first allocator that has the property
    /// flags, room for the resource and memory of a type that the device
    /// allows for it.  Fails, with nothing changed, where no allocator serves
    /// or the one that does cannot place the resource.
    pub fn allocate_memory(
        &mut self,
        memory_requirements: MemoryRequirements,
        memory_type: MemoryPropertyFlags,
        allocation_type: AllocationType,
    ) -> (placed: Result<Allocation, MemoryError>)
        requires
            old(self).wf(),
            memory_requirements.alignment > 0,
            allocation_type != AllocationType::Free,
        ensures
            final(self).wf(),
            final(self).buffers() == old(self).buffers(),
            final(self).heaps() == old(self).heaps(),
            final(self).granularity() == old(self).granularity(),
            placed is Ok <==> old(self).can_allocate(
                memory_requirements,
                allocation_type,
                memory_type,
            ),
            match placed {
                Ok(allocation) => {
                    &&& allocation == old(self).allocation(
                        memory_requirements,
                        allocation_type,
                        memory_type,
                    )
                    &&& old(self).with_resource(
                        final(self).allocators(),
                        memory_requirements,
                        allocation_type,
                        memory_type,
                    )
                    &&& allocation.address is Some ==> {
                        let memory = old(self).allocators()[allocation.allocator_index as int];
                        &&& memory.data() is Some
                        &&& allocation.address.unwrap() == memory.data().unwrap()
                            + allocation.offset
                        &&& allocation.address.unwrap() + memory_requirements.size
                            <= memory.data().unwrap() + memory.size()
                    }
                },
                Err(error) => {
                    &&& error == MemoryError::AllocatorExhausted
                    &&& final(self).allocators() == old(self).allocators()
                },
            },
    {
        let found = self.find_suitable_allocator(
            memory_type,
            memory_requirements.size,
            memory_requirements.memory_type_bits,
        );
        let chosen = match found {
            Some(chosen) => chosen,
            None => { return Err(MemoryError::AllocatorExhausted); },
        };
        let granularity = self.granularity;
        let placed = self.allocators[chosen].allocate_memory(
            memory_requirements,
            allocation_type,
            granularity,
        );
        match placed {
            Err(error) => {
                proof {
                    assert(self.allocators() =~= old(self).allocators());
                }
                Err(error)
            },
            Ok((block_id, offset)) => {
                let allocator = &self.allocators[chosen];
                let address = match allocator.data() {
                    Some(base) => Some(base + offset as usize),
                    None => None,
                };
                proof {
                    let before = old(self).allocators()[chosen as int];
                    let granularity = granularity as int;
                    let fit = first_fit(
                        before@,
                        memory_requirements,
                        allocation_type,
                        granularity,
                    ).unwrap();
                    lemma_first_fit_is_a_fit(
                        before@,
                        0,
                        memory_requirements,
                        allocation_type,
                        granularity,
                    );
                    assert forall|a: int| 0 <= a < self.allocators().len() implies (
                    #[trigger] self.allocators()[a]).wf() by {
                        if a != chosen {
                            assert(self.allocators()[a] == old(self).allocators()[a]);
                        }
                    }
                    assert forall|b: int| 0 <= b < self.buffers().len() implies (
                    #[trigger] self.buffers()[b]).wf() && self.bound(self.buffers()[b]) by {
                        let earlier = old(self).buffers()[b];
                        assert(old(self).bound(earlier));
                        if earlier.allocator_id().unwrap() == chosen {
                            lemma_place_keeps_backing(
                                before@,
                                fit,
                                memory_requirements,
                                allocation_type,
                                granularity,
                                before.last_block_id(),
                                earlier.block_id().unwrap(),
                                earlier.offsets().last(),
                                earlier.memory_requirements().size,
                            );
                        } else {
                            assert(self.allocators()[earlier.allocator_id().unwrap() as int]
                                == old(self).allocators()[earlier.allocator_id().unwrap() as int]);
                        }
                    }
                }
                Ok(Allocation { address, allocator_index: chosen, block_id, offset })
            },
        }
    }

    /// Places the device buffer `handle` of `size` bytes, for which the
    /// device asks `memory_requirements`, in the first allocator that serves,
    /// and tells where to bind it.  Fails, with nothing changed, where no
    /// allocator serves or the one that does cannot place the resource.
    pub fn create_buffer(
        &mut self,
        handle: u64,
        memory_requirements: MemoryRequirements,
        size: DeviceSize,
        allocation_type: AllocationType,
        usage_flags: BufferUsageFlags,
        memory_flags: MemoryPropertyFlags,
    ) -> (binding: Result<BufferBinding, MemoryError>)
        requires
            old(self).wf(),
            memory_requirements.alignment > 0,
            allocation_type != AllocationType::Free,
        ensures
            final(self).wf(),
            final(self).heaps() == old(self).heaps(),
            final(self).granularity() == old(self).granularity(),
            binding is Ok <==> old(self).can_allocate(
                memory_requirements,
                allocation_type,
                memory_flags,
            ),
            match binding {
                Ok(binding) => {
                    let allocation = old(self).allocation(
                        memory_requirements,
                        allocation_type,
                        memory_flags,
                    );
                    let buffer = final(self).buffers().last();
                    &&& old(self).with_resource(
                        final(self).allocators(),
                        memory_requirements,
                        allocation_type,
                        memory_flags,
                    )
                    &&& binding.buffer_index == old(self).buffers().len()
                    &&& binding.memory
                        == old(self).allocators()[allocation.allocator_index as int].handle()
                    &&& binding.offset == allocation.offset
                    &&& final(self).buffers().len() == old(self).buffers().len() + 1
                    &&& final(self).buffers().drop_last() == old(self).buffers()
                    &&& buffer.handle() == handle
                    &&& buffer.size() == size
                    &&& buffer.buffer_usage() == usage_flags
                    &&& buffer.memory_requirements() == memory_requirements
                    &&& buffer.memory_type() == memory_flags
                    &&& buffer.allocator_id() == Some(allocation.allocator_index)
                    &&& buffer.block_id() == Some(allocation.block_id)
                    &&& buffer.offsets() == seq![allocation.offset]
                    &&& buffer@ == seq![SubMemory { offset: 0, size, is_free: true, id: 0 }]
                    &&& buffer.sub_memory_ids() == 1
                    &&& buffer.data() == (if allocation.address is Some
                        && allocation.address.unwrap() + size <= usize::MAX {
                        allocation.address
                    } else {
                        None
                    })
                },
                Err(error) => {
                    &&& error == MemoryError::AllocatorExhausted
                    &&& final(self).allocators() == old(self).allocators()
                    &&& final(self).buffers() == old(self).buffers()
                },
            },
    {
        let allocation = match self.allocate_memory(
            memory_requirements,
            memory_flags,
            allocation_type,
        ) {
            Ok(allocation) => allocation,
            Err(error) => { return Err(error); },
        };
        let ghost placed = *self;
        let memory = self.allocators[allocation.allocator_index].handle();
        let mut buffer = Buffer::new(handle, size, usage_flags, memory_requirements, memory_flags);
        buffer.bind(
            allocation.allocator_index,
            allocation.block_id,
            allocation.offset,
            allocation.address,
        );
        self.buffers.push(buffer);
        proof {
            old(self).lemma_allocation(memory_requirements, allocation_type, memory_flags);
            let chosen = allocation.allocator_index as int;
            let before = old(self).allocators()[chosen];
            let granularity = old(self).granularity() as int;
            let fit = first_fit(
                before@,
                memory_requirements,
                allocation_type,
                granularity,
            ).unwrap();
            assert(self.allocators() == placed.allocators());
            assert(self.buffers().drop_last() =~= old(self).buffers());
            assert(buffer.offsets() =~= seq![allocation.offset]);
            lemma_place_backs_resource(
                before@,
                fit,
                memory_requirements,
                allocation_type,
                granularity,
                before.size() as int,
                before.last_block_id(),
            );
            assert(allocation == old(self).allocation(
                memory_requirements,
                allocation_type,
                memory_flags,
            ));
            assert(old(self).with_resource(
                self.allocators(),
                memory_requirements,
                allocation_type,
                memory_flags,
            ));
            assert(self.allocators()[chosen].data() == before.data());
            assert forall|b: int| 0 <= b < self.buffers().len() implies (
            #[trigger] self.buffers()[b]).wf() && self.bound(self.buffers()[b]) by {
                if b < old(self).buffers().len() {
                    assert(self.buffers()[b] == placed.buffers()[b]);
                    assert(placed.bound(placed.buffers()[b]));
                } else {
                    assert(self.buffers()[b] == buffer);
                }
            }
            assert forall|i: int, j: int|
                0 <= i < j < self.buffers().len() implies !Self::share_block(
                #[trigger] self.buffers()[i],
                #[trigger] self.buffers()[j],
            ) by {
                assert(self.buffers()[i] == old(self).buffers()[i]);
                if j < old(self).buffers().len() {
                    assert(self.buffers()[j] == old(self).buffers()[j]);
                } else {
                    let earlier = old(self).buffers()[i];
                    assert(old(self).bound(earlier));
                    if earlier.allocator_id().unwrap() == chosen {
                        let k = choose|k: int|
                            0 <= k < before@.len() && is_backing(
                                #[trigger] before@[k],
                                earlier.block_id().unwrap(),
                                earlier.offsets().last(),
                                earlier.memory_requirements().size,
                            );
                        assert(before@[k].id != before@[fit].id);
                    }
                }
            }
        }
        Ok(
            BufferBinding {
                buffer_index: self.buffers.len() - 1,
                memory,
                offset: allocation.offset,
            },
        )
    }

    /// Takes the buffer at `buffer_index` out of the manager, gives its
    /// block back to its allocator, and returns the device's name for the
    /// buffer, which the caller is to destroy.  The buffers behind it move
    /// up by one.
    pub fn free_buffer(&mut self, buffer_index: usize) -> (handle: u64)
        requires
            old(self).wf(),
            buffer_index < old(self).buffers().len(),
        ensures
            final(self).wf(),
            old(self).without_buffer(*final(self), buffer_index as int),
            handle == old(self).buffers()[buffer_index as int].handle(),
    {
        let buffer = &self.buffers[buffer_index];
        proof {
            assert(self.bound(self.buffers()[buffer_index as int]));
        }
        let owner = buffer.allocator_id().unwrap();
        let block_id = buffer.block_id().unwrap();
        let handle = buffer.handle();
        self.allocators[owner].free_memory(block_id);
        self.buffers.remove(buffer_index);
        proof {
            assert forall|a: int| 0 <= a < self.allocators().len() implies (
            #[trigger] self.allocators()[a]).wf() by {
                if a != owner {
                    assert(self.allocators()[a] == old(self).allocators()[a]);
                }
            }
            let gone = old(self).buffers()[buffer_index as int];
            assert forall|b: int| 0 <= b < self.buffers().len() implies (
            #[trigger] self.buffers()[b]).wf() && self.bound(self.buffers()[b]) by {
                let earlier = if b < buffer_index { b } else { b + 1 };
                let kept = old(self).buffers()[earlier];
                assert(self.buffers()[b] == kept);
                assert(old(self).bound(kept));
                if kept.allocator_id().unwrap() == owner {
                    if earlier < buffer_index {
                        assert(!Self::share_block(kept, gone));
                    } else {
                        assert(!Self::share_block(gone, kept));
                    }
                    lemma_release_keeps_backing(
                        old(self).allocators()[owner as int]@,
                        block_id,
                        kept.block_id().unwrap(),
                        kept.offsets().last(),
                        kept.memory_requirements().size,
                    );
                } else {
                    let other = kept.allocator_id().unwrap() as int;
                    assert(self.allocators()[other] == old(self).allocators()[other]);
                }
            }
            assert forall|i: int, j: int|
                0 <= i < j < self.buffers().len() implies !Self::share_block(
                #[trigger] self.buffers()[i],
                #[trigger] self.buffers()[j],
            ) by {
                let earlier_i = if i < buffer_index { i } else { i + 1 };
                let earlier_j = if j < buffer_index { j } else { j + 1 };
                assert(self.buffers()[i] == old(self).buffers()[earlier_i]);
                assert(self.buffers()[j] == old(self).buffers()[earlier_j]);
                assert(!Self::share_block(
                    old(self).buffers()[earlier_i],
                    old(self).buffers()[earlier_j],
                ));
            }
        }
        handle
    }

    /// Takes note of whether the device bound the buffer at `buffer_index`
    /// where it was placed.  Where it did not, the buffer is taken out of the
    /// manager as by [`Memory::free_buffer`] and the failure is reported.
    pub fn confirm_binding(
        &mut self,
        buffer_index: usize,
        bound: bool,
    ) -> (confirmed: Result<usize, MemoryError>)
        requires
            old(self).wf(),
            buffer_index < old(self).buffers().len(),
        ensures
            final(self).wf(),
            confirmed == (if bound {
                Ok::<usize, MemoryError>(buffer_index)
            } else {
                Err(MemoryError::BindingFailure)
            }),
            bound ==> *final(self) == *old(self),
            !bound ==> old(self).without_buffer(*final(self), buffer_index as int),
    {
        if bound {
            Ok(buffer_index)
        } else {
            self.free_buffer(buffer_index);
            Err(MemoryError::BindingFailure)
        }
    }

    /// What a copy of `size` bytes to the offset `offset` of the buffer at
    /// `buffer_index` comes to.
    ///
    /// To a buffer that the host can see the bytes are written directly.  To
    /// any other buffer they go through a region of a staging buffer, which
    /// takes a transfer to record the device copy in: without one the copy
    /// is refused.
    pub open spec fn copy_outcome(
        &self,
        has_transfer: bool,
        buffer_index: int,
        offset: DeviceSize,
        size: DeviceSize,
    ) -> Result<CopyPlan, MemoryError> {
        let target = self.buffers()[buffer_index];
        if target.host_visible() {
            match target.data() {
                Some(base) => Ok(CopyPlan::Direct { address: (base + offset) as usize }),
                None => Ok(CopyPlan::Unmapped),
            }
        } else if !has_transfer {
            Err(MemoryError::InvalidTransferUsage)
        } else {
            match staging_for(self.buffers(), size) {
                None => Err(MemoryError::SubAllocationExhausted),
                Some(chosen) => {
                    let staging = self.buffers()[chosen];
                    match staging.data() {
                        None => Ok(CopyPlan::Unmapped),
                        Some(base) => if can_carve(staging@, size, staging.sub_memory_ids()) {
                            let region = SubMemory {
                                size,
                                is_free: false,
                                ..staging@[first_region(staging@, size).unwrap()]
                            };
                            Ok(
                                CopyPlan::Staged {
                                    staging_buffer: chosen as usize,
                                    region,
                                    address: (base + region.offset) as usize,
                                    source: staging.handle(),
                                    destination: target.handle(),
                                    dst_offset: offset,
                                },
                            )
                        } else {
                            Err(MemoryError::SubAllocationExhausted)
                        },
                    }
                },
            }
        }
    }

    /// Plans a copy of `size` bytes from the host to the offset `offset` of
    /// the buffer at `buffer_index`; `has_transfer` tells whether a transfer
    /// is being recorded that a device copy can go into.  Only a staged copy
    /// changes anything: it hands out a region of the staging buffer.
    pub fn copy_memory(
        &mut self,
        has_transfer: bool,
        buffer_index: usize,
        offset: DeviceSize,
        size: DeviceSize,
    ) -> (plan: Result<CopyPlan, MemoryError>)
        requires
            old(self).wf(),
            buffer_index < old(self).buffers().len(),
            offset + size <= old(self).buffers()[buffer_index as int].size(),
        ensures
            final(self).wf(),
            plan == old(self).copy_outcome(has_transfer, buffer_index as int, offset, size),
            final(self).allocators() == old(self).allocators(),
            final(self).heaps() == old(self).heaps(),
            final(self).granularity() == old(self).granularity(),
            match plan {
                Ok(CopyPlan::Staged { staging_buffer, region, address, .. }) => {
                    let staging = old(self).buffers()[staging_buffer as int];
                    &&& staging_buffer < old(self).buffers().len()
                    &&& staging_buffer != buffer_index
                    &&& final(self).buffers().len() == old(self).buffers().len()
                    &&& forall|b: int|
                        0 <= b < old(self).buffers().len() && b != staging_buffer
                            ==> #[trigger] final(self).buffers()[b] == old(self).buffers()[b]
                    &&& same_but_regions(staging, final(self).buffers()[staging_buffer as int])
                    &&& final(self).buffers()[staging_buffer as int]@ == carve(
                        staging@,
                        first_region(staging@, size).unwrap(),
                        size,
                        staging.sub_memory_ids(),
                    )
                    &&& final(self).buffers()[staging_buffer as int].sub_memory_ids()
                        == staging.sub_memory_ids() + (if staging@[first_region(
                        staging@,
                        size,
                    ).unwrap()].size > size {
                        1int
                    } else {
                        0int
                    })
                    &&& region.end() <= staging.size()
                    &&& address + size <= usize::MAX
                },
                _ => final(self).buffers() == old(self).buffers(),
            },
            plan matches Ok(CopyPlan::Direct { address }) ==> address + size <= usize::MAX,
    {
        let target = &self.buffers[buffer_index];
        let destination = target.handle();
        if target.is_host_visible() {
            return match target.data() {
                Some(base) => Ok(CopyPlan::Direct { address: base + offset as usize }),
                None => Ok(CopyPlan::Unmapped),
            };
        }
        if !has_transfer {
            return Err(MemoryError::InvalidTransferUsage);
        }
        let chosen = match self.find_suitable_buffer(size, transfer_src(), host_visible()) {
            Some(chosen) => chosen,
            None => { return Err(MemoryError::SubAllocationExhausted); },
        };
        let base = match self.buffers[chosen].data() {
            Some(base) => base,
            None => { return Ok(CopyPlan::Unmapped); },
        };
        let source = self.buffers[chosen].handle();
        match self.buffers[chosen].allocate_sub_memory(size) {
            Some(region) => {
                proof {
                    assert forall|b: int| 0 <= b < self.buffers().len() implies (
                    #[trigger] self.buffers()[b]).wf() && self.bound(self.buffers()[b]) by {
                        assert(old(self).bound(old(self).buffers()[b]));
                        if b != chosen {
                            assert(self.buffers()[b] == old(self).buffers()[b]);
                        }
                    }
                }
                Ok(
                    CopyPlan::Staged {
                        staging_buffer: chosen,
                        region,
                        address: base + region.offset as usize,
                        source,
                        destination,
                        dst_offset: offset,
                    },
                )
            },
            None => {
                proof {
                    assert(self.buffers() =~= old(self).buffers());
                }
                Err(MemoryError::SubAllocationExhausted)
            },
        }
    }

    /// Gives the region named `region_id` of the buffer at `staging_buffer`
    /// back, once the device copy out of it is recorded.
    pub fn release_staging(&mut self, staging_buffer: usize, region_id: usize)
        requires
            old(self).wf(),
            staging_buffer < old(self).buffers().len(),
        ensures
            final(self).wf(),
            final(self).allocators() == old(self).allocators(),
            final(self).heaps() == old(self).heaps(),
            final(self).granularity() == old(self).granularity(),
            final(self).buffers().len() == old(self).buffers().len(),
            forall|b: int|
                0 <= b < old(self).buffers().len() && b != staging_buffer
                    ==> #[trigger] final(self).buffers()[b] == old(self).buffers()[b],
            same_but_regions(
                old(self).buffers()[staging_buffer as int],
                final(self).buffers()[staging_buffer as int],
            ),
            final(self).buffers()[staging_buffer as int]@ == join_free(
                give_back(old(self).buffers()[staging_buffer as int]@, region_id),
            ),
            final(self).buffers()[staging_buffer as int].sub_memory_ids()
                == old(self).buffers()[staging_buffer as int].sub_memory_ids(),
    {
        self.buffers[staging_buffer].free_sub_memory(region_id);
        proof {
            assert forall|b: int| 0 <= b < self.buffers().len() implies (
            #[trigger] self.buffers()[b]).wf() && self.bound(self.buffers()[b]) by {
                assert(old(self).bound(old(self).buffers()[b]));
                if b != staging_buffer {
                    assert(self.buffers()[b] == old(self).buffers()[b]);
                }
            }
        }
    }
}

impl Memory {
    /// No two buffers overlap in device memory: two buffers bound to the
    /// same memory object take up ranges of it that do not overlap, and both
    /// ranges lie inside the object.
    pub proof fn lemma_buffers_disjoint(self, first: int, second: int)
        requires
            self.wf(),
            0 <= first < self.buffers().len(),
            0 <= second < self.buffers().len(),
            first != second,
            self.buffers()[first].allocator_id() == self.buffers()[second].allocator_id(),
        ensures
            ({
                let one = self.buffers()[first];
                let other = self.buffers()[second];
                let memory = self.allocators()[one.allocator_id().unwrap() as int];
                let one_end = one.offsets().last() + one.memory_requirements().size;
                let other_end = other.offsets().last() + other.memory_requirements().size;
                &&& one_end <= other.offsets().last() || other_end <= one.offsets().last()
                &&& one_end <= memory.size()
                &&& other_end <= memory.size()
            }),
    {
        let one = self.buffers()[first];
        let other = self.buffers()[second];
        assert(self.bound(one) && self.bound(other));
        let memory = self.allocators()[one.allocator_id().unwrap() as int];
        assert(memory.wf());
        if first < second {
            assert(!Self::share_block(one, other));
        } else {
            assert(!Self::share_block(other, one));
        }
        lemma_backed_apart(
            memory@,
            memory.size() as int,
            one.block_id().unwrap(),
            one.offsets().last(),
            one.memory_requirements().size,
            other.block_id().unwrap(),
            other.offsets().last(),
            other.memory_requirements().size,
        );
    }
}

impl Memory {
    /// The bytes of a mapped buffer lie in the mapping of its memory object:
    /// a write of `size` bytes at the offset `offset` of the buffer, which the
    /// memory behind the buffer has room for, starts and ends inside the
    /// mapping.
    pub proof fn lemma_write_in_mapping(
        self,
        buffer_index: int,
        offset: DeviceSize,
        size: DeviceSize,
    )
        requires
            self.wf(),
            0 <= buffer_index < self.buffers().len(),
            self.buffers()[buffer_index].data() is Some,
            offset + size <= self.buffers()[buffer_index].memory_requirements().size,
        ensures
            ({
                let buffer = self.buffers()[buffer_index];
                let memory = self.allocators()[buffer.allocator_id().unwrap() as int];
                let address = buffer.data().unwrap() + offset;
                &&& memory.data() is Some
                &&& memory.data().unwrap() <= address
                &&& address + size <= memory.data().unwrap() + memory.size()
                &&& memory.data().unwrap() + memory.size() <= usize::MAX
            }),
    {
        let buffer = self.buffers()[buffer_index];
        assert(self.bound(buffer));
        let memory = self.allocators()[buffer.allocator_id().unwrap() as int];
        assert(memory.wf());
        lemma_backed_inside(
            memory@,
            memory.size() as int,
            buffer.block_id().unwrap(),
            buffer.offsets().last(),
            buffer.memory_requirements().size,
        );
    }
}

} // verus!

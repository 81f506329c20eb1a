//! Placement of resources inside one device memory object.
//!
//! An [`Allocator`] stands for one memory object and keeps a list of
//! [`Block`]s that covers it from the first byte to the last.  A request is
//! placed in the first free block that can take it, with padding where the
//! alignment or the page granularity asks for it; a released block becomes
//! free again and is joined with its free neighbours.
//!
//! What the operations do to the blocks is said over sequences of blocks in
//! [`super::blocks`]; the proofs that they keep the blocks in order are in
//! [`super::block_proofs`].

use super::block_proofs::{
    joined_at, lemma_block_ends, lemma_coalesce_free_total, lemma_coalesce_settled,
    lemma_first_fit_from, lemma_first_fit_is_a_fit, lemma_free_and_used, lemma_free_total_bounded,
    lemma_free_total_single, lemma_join_free_total, lemma_join_names, lemma_join_partitions,
    lemma_mark_keeps_blocks, lemma_partition_covers, lemma_partition_disjoint, lemma_pass_join,
    lemma_pass_keep, lemma_place_keeps_apart, lemma_place_keeps_blocks, lemma_place_then_release,
    lemma_release_contiguous, lemma_span_within_block, lemma_start_is_aligned,
};
use super::blocks::{
    after_of, aligned_start, all_coherent, before_of, can_place, coalesce, distinct_ids, first_fit,
    fits, fits_at, free_total, leaves_rest, partitions, place, release, separated, settled, span_at,
    start_at, tail_padding, used_total,
};
use super::error::MemoryError;
use super::flags::{host_visible, host_visible_bits, includes, memory_flags_contain};
use super::granularity::{checked_aling, has_granularity_conflict, is_on_same_page, lemma_round_up};
use super::{AllocationType, DeviceSize, MemoryRequirements};
use crate::utils::list::{Link, List};
use vstd::prelude::*;

verus! {

/// One contiguous region of a memory object.
#[derive(PartialEq, Eq, Structural, Debug, Clone, Copy)]
pub struct Block {
    /// Where the region starts.
    pub offset: DeviceSize,
    /// The bytes of the region, padding included.
    pub size: DeviceSize,
    /// The bytes of the resource in the region.
    pub buffer_size: DeviceSize,
    /// The bytes left unused before the resource.
    pub left_padding: DeviceSize,
    /// The bytes left unused behind the resource.
    pub right_padding: DeviceSize,
    /// What the region holds; `Free` where it holds nothing.
    pub allocation_type: AllocationType,
    /// The name of the block within its allocator.
    pub id: usize,
}

impl Block {
    /// A block with the given fields.
    pub fn new(
        id: usize,
        offset: DeviceSize,
        size: DeviceSize,
        buffer_size: DeviceSize,
        allocation_type: AllocationType,
        left_padding: DeviceSize,
        right_padding: DeviceSize,
    ) -> (block: Self)
        ensures
            block == (Block {
                offset,
                size,
                buffer_size,
                left_padding,
                right_padding,
                allocation_type,
                id,
            }),
    {
        Self { offset, size, buffer_size, allocation_type, right_padding, left_padding, id }
    }

    /// Whether the block holds nothing.
    pub open spec fn free(&self) -> bool {
        self.allocation_type == AllocationType::Free
    }

    /// Tells whether the block holds nothing.
    #[verifier::when_used_as_spec(free)]
    pub fn is_free(&self) -> (free: bool)
        ensures
            free == self.free(),
    {
        self.allocation_type == AllocationType::Free
    }

    /// The first offset behind the block.
    pub open spec fn end(&self) -> int {
        self.offset + self.size
    }

    /// Whether the byte at `address` lies in the block.
    pub open spec fn holds(&self, address: int) -> bool {
        self.offset <= address < self.end()
    }

    /// Where the resource in the block starts.
    pub open spec fn payload_start(&self) -> int {
        self.offset + self.left_padding
    }

    /// The first offset behind the resource in the block.
    pub open spec fn payload_end(&self) -> int {
        self.offset + self.left_padding + self.buffer_size
    }

    /// The span of a used block is its resource and its padding; a free block
    /// has neither.
    pub open spec fn coherent(&self) -> bool {
        &&& !self.free() ==> self.size == self.left_padding + self.buffer_size
            + self.right_padding
        &&& self.free() ==> self.buffer_size == 0 && self.left_padding == 0 && self.right_padding
            == 0
    }

    /// The free block named `id` that covers `size` bytes from `offset` on.
    pub open spec fn vacant(id: usize, offset: DeviceSize, size: DeviceSize) -> Block {
        Block {
            offset,
            size,
            buffer_size: 0,
            left_padding: 0,
            right_padding: 0,
            allocation_type: AllocationType::Free,
            id,
        }
    }
}

/// Where a resource goes inside a block.
#[derive(PartialEq, Eq, Structural, Debug, Clone, Copy)]
pub struct Placement {
    /// Where the resource starts.
    pub aligned_offset: DeviceSize,
    /// The bytes between the start of the block and the resource.
    pub left_padding: DeviceSize,
    /// The bytes kept unused behind the resource.
    pub right_padding: DeviceSize,
}

/// Decides whether `block` can take a resource and, if so, where in it the
/// resource goes.  `before` and `after` are the neighbours of the block in
/// its memory object.
pub fn placement(
    block: &Block,
    before: Option<Block>,
    after: Option<Block>,
    requirements: MemoryRequirements,
    allocation_type: AllocationType,
    granularity: DeviceSize,
) -> (place: Option<Placement>)
    requires
        requirements.alignment > 0,
        granularity > 0,
        block.end() <= u64::MAX,
    ensures
        place is Some <==> fits(
            *block,
            before,
            after,
            requirements,
            allocation_type,
            granularity as int,
        ),
        place is Some ==> {
            let start = aligned_start(
                block.offset as int,
                before,
                requirements,
                allocation_type,
                granularity as int,
            );
            &&& place.unwrap().aligned_offset == start
            &&& place.unwrap().left_padding == start - block.offset
            &&& place.unwrap().right_padding == tail_padding(
                start,
                after,
                requirements,
                allocation_type,
                granularity as int,
            )
        },
{
    proof {
        lemma_round_up(block.offset as int, requirements.alignment as int);
    }
    if !block.is_free() {
        return None;
    }
    let aligned = match checked_aling(block.offset, requirements.alignment) {
        Some(aligned) => aligned,
        None => { return None; },
    };
    let left_padding = aligned - block.offset;
    if block.size < left_padding || block.size - left_padding < requirements.size {
        return None;
    }
    let mut aligned_offset = aligned;
    if let Some(previous) = before {
        if is_on_same_page(previous.offset, previous.size, aligned, granularity)
            && has_granularity_conflict(previous.allocation_type, allocation_type) {
            proof {
                lemma_round_up(aligned as int, granularity as int);
            }
            aligned_offset = match checked_aling(aligned, granularity) {
                Some(bumped) => bumped,
                None => { return None; },
            };
        }
    }
    let left_padding = aligned_offset - block.offset;
    let mut right_padding: DeviceSize = 0;
    if let Some(next) = after {
        if is_on_same_page(aligned_offset, requirements.size, next.offset, granularity)
            && has_granularity_conflict(allocation_type, next.allocation_type) {
            right_padding = granularity;
        }
    }
    if block.size < left_padding || block.size - left_padding < requirements.size || block.size
        - left_padding - requirements.size < right_padding {
        return None;
    }
    Some(Placement { aligned_offset, left_padding, right_padding })
}

/// One device memory object and the blocks it is divided into.
pub struct Allocator {
    handle: u64,
    size: DeviceSize,
    free_memory: DeviceSize,
    memory_type_index: u32,
    memory_flags: u32,
    list: List<Block>,
    last_block_id: usize,
    data: Option<usize>,
}

impl View for Allocator {
    type V = Seq<Block>;

    /// The blocks in the order of their offsets.
    closed spec fn view(&self) -> Seq<Block> {
        self.list@
    }
}

impl Allocator {
    /// The links of the block list are sound.
    pub closed spec fn linked(&self) -> bool {
        self.list.wf()
    }

    /// What [`Self::handle`] returns.
    pub closed spec fn spec_handle(&self) -> u64 {
        self.handle
    }

    /// What [`Self::size`] returns.
    pub closed spec fn spec_size(&self) -> DeviceSize {
        self.size
    }

    /// What [`Self::available`] returns.
    pub closed spec fn spec_available(&self) -> DeviceSize {
        self.free_memory
    }

    /// What [`Self::memory_type_index`] returns.
    pub closed spec fn spec_memory_type_index(&self) -> u32 {
        self.memory_type_index
    }

    /// What [`Self::memory_flags`] returns.
    pub closed spec fn spec_memory_flags(&self) -> u32 {
        self.memory_flags
    }

    /// What [`Self::last_block_id`] returns.
    pub closed spec fn spec_last_block_id(&self) -> usize {
        self.last_block_id
    }

    /// What [`Self::data`] returns.
    pub closed spec fn spec_data(&self) -> Option<usize> {
        self.data
    }

    /// The blocks cover the memory object without gap or overlap, no two
    /// free blocks are neighbours, the names of the blocks are distinct and
    /// below the next name to be given, the count of free bytes is the sum of
    /// the free blocks, and a mapping of the object lies inside the address
    /// space.
    pub open spec fn wf(&self) -> bool {
        &&& self.linked()
        &&& partitions(self@, self.size() as int)
        &&& all_coherent(self@)
        &&& settled(self@)
        &&& distinct_ids(self@, self.last_block_id())
        &&& self.available() == free_total(self@)
        &&& self.data() is Some ==> self.data().unwrap() + self.size() <= usize::MAX
    }

    /// An allocator for the memory object `handle` of `allocation_size`
    /// bytes, all of them free.
    pub fn new(
        handle: u64,
        allocation_size: DeviceSize,
        memory_flags: u32,
        memory_type_index: u32,
    ) -> (allocator: Self)
        ensures
            allocator.wf(),
            allocator@ == seq![Block::vacant(0, 0, allocation_size)],
            allocator.handle() == handle,
            allocator.size() == allocation_size,
            allocator.available() == allocation_size,
            allocator.memory_flags() == memory_flags,
            allocator.memory_type_index() == memory_type_index,
            allocator.last_block_id() == 1,
            allocator.data() is None,
    {
        let allocator = Self {
            handle,
            size: allocation_size,
            memory_type_index,
            memory_flags,
            free_memory: allocation_size,
            last_block_id: 1,
            list: List::new(Block::new(0, 0, allocation_size, 0, AllocationType::Free, 0, 0)),
            data: None,
        };
        proof {
            assert(allocator@.drop_last() =~= Seq::<Block>::empty());
            reveal_with_fuel(free_total, 2);
        }
        allocator
    }

    /// The device's name for the memory object.
    #[verifier::when_used_as_spec(spec_handle)]
    pub fn handle(&self) -> (handle: u64)
        ensures
            handle == self.spec_handle(),
    {
        self.handle
    }

    /// The bytes of the memory object.
    #[verifier::when_used_as_spec(spec_size)]
    pub fn size(&self) -> (size: DeviceSize)
        ensures
            size == self.spec_size(),
    {
        self.size
    }

    /// The bytes of the free blocks.
    #[verifier::when_used_as_spec(spec_available)]
    pub fn available(&self) -> (free: DeviceSize)
        ensures
            free == self.spec_available(),
    {
        self.free_memory
    }

    /// The index of the memory type that the object was taken from.
    #[verifier::when_used_as_spec(spec_memory_type_index)]
    pub fn memory_type_index(&self) -> (index: u32)
        ensures
            index == self.spec_memory_type_index(),
    {
        self.memory_type_index
    }

    /// The property flags that the object was asked for with.
    #[verifier::when_used_as_spec(spec_memory_flags)]
    pub fn memory_flags(&self) -> (flags: u32)
        ensures
            flags == self.spec_memory_flags(),
    {
        self.memory_flags
    }

    /// The name that the next new block gets.
    #[verifier::when_used_as_spec(spec_last_block_id)]
    pub fn last_block_id(&self) -> (id: usize)
        ensures
            id == self.spec_last_block_id(),
    {
        self.last_block_id
    }

    /// The host address at which the object is mapped, if it is.
    #[verifier::when_used_as_spec(spec_data)]
    pub fn data(&self) -> (address: Option<usize>)
        ensures
            address == self.spec_data(),
    {
        self.data
    }

    /// Whether the host can map the memory object.
    pub open spec fn host_visible(&self) -> bool {
        includes(self.memory_flags(), host_visible_bits())
    }

    /// Tells whether the host can map the memory object.
    #[verifier::when_used_as_spec(host_visible)]
    pub fn is_host_visible(&self) -> (visible: bool)
        ensures
            visible == self.host_visible(),
    {
        memory_flags_contain(self.memory_flags, host_visible())
    }

    /// Records that the memory object is mapped at the host address
    /// `address`.  Nothing is recorded for memory that the host cannot see,
    /// nor for a mapping that would reach beyond the address space.
    pub fn map_memory(&mut self, address: usize) -> (mapped: bool)
        requires
            old(self).wf(),
        ensures
            final(self).wf(),
            mapped == (old(self).host_visible() && address + old(self).size() <= usize::MAX),
            final(self).data() == (if mapped {
                Some(address)
            } else {
                old(self).data()
            }),
            final(self)@ == old(self)@,
            final(self).handle() == old(self).handle(),
            final(self).size() == old(self).size(),
            final(self).available() == old(self).available(),
            final(self).memory_flags() == old(self).memory_flags(),
            final(self).memory_type_index() == old(self).memory_type_index(),
            final(self).last_block_id() == old(self).last_block_id(),
    {
        if self.is_host_visible() && (address as u128) + (self.size as u128) <= (
        usize::MAX as u128) {
            self.data = Some(address);
            true
        } else {
            false
        }
    }

    /// The blocks in the order of their offsets.
    pub fn blocks(&self) -> (blocks: Vec<Block>)
        requires
            self.wf(),
        ensures
            blocks@ == self@,
    {
        let mut blocks: Vec<Block> = Vec::new();
        let mut walk = self.list.iter();
        loop
            invariant
                walk.wf(),
                blocks@ + walk.remaining() == self@,
            ensures
                blocks@ == self@,
            decreases walk.remaining().len(),
        {
            match walk.next() {
                Some(node) => {
                    blocks.push(node.data);
                },
                None => {
                    break ;
                },
            }
        }
        blocks
    }

    /// Places a resource in the first block that can take it and returns the
    /// name of that block and the offset at which the resource starts.
    ///
    /// What is left of the block becomes a free block of its own, which needs
    /// a new name; the call fails as well where the names have run out.  The
    /// offset is a multiple of the alignment wherever the page size and the
    /// alignment are multiples of one another, as powers of two are.
    pub fn allocate_memory(
        &mut self,
        memory_requirements: MemoryRequirements,
        allocation_type: AllocationType,
        granularity: DeviceSize,
    ) -> (placed: Result<(usize, DeviceSize), MemoryError>)
        requires
            old(self).wf(),
            memory_requirements.alignment > 0,
            granularity > 0,
            allocation_type != AllocationType::Free,
        ensures
            final(self).wf(),
            final(self).handle() == old(self).handle(),
            final(self).size() == old(self).size(),
            final(self).memory_flags() == old(self).memory_flags(),
            final(self).memory_type_index() == old(self).memory_type_index(),
            final(self).data() == old(self).data(),
            separated(old(self)@, granularity as int) ==> separated(
                final(self)@,
                granularity as int,
            ),
            placed is Ok <==> can_place(
                old(self)@,
                memory_requirements,
                allocation_type,
                granularity as int,
                old(self).last_block_id(),
            ),
            match placed {
                Ok((id, offset)) => {
                    let fit = first_fit(
                        old(self)@,
                        memory_requirements,
                        allocation_type,
                        granularity as int,
                    );
                    &&& 0 <= fit.unwrap() < old(self)@.len()
                    &&& final(self)@ == place(
                        old(self)@,
                        fit.unwrap(),
                        memory_requirements,
                        allocation_type,
                        granularity as int,
                        old(self).last_block_id(),
                    )
                    &&& id == old(self)@[fit.unwrap()].id
                    &&& offset == start_at(
                        old(self)@,
                        fit.unwrap(),
                        memory_requirements,
                        allocation_type,
                        granularity as int,
                    )
                    &&& final(self).last_block_id() == old(self).last_block_id() + (if leaves_rest(
                        old(self)@,
                        fit.unwrap(),
                        memory_requirements,
                        allocation_type,
                        granularity as int,
                    ) {
                        1int
                    } else {
                        0int
                    })
                    &&& final(self).available() == old(self).available() - span_at(
                        old(self)@,
                        fit.unwrap(),
                        memory_requirements,
                        allocation_type,
                        granularity as int,
                    )
                    &&& offset + memory_requirements.size <= old(self).size()
                    &&& granularity % memory_requirements.alignment == 0
                        || memory_requirements.alignment % granularity == 0 ==> offset
                        % memory_requirements.alignment == 0
                },
                Err(error) => {
                    &&& error == MemoryError::AllocatorExhausted
                    &&& *final(self) == *old(self)
                },
            },
    {
        let mut before: Option<Block> = None;
        let mut cursor: Link = self.list.head();
        let ghost mut index: int = 0;
        proof {
            self.list.lemma_len();
        }
        while cursor.is_some()
            invariant
                *self == *old(self),
                self.wf(),
                memory_requirements.alignment > 0,
                granularity > 0,
                allocation_type != AllocationType::Free,
                0 <= index <= self@.len(),
                self@.len() == self.list.slots().len(),
                cursor == (if index < self@.len() {
                    Some(self.list.slots()[index])
                } else {
                    None
                }),
                before == before_of(self@, index),
                forall|j: int|
                    0 <= j < index ==> !fits_at(
                        self@,
                        j,
                        memory_requirements,
                        allocation_type,
                        granularity as int,
                    ),
            decreases self@.len() - index,
        {
            let slot = cursor.unwrap();
            proof {
                self.list.lemma_position(index);
                lemma_block_ends(self@, self.size as int, index);
            }
            let node = self.list.node(slot);
            let block = node.data;
            let next = node.next;
            let after = match next {
                Some(next_slot) => {
                    proof {
                        self.list.lemma_position(index + 1);
                    }
                    Some(self.list.node(next_slot).data)
                },
                None => None,
            };
            assert(after == after_of(self@, index));
            match placement(
                &block,
                before,
                after,
                memory_requirements,
                allocation_type,
                granularity,
            ) {
                Some(spot) => {
                    proof {
                        lemma_first_fit_from(
                            self@,
                            0,
                            index,
                            memory_requirements,
                            allocation_type,
                            granularity as int,
                        );
                        lemma_span_within_block(
                            block,
                            before,
                            after,
                            memory_requirements,
                            allocation_type,
                            granularity as int,
                        );
                        lemma_start_is_aligned(
                            block.offset as int,
                            before,
                            memory_requirements,
                            allocation_type,
                            granularity as int,
                        );
                    }
                    let span = spot.left_padding + memory_requirements.size
                        + spot.right_padding;
                    if block.size > span && self.last_block_id == usize::MAX {
                        return Err(MemoryError::AllocatorExhausted);
                    }
                    proof {
                        lemma_place_keeps_blocks(
                            self@,
                            index,
                            memory_requirements,
                            allocation_type,
                            granularity as int,
                            self.size as int,
                            self.last_block_id,
                        );
                        if separated(self@, granularity as int) {
                            lemma_place_keeps_apart(
                                self@,
                                index,
                                memory_requirements,
                                allocation_type,
                                granularity as int,
                                self.size as int,
                                self.last_block_id,
                            );
                        }
                    }
                    if block.size > span {
                        let rest = Block::new(
                            self.last_block_id,
                            block.offset + span,
                            block.size - span,
                            0,
                            AllocationType::Free,
                            0,
                            0,
                        );
                        self.last_block_id += 1;
                        self.list.insert_after(slot, rest);
                        proof {
                            self.list.lemma_position(index);
                        }
                    }
                    let used = Block::new(
                        block.id,
                        block.offset,
                        span,
                        memory_requirements.size,
                        allocation_type,
                        spot.left_padding,
                        spot.right_padding,
                    );
                    self.list.set(slot, used);
                    self.free_memory -= span;
                    assert(self@ =~= place(
                        old(self)@,
                        index,
                        memory_requirements,
                        allocation_type,
                        granularity as int,
                        old(self).last_block_id,
                    ));
                    return Ok((block.id, spot.aligned_offset));
                },
                None => {},
            }
            before = Some(block);
            cursor = next;
            proof {
                index = index + 1;
            }
        }
        proof {
            lemma_first_fit_from(
                self@,
                0,
                index,
                memory_requirements,
                allocation_type,
                granularity as int,
            );
        }
        Err(MemoryError::AllocatorExhausted)
    }

    /// Gives the used block named `block_id` back: it becomes free, and every
    /// run of free neighbours is joined into one block.  Where no used block
    /// has that name, nothing changes.
    pub fn free_memory(&mut self, block_id: usize)
        requires
            old(self).wf(),
        ensures
            final(self).wf(),
            final(self)@ == coalesce(release(old(self)@, block_id)),
            final(self).available() == free_total(release(old(self)@, block_id)),
            final(self).handle() == old(self).handle(),
            final(self).size() == old(self).size(),
            final(self).memory_flags() == old(self).memory_flags(),
            final(self).memory_type_index() == old(self).memory_type_index(),
            final(self).data() == old(self).data(),
            final(self).last_block_id() == old(self).last_block_id(),
    {
        let ghost marked = release(old(self)@, block_id);
        let ghost mut done: int = 0;
        let ghost mut seen: int = 0;
        let mut run: Link = None;
        let mut cursor: Link = self.list.head();
        proof {
            self.list.lemma_len();
            assert(self@.take(0) + marked.skip(0) =~= marked);
        }
        while cursor.is_some()
            invariant
                self.list.wf(),
                self@.len() == self.list.slots().len(),
                self.handle == old(self).handle,
                self.size == old(self).size,
                self.memory_flags == old(self).memory_flags,
                self.memory_type_index == old(self).memory_type_index,
                self.data == old(self).data,
                self.last_block_id == old(self).last_block_id,
                marked == release(old(self)@, block_id),
                marked.len() == old(self)@.len(),
                0 <= done <= self@.len(),
                0 <= seen <= marked.len(),
                self@.len() - done == marked.len() - seen,
                self@.skip(done) == old(self)@.skip(seen),
                cursor == (if done < self@.len() {
                    Some(self.list.slots()[done])
                } else {
                    None
                }),
                run == (if done > 0 && self@[done - 1].free() {
                    Some(self.list.slots()[done - 1])
                } else {
                    None
                }),
                coalesce(self@.take(done) + marked.skip(seen)) == coalesce(marked),
                settled(self@.take(done)),
                partitions(self@, self.size as int),
                all_coherent(self@),
                distinct_ids(self@, self.last_block_id),
                self.free_memory == free_total(self@),
            decreases self@.len() - done,
        {
            let slot = cursor.unwrap();
            let ghost entry = self@;
            proof {
                self.list.lemma_position(done);
                assert(entry[done] == entry.skip(done)[0]);
                assert(old(self)@[seen] == old(self)@.skip(seen)[0]);
            }
            let node = self.list.node(slot);
            let block = node.data;
            let next = node.next;
            let named = !block.is_free() && block.id == block_id;
            if named {
                proof {
                    lemma_mark_keeps_blocks(entry, done, self.size as int, self.last_block_id);
                    lemma_free_total_bounded(
                        entry.update(done, Block::vacant(block.id, block.offset, block.size)),
                        self.size as int,
                        entry.len() as int,
                    );
                }
                self.list.set(
                    slot,
                    Block::new(block.id, block.offset, block.size, 0, AllocationType::Free, 0, 0),
                );
                self.free_memory += block.size;
            }
            let ghost current = self@;
            proof {
                self.list.lemma_len();
                self.list.lemma_position(done);
                assert(current[done] == marked[seen]);
                assert(current.take(done) =~= entry.take(done));
                assert(current.skip(done + 1) =~= entry.skip(done).skip(1));
                assert(old(self)@.skip(seen + 1) =~= old(self)@.skip(seen).skip(1));
                if done > 0 {
                    assert(current[done - 1] == entry[done - 1]);
                }
            }
            if named || block.is_free() {
                match run {
                    Some(head_slot) => {
                        proof {
                            self.list.lemma_position(done - 1);
                            lemma_join_partitions(current, done, self.size as int);
                            lemma_join_names(current, done, self.last_block_id);
                            lemma_join_free_total(current, done);
                            lemma_pass_join(current, done, marked, seen);
                        }
                        let head = self.list.node(head_slot).data;
                        self.list.set(
                            head_slot,
                            Block::new(
                                head.id,
                                head.offset,
                                head.size + block.size,
                                0,
                                AllocationType::Free,
                                0,
                                0,
                            ),
                        );
                        proof {
                            self.list.lemma_position(done - 1);
                            assert(current[done - 1].coherent());
                        }
                        self.list.remove_after(head_slot);
                        proof {
                            self.list.lemma_len();
                            assert(self@ == joined_at(current, done));
                            assert(self@[done - 1].free());
                        }
                    },
                    None => {
                        proof {
                            lemma_pass_keep(entry, current, done, marked, seen);
                            done = done + 1;
                        }
                        run = Some(slot);
                    },
                }
            } else {
                proof {
                    lemma_pass_keep(entry, current, done, marked, seen);
                    done = done + 1;
                }
                run = None;
            }
            cursor = next;
            proof {
                seen = seen + 1;
            }
        }
        proof {
            assert(self@.take(done) =~= self@);
            assert(marked.skip(seen) =~= Seq::<Block>::empty());
            assert(self@.take(done) + marked.skip(seen) =~= self@);
            lemma_coalesce_settled(self@);
            lemma_release_contiguous(old(self)@, block_id, self.size as int);
            lemma_coalesce_free_total(marked);
        }
    }

    /// The blocks cover the memory object exactly: every byte of it lies in
    /// one block, and in one only.
    pub proof fn lemma_blocks_partition(self, address: int)
        requires
            self.wf(),
            0 <= address < self.size(),
        ensures
            exists|index: int| 0 <= index < self@.len() && (#[trigger] self@[index]).holds(address),
            forall|first: int, second: int|
                0 <= first < self@.len() && 0 <= second < self@.len() && (
                #[trigger] self@[first]).holds(address) && (#[trigger] self@[second]).holds(
                    address,
                ) ==> first == second,
    {
        let index = lemma_partition_covers(self@, self.size() as int, address);
        assert(self@[index].holds(address));
        assert forall|first: int, second: int|
            0 <= first < self@.len() && 0 <= second < self@.len() && (
            #[trigger] self@[first]).holds(address) && (#[trigger] self@[second]).holds(
                address,
            ) implies first == second by {
            if first < second {
                lemma_partition_disjoint(self@, self.size() as int, first, second);
            } else if second < first {
                lemma_partition_disjoint(self@, self.size() as int, second, first);
            }
        }
    }

    /// The resources of two used blocks do not overlap: the one in the
    /// earlier block ends before the one in the later block starts.
    pub proof fn lemma_payloads_disjoint(self, first: int, second: int)
        requires
            self.wf(),
            0 <= first < second < self@.len(),
            !self@[first].free(),
            !self@[second].free(),
        ensures
            self@[first].payload_start() <= self@[first].payload_end(),
            self@[first].payload_end() <= self@[second].payload_start(),
            self@[second].payload_start() <= self@[second].payload_end(),
            self@[second].payload_end() <= self.size(),
    {
        lemma_partition_disjoint(self@, self.size() as int, first, second);
        assert(self@[first].coherent());
        assert(self@[second].coherent());
    }

    /// The free bytes and the spans of the used blocks add up to the size of
    /// the memory object.  So the count of free bytes depends on the used
    /// blocks alone: it is the same whenever the same blocks are in use,
    /// whatever was allocated and given back in between.
    pub proof fn lemma_free_bytes_complement(self)
        requires
            self.wf(),
        ensures
            self.available() + used_total(self@) == self.size(),
    {
        lemma_free_and_used(self@, self.size() as int, self@.len() as int);
    }

    /// With no block in use, one free block spans the whole memory object
    /// and every byte counts as free.
    pub proof fn lemma_all_free(self)
        requires
            self.wf(),
            forall|i: int| 0 <= i < self@.len() ==> (#[trigger] self@[i]).free(),
        ensures
            self@.len() == 1,
            self@[0] == Block::vacant(self@[0].id, 0, self.size()),
            self.available() == self.size(),
    {
        if self@.len() > 1 {
            assert(!(self@[0].free() && self@[1].free()));
        }
        assert(self@[0].coherent());
        lemma_free_total_single(self@[0]);
        assert(self@ =~= seq![self@[0]]);
    }

    /// An allocation that is given back at once leaves the allocator as it
    /// was: `self` is the allocator before the allocation, `between` after
    /// it and `after` once the block is given back.  The blocks are the same
    /// as before, and so is the count of free bytes.
    pub proof fn lemma_allocate_then_free(
        self,
        between: Allocator,
        after: Allocator,
        memory_requirements: MemoryRequirements,
        allocation_type: AllocationType,
        granularity: DeviceSize,
    )
        requires
            self.wf(),
            after.wf(),
            after.size() == self.size(),
            memory_requirements.alignment > 0,
            granularity > 0,
            allocation_type != AllocationType::Free,
            first_fit(self@, memory_requirements, allocation_type, granularity as int) is Some,
            between@ == place(
                self@,
                first_fit(
                    self@,
                    memory_requirements,
                    allocation_type,
                    granularity as int,
                ).unwrap(),
                memory_requirements,
                allocation_type,
                granularity as int,
                self.last_block_id(),
            ),
            after@ == coalesce(
                release(
                    between@,
                    self@[first_fit(
                        self@,
                        memory_requirements,
                        allocation_type,
                        granularity as int,
                    ).unwrap()].id,
                ),
            ),
        ensures
            after@ == self@,
            after.available() == self.available(),
    {
        let fit = first_fit(self@, memory_requirements, allocation_type, granularity as int);
        lemma_first_fit_is_a_fit(
            self@,
            0,
            memory_requirements,
            allocation_type,
            granularity as int,
        );
        lemma_place_then_release(
            self@,
            fit.unwrap(),
            memory_requirements,
            allocation_type,
            granularity as int,
            self.size() as int,
            self.last_block_id(),
        );
    }
}

} // verus!

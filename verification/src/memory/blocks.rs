//! The blocks of a memory object as a sequence, and what placing and
//! releasing a resource does to them.
//!
//! Everything here is a statement, not code that runs: the contracts of the
//! allocator are written in these terms.

use super::allocators::Block;
use super::granularity::{granularity_conflict, round_up, same_page};
use super::{AllocationType, DeviceSize, MemoryRequirements};
use vstd::prelude::*;

verus! {

/// Where a resource starts in a block at `block_offset`: at the next multiple
/// of its alignment, and at the next page boundary behind that where the block
/// before ends on the same page with a resource that must be kept apart.
pub open spec fn aligned_start(
    block_offset: int,
    before: Option<Block>,
    requirements: MemoryRequirements,
    allocation_type: AllocationType,
    granularity: int,
) -> int {
    let aligned = round_up(block_offset, requirements.alignment as int);
    if before is Some && same_page(
        before.unwrap().offset as int,
        before.unwrap().size as int,
        aligned,
        granularity,
    ) && granularity_conflict(before.unwrap().allocation_type, allocation_type) {
        round_up(aligned, granularity)
    } else {
        aligned
    }
}

/// The bytes kept unused behind a resource that starts at `start`: one page
/// where the block behind begins on the page on which the resource ends and
/// holds a resource that must be kept apart, none otherwise.
pub open spec fn tail_padding(
    start: int,
    after: Option<Block>,
    requirements: MemoryRequirements,
    allocation_type: AllocationType,
    granularity: int,
) -> int {
    if after is Some && same_page(
        start,
        requirements.size as int,
        after.unwrap().offset as int,
        granularity,
    ) && granularity_conflict(allocation_type, after.unwrap().allocation_type) {
        granularity
    } else {
        0
    }
}

/// The bytes that a resource takes of `block`, padding on both sides
/// included.
pub open spec fn padded_span(
    block: Block,
    before: Option<Block>,
    after: Option<Block>,
    requirements: MemoryRequirements,
    allocation_type: AllocationType,
    granularity: int,
) -> int {
    let start = aligned_start(
        block.offset as int,
        before,
        requirements,
        allocation_type,
        granularity,
    );
    (start - block.offset) + requirements.size + tail_padding(
        start,
        after,
        requirements,
        allocation_type,
        granularity,
    )
}

/// Whether `block`, between the blocks `before` and `after`, can take the
/// resource: it is free, it has room for the aligned resource, and it has
/// room for the resource with all its padding.
pub open spec fn fits(
    block: Block,
    before: Option<Block>,
    after: Option<Block>,
    requirements: MemoryRequirements,
    allocation_type: AllocationType,
    granularity: int,
) -> bool {
    &&& block.free()
    &&& block.size >= round_up(block.offset as int, requirements.alignment as int) - block.offset
        + requirements.size
    &&& block.size >= padded_span(block, before, after, requirements, allocation_type, granularity)
}

/// The block before the one at `index`, if there is one.
pub open spec fn before_of(blocks: Seq<Block>, index: int) -> Option<Block> {
    if 0 < index <= blocks.len() {
        Some(blocks[index - 1])
    } else {
        None
    }
}

/// The block behind the one at `index`, if there is one.
pub open spec fn after_of(blocks: Seq<Block>, index: int) -> Option<Block> {
    if 0 <= index + 1 < blocks.len() {
        Some(blocks[index + 1])
    } else {
        None
    }
}

/// Whether the block at `index` can take the resource.
pub open spec fn fits_at(
    blocks: Seq<Block>,
    index: int,
    requirements: MemoryRequirements,
    allocation_type: AllocationType,
    granularity: int,
) -> bool {
    fits(
        blocks[index],
        before_of(blocks, index),
        after_of(blocks, index),
        requirements,
        allocation_type,
        granularity,
    )
}

/// The first block from `start` on that can take the resource.
pub open spec fn first_fit_from(
    blocks: Seq<Block>,
    start: int,
    requirements: MemoryRequirements,
    allocation_type: AllocationType,
    granularity: int,
) -> Option<int>
    decreases blocks.len() - start,
{
    if start < 0 || start >= blocks.len() {
        None
    } else if fits_at(blocks, start, requirements, allocation_type, granularity) {
        Some(start)
    } else {
        first_fit_from(blocks, start + 1, requirements, allocation_type, granularity)
    }
}

/// The first block that can take the resource.
pub open spec fn first_fit(
    blocks: Seq<Block>,
    requirements: MemoryRequirements,
    allocation_type: AllocationType,
    granularity: int,
) -> Option<int> {
    first_fit_from(blocks, 0, requirements, allocation_type, granularity)
}

/// Where the resource starts if it is placed in the block at `index`.
pub open spec fn start_at(
    blocks: Seq<Block>,
    index: int,
    requirements: MemoryRequirements,
    allocation_type: AllocationType,
    granularity: int,
) -> int {
    aligned_start(
        blocks[index].offset as int,
        before_of(blocks, index),
        requirements,
        allocation_type,
        granularity,
    )
}

/// The bytes that the resource takes of the block at `index`, padding
/// included.
pub open spec fn span_at(
    blocks: Seq<Block>,
    index: int,
    requirements: MemoryRequirements,
    allocation_type: AllocationType,
    granularity: int,
) -> int {
    padded_span(
        blocks[index],
        before_of(blocks, index),
        after_of(blocks, index),
        requirements,
        allocation_type,
        granularity,
    )
}

/// The block at `index` as it is once the resource is placed in it.
pub open spec fn occupied(
    blocks: Seq<Block>,
    index: int,
    requirements: MemoryRequirements,
    allocation_type: AllocationType,
    granularity: int,
) -> Block {
    let start = start_at(blocks, index, requirements, allocation_type, granularity);
    let span = span_at(blocks, index, requirements, allocation_type, granularity);
    Block {
        offset: blocks[index].offset,
        size: span as u64,
        buffer_size: requirements.size,
        left_padding: (start - blocks[index].offset) as u64,
        right_padding: tail_padding(
            start,
            after_of(blocks, index),
            requirements,
            allocation_type,
            granularity,
        ) as u64,
        allocation_type,
        id: blocks[index].id,
    }
}

/// Whether the resource leaves a rest of the block at `index` free.
pub open spec fn leaves_rest(
    blocks: Seq<Block>,
    index: int,
    requirements: MemoryRequirements,
    allocation_type: AllocationType,
    granularity: int,
) -> bool {
    blocks[index].size > span_at(blocks, index, requirements, allocation_type, granularity)
}

/// The blocks once the resource is placed in the block at `index`: that
/// block shrinks to the span of the resource, and what is left of it becomes
/// a free block of its own, named `fresh_id`, right behind it.
pub open spec fn place(
    blocks: Seq<Block>,
    index: int,
    requirements: MemoryRequirements,
    allocation_type: AllocationType,
    granularity: int,
    fresh_id: usize,
) -> Seq<Block> {
    let span = span_at(blocks, index, requirements, allocation_type, granularity);
    let used = occupied(blocks, index, requirements, allocation_type, granularity);
    if leaves_rest(blocks, index, requirements, allocation_type, granularity) {
        blocks.update(index, used).insert(
            index + 1,
            Block::vacant(
                fresh_id,
                (blocks[index].offset + span) as u64,
                (blocks[index].size - span) as u64,
            ),
        )
    } else {
        blocks.update(index, used)
    }
}

/// Whether a resource can be placed: a block can take it, and a new name is
/// at hand where the resource leaves a rest of that block free.
pub open spec fn can_place(
    blocks: Seq<Block>,
    requirements: MemoryRequirements,
    allocation_type: AllocationType,
    granularity: int,
    fresh_id: usize,
) -> bool {
    let fit = first_fit(blocks, requirements, allocation_type, granularity);
    &&& fit is Some
    &&& leaves_rest(blocks, fit.unwrap(), requirements, allocation_type, granularity) ==> fresh_id
        < usize::MAX
}

/// The blocks once the used block named `id` is marked free.
pub open spec fn release(blocks: Seq<Block>, id: usize) -> Seq<Block> {
    blocks.map_values(
        |block: Block|
            if !block.free() && block.id == id {
                Block::vacant(block.id, block.offset, block.size)
            } else {
                block
            },
    )
}

/// Two free neighbours as one block: the first, grown by the second.
pub open spec fn merged(first: Block, second: Block) -> Block {
    Block { size: (first.size + second.size) as u64, ..first }
}

/// The blocks once every run of free neighbours is joined into one block.
pub open spec fn coalesce(blocks: Seq<Block>) -> Seq<Block>
    decreases blocks.len(),
{
    if blocks.len() < 2 {
        blocks
    } else if blocks[0].free() && blocks[1].free() {
        coalesce(seq![merged(blocks[0], blocks[1])] + blocks.skip(2))
    } else {
        seq![blocks[0]] + coalesce(blocks.skip(1))
    }
}

/// The bytes of the free blocks.
pub open spec fn free_total(blocks: Seq<Block>) -> int
    decreases blocks.len(),
{
    if blocks.len() == 0 {
        0
    } else {
        free_total(blocks.drop_last()) + (if blocks.last().free() {
            blocks.last().size as int
        } else {
            0
        })
    }
}

/// The bytes of the used blocks.
pub open spec fn used_total(blocks: Seq<Block>) -> int
    decreases blocks.len(),
{
    if blocks.len() == 0 {
        0
    } else {
        used_total(blocks.drop_last()) + (if blocks.last().free() {
            0
        } else {
            blocks.last().size as int
        })
    }
}

/// Each block starts where the one before it ends.
pub open spec fn contiguous(blocks: Seq<Block>) -> bool {
    forall|i: int, j: int|
        0 <= i && j == i + 1 && j < blocks.len() ==> (#[trigger] blocks[i]).end()
            == (#[trigger] blocks[j]).offset
}

/// The blocks cover `[0, size)`: the first starts at zero, each starts where
/// the one before ends, and the last ends at `size`.
pub open spec fn partitions(blocks: Seq<Block>, size: int) -> bool {
    &&& blocks.len() > 0
    &&& blocks[0].offset == 0
    &&& contiguous(blocks)
    &&& blocks.last().end() == size
}

/// No two neighbours are both free.
pub open spec fn settled(blocks: Seq<Block>) -> bool {
    forall|i: int, j: int|
        0 <= i && j == i + 1 && j < blocks.len() ==> !((#[trigger] blocks[i]).free()
            && (#[trigger] blocks[j]).free())
}

/// No two blocks have the same name, and every name is below `bound`.
pub open spec fn distinct_ids(blocks: Seq<Block>, bound: usize) -> bool {
    &&& forall|i: int| 0 <= i < blocks.len() ==> (#[trigger] blocks[i]).id < bound
    &&& forall|i: int, j: int|
        0 <= i < blocks.len() && 0 <= j < blocks.len() && i != j ==> (#[trigger] blocks[i]).id
            != (#[trigger] blocks[j]).id
}

/// The span of every used block is its resource and its padding, and no
/// free block has either.
pub open spec fn all_coherent(blocks: Seq<Block>) -> bool {
    forall|i: int| 0 <= i < blocks.len() ==> (#[trigger] blocks[i]).coherent()
}

/// Whether the resource of `first` ends on the page on which the resource of
/// `second` starts.
pub open spec fn shares_page(first: Block, second: Block, granularity: int) -> bool {
    same_page(
        first.payload_start(),
        first.buffer_size as int,
        second.payload_start(),
        granularity,
    )
}

/// Whether two neighbours hold resources that must be kept apart and are
/// not: both are in use, their kinds conflict, and they share a page.
pub open spec fn clash(first: Block, second: Block, granularity: int) -> bool {
    &&& !first.free()
    &&& !second.free()
    &&& granularity_conflict(first.allocation_type, second.allocation_type)
    &&& shares_page(first, second, granularity)
}

/// No two used neighbours with resources that must be kept apart share a
/// page.
pub open spec fn separated(blocks: Seq<Block>, granularity: int) -> bool {
    forall|i: int, j: int|
        0 <= i && j == i + 1 && j < blocks.len() ==> !clash(
            #[trigger] blocks[i],
            #[trigger] blocks[j],
            granularity,
        )
}

/// Whether `block` is the used block named `id` and holds a resource of
/// `size` bytes that starts at `offset`.
pub open spec fn is_backing(block: Block, id: usize, offset: DeviceSize, size: DeviceSize) -> bool {
    &&& block.id == id
    &&& !block.free()
    &&& block.payload_start() == offset
    &&& block.buffer_size == size
}

/// Whether one of the blocks is the used block named `id` and holds a
/// resource of `size` bytes that starts at `offset`.
pub open spec fn backs(
    blocks: Seq<Block>,
    id: usize,
    offset: DeviceSize,
    size: DeviceSize,
) -> bool {
    exists|k: int| 0 <= k < blocks.len() && is_backing(#[trigger] blocks[k], id, offset, size)
}

} // verus!

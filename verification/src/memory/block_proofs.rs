//! Proofs about sequences of blocks: that placing and releasing a resource
//! keep the blocks a partition of the memory object, keep the count of free
//! bytes right, and keep apart the resources that must not share a page.

use super::allocators::Block;
use super::blocks::{
    after_of, aligned_start, all_coherent, backs, before_of, clash, coalesce, contiguous,
    distinct_ids, first_fit, first_fit_from, fits, fits_at, free_total, is_backing, leaves_rest,
    merged, occupied, padded_span, partitions, place, release, separated, settled, span_at,
    start_at, tail_padding, used_total,
};
use super::granularity::{
    granularity_conflict, lemma_multiple_of_multiple, lemma_page_above, lemma_page_below_boundary,
    lemma_page_of_monotonic, lemma_round_up, round_up, same_page,
};
use super::{AllocationType, DeviceSize, MemoryRequirements};
use vstd::prelude::*;

verus! {

/// The free bytes of two runs of blocks add up.
pub proof fn lemma_free_total_concat(front: Seq<Block>, back: Seq<Block>)
    ensures
        free_total(front + back) == free_total(front) + free_total(back),
        free_total(front) >= 0,
    decreases back.len(), front.len(),
{
    if front.len() > 0 {
        lemma_free_total_concat(front.drop_last(), Seq::empty());
    }
    if back.len() == 0 {
        assert(front + back =~= front);
    } else {
        assert((front + back).drop_last() =~= front + back.drop_last());
        lemma_free_total_concat(front, back.drop_last());
    }
}

/// The free bytes of one block alone.
pub proof fn lemma_free_total_single(block: Block)
    ensures
        free_total(seq![block]) == (if block.free() {
            block.size as int
        } else {
            0
        }),
{
    assert(seq![block].drop_last() =~= Seq::<Block>::empty());
    reveal_with_fuel(free_total, 2);
}

/// The free bytes of the blocks are those before `index`, those of the block
/// at `index` and those behind it.
pub proof fn lemma_free_total_at(blocks: Seq<Block>, index: int)
    requires
        0 <= index < blocks.len(),
    ensures
        free_total(blocks) == free_total(blocks.take(index)) + free_total(seq![blocks[index]])
            + free_total(blocks.skip(index + 1)),
        free_total(blocks.take(index)) >= 0,
        free_total(blocks.skip(index + 1)) >= 0,
{
    assert(blocks =~= blocks.take(index) + seq![blocks[index]] + blocks.skip(index + 1));
    lemma_free_total_concat(blocks.take(index) + seq![blocks[index]], blocks.skip(index + 1));
    lemma_free_total_concat(blocks.take(index), seq![blocks[index]]);
    lemma_free_total_concat(blocks.skip(index + 1), Seq::empty());
}

/// What the search from `start` finds, given that no block from `start` up
/// to `index` can take the resource and that the one at `index` can, or that
/// `index` is behind the last block.
pub proof fn lemma_first_fit_from(
    blocks: Seq<Block>,
    start: int,
    index: int,
    requirements: MemoryRequirements,
    allocation_type: AllocationType,
    granularity: int,
)
    requires
        0 <= start <= index <= blocks.len(),
        forall|j: int|
            start <= j < index ==> !fits_at(blocks, j, requirements, allocation_type, granularity),
        index < blocks.len() ==> fits_at(
            blocks,
            index,
            requirements,
            allocation_type,
            granularity,
        ),
    ensures
        first_fit_from(blocks, start, requirements, allocation_type, granularity) == (if index
            < blocks.len() {
            Some(index)
        } else {
            None
        }),
    decreases index - start,
{
    if start < index {
        lemma_first_fit_from(
            blocks,
            start + 1,
            index,
            requirements,
            allocation_type,
            granularity,
        );
    }
}

/// The blocks with `used` in place of the block at `index` and `rest` put in
/// behind it.
spec fn split_at(blocks: Seq<Block>, index: int, used: Block, rest: Block) -> Seq<Block> {
    blocks.update(index, used).insert(index + 1, rest)
}

/// Splitting a block in two that cover the same bytes keeps the blocks a
/// partition.
proof fn lemma_split_partitions(
    blocks: Seq<Block>,
    index: int,
    used: Block,
    rest: Block,
    size: int,
)
    requires
        partitions(blocks, size),
        0 <= index < blocks.len(),
        used.offset == blocks[index].offset,
        used.end() == rest.offset,
        rest.end() == blocks[index].end(),
    ensures
        partitions(split_at(blocks, index, used, rest), size),
{
    let after = split_at(blocks, index, used, rest);
    assert forall|i: int, j: int| 0 <= i && j == i + 1 && j < after.len() implies (
    #[trigger] after[i]).end() == (#[trigger] after[j]).offset by {
        if j <= index {
            assert(after[i] == blocks[i] && after[j].offset == blocks[j].offset);
            assert(blocks[i].end() == blocks[j].offset);
        } else if i == index {
        } else if i == index + 1 {
            assert(after[j] == blocks[j - 1]);
            assert(blocks[index].end() == blocks[index + 1].offset);
        } else {
            assert(after[i] == blocks[i - 1] && after[j] == blocks[j - 1]);
            assert(blocks[i - 1].end() == blocks[j - 1].offset);
        }
    }
    if index + 1 == blocks.len() {
        assert(after.last() == rest);
    } else {
        assert(after.last() == blocks.last());
    }
    if index > 0 {
        assert(after[0] == blocks[0]);
    }
}

/// Splitting a free block into a used one and a rest leaves no two free
/// neighbours.
proof fn lemma_split_settled(blocks: Seq<Block>, index: int, used: Block, rest: Block)
    requires
        settled(blocks),
        0 <= index < blocks.len(),
        blocks[index].free(),
        !used.free(),
    ensures
        settled(split_at(blocks, index, used, rest)),
{
    let after = split_at(blocks, index, used, rest);
    assert forall|i: int, j: int| 0 <= i && j == i + 1 && j < after.len() implies !((
    #[trigger] after[i]).free() && (#[trigger] after[j]).free()) by {
        if j <= index {
            assert(after[i] == blocks[i]);
            assert(!(blocks[i].free() && blocks[j].free()));
        } else if i == index {
        } else if i == index + 1 {
            assert(after[j] == blocks[j - 1]);
            assert(!(blocks[index].free() && blocks[index + 1].free()));
        } else {
            assert(after[i] == blocks[i - 1] && after[j] == blocks[j - 1]);
            assert(!(blocks[i - 1].free() && blocks[j - 1].free()));
        }
    }
}

/// Splitting a block keeps the names distinct where the rest gets the next
/// name.
proof fn lemma_split_names(
    blocks: Seq<Block>,
    index: int,
    used: Block,
    rest: Block,
    fresh_id: usize,
)
    requires
        distinct_ids(blocks, fresh_id),
        all_coherent(blocks),
        0 <= index < blocks.len(),
        fresh_id < usize::MAX,
        used.coherent(),
        rest.coherent(),
        used.id == blocks[index].id,
        rest.id == fresh_id,
    ensures
        distinct_ids(split_at(blocks, index, used, rest), (fresh_id + 1) as usize),
        all_coherent(split_at(blocks, index, used, rest)),
{
    let after = split_at(blocks, index, used, rest);
    assert forall|i: int| 0 <= i < after.len() implies (#[trigger] after[i]).coherent()
        && after[i].id < fresh_id + 1 by {
        if i < index {
            assert(after[i] == blocks[i]);
        } else if i > index + 1 {
            assert(after[i] == blocks[i - 1]);
        }
    }
    assert forall|i: int, j: int|
        0 <= i < after.len() && 0 <= j < after.len() && i != j implies (#[trigger] after[i]).id != (
    #[trigger] after[j]).id by {
        let oi = if i <= index { i } else { i - 1 };
        let oj = if j <= index { j } else { j - 1 };
        if i != index + 1 {
            assert(after[i].id == blocks[oi].id);
        }
        if j != index + 1 {
            assert(after[j].id == blocks[oj].id);
        }
    }
}

/// Splitting a free block into a used one and a free rest takes the span of
/// the used one from the free bytes.
proof fn lemma_split_free_total(blocks: Seq<Block>, index: int, used: Block, rest: Block)
    requires
        0 <= index < blocks.len(),
        blocks[index].free(),
        !used.free(),
        rest.free(),
        used.size + rest.size == blocks[index].size,
    ensures
        free_total(split_at(blocks, index, used, rest)) == free_total(blocks) - used.size,
{
    let after = split_at(blocks, index, used, rest);
    lemma_free_total_at(blocks, index);
    lemma_free_total_single(blocks[index]);
    lemma_free_total_single(used);
    lemma_free_total_single(rest);
    assert(after =~= blocks.take(index) + seq![used] + seq![rest] + blocks.skip(index + 1));
    lemma_free_total_concat(blocks.take(index) + seq![used] + seq![rest], blocks.skip(index + 1));
    lemma_free_total_concat(blocks.take(index) + seq![used], seq![rest]);
    lemma_free_total_concat(blocks.take(index), seq![used]);
}

/// Replacing a free block by a used one at the same offset, followed by a
/// free block for what the used one leaves over, keeps the blocks a partition
/// with distinct names and no free neighbours.
proof fn lemma_split_keeps_blocks(
    blocks: Seq<Block>,
    index: int,
    used: Block,
    rest: Block,
    size: int,
    fresh_id: usize,
)
    requires
        partitions(blocks, size),
        all_coherent(blocks),
        settled(blocks),
        distinct_ids(blocks, fresh_id),
        size <= u64::MAX,
        0 <= index < blocks.len(),
        blocks[index].free(),
        fresh_id < usize::MAX,
        !used.free(),
        used.coherent(),
        used.offset == blocks[index].offset,
        used.id == blocks[index].id,
        used.size < blocks[index].size,
        rest == Block::vacant(
            fresh_id,
            (blocks[index].offset + used.size) as u64,
            (blocks[index].size - used.size) as u64,
        ),
    ensures
        ({
            let after = blocks.update(index, used).insert(index + 1, rest);
            &&& partitions(after, size)
            &&& all_coherent(after)
            &&& settled(after)
            &&& distinct_ids(after, (fresh_id + 1) as usize)
            &&& free_total(after) == free_total(blocks) - used.size
        }),
{
    lemma_block_ends(blocks, size, index);
    lemma_split_partitions(blocks, index, used, rest, size);
    lemma_split_settled(blocks, index, used, rest);
    lemma_split_names(blocks, index, used, rest, fresh_id);
    lemma_split_free_total(blocks, index, used, rest);
}

/// Replacing a free block by a used one of the same span keeps the blocks a
/// partition with distinct names and no free neighbours.
proof fn lemma_fill_keeps_blocks(
    blocks: Seq<Block>,
    index: int,
    used: Block,
    size: int,
    fresh_id: usize,
)
    requires
        partitions(blocks, size),
        all_coherent(blocks),
        settled(blocks),
        distinct_ids(blocks, fresh_id),
        0 <= index < blocks.len(),
        blocks[index].free(),
        !used.free(),
        used.coherent(),
        used.offset == blocks[index].offset,
        used.id == blocks[index].id,
        used.size == blocks[index].size,
    ensures
        ({
            let after = blocks.update(index, used);
            &&& partitions(after, size)
            &&& all_coherent(after)
            &&& settled(after)
            &&& distinct_ids(after, fresh_id)
            &&& free_total(after) == free_total(blocks) - used.size
        }),
{
    let after = blocks.update(index, used);
    lemma_free_total_at(blocks, index);
    lemma_free_total_single(blocks[index]);
    lemma_free_total_single(used);
    assert(after =~= blocks.take(index) + seq![used] + blocks.skip(index + 1));
    lemma_free_total_concat(blocks.take(index) + seq![used], blocks.skip(index + 1));
    lemma_free_total_concat(blocks.take(index), seq![used]);
    assert forall|i: int, j: int| 0 <= i && j == i + 1 && j < after.len() implies (
    #[trigger] after[i]).end() == (#[trigger] after[j]).offset by {
        assert(blocks[i].end() == blocks[j].offset);
    }
    assert forall|i: int, j: int| 0 <= i && j == i + 1 && j < after.len() implies !((
    #[trigger] after[i]).free() && (#[trigger] after[j]).free()) by {
        assert(!(blocks[i].free() && blocks[j].free()));
    }
    assert forall|i: int| 0 <= i < after.len() implies (#[trigger] after[i]).coherent()
        && after[i].id < fresh_id by {
        assert(after[i].id == blocks[i].id);
    }
    assert forall|i: int, j: int|
        0 <= i < after.len() && 0 <= j < after.len() && i != j implies (#[trigger] after[i]).id != (
    #[trigger] after[j]).id by {
        assert(after[i].id == blocks[i].id && after[j].id == blocks[j].id);
    }
}

/// A resource that fits a block takes a span of it that starts with the
/// block and does not reach beyond it.
pub proof fn lemma_span_within_block(
    block: Block,
    before: Option<Block>,
    after: Option<Block>,
    requirements: MemoryRequirements,
    allocation_type: AllocationType,
    granularity: int,
)
    requires
        requirements.alignment > 0,
        granularity > 0,
        fits(block, before, after, requirements, allocation_type, granularity),
    ensures
        ({
            let start = aligned_start(
                block.offset as int,
                before,
                requirements,
                allocation_type,
                granularity,
            );
            let tail = tail_padding(start, after, requirements, allocation_type, granularity);
            let span = padded_span(
                block,
                before,
                after,
                requirements,
                allocation_type,
                granularity,
            );
            &&& block.offset <= start
            &&& 0 <= tail
            &&& span == (start - block.offset) + requirements.size + tail
            &&& 0 <= span <= block.size
        }),
{
    lemma_round_up(block.offset as int, requirements.alignment as int);
    lemma_round_up(round_up(block.offset as int, requirements.alignment as int), granularity);
}

/// Placing a resource in a block that can take it keeps the blocks a
/// partition of the memory object with distinct names and no free
/// neighbours, and takes the padded span of the resource from the free bytes.
pub proof fn lemma_place_keeps_blocks(
    blocks: Seq<Block>,
    index: int,
    requirements: MemoryRequirements,
    allocation_type: AllocationType,
    granularity: int,
    size: int,
    fresh_id: usize,
)
    requires
        partitions(blocks, size),
        all_coherent(blocks),
        settled(blocks),
        distinct_ids(blocks, fresh_id),
        size <= u64::MAX,
        requirements.alignment > 0,
        granularity > 0,
        allocation_type != AllocationType::Free,
        0 <= index < blocks.len(),
        fits_at(blocks, index, requirements, allocation_type, granularity),
        leaves_rest(blocks, index, requirements, allocation_type, granularity) ==> fresh_id
            < usize::MAX,
    ensures
        ({
            let after = place(
                blocks,
                index,
                requirements,
                allocation_type,
                granularity,
                fresh_id,
            );
            let span = span_at(blocks, index, requirements, allocation_type, granularity);
            &&& partitions(after, size)
            &&& all_coherent(after)
            &&& settled(after)
            &&& distinct_ids(
                after,
                if leaves_rest(blocks, index, requirements, allocation_type, granularity) {
                    (fresh_id + 1) as usize
                } else {
                    fresh_id
                },
            )
            &&& 0 <= span <= blocks[index].size
            &&& blocks[index].size <= free_total(blocks)
            &&& free_total(after) == free_total(blocks) - span
        }),
{
    let span = span_at(blocks, index, requirements, allocation_type, granularity);
    let used = occupied(blocks, index, requirements, allocation_type, granularity);
    let block = blocks[index];
    lemma_block_ends(blocks, size, index);
    lemma_span_within_block(
        block,
        before_of(blocks, index),
        after_of(blocks, index),
        requirements,
        allocation_type,
        granularity,
    );
    lemma_free_total_at(blocks, index);
    lemma_free_total_single(block);
    assert(used.size == span);
    assert(used.coherent());
    if leaves_rest(blocks, index, requirements, allocation_type, granularity) {
        let rest = Block::vacant(
            fresh_id,
            (block.offset + span) as u64,
            (block.size - span) as u64,
        );
        lemma_split_keeps_blocks(blocks, index, used, rest, size, fresh_id);
    } else {
        lemma_fill_keeps_blocks(blocks, index, used, size, fresh_id);
    }
}

/// In a partition of `[0, size)` every block ends at or before `size`.
pub proof fn lemma_block_ends(blocks: Seq<Block>, size: int, index: int)
    requires
        partitions(blocks, size),
        0 <= index < blocks.len(),
    ensures
        blocks[index].end() <= size,
        index + 1 < blocks.len() ==> blocks[index].end() == blocks[index + 1].offset,
    decreases blocks.len() - index,
{
    if index + 1 < blocks.len() {
        lemma_block_ends(blocks, size, index + 1);
        assert(blocks[index].end() == blocks[index + 1].offset);
    }
}

/// Blocks without free neighbours have nothing to join.
pub proof fn lemma_coalesce_settled(blocks: Seq<Block>)
    requires
        settled(blocks),
    ensures
        coalesce(blocks) == blocks,
    decreases blocks.len(),
{
    if blocks.len() >= 2 {
        assert(!(blocks[0].free() && blocks[1].free()));
        let tail = blocks.skip(1);
        assert forall|i: int, j: int| 0 <= i && j == i + 1 && j < tail.len() implies !((
        #[trigger] tail[i]).free() && (#[trigger] tail[j]).free()) by {
            assert(!(blocks[i + 1].free() && blocks[j + 1].free()));
        }
        lemma_coalesce_settled(tail);
        assert(seq![blocks[0]] + tail =~= blocks);
    }
}

/// Joining two free neighbours by hand does not change what joining all free
/// neighbours gives.
pub proof fn lemma_coalesce_merge(front: Seq<Block>, first: Block, second: Block, back: Seq<Block>)
    requires
        settled(front + seq![first]),
        first.free(),
        second.free(),
    ensures
        coalesce(front + seq![first, second] + back) == coalesce(
            front + seq![merged(first, second)] + back,
        ),
    decreases front.len(),
{
    let joined = merged(first, second);
    let long = front + seq![first, second] + back;
    let short = front + seq![joined] + back;
    if front.len() == 0 {
        assert(long.skip(2) =~= back);
        assert(seq![merged(long[0], long[1])] + long.skip(2) =~= short);
    } else {
        let guard = front + seq![first];
        assert(guard[front.len() as int] == first);
        assert(!(guard[front.len() - 1].free() && guard[front.len() as int].free()));
        assert(!front.last().free());
        if front.len() > 1 {
            assert(guard[0] == front[0] && guard[1] == front[1]);
            assert(!(guard[0].free() && guard[1].free()));
        }
        assert(long[0] == front[0] && short[0] == front[0]);
        assert(!(long[0].free() && long[1].free()));
        assert(!(short[0].free() && short[1].free()));
        let rest = front.skip(1);
        assert(long.skip(1) =~= rest + seq![first, second] + back);
        assert(short.skip(1) =~= rest + seq![joined] + back);
        let rest_guard = rest + seq![first];
        assert forall|i: int, j: int| 0 <= i && j == i + 1 && j < rest_guard.len() implies !((
        #[trigger] rest_guard[i]).free() && (#[trigger] rest_guard[j]).free()) by {
            assert(rest_guard[i] == guard[i + 1] && rest_guard[j] == guard[j + 1]);
            assert(!(guard[i + 1].free() && guard[j + 1].free()));
        }
        lemma_coalesce_merge(rest, first, second, back);
    }
}

/// Joining free neighbours keeps the count of free bytes.
pub proof fn lemma_coalesce_free_total(blocks: Seq<Block>)
    requires
        contiguous(blocks),
        blocks.len() > 0 ==> blocks.last().end() <= u64::MAX,
    ensures
        free_total(coalesce(blocks)) == free_total(blocks),
    decreases blocks.len(),
{
    if blocks.len() >= 2 {
        assert(blocks[0].end() == blocks[1].offset);
        if blocks[0].free() && blocks[1].free() {
            let joined = merged(blocks[0], blocks[1]);
            let next = seq![joined] + blocks.skip(2);
            lemma_contiguous_ends(blocks, 1);
            assert(joined.size == blocks[0].size + blocks[1].size);
            assert forall|i: int, j: int| 0 <= i && j == i + 1 && j < next.len() implies (
            #[trigger] next[i]).end() == (#[trigger] next[j]).offset by {
                assert(next[j] == blocks[j + 1]);
                assert(blocks[i + 1].end() == blocks[j + 1].offset);
            }
            assert(next.last().end() <= u64::MAX) by {
                if next.len() > 1 {
                    assert(next.last() == blocks.last());
                }
            }
            lemma_coalesce_free_total(next);
            lemma_free_total_concat(seq![joined], blocks.skip(2));
            lemma_free_total_single(joined);
            assert(blocks =~= seq![blocks[0]] + seq![blocks[1]] + blocks.skip(2));
            lemma_free_total_concat(seq![blocks[0]] + seq![blocks[1]], blocks.skip(2));
            lemma_free_total_concat(seq![blocks[0]], seq![blocks[1]]);
            lemma_free_total_single(blocks[0]);
            lemma_free_total_single(blocks[1]);
        } else {
            let tail = blocks.skip(1);
            assert forall|i: int, j: int| 0 <= i && j == i + 1 && j < tail.len() implies (
            #[trigger] tail[i]).end() == (#[trigger] tail[j]).offset by {
                assert(blocks[i + 1].end() == blocks[j + 1].offset);
            }
            assert(tail.last() == blocks.last());
            lemma_coalesce_free_total(tail);
            lemma_free_total_concat(seq![blocks[0]], coalesce(tail));
            lemma_free_total_concat(seq![blocks[0]], tail);
            assert(blocks =~= seq![blocks[0]] + tail);
        }
    }
}

/// In a contiguous run no block ends behind the last.
pub proof fn lemma_contiguous_ends(blocks: Seq<Block>, index: int)
    requires
        contiguous(blocks),
        0 <= index < blocks.len(),
    ensures
        blocks[index].end() <= blocks.last().end(),
    decreases blocks.len() - index,
{
    if index + 1 < blocks.len() {
        lemma_contiguous_ends(blocks, index + 1);
        assert(blocks[index].end() == blocks[index + 1].offset);
    }
}

/// The free bytes of a partition of `[0, size)` are at most `size`.
pub proof fn lemma_free_total_bounded(blocks: Seq<Block>, size: int, count: int)
    requires
        partitions(blocks, size),
        0 <= count <= blocks.len(),
    ensures
        free_total(blocks.take(count)) <= (if count == 0 {
            0
        } else {
            blocks[count - 1].end()
        }),
        count == blocks.len() ==> free_total(blocks) <= size,
    decreases count,
{
    if count > 0 {
        lemma_free_total_bounded(blocks, size, count - 1);
        assert(blocks.take(count).drop_last() =~= blocks.take(count - 1));
        if count > 1 {
            assert(blocks[count - 2].end() == blocks[count - 1].offset);
        }
    }
    if count == blocks.len() {
        assert(blocks.take(count) =~= blocks);
    }
}

/// Marking a used block free keeps the blocks a partition with distinct
/// names and adds the span of the block to the free bytes.
pub(crate) proof fn lemma_mark_keeps_blocks(blocks: Seq<Block>, index: int, size: int, bound: usize)
    requires
        partitions(blocks, size),
        all_coherent(blocks),
        distinct_ids(blocks, bound),
        0 <= index < blocks.len(),
        !blocks[index].free(),
    ensures
        ({
            let freed = Block::vacant(
                blocks[index].id,
                blocks[index].offset,
                blocks[index].size,
            );
            let after = blocks.update(index, freed);
            &&& partitions(after, size)
            &&& all_coherent(after)
            &&& distinct_ids(after, bound)
            &&& free_total(after) == free_total(blocks) + blocks[index].size
        }),
{
    let freed = Block::vacant(blocks[index].id, blocks[index].offset, blocks[index].size);
    let after = blocks.update(index, freed);
    assert forall|i: int, j: int| 0 <= i && j == i + 1 && j < after.len() implies (
    #[trigger] after[i]).end() == (#[trigger] after[j]).offset by {
        assert(blocks[i].end() == blocks[j].offset);
    }
    assert forall|i: int| 0 <= i < after.len() implies (#[trigger] after[i]).coherent()
        && after[i].id < bound by {
        assert(blocks[i].coherent() && after[i].id == blocks[i].id);
    }
    assert forall|i: int, j: int|
        0 <= i < after.len() && 0 <= j < after.len() && i != j implies (#[trigger] after[i]).id != (
    #[trigger] after[j]).id by {
        assert(after[i].id == blocks[i].id && after[j].id == blocks[j].id);
    }
    lemma_free_total_at(blocks, index);
    lemma_free_total_at(after, index);
    assert(after.take(index) =~= blocks.take(index));
    assert(after.skip(index + 1) =~= blocks.skip(index + 1));
    lemma_free_total_single(blocks[index]);
    lemma_free_total_single(freed);
}

/// The blocks with the free block at `index` joined into the free block
/// before it.
pub(crate) open spec fn joined_at(blocks: Seq<Block>, index: int) -> Seq<Block> {
    blocks.update(index - 1, merged(blocks[index - 1], blocks[index])).remove(index)
}

/// Joining a block into the one before it keeps the blocks a partition.
pub(crate) proof fn lemma_join_partitions(blocks: Seq<Block>, index: int, size: int)
    requires
        partitions(blocks, size),
        size <= u64::MAX,
        1 <= index < blocks.len(),
    ensures
        partitions(joined_at(blocks, index), size),
        blocks[index - 1].size + blocks[index].size <= size,
{
    let after = joined_at(blocks, index);
    let joined = merged(blocks[index - 1], blocks[index]);
    lemma_block_ends(blocks, size, index);
    lemma_block_ends(blocks, size, index - 1);
    assert(joined.end() == blocks[index].end());
    assert forall|i: int, j: int| 0 <= i && j == i + 1 && j < after.len() implies (
    #[trigger] after[i]).end() == (#[trigger] after[j]).offset by {
        if j < index - 1 {
            assert(after[i] == blocks[i] && after[j] == blocks[j]);
            assert(blocks[i].end() == blocks[j].offset);
        } else if j == index - 1 {
            assert(after[i] == blocks[i] && after[j].offset == blocks[j].offset);
            assert(blocks[i].end() == blocks[j].offset);
        } else if i == index - 1 {
            assert(after[j] == blocks[j + 1]);
            assert(blocks[index].end() == blocks[index + 1].offset);
        } else {
            assert(after[i] == blocks[i + 1] && after[j] == blocks[j + 1]);
            assert(blocks[i + 1].end() == blocks[j + 1].offset);
        }
    }
    if index + 1 == blocks.len() {
        assert(after.last() == joined);
    } else {
        assert(after.last() == blocks.last());
    }
    if index > 1 {
        assert(after[0] == blocks[0]);
    }
}

/// Joining a free block into the free one before it keeps the names
/// distinct and the blocks coherent.
pub(crate) proof fn lemma_join_names(blocks: Seq<Block>, index: int, bound: usize)
    requires
        distinct_ids(blocks, bound),
        all_coherent(blocks),
        1 <= index < blocks.len(),
        blocks[index - 1].free(),
        blocks[index].free(),
    ensures
        distinct_ids(joined_at(blocks, index), bound),
        all_coherent(joined_at(blocks, index)),
{
    let after = joined_at(blocks, index);
    assert(blocks[index - 1].coherent());
    assert forall|i: int| 0 <= i < after.len() implies (#[trigger] after[i]).coherent()
        && after[i].id < bound by {
        let oi = if i < index { i } else { i + 1 };
        assert(after[i].id == blocks[oi].id);
        assert(blocks[oi].coherent());
    }
    assert forall|i: int, j: int|
        0 <= i < after.len() && 0 <= j < after.len() && i != j implies (#[trigger] after[i]).id != (
    #[trigger] after[j]).id by {
        let oi = if i < index { i } else { i + 1 };
        let oj = if j < index { j } else { j + 1 };
        assert(after[i].id == blocks[oi].id && after[j].id == blocks[oj].id);
    }
}

/// Joining a free block into the free one before it keeps the count of free
/// bytes.
pub(crate) proof fn lemma_join_free_total(blocks: Seq<Block>, index: int)
    requires
        1 <= index < blocks.len(),
        blocks[index - 1].free(),
        blocks[index].free(),
        blocks[index - 1].size + blocks[index].size <= u64::MAX,
    ensures
        free_total(joined_at(blocks, index)) == free_total(blocks),
{
    let after = joined_at(blocks, index);
    let joined = merged(blocks[index - 1], blocks[index]);
    assert(blocks =~= blocks.take(index - 1) + seq![blocks[index - 1]] + seq![blocks[index]]
        + blocks.skip(index + 1));
    assert(after =~= blocks.take(index - 1) + seq![joined] + blocks.skip(index + 1));
    lemma_free_total_concat(
        blocks.take(index - 1) + seq![blocks[index - 1]] + seq![blocks[index]],
        blocks.skip(index + 1),
    );
    lemma_free_total_concat(
        blocks.take(index - 1) + seq![blocks[index - 1]],
        seq![blocks[index]],
    );
    lemma_free_total_concat(blocks.take(index - 1), seq![blocks[index - 1]]);
    lemma_free_total_concat(blocks.take(index - 1) + seq![joined], blocks.skip(index + 1));
    lemma_free_total_concat(blocks.take(index - 1), seq![joined]);
    lemma_free_total_single(blocks[index - 1]);
    lemma_free_total_single(blocks[index]);
    lemma_free_total_single(joined);
}

/// One step of the pass over the blocks that leaves the block at `done`
/// where it is.
pub(crate) proof fn lemma_pass_keep(
    before: Seq<Block>,
    after: Seq<Block>,
    done: int,
    marked: Seq<Block>,
    seen: int,
)
    requires
        0 <= done < after.len(),
        after.len() == before.len(),
        0 <= seen < marked.len(),
        after.take(done) == before.take(done),
        after[done] == marked[seen],
        settled(before.take(done)),
        done > 0 ==> !(before[done - 1].free() && after[done].free()),
    ensures
        after.take(done + 1) + marked.skip(seen + 1) == before.take(done) + marked.skip(seen),
        settled(after.take(done + 1)),
{
    assert(after.take(done + 1) + marked.skip(seen + 1) =~= before.take(done) + marked.skip(seen))
        by {
        assert(after.take(done + 1) =~= after.take(done) + seq![after[done]]);
        assert(marked.skip(seen) =~= seq![marked[seen]] + marked.skip(seen + 1));
    }
    let front = before.take(done);
    let next = after.take(done + 1);
    assert forall|i: int, j: int| 0 <= i && j == i + 1 && j < next.len() implies !((
    #[trigger] next[i]).free() && (#[trigger] next[j]).free()) by {
        if j < done {
            assert(next[i] == front[i] && next[j] == front[j]);
            assert(!(front[i].free() && front[j].free()));
        } else {
            assert(next[i] == front[i]);
        }
    }
}

/// One step of the pass over the blocks that joins the block at `done` into
/// the one before it.
pub(crate) proof fn lemma_pass_join(before: Seq<Block>, done: int, marked: Seq<Block>, seen: int)
    requires
        1 <= done < before.len(),
        0 <= seen < marked.len(),
        before[done] == marked[seen],
        before[done - 1].free(),
        before[done].free(),
        settled(before.take(done)),
    ensures
        coalesce(joined_at(before, done).take(done) + marked.skip(seen + 1)) == coalesce(
            before.take(done) + marked.skip(seen),
        ),
        settled(joined_at(before, done).take(done)),
        joined_at(before, done).skip(done) == before.skip(done + 1),
{
    let after = joined_at(before, done);
    let front = before.take(done - 1);
    let first = before[done - 1];
    let second = before[done];
    assert(front + seq![first] =~= before.take(done));
    lemma_coalesce_merge(front, first, second, marked.skip(seen + 1));
    assert(front + seq![first, second] + marked.skip(seen + 1) =~= before.take(done) + marked.skip(
        seen,
    ));
    assert(front + seq![merged(first, second)] + marked.skip(seen + 1) =~= after.take(done)
        + marked.skip(seen + 1));
    assert(after.skip(done) =~= before.skip(done + 1));
    let old_front = before.take(done);
    let new_front = after.take(done);
    assert forall|i: int, j: int| 0 <= i && j == i + 1 && j < new_front.len() implies !((
    #[trigger] new_front[i]).free() && (#[trigger] new_front[j]).free()) by {
        assert(new_front[i] == old_front[i]);
        assert(new_front[j].free() == old_front[j].free());
        assert(!(old_front[i].free() && old_front[j].free()));
    }
}

/// Marking a block free changes neither offsets nor spans.
pub(crate) proof fn lemma_release_contiguous(blocks: Seq<Block>, id: usize, size: int)
    requires
        partitions(blocks, size),
    ensures
        contiguous(release(blocks, id)),
        release(blocks, id).len() == blocks.len(),
        release(blocks, id).last().end() == size,
{
    let marked = release(blocks, id);
    assert forall|i: int, j: int| 0 <= i && j == i + 1 && j < marked.len() implies (
    #[trigger] marked[i]).end() == (#[trigger] marked[j]).offset by {
        assert(blocks[i].end() == blocks[j].offset);
    }
}

/// A resource starts at a multiple of its alignment, unless it was moved to
/// a page boundary; then it starts at a multiple of the page size, which is
/// a multiple of the alignment as well where one of the two divides the
/// other.
pub proof fn lemma_start_is_aligned(
    block_offset: int,
    before: Option<Block>,
    requirements: MemoryRequirements,
    allocation_type: AllocationType,
    granularity: int,
)
    requires
        requirements.alignment > 0,
        granularity > 0,
    ensures
        ({
            let alignment = requirements.alignment as int;
            let start = aligned_start(
                block_offset,
                before,
                requirements,
                allocation_type,
                granularity,
            );
            &&& start % alignment == 0 || start % granularity == 0
            &&& start == round_up(block_offset, alignment) ==> start % alignment == 0
            &&& granularity % alignment == 0 || alignment % granularity == 0 ==> start % alignment
                == 0
        }),
{
    let alignment = requirements.alignment as int;
    let aligned = round_up(block_offset, alignment);
    let start = aligned_start(block_offset, before, requirements, allocation_type, granularity);
    lemma_round_up(block_offset, alignment);
    lemma_round_up(aligned, granularity);
    if start != aligned {
        if granularity % alignment == 0 {
            lemma_multiple_of_multiple(start, alignment, granularity);
        }
        if alignment % granularity == 0 {
            lemma_multiple_of_multiple(aligned, granularity, alignment);
        }
    }
}

/// The blocks of a well-formed allocator leave no byte of the memory object
/// out: every offset below the size lies in a block.
pub proof fn lemma_partition_covers(blocks: Seq<Block>, size: int, address: int) -> (index: int)
    requires
        partitions(blocks, size),
        0 <= address < size,
    ensures
        0 <= index < blocks.len(),
        blocks[index].holds(address),
{
    lemma_covering_block(blocks, size, address, blocks.len() - 1)
}

/// A block at or before `from` holds the address, given that the address
/// lies before the end of the block at `from`.
proof fn lemma_covering_block(
    blocks: Seq<Block>,
    size: int,
    address: int,
    from: int,
) -> (index: int)
    requires
        partitions(blocks, size),
        0 <= from < blocks.len(),
        0 <= address < blocks[from].end(),
    ensures
        0 <= index <= from,
        blocks[index].offset <= address < blocks[index].end(),
    decreases from,
{
    if blocks[from].offset <= address {
        from
    } else {
        assert(from > 0);
        assert(blocks[from - 1].end() == blocks[from].offset);
        lemma_covering_block(blocks, size, address, from - 1)
    }
}

/// The blocks of a well-formed allocator do not overlap: a block ends before
/// any later block starts.
pub proof fn lemma_partition_disjoint(blocks: Seq<Block>, size: int, first: int, second: int)
    requires
        partitions(blocks, size),
        0 <= first < second < blocks.len(),
    ensures
        blocks[first].end() <= blocks[second].offset,
        blocks[second].end() <= size,
    decreases second - first,
{
    lemma_block_ends(blocks, size, second);
    if first + 1 < second {
        lemma_partition_disjoint(blocks, size, first + 1, second);
        assert(blocks[first].end() == blocks[first + 1].offset);
    } else {
        assert(blocks[first].end() == blocks[second].offset);
    }
}

/// The free and the used bytes of the first `count` blocks of a partition
/// add up to the offset at which those blocks end.
pub proof fn lemma_free_and_used(blocks: Seq<Block>, size: int, count: int)
    requires
        partitions(blocks, size),
        0 <= count <= blocks.len(),
    ensures
        free_total(blocks.take(count)) + used_total(blocks.take(count)) == (if count == 0 {
            0
        } else {
            blocks[count - 1].end()
        }),
        count == blocks.len() ==> free_total(blocks) + used_total(blocks) == size,
    decreases count,
{
    if count > 0 {
        lemma_free_and_used(blocks, size, count - 1);
        assert(blocks.take(count).drop_last() =~= blocks.take(count - 1));
        if count > 1 {
            assert(blocks[count - 2].end() == blocks[count - 1].offset);
        }
    }
    if count == blocks.len() {
        assert(blocks.take(count) =~= blocks);
    }
}

/// What the search from `start` finds is a block from `start` on that can
/// take the resource, and no block between `start` and it can.
pub proof fn lemma_first_fit_is_a_fit(
    blocks: Seq<Block>,
    start: int,
    requirements: MemoryRequirements,
    allocation_type: AllocationType,
    granularity: int,
)
    requires
        0 <= start,
        first_fit_from(blocks, start, requirements, allocation_type, granularity) is Some,
    ensures
        ({
            let found = first_fit_from(
                blocks,
                start,
                requirements,
                allocation_type,
                granularity,
            ).unwrap();
            &&& start <= found < blocks.len()
            &&& fits_at(blocks, found, requirements, allocation_type, granularity)
            &&& forall|j: int|
                start <= j < found ==> !fits_at(
                    blocks,
                    j,
                    requirements,
                    allocation_type,
                    granularity,
                )
        }),
    decreases blocks.len() - start,
{
    if start < blocks.len() && !fits_at(
        blocks,
        start,
        requirements,
        allocation_type,
        granularity,
    ) {
        lemma_first_fit_is_a_fit(blocks, start + 1, requirements, allocation_type, granularity);
    }
}

/// One block alone brings no two resources onto one page.
pub proof fn lemma_single_block_apart(block: Block, granularity: int)
    ensures
        separated(seq![block], granularity),
{
}

/// Placing a resource and giving its block back at once leaves the blocks as
/// they were.
pub proof fn lemma_place_then_release(
    blocks: Seq<Block>,
    index: int,
    requirements: MemoryRequirements,
    allocation_type: AllocationType,
    granularity: int,
    size: int,
    fresh_id: usize,
)
    requires
        partitions(blocks, size),
        all_coherent(blocks),
        settled(blocks),
        distinct_ids(blocks, fresh_id),
        size <= u64::MAX,
        requirements.alignment > 0,
        granularity > 0,
        allocation_type != AllocationType::Free,
        0 <= index < blocks.len(),
        fits_at(blocks, index, requirements, allocation_type, granularity),
    ensures
        coalesce(
            release(
                place(blocks, index, requirements, allocation_type, granularity, fresh_id),
                blocks[index].id,
            ),
        ) == blocks,
{
    let placed = place(blocks, index, requirements, allocation_type, granularity, fresh_id);
    let marked = release(placed, blocks[index].id);
    let block = blocks[index];
    let span = span_at(blocks, index, requirements, allocation_type, granularity);
    lemma_block_ends(blocks, size, index);
    lemma_span_within_block(
        block,
        before_of(blocks, index),
        after_of(blocks, index),
        requirements,
        allocation_type,
        granularity,
    );
    assert(block.coherent());
    let front = blocks.take(index);
    let back = blocks.skip(index + 1);
    let head = Block::vacant(block.id, block.offset, span as u64);
    assert forall|i: int| 0 <= i < blocks.len() && i != index implies (#[trigger] blocks[i]).id
        != block.id by {}
    if leaves_rest(blocks, index, requirements, allocation_type, granularity) {
        let rest = Block::vacant(
            fresh_id,
            (block.offset + span) as u64,
            (block.size - span) as u64,
        );
        assert(marked =~= front + seq![head, rest] + back) by {
            assert forall|i: int| 0 <= i < marked.len() implies marked[i] == (front + seq![
                head,
                rest,
            ] + back)[i] by {
                if i < index {
                    assert(placed[i] == blocks[i]);
                } else if i > index + 1 {
                    assert(placed[i] == blocks[i - 1]);
                }
            }
        }
        assert(front + seq![head] =~= blocks.take(index + 1).update(index, head));
        let guard = front + seq![head];
        assert forall|i: int, j: int| 0 <= i && j == i + 1 && j < guard.len() implies !((
        #[trigger] guard[i]).free() && (#[trigger] guard[j]).free()) by {
            assert(guard[i] == blocks[i]);
            assert(guard[j].free() == blocks[j].free());
            assert(!(blocks[i].free() && blocks[j].free()));
        }
        lemma_coalesce_merge(front, head, rest, back);
        assert(merged(head, rest) == block);
        assert(front + seq![block] + back =~= blocks);
    } else {
        assert(marked =~= blocks) by {
            assert forall|i: int| 0 <= i < marked.len() implies marked[i] == blocks[i] by {
                if i != index {
                    assert(placed[i] == blocks[i]);
                }
            }
        }
    }
    lemma_coalesce_settled(blocks);
}

/// An allocation on a new allocator, given back at once, leaves the one
/// free block that spans the whole memory object.
pub proof fn lemma_round_trip_on_new(
    size: DeviceSize,
    requirements: MemoryRequirements,
    allocation_type: AllocationType,
    granularity: DeviceSize,
)
    requires
        requirements.alignment > 0,
        granularity > 0,
        allocation_type != AllocationType::Free,
    ensures
        ({
            let fresh = seq![Block::vacant(0, 0, size)];
            first_fit(fresh, requirements, allocation_type, granularity as int) is Some ==> {
                &&& first_fit(fresh, requirements, allocation_type, granularity as int) == Some(
                    0int,
                )
                &&& coalesce(
                    release(
                        place(fresh, 0, requirements, allocation_type, granularity as int, 1),
                        0,
                    ),
                ) == fresh
            }
        }),
{
    let fresh = seq![Block::vacant(0, 0, size)];
    reveal_with_fuel(first_fit_from, 3);
    if first_fit(fresh, requirements, allocation_type, granularity as int) is Some {
        lemma_place_then_release(
            fresh,
            0,
            requirements,
            allocation_type,
            granularity as int,
            size as int,
            1,
        );
    }
}

/// A resource placed behind a used block does not share a page with the
/// resource of that block where the two must be kept apart.
proof fn lemma_apart_from_before(
    block: Block,
    before: Block,
    after: Option<Block>,
    requirements: MemoryRequirements,
    allocation_type: AllocationType,
    granularity: int,
    used: Block,
)
    requires
        requirements.alignment > 0,
        granularity > 0,
        before.coherent(),
        before.end() == block.offset,
        used.payload_start() == aligned_start(
            block.offset as int,
            Some(before),
            requirements,
            allocation_type,
            granularity,
        ),
        used.allocation_type == allocation_type,
    ensures
        !clash(before, used, granularity),
{
    let alignment = requirements.alignment as int;
    let aligned = round_up(block.offset as int, alignment);
    let start = used.payload_start();
    lemma_round_up(block.offset as int, alignment);
    lemma_round_up(aligned, granularity);
    if !before.free() && granularity_conflict(before.allocation_type, allocation_type) {
        let last = before.payload_end() - 1;
        lemma_page_of_monotonic(last, before.end() - 1, granularity);
        if same_page(before.offset as int, before.size as int, aligned, granularity) {
            lemma_page_below_boundary(before.end() - 1, start, granularity);
        } else {
            lemma_page_of_monotonic(before.end() - 1, aligned, granularity);
        }
    }
}

/// A resource that fits before a used block does not share a page with the
/// resource of that block where the two must be kept apart.
proof fn lemma_apart_from_after(
    block: Block,
    before: Option<Block>,
    after: Block,
    requirements: MemoryRequirements,
    allocation_type: AllocationType,
    granularity: int,
    used: Block,
)
    requires
        requirements.alignment > 0,
        granularity > 0,
        block.end() == after.offset,
        fits(block, before, Some(after), requirements, allocation_type, granularity),
        used.payload_start() == aligned_start(
            block.offset as int,
            before,
            requirements,
            allocation_type,
            granularity,
        ),
        used.buffer_size == requirements.size,
        used.allocation_type == allocation_type,
    ensures
        !clash(used, after, granularity),
{
    lemma_span_within_block(
        block,
        before,
        Some(after),
        requirements,
        allocation_type,
        granularity,
    );
    if !after.free() && granularity_conflict(allocation_type, after.allocation_type) {
        let start = used.payload_start();
        let last = start + requirements.size - 1;
        if same_page(start, requirements.size as int, after.offset as int, granularity) {
            lemma_page_above(last, after.offset as int, granularity);
        } else {
            lemma_page_of_monotonic(last, after.offset as int, granularity);
            lemma_page_of_monotonic(after.offset as int, after.payload_start(), granularity);
        }
    }
}

/// Placing a resource in a block that can take it brings no two resources
/// that must be kept apart onto one page.
pub proof fn lemma_place_keeps_apart(
    blocks: Seq<Block>,
    index: int,
    requirements: MemoryRequirements,
    allocation_type: AllocationType,
    granularity: int,
    size: int,
    fresh_id: usize,
)
    requires
        partitions(blocks, size),
        all_coherent(blocks),
        size <= u64::MAX,
        requirements.alignment > 0,
        granularity > 0,
        0 <= index < blocks.len(),
        fits_at(blocks, index, requirements, allocation_type, granularity),
        separated(blocks, granularity),
    ensures
        separated(
            place(blocks, index, requirements, allocation_type, granularity, fresh_id),
            granularity,
        ),
{
    let after = place(blocks, index, requirements, allocation_type, granularity, fresh_id);
    let used = occupied(blocks, index, requirements, allocation_type, granularity);
    let block = blocks[index];
    let rest = leaves_rest(blocks, index, requirements, allocation_type, granularity);
    lemma_block_ends(blocks, size, index);
    lemma_span_within_block(
        block,
        before_of(blocks, index),
        after_of(blocks, index),
        requirements,
        allocation_type,
        granularity,
    );
    if index > 0 {
        assert(blocks[index - 1].end() == blocks[index].offset);
        assert(blocks[index - 1].coherent());
        lemma_apart_from_before(
            block,
            blocks[index - 1],
            after_of(blocks, index),
            requirements,
            allocation_type,
            granularity,
            used,
        );
    }
    if index + 1 < blocks.len() {
        lemma_apart_from_after(
            block,
            before_of(blocks, index),
            blocks[index + 1],
            requirements,
            allocation_type,
            granularity,
            used,
        );
    }
    assert forall|i: int, j: int| 0 <= i && j == i + 1 && j < after.len() implies !clash(
        #[trigger] after[i],
        #[trigger] after[j],
        granularity,
    ) by {
        if j < index {
            assert(after[i] == blocks[i] && after[j] == blocks[j]);
            assert(!clash(blocks[i], blocks[j], granularity));
        } else if j == index {
            assert(after[i] == blocks[i] && after[j] == used);
        } else if i == index {
            assert(after[i] == used);
            if rest {
                assert(after[j].free());
            } else {
                assert(after[j] == blocks[j]);
            }
        } else if rest {
            if i == index + 1 {
                assert(after[i].free());
            } else {
                assert(after[i] == blocks[i - 1] && after[j] == blocks[j - 1]);
                assert(!clash(blocks[i - 1], blocks[j - 1], granularity));
            }
        } else {
            assert(after[i] == blocks[i] && after[j] == blocks[j]);
            assert(!clash(blocks[i], blocks[j], granularity));
        }
    }
}

/// Joining free neighbours changes nothing of the first block but its span.
proof fn lemma_coalesce_head(blocks: Seq<Block>)
    requires
        blocks.len() > 0,
    ensures
        coalesce(blocks).len() > 0,
        coalesce(blocks)[0] == (Block { size: coalesce(blocks)[0].size, ..blocks[0] }),
    decreases blocks.len(),
{
    if blocks.len() >= 2 && blocks[0].free() && blocks[1].free() {
        lemma_coalesce_head(seq![merged(blocks[0], blocks[1])] + blocks.skip(2));
    }
}

/// Joining free neighbours brings no two resources that must be kept apart
/// onto one page.
pub proof fn lemma_coalesce_keeps_apart(blocks: Seq<Block>, granularity: int)
    requires
        separated(blocks, granularity),
    ensures
        separated(coalesce(blocks), granularity),
    decreases blocks.len(),
{
    if blocks.len() >= 2 {
        if blocks[0].free() && blocks[1].free() {
            let next = seq![merged(blocks[0], blocks[1])] + blocks.skip(2);
            assert forall|i: int, j: int| 0 <= i && j == i + 1 && j < next.len() implies !clash(
                #[trigger] next[i],
                #[trigger] next[j],
                granularity,
            ) by {
                if i > 0 {
                    assert(next[i] == blocks[i + 1] && next[j] == blocks[j + 1]);
                    assert(!clash(blocks[i + 1], blocks[j + 1], granularity));
                }
            }
            lemma_coalesce_keeps_apart(next, granularity);
        } else {
            let tail = blocks.skip(1);
            assert forall|i: int, j: int| 0 <= i && j == i + 1 && j < tail.len() implies !clash(
                #[trigger] tail[i],
                #[trigger] tail[j],
                granularity,
            ) by {
                assert(!clash(blocks[i + 1], blocks[j + 1], granularity));
            }
            lemma_coalesce_keeps_apart(tail, granularity);
            lemma_coalesce_head(tail);
            let joined = coalesce(tail);
            let all = seq![blocks[0]] + joined;
            assert(!clash(blocks[0], blocks[1], granularity));
            assert forall|i: int, j: int| 0 <= i && j == i + 1 && j < all.len() implies !clash(
                #[trigger] all[i],
                #[trigger] all[j],
                granularity,
            ) by {
                if i > 0 {
                    assert(all[i] == joined[i - 1] && all[j] == joined[j - 1]);
                    assert(!clash(joined[i - 1], joined[j - 1], granularity));
                } else {
                    assert(all[1] == joined[0]);
                }
            }
        }
    }
}

/// Giving a block back brings no two resources that must be kept apart onto
/// one page.
pub proof fn lemma_release_keeps_apart(blocks: Seq<Block>, id: usize, granularity: int)
    requires
        separated(blocks, granularity),
    ensures
        separated(coalesce(release(blocks, id)), granularity),
{
    let marked = release(blocks, id);
    assert forall|i: int, j: int| 0 <= i && j == i + 1 && j < marked.len() implies !clash(
        #[trigger] marked[i],
        #[trigger] marked[j],
        granularity,
    ) by {
        assert(!clash(blocks[i], blocks[j], granularity));
    }
    lemma_coalesce_keeps_apart(marked, granularity);
}

/// Placing a resource leaves every block that was in use as it was.
pub proof fn lemma_place_keeps_backing(
    blocks: Seq<Block>,
    index: int,
    requirements: MemoryRequirements,
    allocation_type: AllocationType,
    granularity: int,
    fresh_id: usize,
    id: usize,
    offset: DeviceSize,
    size: DeviceSize,
)
    requires
        0 <= index < blocks.len(),
        blocks[index].free(),
        backs(blocks, id, offset, size),
    ensures
        backs(
            place(blocks, index, requirements, allocation_type, granularity, fresh_id),
            id,
            offset,
            size,
        ),
{
    let after = place(blocks, index, requirements, allocation_type, granularity, fresh_id);
    let k = choose|k: int|
        0 <= k < blocks.len() && is_backing(#[trigger] blocks[k], id, offset, size);
    if k < index {
        assert(after[k] == blocks[k]);
    } else if leaves_rest(blocks, index, requirements, allocation_type, granularity) {
        assert(after[k + 1] == blocks[k]);
    } else {
        assert(after[k] == blocks[k]);
    }
}

/// A resource that was placed is held by the block it was placed in.
pub proof fn lemma_place_backs_resource(
    blocks: Seq<Block>,
    index: int,
    requirements: MemoryRequirements,
    allocation_type: AllocationType,
    granularity: int,
    size: int,
    fresh_id: usize,
)
    requires
        partitions(blocks, size),
        size <= u64::MAX,
        requirements.alignment > 0,
        granularity > 0,
        allocation_type != AllocationType::Free,
        0 <= index < blocks.len(),
        fits_at(blocks, index, requirements, allocation_type, granularity),
    ensures
        backs(
            place(blocks, index, requirements, allocation_type, granularity, fresh_id),
            blocks[index].id,
            start_at(blocks, index, requirements, allocation_type, granularity) as u64,
            requirements.size,
        ),
{
    let after = place(blocks, index, requirements, allocation_type, granularity, fresh_id);
    lemma_block_ends(blocks, size, index);
    lemma_span_within_block(
        blocks[index],
        before_of(blocks, index),
        after_of(blocks, index),
        requirements,
        allocation_type,
        granularity,
    );
    assert(after[index] == occupied(blocks, index, requirements, allocation_type, granularity));
    assert(is_backing(
        after[index],
        blocks[index].id,
        start_at(blocks, index, requirements, allocation_type, granularity) as u64,
        requirements.size,
    ));
}

/// Joining free neighbours leaves every block that is in use as it is.
pub proof fn lemma_coalesce_keeps_backing(
    blocks: Seq<Block>,
    id: usize,
    offset: DeviceSize,
    size: DeviceSize,
)
    requires
        backs(blocks, id, offset, size),
    ensures
        backs(coalesce(blocks), id, offset, size),
    decreases blocks.len(),
{
    let k = choose|k: int|
        0 <= k < blocks.len() && is_backing(#[trigger] blocks[k], id, offset, size);
    if blocks.len() >= 2 {
        if blocks[0].free() && blocks[1].free() {
            let next = seq![merged(blocks[0], blocks[1])] + blocks.skip(2);
            assert(next[k - 1] == blocks[k]);
            lemma_coalesce_keeps_backing(next, id, offset, size);
        } else if k == 0 {
            assert(coalesce(blocks)[0] == blocks[0]);
        } else {
            let tail = blocks.skip(1);
            assert(tail[k - 1] == blocks[k]);
            lemma_coalesce_keeps_backing(tail, id, offset, size);
            let joined = coalesce(tail);
            let found = choose|j: int|
                0 <= j < joined.len() && is_backing(#[trigger] joined[j], id, offset, size);
            assert(coalesce(blocks)[found + 1] == joined[found]);
        }
    }
}

/// Giving a block back leaves every other block that is in use as it is.
pub proof fn lemma_release_keeps_backing(
    blocks: Seq<Block>,
    released: usize,
    id: usize,
    offset: DeviceSize,
    size: DeviceSize,
)
    requires
        backs(blocks, id, offset, size),
        id != released,
    ensures
        backs(coalesce(release(blocks, released)), id, offset, size),
{
    let k = choose|k: int|
        0 <= k < blocks.len() && is_backing(#[trigger] blocks[k], id, offset, size);
    assert(release(blocks, released)[k] == blocks[k]);
    lemma_coalesce_keeps_backing(release(blocks, released), id, offset, size);
}

/// The resources of two used blocks with different names do not overlap.
pub proof fn lemma_backed_apart(
    blocks: Seq<Block>,
    total: int,
    first_id: usize,
    first_offset: DeviceSize,
    first_size: DeviceSize,
    second_id: usize,
    second_offset: DeviceSize,
    second_size: DeviceSize,
)
    requires
        partitions(blocks, total),
        all_coherent(blocks),
        backs(blocks, first_id, first_offset, first_size),
        backs(blocks, second_id, second_offset, second_size),
        first_id != second_id,
    ensures
        first_offset + first_size <= second_offset || second_offset + second_size <= first_offset,
        first_offset + first_size <= total,
        second_offset + second_size <= total,
{
    let i = choose|k: int|
        0 <= k < blocks.len() && is_backing(
            #[trigger] blocks[k],
            first_id,
            first_offset,
            first_size,
        );
    let j = choose|k: int|
        0 <= k < blocks.len() && is_backing(
            #[trigger] blocks[k],
            second_id,
            second_offset,
            second_size,
        );
    assert(blocks[i].coherent() && blocks[j].coherent());
    lemma_block_ends(blocks, total, i);
    lemma_block_ends(blocks, total, j);
    if i < j {
        lemma_partition_disjoint(blocks, total, i, j);
    } else {
        lemma_partition_disjoint(blocks, total, j, i);
    }
}

/// The resource of a used block lies inside the memory object.
pub proof fn lemma_backed_inside(
    blocks: Seq<Block>,
    total: int,
    id: usize,
    offset: DeviceSize,
    size: DeviceSize,
)
    requires
        partitions(blocks, total),
        all_coherent(blocks),
        backs(blocks, id, offset, size),
    ensures
        offset + size <= total,
{
    let k = choose|k: int|
        0 <= k < blocks.len() && is_backing(#[trigger] blocks[k], id, offset, size);
    assert(blocks[k].coherent());
    lemma_block_ends(blocks, total, k);
}

} // verus!

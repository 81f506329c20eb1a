//! The regions of a buffer as a sequence, what handing out and taking back
//! a region does to them, and the proofs that both keep the regions a cover
//! of the buffer with the count of free bytes right.

use super::buffers::SubMemory;
use super::DeviceSize;
use vstd::prelude::*;

verus! {

/// Whether the region at `index` can take `size` bytes.
pub open spec fn region_fits(regions: Seq<SubMemory>, index: int, size: DeviceSize) -> bool {
    regions[index].is_free && regions[index].size >= size
}

/// The first region from `start` on that can take `size` bytes.
pub open spec fn first_region_from(
    regions: Seq<SubMemory>,
    start: int,
    size: DeviceSize,
) -> Option<int>
    decreases regions.len() - start,
{
    if start < 0 || start >= regions.len() {
        None
    } else if region_fits(regions, start, size) {
        Some(start)
    } else {
        first_region_from(regions, start + 1, size)
    }
}

/// The first region that can take `size` bytes.
pub open spec fn first_region(regions: Seq<SubMemory>, size: DeviceSize) -> Option<int> {
    first_region_from(regions, 0, size)
}

/// The regions once `size` bytes are taken from the start of the free region
/// at `index`: that region shrinks to `size` bytes and is handed out, and
/// what is left of it becomes a free region of its own, named `fresh_id`,
/// right behind it.
pub open spec fn carve(
    regions: Seq<SubMemory>,
    index: int,
    size: DeviceSize,
    fresh_id: usize,
) -> Seq<SubMemory> {
    let taken = SubMemory { size, is_free: false, ..regions[index] };
    if regions[index].size > size {
        regions.update(index, taken).insert(
            index + 1,
            SubMemory {
                offset: (regions[index].offset + size) as u64,
                size: (regions[index].size - size) as u64,
                is_free: true,
                id: fresh_id,
            },
        )
    } else {
        regions.update(index, taken)
    }
}

/// Whether `size` bytes can be handed out: a region can take them, and a
/// new name is at hand where they leave a rest of that region free.
pub open spec fn can_carve(regions: Seq<SubMemory>, size: DeviceSize, fresh_id: usize) -> bool {
    let fit = first_region(regions, size);
    &&& fit is Some
    &&& regions[fit.unwrap()].size > size ==> fresh_id < usize::MAX
}

/// The regions once the one named `id` that is handed out is free again.
pub open spec fn give_back(regions: Seq<SubMemory>, id: usize) -> Seq<SubMemory> {
    regions.map_values(
        |region: SubMemory|
            if !region.is_free && region.id == id {
                SubMemory { is_free: true, ..region }
            } else {
                region
            },
    )
}

/// Two free neighbours as one region: the first, grown by the second.
pub open spec fn joined(first: SubMemory, second: SubMemory) -> SubMemory {
    SubMemory { size: (first.size + second.size) as u64, ..first }
}

/// The regions once every run of free neighbours is joined into one region.
pub open spec fn join_free(regions: Seq<SubMemory>) -> Seq<SubMemory>
    decreases regions.len(),
{
    if regions.len() < 2 {
        regions
    } else if regions[0].is_free && regions[1].is_free {
        join_free(seq![joined(regions[0], regions[1])] + regions.skip(2))
    } else {
        seq![regions[0]] + join_free(regions.skip(1))
    }
}

/// The bytes of the free regions.
pub open spec fn free_bytes(regions: Seq<SubMemory>) -> int
    decreases regions.len(),
{
    if regions.len() == 0 {
        0
    } else {
        free_bytes(regions.drop_last()) + (if regions.last().is_free {
            regions.last().size as int
        } else {
            0
        })
    }
}

/// Each region starts where the one before it ends.
pub open spec fn adjoining(regions: Seq<SubMemory>) -> bool {
    forall|i: int, j: int|
        0 <= i && j == i + 1 && j < regions.len() ==> (#[trigger] regions[i]).end()
            == (#[trigger] regions[j]).offset
}

/// The regions cover `[0, size)`: the first starts at zero, each starts
/// where the one before ends, and the last ends at `size`.
pub open spec fn covers(regions: Seq<SubMemory>, size: int) -> bool {
    &&& regions.len() > 0
    &&& regions[0].offset == 0
    &&& adjoining(regions)
    &&& regions.last().end() == size
}

/// No two neighbours are both free.
pub open spec fn calm(regions: Seq<SubMemory>) -> bool {
    forall|i: int, j: int|
        0 <= i && j == i + 1 && j < regions.len() ==> !((#[trigger] regions[i]).is_free
            && (#[trigger] regions[j]).is_free)
}

/// No two regions have the same name, and every name is below `bound`.
pub open spec fn distinct_names(regions: Seq<SubMemory>, bound: usize) -> bool {
    &&& forall|i: int| 0 <= i < regions.len() ==> (#[trigger] regions[i]).id < bound
    &&& forall|i: int, j: int|
        0 <= i < regions.len() && 0 <= j < regions.len() && i != j ==> (#[trigger] regions[i]).id
            != (#[trigger] regions[j]).id
}

/// The free bytes of two runs of regions add up.
pub proof fn lemma_free_bytes_concat(front: Seq<SubMemory>, back: Seq<SubMemory>)
    ensures
        free_bytes(front + back) == free_bytes(front) + free_bytes(back),
        free_bytes(front) >= 0,
    decreases back.len(), front.len(),
{
    if front.len() > 0 {
        lemma_free_bytes_concat(front.drop_last(), Seq::empty());
    }
    if back.len() == 0 {
        assert(front + back =~= front);
    } else {
        assert((front + back).drop_last() =~= front + back.drop_last());
        lemma_free_bytes_concat(front, back.drop_last());
    }
}

/// The free bytes of one region alone.
pub proof fn lemma_free_bytes_single(region: SubMemory)
    ensures
        free_bytes(seq![region]) == (if region.is_free {
            region.size as int
        } else {
            0
        }),
{
    assert(seq![region].drop_last() =~= Seq::<SubMemory>::empty());
    reveal_with_fuel(free_bytes, 2);
}

/// The free bytes of the regions are those before `index`, those of the
/// region at `index` and those behind it.
pub proof fn lemma_free_bytes_at(regions: Seq<SubMemory>, index: int)
    requires
        0 <= index < regions.len(),
    ensures
        free_bytes(regions) == free_bytes(regions.take(index)) + free_bytes(seq![regions[index]])
            + free_bytes(regions.skip(index + 1)),
        free_bytes(regions.take(index)) >= 0,
        free_bytes(regions.skip(index + 1)) >= 0,
{
    assert(regions =~= regions.take(index) + seq![regions[index]] + regions.skip(index + 1));
    lemma_free_bytes_concat(regions.take(index) + seq![regions[index]], regions.skip(index + 1));
    lemma_free_bytes_concat(regions.take(index), seq![regions[index]]);
    lemma_free_bytes_concat(regions.skip(index + 1), Seq::empty());
}

/// In a cover of `[0, size)` every region ends at or before `size`.
pub proof fn lemma_region_ends(regions: Seq<SubMemory>, size: int, index: int)
    requires
        covers(regions, size),
        0 <= index < regions.len(),
    ensures
        regions[index].end() <= size,
        index + 1 < regions.len() ==> regions[index].end() == regions[index + 1].offset,
    decreases regions.len() - index,
{
    if index + 1 < regions.len() {
        lemma_region_ends(regions, size, index + 1);
        assert(regions[index].end() == regions[index + 1].offset);
    }
}

/// The free bytes of a cover of `[0, size)` are at most `size`.
pub proof fn lemma_free_bytes_bounded(regions: Seq<SubMemory>, size: int, count: int)
    requires
        covers(regions, size),
        0 <= count <= regions.len(),
    ensures
        free_bytes(regions.take(count)) <= (if count == 0 {
            0
        } else {
            regions[count - 1].end()
        }),
        count == regions.len() ==> free_bytes(regions) <= size,
    decreases count,
{
    if count > 0 {
        lemma_free_bytes_bounded(regions, size, count - 1);
        assert(regions.take(count).drop_last() =~= regions.take(count - 1));
        if count > 1 {
            assert(regions[count - 2].end() == regions[count - 1].offset);
        }
    }
    if count == regions.len() {
        assert(regions.take(count) =~= regions);
    }
}

/// What the search from `start` finds, given that no region from `start` up
/// to `index` can take the bytes and that the one at `index` can, or that
/// `index` is behind the last region.
pub proof fn lemma_first_region_from(
    regions: Seq<SubMemory>,
    start: int,
    index: int,
    size: DeviceSize,
)
    requires
        0 <= start <= index <= regions.len(),
        forall|j: int| start <= j < index ==> !region_fits(regions, j, size),
        index < regions.len() ==> region_fits(regions, index, size),
    ensures
        first_region_from(regions, start, size) == (if index < regions.len() {
            Some(index)
        } else {
            None
        }),
    decreases index - start,
{
    if start < index {
        lemma_first_region_from(regions, start + 1, index, size);
    }
}

/// Handing out the start of a region keeps the regions a cover of the
/// buffer.
pub(crate) proof fn lemma_carve_covers(
    regions: Seq<SubMemory>,
    index: int,
    size: DeviceSize,
    fresh_id: usize,
    total: int,
)
    requires
        covers(regions, total),
        total <= u64::MAX,
        0 <= index < regions.len(),
        region_fits(regions, index, size),
    ensures
        covers(carve(regions, index, size, fresh_id), total),
{
    let after = carve(regions, index, size, fresh_id);
    lemma_region_ends(regions, total, index);
    if regions[index].size > size {
        assert forall|i: int, j: int| 0 <= i && j == i + 1 && j < after.len() implies (
        #[trigger] after[i]).end() == (#[trigger] after[j]).offset by {
            if j <= index {
                assert(after[i] == regions[i] && after[j].offset == regions[j].offset);
                assert(regions[i].end() == regions[j].offset);
            } else if i == index {
            } else if i == index + 1 {
                assert(after[j] == regions[j - 1]);
                assert(regions[index].end() == regions[index + 1].offset);
            } else {
                assert(after[i] == regions[i - 1] && after[j] == regions[j - 1]);
                assert(regions[i - 1].end() == regions[j - 1].offset);
            }
        }
        if index + 1 == regions.len() {
            assert(after.last().end() == regions.last().end());
        } else {
            assert(after.last() == regions.last());
        }
        if index > 0 {
            assert(after[0] == regions[0]);
        }
    } else {
        assert forall|i: int, j: int| 0 <= i && j == i + 1 && j < after.len() implies (
        #[trigger] after[i]).end() == (#[trigger] after[j]).offset by {
            assert(regions[i].end() == regions[j].offset);
        }
    }
}

/// Handing out the start of a free region leaves no two free neighbours.
pub(crate) proof fn lemma_carve_calm(
    regions: Seq<SubMemory>,
    index: int,
    size: DeviceSize,
    fresh_id: usize,
)
    requires
        calm(regions),
        0 <= index < regions.len(),
        region_fits(regions, index, size),
    ensures
        calm(carve(regions, index, size, fresh_id)),
{
    let after = carve(regions, index, size, fresh_id);
    if regions[index].size > size {
        assert forall|i: int, j: int| 0 <= i && j == i + 1 && j < after.len() implies !((
        #[trigger] after[i]).is_free && (#[trigger] after[j]).is_free) by {
            if j <= index {
                assert(after[i] == regions[i]);
                assert(!(regions[i].is_free && regions[j].is_free));
            } else if i == index {
            } else if i == index + 1 {
                assert(after[j] == regions[j - 1]);
                assert(!(regions[index].is_free && regions[index + 1].is_free));
            } else {
                assert(after[i] == regions[i - 1] && after[j] == regions[j - 1]);
                assert(!(regions[i - 1].is_free && regions[j - 1].is_free));
            }
        }
    } else {
        assert forall|i: int, j: int| 0 <= i && j == i + 1 && j < after.len() implies !((
        #[trigger] after[i]).is_free && (#[trigger] after[j]).is_free) by {
            assert(!(regions[i].is_free && regions[j].is_free));
        }
    }
}

/// Handing out the start of a region keeps the names distinct where the
/// rest gets the next name.
pub(crate) proof fn lemma_carve_names(
    regions: Seq<SubMemory>,
    index: int,
    size: DeviceSize,
    fresh_id: usize,
)
    requires
        distinct_names(regions, fresh_id),
        0 <= index < regions.len(),
        regions[index].size > size ==> fresh_id < usize::MAX,
    ensures
        distinct_names(
            carve(regions, index, size, fresh_id),
            if regions[index].size > size {
                (fresh_id + 1) as usize
            } else {
                fresh_id
            },
        ),
{
    let after = carve(regions, index, size, fresh_id);
    if regions[index].size > size {
        assert forall|i: int| 0 <= i < after.len() implies (#[trigger] after[i]).id < fresh_id
            + 1 by {
            if i < index {
                assert(after[i] == regions[i]);
            } else if i > index + 1 {
                assert(after[i] == regions[i - 1]);
            }
        }
        assert forall|i: int, j: int|
            0 <= i < after.len() && 0 <= j < after.len() && i != j implies (#[trigger] after[i]).id
            != (#[trigger] after[j]).id by {
            let oi = if i <= index { i } else { i - 1 };
            let oj = if j <= index { j } else { j - 1 };
            if i != index + 1 {
                assert(after[i].id == regions[oi].id);
            }
            if j != index + 1 {
                assert(after[j].id == regions[oj].id);
            }
        }
    } else {
        assert forall|i: int| 0 <= i < after.len() implies (#[trigger] after[i]).id < fresh_id by {
            assert(after[i].id == regions[i].id);
        }
        assert forall|i: int, j: int|
            0 <= i < after.len() && 0 <= j < after.len() && i != j implies (#[trigger] after[i]).id
            != (#[trigger] after[j]).id by {
            assert(after[i].id == regions[i].id && after[j].id == regions[j].id);
        }
    }
}

/// Handing out bytes of a free region takes them from the free bytes.
pub(crate) proof fn lemma_carve_free_bytes(
    regions: Seq<SubMemory>,
    index: int,
    size: DeviceSize,
    fresh_id: usize,
)
    requires
        0 <= index < regions.len(),
        region_fits(regions, index, size),
    ensures
        free_bytes(carve(regions, index, size, fresh_id)) == free_bytes(regions) - size,
        free_bytes(regions) >= regions[index].size,
{
    let after = carve(regions, index, size, fresh_id);
    let taken = SubMemory { size, is_free: false, ..regions[index] };
    lemma_free_bytes_at(regions, index);
    lemma_free_bytes_single(regions[index]);
    lemma_free_bytes_single(taken);
    if regions[index].size > size {
        let rest = SubMemory {
            offset: (regions[index].offset + size) as u64,
            size: (regions[index].size - size) as u64,
            is_free: true,
            id: fresh_id,
        };
        lemma_free_bytes_single(rest);
        assert(after =~= regions.take(index) + seq![taken] + seq![rest] + regions.skip(index + 1));
        lemma_free_bytes_concat(
            regions.take(index) + seq![taken] + seq![rest],
            regions.skip(index + 1),
        );
        lemma_free_bytes_concat(regions.take(index) + seq![taken], seq![rest]);
        lemma_free_bytes_concat(regions.take(index), seq![taken]);
    } else {
        assert(after =~= regions.take(index) + seq![taken] + regions.skip(index + 1));
        lemma_free_bytes_concat(regions.take(index) + seq![taken], regions.skip(index + 1));
        lemma_free_bytes_concat(regions.take(index), seq![taken]);
    }
}

/// Regions without free neighbours have nothing to join.
pub proof fn lemma_join_free_calm(regions: Seq<SubMemory>)
    requires
        calm(regions),
    ensures
        join_free(regions) == regions,
    decreases regions.len(),
{
    if regions.len() >= 2 {
        assert(!(regions[0].is_free && regions[1].is_free));
        let tail = regions.skip(1);
        assert forall|i: int, j: int| 0 <= i && j == i + 1 && j < tail.len() implies !((
        #[trigger] tail[i]).is_free && (#[trigger] tail[j]).is_free) by {
            assert(!(regions[i + 1].is_free && regions[j + 1].is_free));
        }
        lemma_join_free_calm(tail);
        assert(seq![regions[0]] + tail =~= regions);
    }
}

/// Joining two free neighbours by hand does not change what joining all free
/// neighbours gives.
pub proof fn lemma_join_free_pair(
    front: Seq<SubMemory>,
    first: SubMemory,
    second: SubMemory,
    back: Seq<SubMemory>,
)
    requires
        calm(front + seq![first]),
        first.is_free,
        second.is_free,
    ensures
        join_free(front + seq![first, second] + back) == join_free(
            front + seq![joined(first, second)] + back,
        ),
    decreases front.len(),
{
    let one = joined(first, second);
    let long = front + seq![first, second] + back;
    let short = front + seq![one] + back;
    if front.len() == 0 {
        assert(long.skip(2) =~= back);
        assert(seq![joined(long[0], long[1])] + long.skip(2) =~= short);
    } else {
        let guard = front + seq![first];
        assert(guard[front.len() as int] == first);
        assert(!(guard[front.len() - 1].is_free && guard[front.len() as int].is_free));
        assert(!front.last().is_free);
        if front.len() > 1 {
            assert(guard[0] == front[0] && guard[1] == front[1]);
            assert(!(guard[0].is_free && guard[1].is_free));
        }
        assert(long[0] == front[0] && short[0] == front[0]);
        assert(!(long[0].is_free && long[1].is_free));
        assert(!(short[0].is_free && short[1].is_free));
        let rest = front.skip(1);
        assert(long.skip(1) =~= rest + seq![first, second] + back);
        assert(short.skip(1) =~= rest + seq![one] + back);
        let rest_guard = rest + seq![first];
        assert forall|i: int, j: int| 0 <= i && j == i + 1 && j < rest_guard.len() implies !((
        #[trigger] rest_guard[i]).is_free && (#[trigger] rest_guard[j]).is_free) by {
            assert(rest_guard[i] == guard[i + 1] && rest_guard[j] == guard[j + 1]);
            assert(!(guard[i + 1].is_free && guard[j + 1].is_free));
        }
        lemma_join_free_pair(rest, first, second, back);
    }
}

/// In a run of adjoining regions none ends behind the last.
pub proof fn lemma_adjoining_ends(regions: Seq<SubMemory>, index: int)
    requires
        adjoining(regions),
        0 <= index < regions.len(),
    ensures
        regions[index].end() <= regions.last().end(),
    decreases regions.len() - index,
{
    if index + 1 < regions.len() {
        lemma_adjoining_ends(regions, index + 1);
        assert(regions[index].end() == regions[index + 1].offset);
    }
}

/// Joining free neighbours keeps the count of free bytes.
pub proof fn lemma_join_free_bytes(regions: Seq<SubMemory>)
    requires
        adjoining(regions),
        regions.len() > 0 ==> regions.last().end() <= u64::MAX,
    ensures
        free_bytes(join_free(regions)) == free_bytes(regions),
    decreases regions.len(),
{
    if regions.len() >= 2 {
        assert(regions[0].end() == regions[1].offset);
        if regions[0].is_free && regions[1].is_free {
            let one = joined(regions[0], regions[1]);
            let next = seq![one] + regions.skip(2);
            lemma_adjoining_ends(regions, 1);
            assert(one.size == regions[0].size + regions[1].size);
            assert forall|i: int, j: int| 0 <= i && j == i + 1 && j < next.len() implies (
            #[trigger] next[i]).end() == (#[trigger] next[j]).offset by {
                assert(next[j] == regions[j + 1]);
                assert(regions[i + 1].end() == regions[j + 1].offset);
            }
            assert(next.last().end() <= u64::MAX) by {
                if next.len() > 1 {
                    assert(next.last() == regions.last());
                }
            }
            lemma_join_free_bytes(next);
            lemma_free_bytes_concat(seq![one], regions.skip(2));
            lemma_free_bytes_single(one);
            assert(regions =~= seq![regions[0]] + seq![regions[1]] + regions.skip(2));
            lemma_free_bytes_concat(seq![regions[0]] + seq![regions[1]], regions.skip(2));
            lemma_free_bytes_concat(seq![regions[0]], seq![regions[1]]);
            lemma_free_bytes_single(regions[0]);
            lemma_free_bytes_single(regions[1]);
        } else {
            let tail = regions.skip(1);
            assert forall|i: int, j: int| 0 <= i && j == i + 1 && j < tail.len() implies (
            #[trigger] tail[i]).end() == (#[trigger] tail[j]).offset by {
                assert(regions[i + 1].end() == regions[j + 1].offset);
            }
            assert(tail.last() == regions.last());
            lemma_join_free_bytes(tail);
            lemma_free_bytes_concat(seq![regions[0]], join_free(tail));
            lemma_free_bytes_concat(seq![regions[0]], tail);
            assert(regions =~= seq![regions[0]] + tail);
        }
    }
}

/// Marking a region free keeps the regions a cover with distinct names and
/// adds the bytes of the region to the free bytes.
pub(crate) proof fn lemma_mark_keeps_regions(
    regions: Seq<SubMemory>,
    index: int,
    size: int,
    bound: usize,
)
    requires
        covers(regions, size),
        distinct_names(regions, bound),
        0 <= index < regions.len(),
        !regions[index].is_free,
    ensures
        ({
            let after = regions.update(index, SubMemory { is_free: true, ..regions[index] });
            &&& covers(after, size)
            &&& distinct_names(after, bound)
            &&& free_bytes(after) == free_bytes(regions) + regions[index].size
        }),
{
    let freed = SubMemory { is_free: true, ..regions[index] };
    let after = regions.update(index, freed);
    assert forall|i: int, j: int| 0 <= i && j == i + 1 && j < after.len() implies (
    #[trigger] after[i]).end() == (#[trigger] after[j]).offset by {
        assert(regions[i].end() == regions[j].offset);
    }
    assert forall|i: int| 0 <= i < after.len() implies (#[trigger] after[i]).id < bound by {
        assert(after[i].id == regions[i].id);
    }
    assert forall|i: int, j: int|
        0 <= i < after.len() && 0 <= j < after.len() && i != j implies (#[trigger] after[i]).id != (
    #[trigger] after[j]).id by {
        assert(after[i].id == regions[i].id && after[j].id == regions[j].id);
    }
    lemma_free_bytes_at(regions, index);
    lemma_free_bytes_at(after, index);
    assert(after.take(index) =~= regions.take(index));
    assert(after.skip(index + 1) =~= regions.skip(index + 1));
    lemma_free_bytes_single(regions[index]);
    lemma_free_bytes_single(freed);
}

/// The regions with the free region at `index` joined into the free region
/// before it.
pub(crate) open spec fn absorbed_at(regions: Seq<SubMemory>, index: int) -> Seq<SubMemory> {
    regions.update(index - 1, joined(regions[index - 1], regions[index])).remove(index)
}

/// Joining a region into the one before it keeps the regions a cover of the
/// buffer.
pub(crate) proof fn lemma_absorb_covers(regions: Seq<SubMemory>, index: int, size: int)
    requires
        covers(regions, size),
        size <= u64::MAX,
        1 <= index < regions.len(),
    ensures
        covers(absorbed_at(regions, index), size),
        regions[index - 1].size + regions[index].size <= size,
{
    let after = absorbed_at(regions, index);
    let one = joined(regions[index - 1], regions[index]);
    lemma_region_ends(regions, size, index);
    lemma_region_ends(regions, size, index - 1);
    assert(one.end() == regions[index].end());
    assert forall|i: int, j: int| 0 <= i && j == i + 1 && j < after.len() implies (
    #[trigger] after[i]).end() == (#[trigger] after[j]).offset by {
        if j < index - 1 {
            assert(after[i] == regions[i] && after[j] == regions[j]);
            assert(regions[i].end() == regions[j].offset);
        } else if j == index - 1 {
            assert(after[i] == regions[i] && after[j].offset == regions[j].offset);
            assert(regions[i].end() == regions[j].offset);
        } else if i == index - 1 {
            assert(after[j] == regions[j + 1]);
            assert(regions[index].end() == regions[index + 1].offset);
        } else {
            assert(after[i] == regions[i + 1] && after[j] == regions[j + 1]);
            assert(regions[i + 1].end() == regions[j + 1].offset);
        }
    }
    if index + 1 == regions.len() {
        assert(after.last() == one);
    } else {
        assert(after.last() == regions.last());
    }
    if index > 1 {
        assert(after[0] == regions[0]);
    }
}

/// Joining a region into the one before it keeps the names distinct.
pub(crate) proof fn lemma_absorb_names(regions: Seq<SubMemory>, index: int, bound: usize)
    requires
        distinct_names(regions, bound),
        1 <= index < regions.len(),
    ensures
        distinct_names(absorbed_at(regions, index), bound),
{
    let after = absorbed_at(regions, index);
    assert forall|i: int| 0 <= i < after.len() implies (#[trigger] after[i]).id < bound by {
        let oi = if i < index { i } else { i + 1 };
        assert(after[i].id == regions[oi].id);
    }
    assert forall|i: int, j: int|
        0 <= i < after.len() && 0 <= j < after.len() && i != j implies (#[trigger] after[i]).id != (
    #[trigger] after[j]).id by {
        let oi = if i < index { i } else { i + 1 };
        let oj = if j < index { j } else { j + 1 };
        assert(after[i].id == regions[oi].id && after[j].id == regions[oj].id);
    }
}

/// Joining a free region into the free one before it keeps the count of
/// free bytes.
pub(crate) proof fn lemma_absorb_free_bytes(regions: Seq<SubMemory>, index: int)
    requires
        1 <= index < regions.len(),
        regions[index - 1].is_free,
        regions[index].is_free,
        regions[index - 1].size + regions[index].size <= u64::MAX,
    ensures
        free_bytes(absorbed_at(regions, index)) == free_bytes(regions),
{
    let after = absorbed_at(regions, index);
    let one = joined(regions[index - 1], regions[index]);
    assert(regions =~= regions.take(index - 1) + seq![regions[index - 1]] + seq![regions[index]]
        + regions.skip(index + 1));
    assert(after =~= regions.take(index - 1) + seq![one] + regions.skip(index + 1));
    lemma_free_bytes_concat(
        regions.take(index - 1) + seq![regions[index - 1]] + seq![regions[index]],
        regions.skip(index + 1),
    );
    lemma_free_bytes_concat(
        regions.take(index - 1) + seq![regions[index - 1]],
        seq![regions[index]],
    );
    lemma_free_bytes_concat(regions.take(index - 1), seq![regions[index - 1]]);
    lemma_free_bytes_concat(regions.take(index - 1) + seq![one], regions.skip(index + 1));
    lemma_free_bytes_concat(regions.take(index - 1), seq![one]);
    lemma_free_bytes_single(regions[index - 1]);
    lemma_free_bytes_single(regions[index]);
    lemma_free_bytes_single(one);
}

/// One step of the pass over the regions that leaves the region at `done`
/// where it is.
pub(crate) proof fn lemma_walk_keep(
    before: Seq<SubMemory>,
    after: Seq<SubMemory>,
    done: int,
    marked: Seq<SubMemory>,
    seen: int,
)
    requires
        0 <= done < after.len(),
        after.len() == before.len(),
        0 <= seen < marked.len(),
        after.take(done) == before.take(done),
        after[done] == marked[seen],
        calm(before.take(done)),
        done > 0 ==> !(before[done - 1].is_free && after[done].is_free),
    ensures
        after.take(done + 1) + marked.skip(seen + 1) == before.take(done) + marked.skip(seen),
        calm(after.take(done + 1)),
{
    assert(after.take(done + 1) + marked.skip(seen + 1) =~= before.take(done) + marked.skip(seen))
        by {
        assert(after.take(done + 1) =~= after.take(done) + seq![after[done]]);
        assert(marked.skip(seen) =~= seq![marked[seen]] + marked.skip(seen + 1));
    }
    let front = before.take(done);
    let next = after.take(done + 1);
    assert forall|i: int, j: int| 0 <= i && j == i + 1 && j < next.len() implies !((
    #[trigger] next[i]).is_free && (#[trigger] next[j]).is_free) by {
        if j < done {
            assert(next[i] == front[i] && next[j] == front[j]);
            assert(!(front[i].is_free && front[j].is_free));
        } else {
            assert(next[i] == front[i]);
        }
    }
}

/// One step of the pass over the regions that joins the region at `done`
/// into the one before it.
pub(crate) proof fn lemma_walk_join(
    before: Seq<SubMemory>,
    done: int,
    marked: Seq<SubMemory>,
    seen: int,
)
    requires
        1 <= done < before.len(),
        0 <= seen < marked.len(),
        before[done] == marked[seen],
        before[done - 1].is_free,
        before[done].is_free,
        calm(before.take(done)),
    ensures
        join_free(absorbed_at(before, done).take(done) + marked.skip(seen + 1)) == join_free(
            before.take(done) + marked.skip(seen),
        ),
        calm(absorbed_at(before, done).take(done)),
        absorbed_at(before, done).skip(done) == before.skip(done + 1),
{
    let after = absorbed_at(before, done);
    let front = before.take(done - 1);
    let first = before[done - 1];
    let second = before[done];
    assert(front + seq![first] =~= before.take(done));
    lemma_join_free_pair(front, first, second, marked.skip(seen + 1));
    assert(front + seq![first, second] + marked.skip(seen + 1) =~= before.take(done) + marked.skip(
        seen,
    ));
    assert(front + seq![joined(first, second)] + marked.skip(seen + 1) =~= after.take(done)
        + marked.skip(seen + 1));
    assert(after.skip(done) =~= before.skip(done + 1));
    let old_front = before.take(done);
    let new_front = after.take(done);
    assert forall|i: int, j: int| 0 <= i && j == i + 1 && j < new_front.len() implies !((
    #[trigger] new_front[i]).is_free && (#[trigger] new_front[j]).is_free) by {
        assert(new_front[i] == old_front[i]);
        assert(new_front[j].is_free == old_front[j].is_free);
        assert(!(old_front[i].is_free && old_front[j].is_free));
    }
}

/// Marking a region free changes neither offsets nor sizes.
pub(crate) proof fn lemma_give_back_adjoining(regions: Seq<SubMemory>, id: usize, size: int)
    requires
        covers(regions, size),
    ensures
        adjoining(give_back(regions, id)),
        give_back(regions, id).len() == regions.len(),
        give_back(regions, id).last().end() == size,
{
    let marked = give_back(regions, id);
    assert forall|i: int, j: int| 0 <= i && j == i + 1 && j < marked.len() implies (
    #[trigger] marked[i]).end() == (#[trigger] marked[j]).offset by {
        assert(regions[i].end() == regions[j].offset);
    }
}

/// The regions of a cover do not overlap: a region ends before any later
/// region starts, and none reaches beyond the buffer.
pub proof fn lemma_cover_disjoint(regions: Seq<SubMemory>, size: int, first: int, second: int)
    requires
        covers(regions, size),
        0 <= first < second < regions.len(),
    ensures
        regions[first].end() <= regions[second].offset,
        regions[second].end() <= size,
    decreases second - first,
{
    lemma_region_ends(regions, size, second);
    if first + 1 < second {
        lemma_cover_disjoint(regions, size, first + 1, second);
        assert(regions[first].end() == regions[first + 1].offset);
    } else {
        assert(regions[first].end() == regions[second].offset);
    }
}

} // verus!

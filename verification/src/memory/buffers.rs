//! Buffers and the regions that a shared buffer is divided into.
//!
//! A [`Buffer`] stands for one device buffer bound to a block of an
//! allocator.  A buffer that serves as a staging area for many uploads hands
//! out regions of itself: its list of [`SubMemory`] regions covers the buffer
//! from the first byte to the last, a request takes the first free region
//! that is large enough, and a region given back is joined with its free
//! neighbours.
//!
//! What the operations do to the regions is said over sequences of regions
//! in [`super::regions`], together with the proofs that they keep the regions
//! in order.

use super::flags::{
    buffer_usage_contains, host_visible, host_visible_bits, includes, memory_flags_contain,
    BufferUsageFlags, MemoryPropertyFlags,
};
use super::regions::{
    absorbed_at, calm, can_carve, carve, covers, distinct_names, first_region, free_bytes,
    give_back, join_free, lemma_absorb_covers, lemma_absorb_free_bytes, lemma_absorb_names,
    lemma_carve_calm, lemma_carve_covers, lemma_carve_free_bytes, lemma_carve_names,
    lemma_cover_disjoint, lemma_first_region_from, lemma_free_bytes_bounded,
    lemma_free_bytes_single, lemma_give_back_adjoining, lemma_join_free_bytes, lemma_join_free_calm,
    lemma_mark_keeps_regions, lemma_region_ends, lemma_walk_join, lemma_walk_keep, region_fits,
};
use super::{DeviceSize, MemoryRequirements};
use crate::utils::list::{Link, List};
use vstd::prelude::*;

verus! {

/// One contiguous region of a buffer.
#[derive(PartialEq, Eq, Structural, Debug, Clone, Copy)]
pub struct SubMemory {
    /// Where the region starts, counted from the start of the buffer.
    pub offset: DeviceSize,
    /// The bytes of the region.
    pub size: DeviceSize,
    /// Whether the region is handed out to nobody.
    pub is_free: bool,
    /// The name of the region within its buffer.
    pub id: usize,
}

impl SubMemory {
    /// The first offset behind the region.
    pub open spec fn end(&self) -> int {
        self.offset + self.size
    }
}

/// A device buffer, where it is bound, and the regions it is divided into.
pub struct Buffer {
    handle: u64,
    offsets: Vec<DeviceSize>,
    allocator_id: Option<usize>,
    block_id: Option<usize>,
    memory_type: MemoryPropertyFlags,
    memory_requirements: MemoryRequirements,
    buffer_usage: BufferUsageFlags,
    size: DeviceSize,
    data: Option<usize>,
    free_memory: DeviceSize,
    sub_memory_ids: usize,
    sub_memory_list: List<SubMemory>,
}

impl View for Buffer {
    type V = Seq<SubMemory>;

    /// The regions in the order of their offsets.
    closed spec fn view(&self) -> Seq<SubMemory> {
        self.sub_memory_list@
    }
}

impl Buffer {
    /// The links of the region list are sound.
    pub closed spec fn linked(&self) -> bool {
        self.sub_memory_list.wf()
    }

    /// What [`Self::handle`] returns.
    pub closed spec fn spec_handle(&self) -> u64 {
        self.handle
    }

    /// The offsets in device memory at which the buffer was bound, the
    /// latest last.
    pub closed spec fn offsets(&self) -> Seq<DeviceSize> {
        self.offsets@
    }

    /// What [`Self::allocator_id`] returns.
    pub closed spec fn spec_allocator_id(&self) -> Option<usize> {
        self.allocator_id
    }

    /// What [`Self::block_id`] returns.
    pub closed spec fn spec_block_id(&self) -> Option<usize> {
        self.block_id
    }

    /// What [`Self::memory_type`] returns.
    pub closed spec fn spec_memory_type(&self) -> MemoryPropertyFlags {
        self.memory_type
    }

    /// What [`Self::memory_requirements`] returns.
    pub closed spec fn spec_memory_requirements(&self) -> MemoryRequirements {
        self.memory_requirements
    }

    /// What [`Self::buffer_usage`] returns.
    pub closed spec fn spec_buffer_usage(&self) -> BufferUsageFlags {
        self.buffer_usage
    }

    /// What [`Self::size`] returns.
    pub closed spec fn spec_size(&self) -> DeviceSize {
        self.size
    }

    /// What [`Self::data`] returns.
    pub closed spec fn spec_data(&self) -> Option<usize> {
        self.data
    }

    /// What [`Self::available`] returns.
    pub closed spec fn spec_available(&self) -> DeviceSize {
        self.free_memory
    }

    /// What [`Self::sub_memory_ids`] returns.
    pub closed spec fn spec_sub_memory_ids(&self) -> usize {
        self.sub_memory_ids
    }

    /// The regions cover the buffer without gap or overlap, no two free
    /// regions are neighbours, the names of the regions are distinct and
    /// below the next name to be given, the count of free bytes is the sum of
    /// the free regions, and a mapping of the buffer lies inside the address
    /// space.
    pub open spec fn wf(&self) -> bool {
        &&& self.linked()
        &&& covers(self@, self.size() as int)
        &&& calm(self@)
        &&& distinct_names(self@, self.sub_memory_ids())
        &&& self.available() == free_bytes(self@)
        &&& self.data() is Some ==> self.data().unwrap() + self.size() <= usize::MAX
    }

    /// Whether the host can map the memory of the buffer.
    pub open spec fn host_visible(&self) -> bool {
        includes(self.memory_type(), host_visible_bits())
    }

    /// A buffer of `size` bytes for the device buffer `handle`, bound
    /// nowhere yet and with all its bytes in one free region.
    pub fn new(
        handle: u64,
        size: DeviceSize,
        buffer_usage: BufferUsageFlags,
        memory_requirements: MemoryRequirements,
        memory_type: MemoryPropertyFlags,
    ) -> (buffer: Self)
        ensures
            buffer.wf(),
            buffer@ == seq![SubMemory { offset: 0, size, is_free: true, id: 0 }],
            buffer.handle() == handle,
            buffer.size() == size,
            buffer.buffer_usage() == buffer_usage,
            buffer.memory_requirements() == memory_requirements,
            buffer.memory_type() == memory_type,
            buffer.offsets() == Seq::<DeviceSize>::empty(),
            buffer.allocator_id() is None,
            buffer.block_id() is None,
            buffer.data() is None,
            buffer.available() == size,
            buffer.sub_memory_ids() == 1,
    {
        let buffer = Self {
            handle,
            offsets: Vec::new(),
            memory_type,
            memory_requirements,
            size,
            data: None,
            buffer_usage,
            free_memory: size,
            sub_memory_ids: 1,
            sub_memory_list: List::new(SubMemory { offset: 0, size, is_free: true, id: 0 }),
            allocator_id: None,
            block_id: None,
        };
        proof {
            lemma_free_bytes_single(buffer@[0]);
            assert(buffer@ =~= seq![buffer@[0]]);
        }
        buffer
    }

    /// The device's name for the buffer.
    #[verifier::when_used_as_spec(spec_handle)]
    pub fn handle(&self) -> (handle: u64)
        ensures
            handle == self.spec_handle(),
    {
        self.handle
    }

    /// The offset in device memory at which the buffer is bound.
    pub fn offset(&self) -> (offset: Option<DeviceSize>)
        ensures
            offset == (if self.offsets().len() > 0 {
                Some(self.offsets().last())
            } else {
                None
            }),
    {
        let count = self.offsets.len();
        if count > 0 {
            Some(self.offsets[count - 1])
        } else {
            None
        }
    }

    /// The index of the allocator whose memory backs the buffer.
    #[verifier::when_used_as_spec(spec_allocator_id)]
    pub fn allocator_id(&self) -> (id: Option<usize>)
        ensures
            id == self.spec_allocator_id(),
    {
        self.allocator_id
    }

    /// The name of the block that backs the buffer.
    #[verifier::when_used_as_spec(spec_block_id)]
    pub fn block_id(&self) -> (id: Option<usize>)
        ensures
            id == self.spec_block_id(),
    {
        self.block_id
    }

    /// The property flags asked of the memory of the buffer.
    #[verifier::when_used_as_spec(spec_memory_type)]
    pub fn memory_type(&self) -> (flags: MemoryPropertyFlags)
        ensures
            flags == self.spec_memory_type(),
    {
        self.memory_type
    }

    /// What the device asks of the memory of the buffer.
    #[verifier::when_used_as_spec(spec_memory_requirements)]
    pub fn memory_requirements(&self) -> (requirements: MemoryRequirements)
        ensures
            requirements == self.spec_memory_requirements(),
    {
        self.memory_requirements
    }

    /// What the buffer is used for.
    #[verifier::when_used_as_spec(spec_buffer_usage)]
    pub fn buffer_usage(&self) -> (usage: BufferUsageFlags)
        ensures
            usage == self.spec_buffer_usage(),
    {
        self.buffer_usage
    }

    /// The bytes of the buffer.
    #[verifier::when_used_as_spec(spec_size)]
    pub fn size(&self) -> (size: DeviceSize)
        ensures
            size == self.spec_size(),
    {
        self.size
    }

    /// The host address of the first byte of the buffer, if its memory is
    /// mapped.
    #[verifier::when_used_as_spec(spec_data)]
    pub fn data(&self) -> (address: Option<usize>)
        ensures
            address == self.spec_data(),
    {
        self.data
    }

    /// The bytes of the free regions.
    #[verifier::when_used_as_spec(spec_available)]
    pub fn available(&self) -> (free: DeviceSize)
        ensures
            free == self.spec_available(),
    {
        self.free_memory
    }

    /// The name that the next new region gets.
    #[verifier::when_used_as_spec(spec_sub_memory_ids)]
    pub fn sub_memory_ids(&self) -> (id: usize)
        ensures
            id == self.spec_sub_memory_ids(),
    {
        self.sub_memory_ids
    }

    /// Tells whether the host can map the memory of the buffer.
    #[verifier::when_used_as_spec(host_visible)]
    pub fn is_host_visible(&self) -> (visible: bool)
        ensures
            visible == self.host_visible(),
    {
        memory_flags_contain(self.memory_type, host_visible())
    }

    /// Tells whether the buffer has `size` bytes or more, all the property
    /// flags in `memory_flags` and all the usage flags in `usage_flags`.
    pub fn serves(
        &self,
        size: DeviceSize,
        usage_flags: BufferUsageFlags,
        memory_flags: MemoryPropertyFlags,
    ) -> (suitable: bool)
        ensures
            suitable == (self.size() >= size && includes(self.memory_type(), memory_flags)
                && includes(self.buffer_usage(), usage_flags)),
    {
        self.size >= size && memory_flags_contain(self.memory_type, memory_flags)
            && buffer_usage_contains(self.buffer_usage, usage_flags)
    }

    /// Records where the buffer is bound: the allocator, the block, the
    /// offset in the memory object and, where the memory is mapped, the host
    /// address of the first byte.  A host address from which the buffer
    /// would reach beyond the address space is not recorded.
    pub fn bind(
        &mut self,
        allocator_id: usize,
        block_id: usize,
        offset: DeviceSize,
        address: Option<usize>,
    )
        requires
            old(self).wf(),
        ensures
            final(self).wf(),
            final(self)@ == old(self)@,
            final(self).allocator_id() == Some(allocator_id),
            final(self).block_id() == Some(block_id),
            final(self).offsets() == old(self).offsets().push(offset),
            final(self).data() == (if address is Some && address.unwrap() + old(self).size()
                <= usize::MAX {
                address
            } else {
                None
            }),
            final(self).handle() == old(self).handle(),
            final(self).size() == old(self).size(),
            final(self).memory_type() == old(self).memory_type(),
            final(self).memory_requirements() == old(self).memory_requirements(),
            final(self).buffer_usage() == old(self).buffer_usage(),
            final(self).available() == old(self).available(),
            final(self).sub_memory_ids() == old(self).sub_memory_ids(),
    {
        self.offsets.push(offset);
        self.allocator_id = Some(allocator_id);
        self.block_id = Some(block_id);
        self.data = match address {
            Some(first) => if (first as u128) + (self.size as u128) <= (usize::MAX as u128) {
                Some(first)
            } else {
                None
            },
            None => None,
        };
    }

    /// The regions in the order of their offsets.
    pub fn regions(&self) -> (regions: Vec<SubMemory>)
        requires
            self.wf(),
        ensures
            regions@ == self@,
    {
        let mut regions: Vec<SubMemory> = Vec::new();
        let mut walk = self.sub_memory_list.iter();
        loop
            invariant
                walk.wf(),
                regions@ + walk.remaining() == self@,
            ensures
                regions@ == self@,
            decreases walk.remaining().len(),
        {
            match walk.next() {
                Some(node) => {
                    regions.push(node.data);
                },
                None => {
                    break ;
                },
            }
        }
        regions
    }

    /// Hands out `size` bytes from the start of the first free region that
    /// has as many, and returns the region handed out.  What is left of the
    /// free region stays free under a new name.  `None`, with nothing
    /// changed, where no region is large enough or the names have run out.
    pub fn allocate_sub_memory(&mut self, size: DeviceSize) -> (region: Option<SubMemory>)
        requires
            old(self).wf(),
        ensures
            final(self).wf(),
            final(self).handle() == old(self).handle(),
            final(self).offsets() == old(self).offsets(),
            final(self).allocator_id() == old(self).allocator_id(),
            final(self).block_id() == old(self).block_id(),
            final(self).size() == old(self).size(),
            final(self).memory_type() == old(self).memory_type(),
            final(self).memory_requirements() == old(self).memory_requirements(),
            final(self).buffer_usage() == old(self).buffer_usage(),
            final(self).data() == old(self).data(),
            region is Some <==> can_carve(old(self)@, size, old(self).sub_memory_ids()),
            match region {
                Some(region) => {
                    let fit = first_region(old(self)@, size);
                    &&& 0 <= fit.unwrap() < old(self)@.len()
                    &&& final(self)@ == carve(
                        old(self)@,
                        fit.unwrap(),
                        size,
                        old(self).sub_memory_ids(),
                    )
                    &&& region == (SubMemory { size, is_free: false, ..old(self)@[fit.unwrap()] })
                    &&& region.end() <= old(self).size()
                    &&& final(self).sub_memory_ids() == old(self).sub_memory_ids()
                        + (if old(self)@[fit.unwrap()].size > size {
                        1int
                    } else {
                        0int
                    })
                    &&& final(self).available() == old(self).available() - size
                },
                None => *final(self) == *old(self),
            },
    {
        let mut cursor: Link = self.sub_memory_list.head();
        let ghost mut index: int = 0;
        proof {
            self.sub_memory_list.lemma_len();
        }
        while cursor.is_some()
            invariant
                *self == *old(self),
                self.wf(),
                0 <= index <= self@.len(),
                self@.len() == self.sub_memory_list.slots().len(),
                cursor == (if index < self@.len() {
                    Some(self.sub_memory_list.slots()[index])
                } else {
                    None
                }),
                forall|j: int| 0 <= j < index ==> !region_fits(self@, j, size),
            decreases self@.len() - index,
        {
            let slot = cursor.unwrap();
            proof {
                self.sub_memory_list.lemma_position(index);
            }
            let node = self.sub_memory_list.node(slot);
            let found = node.data;
            let next = node.next;
            if found.is_free && found.size >= size {
                proof {
                    lemma_first_region_from(self@, 0, index, size);
                    lemma_region_ends(self@, self.size as int, index);
                }
                if found.size > size && self.sub_memory_ids == usize::MAX {
                    return None;
                }
                proof {
                    lemma_carve_covers(self@, index, size, self.sub_memory_ids, self.size as int);
                    lemma_carve_calm(self@, index, size, self.sub_memory_ids);
                    lemma_carve_names(self@, index, size, self.sub_memory_ids);
                    lemma_carve_free_bytes(self@, index, size, self.sub_memory_ids);
                }
                if found.size > size {
                    let rest = SubMemory {
                        offset: found.offset + size,
                        size: found.size - size,
                        is_free: true,
                        id: self.sub_memory_ids,
                    };
                    self.sub_memory_ids += 1;
                    self.sub_memory_list.insert_after(slot, rest);
                    proof {
                        self.sub_memory_list.lemma_position(index);
                    }
                }
                let taken = SubMemory {
                    offset: found.offset,
                    size,
                    is_free: false,
                    id: found.id,
                };
                self.sub_memory_list.set(slot, taken);
                self.free_memory -= size;
                assert(self@ =~= carve(old(self)@, index, size, old(self).sub_memory_ids));
                return Some(taken);
            }
            cursor = next;
            proof {
                index = index + 1;
            }
        }
        proof {
            lemma_first_region_from(self@, 0, index, size);
        }
        None
    }

    /// Takes the region named `sub_memory_id` back: it becomes free, and
    /// every run of free neighbours is joined into one region.  Where no
    /// region handed out has that name, nothing changes.
    pub fn free_sub_memory(&mut self, sub_memory_id: usize)
        requires
            old(self).wf(),
        ensures
            final(self).wf(),
            final(self)@ == join_free(give_back(old(self)@, sub_memory_id)),
            final(self).available() == free_bytes(give_back(old(self)@, sub_memory_id)),
            final(self).handle() == old(self).handle(),
            final(self).offsets() == old(self).offsets(),
            final(self).allocator_id() == old(self).allocator_id(),
            final(self).block_id() == old(self).block_id(),
            final(self).size() == old(self).size(),
            final(self).memory_type() == old(self).memory_type(),
            final(self).memory_requirements() == old(self).memory_requirements(),
            final(self).buffer_usage() == old(self).buffer_usage(),
            final(self).data() == old(self).data(),
            final(self).sub_memory_ids() == old(self).sub_memory_ids(),
    {
        let ghost marked = give_back(old(self)@, sub_memory_id);
        let ghost mut done: int = 0;
        let ghost mut seen: int = 0;
        let mut run: Link = None;
        let mut cursor: Link = self.sub_memory_list.head();
        proof {
            self.sub_memory_list.lemma_len();
            assert(self@.take(0) + marked.skip(0) =~= marked);
        }
        while cursor.is_some()
            invariant
                self.sub_memory_list.wf(),
                self@.len() == self.sub_memory_list.slots().len(),
                self.handle == old(self).handle,
                self.offsets == old(self).offsets,
                self.allocator_id == old(self).allocator_id,
                self.block_id == old(self).block_id,
                self.size == old(self).size,
                self.memory_type == old(self).memory_type,
                self.memory_requirements == old(self).memory_requirements,
                self.buffer_usage == old(self).buffer_usage,
                self.data == old(self).data,
                self.sub_memory_ids == old(self).sub_memory_ids,
                marked == give_back(old(self)@, sub_memory_id),
                marked.len() == old(self)@.len(),
                0 <= done <= self@.len(),
                0 <= seen <= marked.len(),
                self@.len() - done == marked.len() - seen,
                self@.skip(done) == old(self)@.skip(seen),
                cursor == (if done < self@.len() {
                    Some(self.sub_memory_list.slots()[done])
                } else {
                    None
                }),
                run == (if done > 0 && self@[done - 1].is_free {
                    Some(self.sub_memory_list.slots()[done - 1])
                } else {
                    None
                }),
                join_free(self@.take(done) + marked.skip(seen)) == join_free(marked),
                calm(self@.take(done)),
                covers(self@, self.size as int),
                distinct_names(self@, self.sub_memory_ids),
                self.free_memory == free_bytes(self@),
            decreases self@.len() - done,
        {
            let slot = cursor.unwrap();
            let ghost entry = self@;
            proof {
                self.sub_memory_list.lemma_position(done);
                assert(entry[done] == entry.skip(done)[0]);
                assert(old(self)@[seen] == old(self)@.skip(seen)[0]);
            }
            let node = self.sub_memory_list.node(slot);
            let region = node.data;
            let next = node.next;
            let named = !region.is_free && region.id == sub_memory_id;
            if named {
                proof {
                    lemma_mark_keeps_regions(entry, done, self.size as int, self.sub_memory_ids);
                    lemma_free_bytes_bounded(
                        entry.update(done, SubMemory { is_free: true, ..region }),
                        self.size as int,
                        entry.len() as int,
                    );
                }
                self.sub_memory_list.set(
                    slot,
                    SubMemory {
                        offset: region.offset,
                        size: region.size,
                        is_free: true,
                        id: region.id,
                    },
                );
                self.free_memory += region.size;
            }
            let ghost current = self@;
            proof {
                self.sub_memory_list.lemma_len();
                self.sub_memory_list.lemma_position(done);
                assert(current[done] == marked[seen]);
                assert(current.take(done) =~= entry.take(done));
                assert(current.skip(done + 1) =~= entry.skip(done).skip(1));
                assert(old(self)@.skip(seen + 1) =~= old(self)@.skip(seen).skip(1));
                if done > 0 {
                    assert(current[done - 1] == entry[done - 1]);
                }
            }
            if named || region.is_free {
                match run {
                    Some(head_slot) => {
                        proof {
                            self.sub_memory_list.lemma_position(done - 1);
                            lemma_absorb_covers(current, done, self.size as int);
                            lemma_absorb_names(current, done, self.sub_memory_ids);
                            lemma_absorb_free_bytes(current, done);
                            lemma_walk_join(current, done, marked, seen);
                        }
                        let head = self.sub_memory_list.node(head_slot).data;
                        self.sub_memory_list.set(
                            head_slot,
                            SubMemory {
                                offset: head.offset,
                                size: head.size + region.size,
                                is_free: true,
                                id: head.id,
                            },
                        );
                        proof {
                            self.sub_memory_list.lemma_position(done - 1);
                        }
                        self.sub_memory_list.remove_after(head_slot);
                        proof {
                            self.sub_memory_list.lemma_len();
                            assert(self@ == absorbed_at(current, done));
                            assert(self@[done - 1].is_free);
                        }
                    },
                    None => {
                        proof {
                            lemma_walk_keep(entry, current, done, marked, seen);
                            done = done + 1;
                        }
                        run = Some(slot);
                    },
                }
            } else {
                proof {
                    lemma_walk_keep(entry, current, done, marked, seen);
                    done = done + 1;
                }
                run = None;
            }
            cursor = next;
            proof {
                seen = seen + 1;
            }
        }
        proof {
            assert(self@.take(done) =~= self@);
            assert(marked.skip(seen) =~= Seq::<SubMemory>::empty());
            assert(self@.take(done) + marked.skip(seen) =~= self@);
            lemma_join_free_calm(self@);
            lemma_give_back_adjoining(old(self)@, sub_memory_id, self.size as int);
            lemma_join_free_bytes(marked);
        }
    }
}

impl Buffer {
    /// The regions of the buffer do not overlap: of two regions the earlier
    /// ends before the later starts, and both lie inside the buffer.
    pub proof fn lemma_regions_disjoint(self, first: int, second: int)
        requires
            self.wf(),
            0 <= first < second < self@.len(),
        ensures
            self@[first].end() <= self@[second].offset,
            self@[second].end() <= self.size(),
    {
        lemma_cover_disjoint(self@, self.size() as int, first, second);
    }

    /// The free bytes and the bytes handed out add up to the size of the
    /// buffer: with no region handed out every byte is free, in one region.
    pub proof fn lemma_all_regions_free(self)
        requires
            self.wf(),
            forall|i: int| 0 <= i < self@.len() ==> (#[trigger] self@[i]).is_free,
        ensures
            self@.len() == 1,
            self@[0] == (SubMemory {
                offset: 0,
                size: self.size(),
                is_free: true,
                id: self@[0].id,
            }),
            self.available() == self.size(),
    {
        if self@.len() > 1 {
            assert(!(self@[0].is_free && self@[1].is_free));
        }
        lemma_free_bytes_single(self@[0]);
        assert(self@ =~= seq![self@[0]]);
    }
}

} // verus!

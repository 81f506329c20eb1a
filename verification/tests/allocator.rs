use device_memory::memory::allocators::{placement, Allocator, Block, Placement};
use device_memory::memory::error::MemoryError;
use device_memory::memory::granularity::is_on_same_page;
use device_memory::memory::granularity::has_granularity_conflict;
use device_memory::memory::{AllocationType, MemoryRequirements};

const HOST_VISIBLE: u32 = 0x2;
const DEVICE_LOCAL: u32 = 0x1;

fn requirements(size: u64, alignment: u64) -> MemoryRequirements {
    MemoryRequirements { size, alignment, memory_type_bits: u32::MAX }
}

fn free_block(id: usize, offset: u64, size: u64) -> Block {
    Block::new(id, offset, size, 0, AllocationType::Free, 0, 0)
}

fn check_partition(allocator: &Allocator) {
    let blocks = allocator.blocks();
    assert!(!blocks.is_empty());
    assert_eq!(blocks[0].offset, 0);
    for pair in blocks.windows(2) {
        assert_eq!(pair[0].offset + pair[0].size, pair[1].offset);
        assert!(!(pair[0].is_free() && pair[1].is_free()));
    }
    let last = blocks[blocks.len() - 1];
    assert_eq!(last.offset + last.size, allocator.size());
    let free: u64 = blocks.iter().filter(|block| block.is_free()).map(|block| block.size).sum();
    assert_eq!(free, allocator.available());
    for (i, first) in blocks.iter().enumerate() {
        for second in blocks.iter().skip(i + 1) {
            assert_ne!(first.id, second.id);
        }
        assert!(first.id < allocator.last_block_id());
        if !first.is_free() {
            assert_eq!(first.size, first.left_padding + first.buffer_size + first.right_padding);
        }
    }
}

fn check_separation(allocator: &Allocator, granularity: u64) {
    let blocks = allocator.blocks();
    for pair in blocks.windows(2) {
        if !pair[0].is_free()
            && !pair[1].is_free()
            && has_granularity_conflict(pair[0].allocation_type, pair[1].allocation_type)
        {
            assert!(!is_on_same_page(
                pair[0].offset + pair[0].left_padding,
                pair[0].buffer_size,
                pair[1].offset + pair[1].left_padding,
                granularity
            ));
        }
    }
}

#[test]
fn block_new_keeps_every_field() {
    let block = Block::new(7, 16, 64, 40, AllocationType::Image, 8, 16);
    assert_eq!(block.id, 7);
    assert_eq!(block.offset, 16);
    assert_eq!(block.size, 64);
    assert_eq!(block.buffer_size, 40);
    assert_eq!(block.allocation_type, AllocationType::Image);
    assert_eq!(block.left_padding, 8);
    assert_eq!(block.right_padding, 16);
    assert!(!block.is_free());
    assert!(free_block(0, 0, 1).is_free());
}

#[test]
fn new_allocator_is_one_free_block() {
    let allocator = Allocator::new(42, 1024, HOST_VISIBLE, 3);
    assert_eq!(allocator.blocks(), vec![free_block(0, 0, 1024)]);
    assert_eq!(allocator.handle(), 42);
    assert_eq!(allocator.size(), 1024);
    assert_eq!(allocator.available(), 1024);
    assert_eq!(allocator.memory_flags(), HOST_VISIBLE);
    assert_eq!(allocator.memory_type_index(), 3);
    assert_eq!(allocator.last_block_id(), 1);
    assert_eq!(allocator.data(), None);
    check_partition(&allocator);
}

#[test]
fn first_request_takes_the_start_of_the_memory() {
    let mut allocator = Allocator::new(1, 1024, DEVICE_LOCAL, 0);
    let placed = allocator.allocate_memory(requirements(300, 16), AllocationType::Buffer, 256);
    assert_eq!(placed, Ok((0, 0)));
    let blocks = allocator.blocks();
    assert_eq!(
        blocks,
        vec![
            Block::new(0, 0, 300, 300, AllocationType::Buffer, 0, 0),
            free_block(1, 300, 724),
        ]
    );
    assert!(!blocks[0].is_free());
    assert!(blocks[0].size >= 300);
    assert!(blocks[1].is_free());
    assert!(blocks[1].size <= 724);
    assert!(blocks[1].offset >= 300);
    assert_eq!(allocator.available(), 724);
    assert_eq!(allocator.last_block_id(), 2);
    check_partition(&allocator);
}

#[test]
fn image_behind_buffer_moves_to_the_next_page() {
    let mut allocator = Allocator::new(1, 1024, DEVICE_LOCAL, 0);
    allocator.allocate_memory(requirements(300, 16), AllocationType::Buffer, 256).unwrap();
    let placed = allocator.allocate_memory(requirements(10, 16), AllocationType::ImageOptimal, 256);
    assert_eq!(placed, Ok((1, 512)));
    assert_eq!(
        allocator.blocks(),
        vec![
            Block::new(0, 0, 300, 300, AllocationType::Buffer, 0, 0),
            Block::new(1, 300, 222, 10, AllocationType::ImageOptimal, 212, 0),
            free_block(2, 522, 502),
        ]
    );
    // more is consumed than the two resources take
    assert_eq!(allocator.available(), 502);
    assert!(allocator.size() - allocator.available() > 300 + 10);
    check_partition(&allocator);
    check_separation(&allocator, 256);
}

#[test]
fn buffer_behind_buffer_needs_no_page_of_its_own() {
    let mut allocator = Allocator::new(1, 1024, DEVICE_LOCAL, 0);
    allocator.allocate_memory(requirements(300, 16), AllocationType::Buffer, 256).unwrap();
    let placed = allocator.allocate_memory(requirements(10, 16), AllocationType::Buffer, 256);
    assert_eq!(placed, Ok((1, 304)));
    assert_eq!(
        allocator.blocks(),
        vec![
            Block::new(0, 0, 300, 300, AllocationType::Buffer, 0, 0),
            Block::new(1, 300, 14, 10, AllocationType::Buffer, 4, 0),
            free_block(2, 314, 710),
        ]
    );
    assert_eq!(allocator.available(), 710);
}

#[test]
fn image_on_another_page_is_not_moved() {
    let mut allocator = Allocator::new(1, 1024, DEVICE_LOCAL, 0);
    allocator.allocate_memory(requirements(256, 1), AllocationType::Buffer, 256).unwrap();
    let placed = allocator.allocate_memory(requirements(10, 1), AllocationType::Image, 256);
    assert_eq!(placed, Ok((1, 256)));
    check_separation(&allocator, 256);
}

#[test]
fn returned_offsets_are_aligned() {
    let mut allocator = Allocator::new(1, 1 << 20, DEVICE_LOCAL, 0);
    let kinds = [
        AllocationType::Buffer,
        AllocationType::Image,
        AllocationType::ImageLinear,
        AllocationType::ImageOptimal,
    ];
    let mut step = 0u64;
    for round in 0..40u64 {
        let alignment = 1u64 << (round % 9);
        let size = 1 + (round * 37) % 500;
        let kind = kinds[(round % 4) as usize];
        let (_, offset) = allocator.allocate_memory(requirements(size, alignment), kind, 256).unwrap();
        assert_eq!(offset % alignment, 0);
        assert!(offset >= step);
        step = offset;
        check_partition(&allocator);
        check_separation(&allocator, 256);
    }
}

#[test]
fn offset_moved_to_a_page_boundary_may_miss_an_alignment_that_does_not_divide_the_page() {
    let mut allocator = Allocator::new(1, 4096, DEVICE_LOCAL, 0);
    allocator.allocate_memory(requirements(10, 1), AllocationType::Buffer, 64).unwrap();
    let (_, offset) =
        allocator.allocate_memory(requirements(10, 48), AllocationType::ImageOptimal, 64).unwrap();
    assert_eq!(offset, 64);
    assert_ne!(offset % 48, 0);
}

#[test]
fn exact_fit_leaves_no_rest() {
    let mut allocator = Allocator::new(1, 512, DEVICE_LOCAL, 0);
    let placed = allocator.allocate_memory(requirements(512, 1), AllocationType::Image, 256);
    assert_eq!(placed, Ok((0, 0)));
    assert_eq!(allocator.blocks(), vec![Block::new(0, 0, 512, 512, AllocationType::Image, 0, 0)]);
    assert_eq!(allocator.available(), 0);
    assert_eq!(allocator.last_block_id(), 1);
    check_partition(&allocator);
}

#[test]
fn request_that_fits_nowhere_is_refused_and_changes_nothing() {
    let mut allocator = Allocator::new(1, 1024, DEVICE_LOCAL, 0);
    allocator.allocate_memory(requirements(300, 16), AllocationType::Buffer, 256).unwrap();
    let before = allocator.blocks();
    let placed = allocator.allocate_memory(requirements(725, 1), AllocationType::Buffer, 256);
    assert_eq!(placed, Err(MemoryError::AllocatorExhausted));
    assert_eq!(allocator.blocks(), before);
    assert_eq!(allocator.available(), 724);
    assert_eq!(allocator.last_block_id(), 2);
}

#[test]
fn request_larger_than_the_memory_is_refused() {
    let mut allocator = Allocator::new(1, 1024, DEVICE_LOCAL, 0);
    let placed = allocator.allocate_memory(requirements(1025, 1), AllocationType::Buffer, 256);
    assert_eq!(placed, Err(MemoryError::AllocatorExhausted));
    let placed = allocator.allocate_memory(requirements(u64::MAX, 4096), AllocationType::Image, 256);
    assert_eq!(placed, Err(MemoryError::AllocatorExhausted));
    assert_eq!(allocator.blocks(), vec![free_block(0, 0, 1024)]);
}

#[test]
fn padding_counts_against_the_block() {
    let mut allocator = Allocator::new(1, 1024, DEVICE_LOCAL, 0);
    allocator.allocate_memory(requirements(300, 16), AllocationType::Buffer, 256).unwrap();
    // 212 bytes of padding and 513 bytes do not fit the 724 bytes left
    let placed = allocator.allocate_memory(requirements(513, 16), AllocationType::ImageOptimal, 256);
    assert_eq!(placed, Err(MemoryError::AllocatorExhausted));
    let placed = allocator.allocate_memory(requirements(512, 16), AllocationType::ImageOptimal, 256);
    assert_eq!(placed, Ok((1, 512)));
    assert_eq!(allocator.available(), 0);
}

#[test]
fn first_fit_takes_the_first_block_not_the_best() {
    let mut allocator = Allocator::new(1, 1000, DEVICE_LOCAL, 0);
    let (a, _) = allocator.allocate_memory(requirements(400, 1), AllocationType::Buffer, 1).unwrap();
    allocator.allocate_memory(requirements(100, 1), AllocationType::Buffer, 1).unwrap();
    let (c, _) = allocator.allocate_memory(requirements(200, 1), AllocationType::Buffer, 1).unwrap();
    allocator.allocate_memory(requirements(300, 1), AllocationType::Buffer, 1).unwrap();
    allocator.free_memory(a);
    allocator.free_memory(c);
    // free blocks of 400 bytes at 0 and of 200 bytes at 500
    let placed = allocator.allocate_memory(requirements(150, 1), AllocationType::Buffer, 1);
    assert_eq!(placed, Ok((a, 0)));
    check_partition(&allocator);
}

#[test]
fn block_before_a_conflicting_neighbour_on_the_same_page_is_passed_over() {
    let mut allocator = Allocator::new(1, 1024, DEVICE_LOCAL, 0);
    let (x, _) = allocator.allocate_memory(requirements(100, 1), AllocationType::Buffer, 256).unwrap();
    let (y, at) =
        allocator.allocate_memory(requirements(10, 1), AllocationType::ImageOptimal, 256).unwrap();
    assert_eq!((y, at), (1, 256));
    allocator.free_memory(x);
    assert_eq!(
        allocator.blocks(),
        vec![
            free_block(0, 0, 100),
            Block::new(1, 100, 166, 10, AllocationType::ImageOptimal, 156, 0),
            free_block(2, 266, 758),
        ]
    );
    let placed = allocator.allocate_memory(requirements(50, 1), AllocationType::Buffer, 256);
    assert_eq!(placed, Ok((2, 512)));
    assert_eq!(
        allocator.blocks(),
        vec![
            free_block(0, 0, 100),
            Block::new(1, 100, 166, 10, AllocationType::ImageOptimal, 156, 0),
            Block::new(2, 266, 296, 50, AllocationType::Buffer, 246, 0),
            free_block(3, 562, 462),
        ]
    );
    check_partition(&allocator);
    check_separation(&allocator, 256);
    // a buffer may take the free block before the image's block once no conflict is left
    let placed = allocator.allocate_memory(requirements(50, 1), AllocationType::ImageOptimal, 256);
    assert_eq!(placed, Ok((0, 0)));
}

#[test]
fn allocate_then_free_restores_a_new_allocator() {
    let mut allocator = Allocator::new(1, 1024, DEVICE_LOCAL, 0);
    let (id, _) = allocator.allocate_memory(requirements(300, 16), AllocationType::Buffer, 256).unwrap();
    allocator.free_memory(id);
    assert_eq!(allocator.blocks(), vec![free_block(0, 0, 1024)]);
    assert_eq!(allocator.available(), 1024);
    check_partition(&allocator);
}

#[test]
fn allocate_then_free_restores_any_state() {
    let mut allocator = Allocator::new(1, 4096, DEVICE_LOCAL, 0);
    allocator.allocate_memory(requirements(300, 16), AllocationType::Buffer, 256).unwrap();
    let (b, _) = allocator.allocate_memory(requirements(100, 16), AllocationType::Image, 256).unwrap();
    allocator.allocate_memory(requirements(50, 16), AllocationType::Buffer, 256).unwrap();
    allocator.free_memory(b);
    let before = allocator.blocks();
    let available = allocator.available();
    let (id, _) =
        allocator.allocate_memory(requirements(20, 32), AllocationType::ImageLinear, 256).unwrap();
    assert_ne!(allocator.blocks(), before);
    allocator.free_memory(id);
    assert_eq!(allocator.blocks(), before);
    assert_eq!(allocator.available(), available);
}

#[test]
fn free_bytes_return_after_any_number_of_pairs() {
    let mut allocator = Allocator::new(1, 1 << 16, DEVICE_LOCAL, 0);
    let kinds = [AllocationType::Buffer, AllocationType::ImageOptimal, AllocationType::Image];
    let mut ids = Vec::new();
    for round in 0..30u64 {
        let kind = kinds[(round % 3) as usize];
        let (id, _) = allocator
            .allocate_memory(requirements(10 + round * 13, 1 << (round % 6)), kind, 128)
            .unwrap();
        ids.push(id);
        check_partition(&allocator);
    }
    assert!(allocator.available() < 1 << 16);
    // give back in an order unlike that of the requests
    for (turn, id) in ids.iter().enumerate() {
        if turn % 2 == 0 {
            allocator.free_memory(*id);
            check_partition(&allocator);
        }
    }
    for (turn, id) in ids.iter().enumerate().rev() {
        if turn % 2 == 1 {
            allocator.free_memory(*id);
            check_partition(&allocator);
        }
    }
    assert_eq!(allocator.available(), 1 << 16);
    assert_eq!(allocator.blocks().len(), 1);
    assert_eq!(allocator.blocks()[0].offset, 0);
    assert_eq!(allocator.blocks()[0].size, 1 << 16);
    assert!(allocator.blocks()[0].is_free());
}

#[test]
fn free_joins_with_the_free_block_behind() {
    let mut allocator = Allocator::new(1, 1000, DEVICE_LOCAL, 0);
    let (a, _) = allocator.allocate_memory(requirements(100, 1), AllocationType::Buffer, 1).unwrap();
    let (b, _) = allocator.allocate_memory(requirements(100, 1), AllocationType::Buffer, 1).unwrap();
    allocator.free_memory(b);
    assert_eq!(
        allocator.blocks(),
        vec![Block::new(a, 0, 100, 100, AllocationType::Buffer, 0, 0), free_block(b, 100, 900)]
    );
    assert_eq!(allocator.available(), 900);
}

#[test]
fn free_joins_with_the_free_block_before() {
    let mut allocator = Allocator::new(1, 300, DEVICE_LOCAL, 0);
    let (a, _) = allocator.allocate_memory(requirements(100, 1), AllocationType::Buffer, 1).unwrap();
    let (b, _) = allocator.allocate_memory(requirements(100, 1), AllocationType::Buffer, 1).unwrap();
    let (c, _) = allocator.allocate_memory(requirements(100, 1), AllocationType::Buffer, 1).unwrap();
    allocator.free_memory(a);
    allocator.free_memory(b);
    assert_eq!(
        allocator.blocks(),
        vec![free_block(a, 0, 200), Block::new(c, 200, 100, 100, AllocationType::Buffer, 0, 0)]
    );
    assert_eq!(allocator.available(), 200);
}

#[test]
fn free_joins_on_both_sides() {
    let mut allocator = Allocator::new(1, 300, DEVICE_LOCAL, 0);
    let (a, _) = allocator.allocate_memory(requirements(100, 1), AllocationType::Buffer, 1).unwrap();
    let (b, _) = allocator.allocate_memory(requirements(100, 1), AllocationType::Buffer, 1).unwrap();
    let (c, _) = allocator.allocate_memory(requirements(100, 1), AllocationType::Buffer, 1).unwrap();
    allocator.free_memory(a);
    allocator.free_memory(c);
    assert_eq!(allocator.blocks().len(), 3);
    allocator.free_memory(b);
    assert_eq!(allocator.blocks(), vec![free_block(a, 0, 300)]);
}

#[test]
fn free_does_not_join_across_a_used_block() {
    let mut allocator = Allocator::new(1, 300, DEVICE_LOCAL, 0);
    let (a, _) = allocator.allocate_memory(requirements(100, 1), AllocationType::Buffer, 1).unwrap();
    let (b, _) = allocator.allocate_memory(requirements(100, 1), AllocationType::Buffer, 1).unwrap();
    let (c, _) = allocator.allocate_memory(requirements(100, 1), AllocationType::Buffer, 1).unwrap();
    allocator.free_memory(a);
    allocator.free_memory(c);
    assert_eq!(
        allocator.blocks(),
        vec![
            free_block(a, 0, 100),
            Block::new(b, 100, 100, 100, AllocationType::Buffer, 0, 0),
            free_block(c, 200, 100),
        ]
    );
    assert_eq!(allocator.available(), 200);
}

#[test]
fn free_of_an_unknown_name_changes_nothing() {
    let mut allocator = Allocator::new(1, 1024, DEVICE_LOCAL, 0);
    allocator.allocate_memory(requirements(300, 16), AllocationType::Buffer, 256).unwrap();
    let before = allocator.blocks();
    allocator.free_memory(99);
    assert_eq!(allocator.blocks(), before);
    // block 1 is free already
    allocator.free_memory(1);
    assert_eq!(allocator.blocks(), before);
    assert_eq!(allocator.available(), 724);
}

#[test]
fn free_clears_padding_and_payload() {
    let mut allocator = Allocator::new(1, 2048, DEVICE_LOCAL, 0);
    allocator.allocate_memory(requirements(300, 16), AllocationType::Buffer, 256).unwrap();
    let (image, _) =
        allocator.allocate_memory(requirements(10, 16), AllocationType::ImageOptimal, 256).unwrap();
    allocator.allocate_memory(requirements(10, 16), AllocationType::ImageOptimal, 256).unwrap();
    allocator.free_memory(image);
    assert_eq!(allocator.blocks()[1], free_block(1, 300, 222));
}

#[test]
fn used_payloads_do_not_overlap() {
    let mut allocator = Allocator::new(1, 1 << 14, DEVICE_LOCAL, 0);
    let kinds = [AllocationType::Buffer, AllocationType::ImageOptimal];
    for round in 0..20u64 {
        allocator
            .allocate_memory(requirements(50 + round, 8), kinds[(round % 2) as usize], 256)
            .unwrap();
    }
    allocator.free_memory(3);
    allocator.free_memory(8);
    allocator.allocate_memory(requirements(20, 4), AllocationType::ImageLinear, 256).unwrap();
    let used: Vec<Block> = allocator.blocks().into_iter().filter(|block| !block.is_free()).collect();
    for (i, first) in used.iter().enumerate() {
        for second in used.iter().skip(i + 1) {
            let first_end = first.offset + first.left_padding + first.buffer_size;
            let second_start = second.offset + second.left_padding;
            assert!(first_end <= second_start);
        }
    }
    check_partition(&allocator);
    check_separation(&allocator, 256);
}

#[test]
fn zero_sized_memory_takes_only_empty_requests() {
    let mut allocator = Allocator::new(1, 0, DEVICE_LOCAL, 0);
    assert_eq!(
        allocator.allocate_memory(requirements(1, 1), AllocationType::Buffer, 1),
        Err(MemoryError::AllocatorExhausted)
    );
    assert_eq!(allocator.allocate_memory(requirements(0, 1), AllocationType::Buffer, 1), Ok((0, 0)));
    check_partition(&allocator);
}

#[test]
fn map_memory_records_the_address_of_host_visible_memory() {
    let mut allocator = Allocator::new(1, 1024, HOST_VISIBLE | 0x4, 0);
    assert!(allocator.is_host_visible());
    assert!(allocator.map_memory(0x1000));
    assert_eq!(allocator.data(), Some(0x1000));
}

#[test]
fn map_memory_leaves_device_local_memory_unmapped() {
    let mut allocator = Allocator::new(1, 1024, DEVICE_LOCAL, 0);
    assert!(!allocator.is_host_visible());
    assert!(!allocator.map_memory(0x1000));
    assert_eq!(allocator.data(), None);
}

#[test]
fn map_memory_refuses_a_mapping_beyond_the_address_space() {
    let mut allocator = Allocator::new(1, 1024, HOST_VISIBLE, 0);
    assert!(!allocator.map_memory(usize::MAX - 1000));
    assert_eq!(allocator.data(), None);
    assert!(allocator.map_memory(usize::MAX - 1024));
    assert_eq!(allocator.data(), Some(usize::MAX - 1024));
}

#[test]
fn placement_in_a_free_block_without_neighbours() {
    let block = free_block(0, 300, 724);
    let place = placement(&block, None, None, requirements(10, 16), AllocationType::Image, 256);
    assert_eq!(place, Some(Placement { aligned_offset: 304, left_padding: 4, right_padding: 0 }));
}

#[test]
fn placement_refuses_a_used_block() {
    let block = Block::new(0, 0, 100, 100, AllocationType::Buffer, 0, 0);
    assert_eq!(placement(&block, None, None, requirements(1, 1), AllocationType::Buffer, 256), None);
}

#[test]
fn placement_moves_behind_a_conflicting_neighbour() {
    let before = Block::new(0, 0, 300, 300, AllocationType::Buffer, 0, 0);
    let block = free_block(1, 300, 724);
    let place =
        placement(&block, Some(before), None, requirements(10, 16), AllocationType::ImageOptimal, 256);
    assert_eq!(place, Some(Placement { aligned_offset: 512, left_padding: 212, right_padding: 0 }));
    let place = placement(&block, Some(before), None, requirements(10, 16), AllocationType::Buffer, 256);
    assert_eq!(place, Some(Placement { aligned_offset: 304, left_padding: 4, right_padding: 0 }));
}

#[test]
fn placement_before_a_conflicting_neighbour_on_the_same_page_fails() {
    let block = free_block(0, 0, 100);
    let after = Block::new(1, 100, 166, 10, AllocationType::ImageOptimal, 156, 0);
    let place = placement(&block, None, Some(after), requirements(50, 1), AllocationType::Buffer, 256);
    assert_eq!(place, None);
    // with a neighbour of its own kind the block is taken
    let same = Block::new(1, 100, 166, 10, AllocationType::Buffer, 156, 0);
    let place = placement(&block, None, Some(same), requirements(50, 1), AllocationType::Buffer, 256);
    assert_eq!(place, Some(Placement { aligned_offset: 0, left_padding: 0, right_padding: 0 }));
}

#[test]
fn placement_before_a_conflicting_neighbour_on_another_page_succeeds() {
    let block = free_block(0, 0, 500);
    let after = Block::new(1, 500, 10, 10, AllocationType::ImageOptimal, 0, 0);
    let place = placement(&block, None, Some(after), requirements(256, 1), AllocationType::Buffer, 256);
    assert_eq!(place, Some(Placement { aligned_offset: 0, left_padding: 0, right_padding: 0 }));
    let place = placement(&block, None, Some(after), requirements(257, 1), AllocationType::Buffer, 256);
    assert_eq!(place, None);
}

#[test]
fn placement_near_the_top_of_the_range_does_not_wrap() {
    let block = free_block(0, u64::MAX - 10, 10);
    assert_eq!(placement(&block, None, None, requirements(1, 4096), AllocationType::Buffer, 256), None);
    let place = placement(&block, None, None, requirements(10, 1), AllocationType::Buffer, 256);
    assert_eq!(
        place,
        Some(Placement { aligned_offset: u64::MAX - 10, left_padding: 0, right_padding: 0 })
    );
}

use device_memory::memory::buffers::{Buffer, SubMemory};
use device_memory::memory::MemoryRequirements;

const HOST_VISIBLE: u32 = 0x2;
const TRANSFER_SRC: u32 = 0x1;
const VERTEX_BUFFER: u32 = 0x80;

fn staging(size: u64) -> Buffer {
    Buffer::new(
        9,
        size,
        TRANSFER_SRC,
        MemoryRequirements { size, alignment: 16, memory_type_bits: 0b11 },
        HOST_VISIBLE,
    )
}

fn region(offset: u64, size: u64, is_free: bool, id: usize) -> SubMemory {
    SubMemory { offset, size, is_free, id }
}

fn check_cover(buffer: &Buffer) {
    let regions = buffer.regions();
    assert!(!regions.is_empty());
    assert_eq!(regions[0].offset, 0);
    for pair in regions.windows(2) {
        assert_eq!(pair[0].offset + pair[0].size, pair[1].offset);
        assert!(!(pair[0].is_free && pair[1].is_free));
    }
    let last = regions[regions.len() - 1];
    assert_eq!(last.offset + last.size, buffer.size());
    let free: u64 = regions.iter().filter(|region| region.is_free).map(|region| region.size).sum();
    assert_eq!(free, buffer.available());
    for (i, first) in regions.iter().enumerate() {
        for second in regions.iter().skip(i + 1) {
            assert_ne!(first.id, second.id);
        }
        assert!(first.id < buffer.sub_memory_ids());
    }
}

#[test]
fn new_buffer_is_one_free_region() {
    let buffer = staging(1000);
    assert_eq!(buffer.regions(), vec![region(0, 1000, true, 0)]);
    assert_eq!(buffer.handle(), 9);
    assert_eq!(buffer.size(), 1000);
    assert_eq!(buffer.available(), 1000);
    assert_eq!(buffer.sub_memory_ids(), 1);
    assert_eq!(buffer.buffer_usage(), TRANSFER_SRC);
    assert_eq!(buffer.memory_type(), HOST_VISIBLE);
    assert_eq!(
        buffer.memory_requirements(),
        MemoryRequirements { size: 1000, alignment: 16, memory_type_bits: 0b11 }
    );
    assert_eq!(buffer.allocator_id(), None);
    assert_eq!(buffer.block_id(), None);
    assert_eq!(buffer.offset(), None);
    assert_eq!(buffer.data(), None);
    check_cover(&buffer);
}

#[test]
fn sub_allocation_takes_the_start_of_the_first_free_region() {
    let mut buffer = staging(1000);
    assert_eq!(buffer.allocate_sub_memory(100), Some(region(0, 100, false, 0)));
    assert_eq!(buffer.regions(), vec![region(0, 100, false, 0), region(100, 900, true, 1)]);
    assert_eq!(buffer.available(), 900);
    assert_eq!(buffer.allocate_sub_memory(50), Some(region(100, 50, false, 1)));
    assert_eq!(
        buffer.regions(),
        vec![region(0, 100, false, 0), region(100, 50, false, 1), region(150, 850, true, 2)]
    );
    assert_eq!(buffer.available(), 850);
    assert_eq!(buffer.sub_memory_ids(), 3);
    check_cover(&buffer);
}

#[test]
fn sub_allocation_of_a_whole_region_leaves_no_rest() {
    let mut buffer = staging(64);
    assert_eq!(buffer.allocate_sub_memory(64), Some(region(0, 64, false, 0)));
    assert_eq!(buffer.regions(), vec![region(0, 64, false, 0)]);
    assert_eq!(buffer.available(), 0);
    assert_eq!(buffer.sub_memory_ids(), 1);
}

#[test]
fn sub_allocation_that_fits_nowhere_changes_nothing() {
    let mut buffer = staging(100);
    buffer.allocate_sub_memory(60).unwrap();
    let before = buffer.regions();
    assert_eq!(buffer.allocate_sub_memory(41), None);
    assert_eq!(buffer.regions(), before);
    assert_eq!(buffer.available(), 40);
    assert_eq!(buffer.sub_memory_ids(), 2);
    assert_eq!(buffer.allocate_sub_memory(40), Some(region(60, 40, false, 1)));
}

#[test]
fn sub_allocation_is_first_fit() {
    let mut buffer = staging(1000);
    let a = buffer.allocate_sub_memory(400).unwrap();
    buffer.allocate_sub_memory(100).unwrap();
    let c = buffer.allocate_sub_memory(200).unwrap();
    buffer.allocate_sub_memory(300).unwrap();
    buffer.free_sub_memory(a.id);
    buffer.free_sub_memory(c.id);
    assert_eq!(buffer.allocate_sub_memory(150), Some(region(0, 150, false, a.id)));
    check_cover(&buffer);
}

#[test]
fn free_sub_memory_joins_with_the_region_behind() {
    let mut buffer = staging(1000);
    let first = buffer.allocate_sub_memory(100).unwrap();
    buffer.free_sub_memory(first.id);
    assert_eq!(buffer.regions(), vec![region(0, 1000, true, 0)]);
    assert_eq!(buffer.available(), 1000);
}

#[test]
fn free_sub_memory_joins_on_both_sides() {
    let mut buffer = staging(300);
    let a = buffer.allocate_sub_memory(100).unwrap();
    let b = buffer.allocate_sub_memory(100).unwrap();
    let c = buffer.allocate_sub_memory(100).unwrap();
    buffer.free_sub_memory(a.id);
    buffer.free_sub_memory(c.id);
    assert_eq!(
        buffer.regions(),
        vec![region(0, 100, true, a.id), region(100, 100, false, b.id), region(200, 100, true, c.id)]
    );
    buffer.free_sub_memory(b.id);
    assert_eq!(buffer.regions(), vec![region(0, 300, true, a.id)]);
    assert_eq!(buffer.available(), 300);
    check_cover(&buffer);
}

#[test]
fn free_sub_memory_keeps_used_regions_apart() {
    let mut buffer = staging(300);
    let a = buffer.allocate_sub_memory(100).unwrap();
    let b = buffer.allocate_sub_memory(100).unwrap();
    buffer.allocate_sub_memory(100).unwrap();
    buffer.free_sub_memory(a.id);
    // the used region behind a free one must not be swallowed
    assert_eq!(buffer.regions()[0], region(0, 100, true, a.id));
    assert_eq!(buffer.regions()[1], region(100, 100, false, b.id));
    assert_eq!(buffer.regions().len(), 3);
}

#[test]
fn free_sub_memory_of_an_unknown_name_changes_nothing() {
    let mut buffer = staging(300);
    buffer.allocate_sub_memory(100).unwrap();
    let before = buffer.regions();
    buffer.free_sub_memory(17);
    buffer.free_sub_memory(1);
    assert_eq!(buffer.regions(), before);
    assert_eq!(buffer.available(), 200);
}

#[test]
fn many_uploads_share_one_buffer_and_give_everything_back() {
    let mut buffer = staging(4096);
    let mut live = Vec::new();
    for round in 0..40u64 {
        if let Some(handed) = buffer.allocate_sub_memory(1 + (round * 29) % 200) {
            live.push(handed.id);
        }
        if round % 3 == 2 {
            let id = live.remove(0);
            buffer.free_sub_memory(id);
        }
        check_cover(&buffer);
    }
    for id in live {
        buffer.free_sub_memory(id);
        check_cover(&buffer);
    }
    assert_eq!(buffer.available(), 4096);
    assert_eq!(buffer.regions().len(), 1);
    assert!(buffer.regions()[0].is_free);
    assert_eq!(buffer.regions()[0].size, 4096);
}

#[test]
fn empty_sub_allocation_takes_an_empty_region() {
    let mut buffer = staging(10);
    assert_eq!(buffer.allocate_sub_memory(0), Some(region(0, 0, false, 0)));
    assert_eq!(buffer.regions(), vec![region(0, 0, false, 0), region(0, 10, true, 1)]);
    assert_eq!(buffer.available(), 10);
    check_cover(&buffer);
}

#[test]
fn bind_records_where_the_buffer_lives() {
    let mut buffer = staging(1000);
    buffer.bind(2, 5, 512, Some(0x10_000));
    assert_eq!(buffer.allocator_id(), Some(2));
    assert_eq!(buffer.block_id(), Some(5));
    assert_eq!(buffer.offset(), Some(512));
    assert_eq!(buffer.data(), Some(0x10_000));
    assert_eq!(buffer.regions(), vec![region(0, 1000, true, 0)]);
}

#[test]
fn bind_drops_an_address_from_which_the_buffer_would_leave_the_address_space() {
    let mut buffer = staging(1000);
    buffer.bind(0, 0, 0, Some(usize::MAX - 999));
    assert_eq!(buffer.data(), None);
    let mut buffer = staging(1000);
    buffer.bind(0, 0, 0, Some(usize::MAX - 1000));
    assert_eq!(buffer.data(), Some(usize::MAX - 1000));
}

#[test]
fn serves_checks_size_usage_and_properties() {
    let buffer = Buffer::new(
        1,
        100,
        TRANSFER_SRC | VERTEX_BUFFER,
        MemoryRequirements { size: 112, alignment: 16, memory_type_bits: 1 },
        HOST_VISIBLE | 0x4,
    );
    assert!(buffer.serves(100, TRANSFER_SRC, HOST_VISIBLE));
    assert!(buffer.serves(1, TRANSFER_SRC | VERTEX_BUFFER, HOST_VISIBLE | 0x4));
    assert!(buffer.serves(0, 0, 0));
    assert!(!buffer.serves(101, TRANSFER_SRC, HOST_VISIBLE));
    assert!(!buffer.serves(100, 0x2, HOST_VISIBLE));
    assert!(!buffer.serves(100, TRANSFER_SRC, 0x1));
    assert!(!buffer.serves(100, TRANSFER_SRC, HOST_VISIBLE | 0x1));
    assert!(buffer.is_host_visible());
}

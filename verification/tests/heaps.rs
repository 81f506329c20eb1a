use ash::vk;
use device_memory::memory::heaps::{
    find_suitable_heap, find_type, get_memory_heaps, MemoryHeap, MemoryType, MemoryTypeInfo,
};

fn info(flags: vk::MemoryPropertyFlags, heap_index: u32) -> MemoryTypeInfo {
    MemoryTypeInfo { property_flags: flags.as_raw(), heap_index }
}

fn device_local() -> vk::MemoryPropertyFlags {
    vk::MemoryPropertyFlags::DEVICE_LOCAL
}

fn host() -> vk::MemoryPropertyFlags {
    vk::MemoryPropertyFlags::HOST_VISIBLE | vk::MemoryPropertyFlags::HOST_COHERENT
}

fn typical() -> Vec<MemoryHeap> {
    get_memory_heaps(
        &vec![8 << 20, 16 << 20],
        &vec![
            info(device_local(), 0),
            info(host(), 1),
            info(host() | vk::MemoryPropertyFlags::HOST_CACHED, 1),
        ],
    )
}

#[test]
fn heaps_collect_their_types_in_order() {
    let heaps = typical();
    assert_eq!(heaps.len(), 2);
    assert_eq!(heaps[0].size, 8 << 20);
    assert_eq!(heaps[0].free_memory, 8 << 20);
    assert_eq!(
        heaps[0].memory_types,
        vec![MemoryType { property_flags: device_local().as_raw(), type_index: 0 }]
    );
    assert_eq!(
        heaps[1].memory_types,
        vec![
            MemoryType { property_flags: host().as_raw(), type_index: 1 },
            MemoryType {
                property_flags: (host() | vk::MemoryPropertyFlags::HOST_CACHED).as_raw(),
                type_index: 2
            },
        ]
    );
}

#[test]
fn heap_flags_are_the_union_of_its_types() {
    let heaps = get_memory_heaps(
        &vec![1024],
        &vec![
            info(vk::MemoryPropertyFlags::DEVICE_LOCAL, 0),
            info(vk::MemoryPropertyFlags::HOST_VISIBLE, 0),
            info(vk::MemoryPropertyFlags::HOST_CACHED, 0),
        ],
    );
    assert_eq!(heaps[0].property_flags, 0b1011);
    let heaps = typical();
    assert_eq!(heaps[0].property_flags, 0b1);
    assert_eq!(heaps[1].property_flags, 0b1110);
}

#[test]
fn heap_without_types_has_no_flags() {
    let heaps = get_memory_heaps(&vec![100, 200], &vec![info(device_local(), 1)]);
    assert_eq!(heaps[0].property_flags, 0);
    assert!(heaps[0].memory_types.is_empty());
    assert_eq!(heaps[1].memory_types.len(), 1);
}

#[test]
fn type_of_a_missing_heap_belongs_to_none() {
    let heaps = get_memory_heaps(&vec![100], &vec![info(device_local(), 5), info(host(), 0)]);
    assert_eq!(heaps.len(), 1);
    assert_eq!(
        heaps[0].memory_types,
        vec![MemoryType { property_flags: host().as_raw(), type_index: 1 }]
    );
    assert_eq!(heaps[0].property_flags, host().as_raw());
}

#[test]
fn no_heaps_no_catalog() {
    assert!(get_memory_heaps(&Vec::new(), &vec![info(host(), 0)]).is_empty());
}

#[test]
fn find_type_returns_the_first_type_with_all_flags() {
    let heaps = typical();
    assert_eq!(find_type(&heaps[1].memory_types, host().as_raw()), Some(1));
    assert_eq!(
        find_type(&heaps[1].memory_types, vk::MemoryPropertyFlags::HOST_CACHED.as_raw()),
        Some(2)
    );
    assert_eq!(find_type(&heaps[1].memory_types, device_local().as_raw()), None);
    assert_eq!(find_type(&heaps[0].memory_types, 0), Some(0));
    assert_eq!(find_type(&Vec::new(), 0), None);
}

#[test]
fn find_suitable_heap_reserves_in_the_first_heap_that_serves() {
    let mut heaps = typical();
    let found = find_suitable_heap(&mut heaps, 1 << 20, host().as_raw());
    assert_eq!(found, Some(1));
    assert_eq!(heaps[0].free_memory, 8 << 20);
    assert_eq!(heaps[1].free_memory, 15 << 20);
    assert_eq!(heaps[1].size, 16 << 20);
    let found = find_suitable_heap(&mut heaps, 1 << 20, device_local().as_raw());
    assert_eq!(found, Some(0));
    assert_eq!(heaps[0].free_memory, 7 << 20);
}

#[test]
fn find_suitable_heap_fails_without_flags_or_room() {
    let mut heaps = typical();
    let protected = vk::MemoryPropertyFlags::PROTECTED.as_raw();
    assert_eq!(find_suitable_heap(&mut heaps, 1, protected), None);
    assert_eq!(find_suitable_heap(&mut heaps, (8 << 20) + 1, device_local().as_raw()), None);
    assert_eq!(heaps[0].free_memory, 8 << 20);
    assert_eq!(heaps[1].free_memory, 16 << 20);
}

#[test]
fn find_suitable_heap_passes_over_a_full_heap() {
    let mut heaps = get_memory_heaps(
        &vec![100, 1000],
        &vec![info(device_local(), 0), info(device_local(), 1)],
    );
    assert_eq!(find_suitable_heap(&mut heaps, 100, device_local().as_raw()), Some(0));
    assert_eq!(heaps[0].free_memory, 0);
    assert_eq!(find_suitable_heap(&mut heaps, 100, device_local().as_raw()), Some(1));
    assert_eq!(heaps[1].free_memory, 900);
}

#[test]
fn heap_that_offers_the_flags_only_across_types_reserves_and_names_no_type() {
    let mut heaps = get_memory_heaps(
        &vec![1000],
        &vec![
            info(vk::MemoryPropertyFlags::DEVICE_LOCAL, 0),
            info(vk::MemoryPropertyFlags::HOST_VISIBLE, 0),
        ],
    );
    let both =
        (vk::MemoryPropertyFlags::DEVICE_LOCAL | vk::MemoryPropertyFlags::HOST_VISIBLE).as_raw();
    assert_eq!(find_suitable_heap(&mut heaps, 10, both), None);
    assert_eq!(heaps[0].free_memory, 990);
}

#[test]
fn free_bytes_never_exceed_the_size() {
    let mut heaps = typical();
    for step in 0..64u64 {
        find_suitable_heap(&mut heaps, step << 16, host().as_raw());
        find_suitable_heap(&mut heaps, step << 15, device_local().as_raw());
        for heap in &heaps {
            assert!(heap.free_memory <= heap.size);
        }
    }
}

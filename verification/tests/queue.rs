use ash::vk;
use device_memory::device::queue::{QueueFamily, QueueFamilyIndices};
use std::collections::HashSet;

fn family(queue_count: u32, queue_flags: vk::QueueFlags, present_support: bool) -> QueueFamily {
    QueueFamily { queue_count, queue_flags: queue_flags.as_raw(), present_support }
}

#[test]
fn new_indices_are_incomplete() {
    let indices = QueueFamilyIndices::new();
    assert_eq!(indices.graphics_family, None);
    assert_eq!(indices.present_family, None);
    assert!(!indices.is_complete());
    assert!(indices.to_unique().is_empty());
    assert!(indices.to_vec().is_empty());
}

#[test]
fn complete_needs_both_families() {
    let graphics_only = QueueFamilyIndices { graphics_family: Some(0), present_family: None };
    let present_only = QueueFamilyIndices { graphics_family: None, present_family: Some(1) };
    let both = QueueFamilyIndices { graphics_family: Some(0), present_family: Some(1) };
    assert!(!graphics_only.is_complete());
    assert!(!present_only.is_complete());
    assert!(both.is_complete());
}

#[test]
fn to_unique_drops_a_repeated_family() {
    let same = QueueFamilyIndices { graphics_family: Some(2), present_family: Some(2) };
    assert_eq!(same.to_unique(), HashSet::from([2]));
    let different = QueueFamilyIndices { graphics_family: Some(0), present_family: Some(3) };
    assert_eq!(different.to_unique(), HashSet::from([0, 3]));
    let half = QueueFamilyIndices { graphics_family: None, present_family: Some(3) };
    assert_eq!(half.to_unique(), HashSet::from([3]));
}

#[test]
fn to_vec_lists_graphics_first() {
    let indices = QueueFamilyIndices { graphics_family: Some(4), present_family: Some(1) };
    assert_eq!(indices.to_vec(), vec![4, 1]);
    let same = QueueFamilyIndices { graphics_family: Some(2), present_family: Some(2) };
    assert_eq!(same.to_vec(), vec![2, 2]);
    let half = QueueFamilyIndices { graphics_family: Some(7), present_family: None };
    assert_eq!(half.to_vec(), vec![7]);
}

#[test]
fn one_family_for_both_purposes() {
    let families = vec![family(1, vk::QueueFlags::GRAPHICS | vk::QueueFlags::COMPUTE, true)];
    let found = QueueFamilyIndices::find_queue_families(&families).unwrap();
    assert_eq!(found, QueueFamilyIndices { graphics_family: Some(0), present_family: Some(0) });
}

#[test]
fn search_stops_at_the_first_complete_choice() {
    let families = vec![
        family(1, vk::QueueFlags::GRAPHICS, false),
        family(1, vk::QueueFlags::TRANSFER, true),
        family(4, vk::QueueFlags::GRAPHICS, true),
    ];
    let found = QueueFamilyIndices::find_queue_families(&families).unwrap();
    assert_eq!(found, QueueFamilyIndices { graphics_family: Some(0), present_family: Some(1) });
}

#[test]
fn later_family_replaces_an_earlier_choice_until_complete() {
    let families = vec![
        family(1, vk::QueueFlags::GRAPHICS, false),
        family(2, vk::QueueFlags::GRAPHICS, false),
        family(1, vk::QueueFlags::COMPUTE, true),
    ];
    let found = QueueFamilyIndices::find_queue_families(&families).unwrap();
    assert_eq!(found, QueueFamilyIndices { graphics_family: Some(1), present_family: Some(2) });
}

#[test]
fn family_without_queues_does_not_draw() {
    let families = vec![
        family(0, vk::QueueFlags::GRAPHICS, true),
        family(1, vk::QueueFlags::GRAPHICS, false),
    ];
    let found = QueueFamilyIndices::find_queue_families(&families).unwrap();
    assert_eq!(found, QueueFamilyIndices { graphics_family: Some(1), present_family: Some(0) });
}

#[test]
fn compute_queue_is_no_graphics_queue() {
    let families = vec![family(8, vk::QueueFlags::COMPUTE | vk::QueueFlags::TRANSFER, true)];
    assert_eq!(QueueFamilyIndices::find_queue_families(&families), None);
}

#[test]
fn no_family_means_no_choice() {
    assert_eq!(QueueFamilyIndices::find_queue_families(&Vec::new()), None);
    let families = vec![family(1, vk::QueueFlags::GRAPHICS, false)];
    assert_eq!(QueueFamilyIndices::find_queue_families(&families), None);
}

use device_memory::memory::granularity::{
    aling, checked_aling, has_granularity_conflict, is_on_same_page,
};
use device_memory::memory::AllocationType;

const ALL: [AllocationType; 5] = [
    AllocationType::Free,
    AllocationType::Buffer,
    AllocationType::Image,
    AllocationType::ImageLinear,
    AllocationType::ImageOptimal,
];

#[test]
fn free_conflicts_with_nothing() {
    for other in ALL {
        assert!(!has_granularity_conflict(AllocationType::Free, other));
        assert!(!has_granularity_conflict(other, AllocationType::Free));
    }
}

#[test]
fn two_buffers_never_conflict() {
    assert!(!has_granularity_conflict(AllocationType::Buffer, AllocationType::Buffer));
}

#[test]
fn buffer_conflicts_with_tiled_images() {
    assert!(has_granularity_conflict(AllocationType::Buffer, AllocationType::Image));
    assert!(has_granularity_conflict(AllocationType::Buffer, AllocationType::ImageOptimal));
    assert!(!has_granularity_conflict(AllocationType::Buffer, AllocationType::ImageLinear));
}

#[test]
fn image_conflicts_with_every_image() {
    assert!(has_granularity_conflict(AllocationType::Image, AllocationType::Image));
    assert!(has_granularity_conflict(AllocationType::Image, AllocationType::ImageLinear));
    assert!(has_granularity_conflict(AllocationType::Image, AllocationType::ImageOptimal));
}

#[test]
fn linear_image_conflicts_with_optimal_only() {
    assert!(has_granularity_conflict(AllocationType::ImageLinear, AllocationType::ImageOptimal));
    assert!(!has_granularity_conflict(AllocationType::ImageLinear, AllocationType::ImageLinear));
}

#[test]
fn optimal_images_do_not_conflict_with_each_other() {
    assert!(!has_granularity_conflict(AllocationType::ImageOptimal, AllocationType::ImageOptimal));
}

#[test]
fn conflict_is_symmetric() {
    for a in ALL {
        for b in ALL {
            assert_eq!(has_granularity_conflict(a, b), has_granularity_conflict(b, a));
        }
    }
}

#[test]
fn conflict_count_matches_table() {
    let mut count = 0;
    for a in ALL {
        for b in ALL {
            if has_granularity_conflict(a, b) {
                count += 1;
            }
        }
    }
    // six unordered pairs, one of them a type with itself
    assert_eq!(count, 11);
}

#[test]
fn same_page_when_end_and_start_share_a_page() {
    assert!(is_on_same_page(0, 300, 304, 256));
    assert!(is_on_same_page(0, 100, 100, 256));
    assert!(is_on_same_page(0, 256, 255, 256));
}

#[test]
fn different_page_across_a_boundary() {
    assert!(!is_on_same_page(0, 256, 256, 256));
    assert!(!is_on_same_page(0, 300, 512, 256));
    assert!(!is_on_same_page(0, 100, 256, 256));
}

#[test]
fn page_of_last_byte_counts_not_first_byte_behind() {
    // the region [0, 256) ends on page 0, the byte at 256 is on page 1
    assert!(!is_on_same_page(0, 256, 256, 256));
    // the region [0, 257) ends on page 1
    assert!(is_on_same_page(0, 257, 256, 256));
}

#[test]
fn empty_region_at_zero_meets_nothing() {
    assert!(!is_on_same_page(0, 0, 0, 256));
    assert!(!is_on_same_page(0, 0, 10, 1));
}

#[test]
fn empty_region_ends_before_its_offset() {
    assert!(is_on_same_page(256, 0, 255, 256));
    assert!(!is_on_same_page(256, 0, 256, 256));
}

#[test]
fn same_page_with_page_size_that_is_no_power_of_two() {
    assert!(is_on_same_page(0, 100, 99, 100));
    assert!(!is_on_same_page(0, 100, 100, 100));
    assert!(is_on_same_page(100, 50, 199, 100));
}

#[test]
fn same_page_near_the_top_of_the_range() {
    assert!(is_on_same_page(u64::MAX, 1, u64::MAX, 4096));
    assert!(!is_on_same_page(u64::MAX, u64::MAX, u64::MAX, 4096));
}

#[test]
fn aling_rounds_up_to_multiple() {
    assert_eq!(aling(0, 16), 0);
    assert_eq!(aling(1, 16), 16);
    assert_eq!(aling(16, 16), 16);
    assert_eq!(aling(17, 16), 32);
    assert_eq!(aling(300, 16), 304);
    assert_eq!(aling(304, 256), 512);
    assert_eq!(aling(7, 1), 7);
}

#[test]
fn aling_with_alignment_that_is_no_power_of_two() {
    assert_eq!(aling(1, 3), 3);
    assert_eq!(aling(10, 12), 12);
    assert_eq!(aling(25, 12), 36);
}

#[test]
fn checked_aling_agrees_with_aling() {
    for number in 0..200u64 {
        for alignment in 1..20u64 {
            let aligned = checked_aling(number, alignment).unwrap();
            assert_eq!(aligned, aling(number, alignment));
            assert_eq!(aligned % alignment, 0);
            assert!(aligned >= number && aligned < number + alignment);
        }
    }
}

#[test]
fn checked_aling_reports_overflow() {
    assert_eq!(checked_aling(u64::MAX, 16), None);
    assert_eq!(checked_aling(u64::MAX - 14, 16), None);
    assert_eq!(checked_aling(u64::MAX - 15, 16), Some(u64::MAX - 15));
    assert_eq!(checked_aling(u64::MAX, 1), Some(u64::MAX));
}

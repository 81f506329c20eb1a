use ash::vk;
use device_memory::device::frame::{FrameCycle, MAX_FRAMES_IN_FLIGHT};
use device_memory::device::support::{
    check_device_extension_support, check_validation_layer_support, contains_name,
    find_supported_format, DeviceReport, FormatSupport, ImageTiling,
};
use device_memory::device::swap_chain::{
    choose_image_count, choose_swap_present_mode, choose_swap_surface_format, SurfaceFormat,
};
use device_memory::game::key_event::{handle_key_event, Axis, Key, Moved, Step};
use device_memory::memory::heaps::{allows_type, find_memory_type, MemoryTypeInfo};

fn names(list: &[&str]) -> Vec<String> {
    list.iter().map(|name| name.to_string()).collect()
}

#[test]
fn contains_name_compares_whole_names() {
    let available = names(&["VK_KHR_swapchain", "VK_KHR_maintenance1"]);
    assert!(contains_name(&available, &"VK_KHR_swapchain".to_string()));
    assert!(contains_name(&available, &"VK_KHR_maintenance1".to_string()));
    assert!(!contains_name(&available, &"VK_KHR_swap".to_string()));
    assert!(!contains_name(&available, &"".to_string()));
    assert!(!contains_name(&Vec::new(), &"VK_KHR_swapchain".to_string()));
}

#[test]
fn extensions_are_supported_when_all_are_available() {
    let available = names(&["a", "b", "c"]);
    assert!(check_device_extension_support(&available, &names(&["c", "a"])));
    assert!(check_device_extension_support(&available, &names(&[])));
    assert!(!check_device_extension_support(&available, &names(&["a", "d"])));
    assert!(!check_device_extension_support(&names(&[]), &names(&["a"])));
    assert!(check_device_extension_support(&names(&[]), &names(&[])));
}

#[test]
fn validation_layers_need_a_layer_at_hand() {
    let layer = names(&["VK_LAYER_KHRONOS_validation"]);
    assert!(check_validation_layer_support(&names(&["other", "VK_LAYER_KHRONOS_validation"]), &layer));
    assert!(!check_validation_layer_support(&names(&["other"]), &layer));
    assert!(!check_validation_layer_support(&names(&[]), &layer));
    assert!(!check_validation_layer_support(&names(&[]), &names(&[])));
    assert!(check_validation_layer_support(&names(&["other"]), &names(&[])));
}

fn report() -> DeviceReport {
    DeviceReport {
        queues_complete: true,
        sampler_anisotropy: true,
        extensions_supported: true,
        format_count: 3,
        present_mode_count: 2,
    }
}

#[test]
fn device_with_everything_is_suitable() {
    assert!(report().is_device_suitable());
    assert!(DeviceReport { format_count: 0, ..report() }.is_device_suitable());
    assert!(DeviceReport { present_mode_count: 0, ..report() }.is_device_suitable());
}

#[test]
fn device_that_lacks_something_is_not_suitable() {
    assert!(!DeviceReport { queues_complete: false, ..report() }.is_device_suitable());
    assert!(!DeviceReport { sampler_anisotropy: false, ..report() }.is_device_suitable());
    assert!(!DeviceReport { extensions_supported: false, ..report() }.is_device_suitable());
    assert!(!DeviceReport { format_count: 0, present_mode_count: 0, ..report() }.is_device_suitable());
}

#[test]
fn supported_format_is_the_first_with_the_features() {
    let depth = vk::FormatFeatureFlags::DEPTH_STENCIL_ATTACHMENT.as_raw();
    let sampled = vk::FormatFeatureFlags::SAMPLED_IMAGE.as_raw();
    let candidates = vec![
        FormatSupport {
            format: vk::Format::D32_SFLOAT.as_raw(),
            linear_tiling_features: depth,
            optimal_tiling_features: sampled,
        },
        FormatSupport {
            format: vk::Format::D32_SFLOAT_S8_UINT.as_raw(),
            linear_tiling_features: 0,
            optimal_tiling_features: depth | sampled,
        },
        FormatSupport {
            format: vk::Format::D24_UNORM_S8_UINT.as_raw(),
            linear_tiling_features: depth | sampled,
            optimal_tiling_features: depth,
        },
    ];
    assert_eq!(
        find_supported_format(&candidates, ImageTiling::Optimal, depth),
        Some(vk::Format::D32_SFLOAT_S8_UINT.as_raw())
    );
    assert_eq!(
        find_supported_format(&candidates, ImageTiling::Linear, depth),
        Some(vk::Format::D32_SFLOAT.as_raw())
    );
    assert_eq!(
        find_supported_format(&candidates, ImageTiling::Linear, depth | sampled),
        Some(vk::Format::D24_UNORM_S8_UINT.as_raw())
    );
    let storage = vk::FormatFeatureFlags::STORAGE_IMAGE.as_raw();
    assert_eq!(find_supported_format(&candidates, ImageTiling::Optimal, storage), None);
    assert_eq!(find_supported_format(&Vec::new(), ImageTiling::Optimal, 0), None);
}

#[test]
fn surface_format_prefers_the_wanted_one() {
    let preferred = SurfaceFormat {
        format: vk::Format::B8G8R8A8_SRGB.as_raw(),
        color_space: vk::ColorSpaceKHR::SRGB_NONLINEAR.as_raw(),
    };
    let unorm = SurfaceFormat {
        format: vk::Format::B8G8R8A8_UNORM.as_raw(),
        color_space: vk::ColorSpaceKHR::SRGB_NONLINEAR.as_raw(),
    };
    let other_space = SurfaceFormat {
        format: vk::Format::B8G8R8A8_SRGB.as_raw(),
        color_space: vk::ColorSpaceKHR::DISPLAY_P3_NONLINEAR_EXT.as_raw(),
    };
    assert_eq!(choose_swap_surface_format(&vec![unorm, other_space, preferred], preferred), preferred);
    assert_eq!(choose_swap_surface_format(&vec![other_space, unorm], preferred), other_space);
    assert_eq!(choose_swap_surface_format(&vec![unorm], preferred), unorm);
}

#[test]
fn present_mode_prefers_mailbox_and_falls_back_to_fifo() {
    let mailbox = vk::PresentModeKHR::MAILBOX.as_raw();
    let fifo = vk::PresentModeKHR::FIFO.as_raw();
    let immediate = vk::PresentModeKHR::IMMEDIATE.as_raw();
    assert_eq!(choose_swap_present_mode(&vec![immediate, mailbox, fifo], mailbox, fifo), mailbox);
    assert_eq!(choose_swap_present_mode(&vec![immediate, fifo], mailbox, fifo), fifo);
    assert_eq!(choose_swap_present_mode(&vec![immediate], mailbox, fifo), fifo);
    assert_eq!(choose_swap_present_mode(&Vec::new(), mailbox, fifo), fifo);
}

#[test]
fn image_count_is_one_above_the_minimum_within_the_limit() {
    assert_eq!(choose_image_count(2, 0), 3);
    assert_eq!(choose_image_count(2, 8), 3);
    assert_eq!(choose_image_count(2, 3), 3);
    assert_eq!(choose_image_count(2, 2), 2);
    assert_eq!(choose_image_count(3, 2), 2);
    assert_eq!(choose_image_count(0, 0), 1);
    assert_eq!(choose_image_count(u32::MAX - 1, 0), u32::MAX);
}

#[test]
fn frames_are_drawn_in_turn() {
    let mut cycle = FrameCycle::new();
    assert!(!cycle.is_frame_started());
    assert_eq!(cycle.current_frame_index(), 0);
    for round in 0..5u32 {
        assert!(cycle.begin_frame(true));
        assert!(cycle.is_frame_started());
        assert_eq!(cycle.current_frame_index(), round % MAX_FRAMES_IN_FLIGHT);
        cycle.end_frame(true);
        assert!(!cycle.is_frame_started());
        assert_eq!(cycle.current_frame_index(), (round + 1) % MAX_FRAMES_IN_FLIGHT);
    }
}

#[test]
fn frame_without_an_image_does_not_begin() {
    let mut cycle = FrameCycle::new();
    assert!(!cycle.begin_frame(false));
    assert!(!cycle.is_frame_started());
    assert_eq!(cycle.current_frame_index(), 0);
    assert!(cycle.begin_frame(true));
}

#[test]
fn frame_that_was_not_presented_is_drawn_again() {
    let mut cycle = FrameCycle::new();
    cycle.begin_frame(true);
    cycle.end_frame(true);
    assert_eq!(cycle.current_frame_index(), 1);
    cycle.begin_frame(true);
    cycle.end_frame(false);
    assert!(!cycle.is_frame_started());
    assert_eq!(cycle.current_frame_index(), 1);
}

#[test]
fn keys_move_position_and_target() {
    let step = |moved, axis, forward| Some(Step { moved, axis, forward });
    assert_eq!(handle_key_event(Key::W, true), step(Moved::Position, Axis::Z, true));
    assert_eq!(handle_key_event(Key::S, true), step(Moved::Position, Axis::Z, false));
    assert_eq!(handle_key_event(Key::A, true), step(Moved::Position, Axis::X, false));
    assert_eq!(handle_key_event(Key::D, true), step(Moved::Position, Axis::X, true));
    assert_eq!(handle_key_event(Key::Space, true), step(Moved::Position, Axis::Y, true));
    assert_eq!(handle_key_event(Key::LControl, true), step(Moved::Position, Axis::Y, false));
    assert_eq!(handle_key_event(Key::Up, true), step(Moved::Target, Axis::Y, true));
    assert_eq!(handle_key_event(Key::Down, true), step(Moved::Target, Axis::Y, false));
    assert_eq!(handle_key_event(Key::Left, true), step(Moved::Target, Axis::X, false));
    assert_eq!(handle_key_event(Key::Right, true), step(Moved::Target, Axis::X, true));
    assert_eq!(handle_key_event(Key::RShift, true), step(Moved::Target, Axis::Z, true));
    assert_eq!(handle_key_event(Key::RControl, true), step(Moved::Target, Axis::Z, false));
}

#[test]
fn released_and_unknown_keys_move_nothing() {
    assert_eq!(handle_key_event(Key::Other, true), None);
    assert_eq!(handle_key_event(Key::W, false), None);
    assert_eq!(handle_key_event(Key::Other, false), None);
}

#[test]
fn type_bits_allow_the_types_whose_bit_is_set() {
    assert!(allows_type(0b101, 0));
    assert!(!allows_type(0b101, 1));
    assert!(allows_type(0b101, 2));
    assert!(allows_type(u32::MAX, 31));
    assert!(!allows_type(u32::MAX, 32));
    assert!(!allows_type(0, 0));
}

#[test]
fn memory_type_is_the_first_allowed_with_the_properties() {
    let device_local = vk::MemoryPropertyFlags::DEVICE_LOCAL;
    let host = vk::MemoryPropertyFlags::HOST_VISIBLE | vk::MemoryPropertyFlags::HOST_COHERENT;
    let types = vec![
        MemoryTypeInfo { property_flags: device_local.as_raw(), heap_index: 0 },
        MemoryTypeInfo { property_flags: host.as_raw(), heap_index: 1 },
        MemoryTypeInfo { property_flags: (host | device_local).as_raw(), heap_index: 0 },
    ];
    assert_eq!(find_memory_type(&types, 0b111, device_local.as_raw()), Some(0));
    assert_eq!(find_memory_type(&types, 0b110, device_local.as_raw()), Some(2));
    assert_eq!(find_memory_type(&types, 0b111, host.as_raw()), Some(1));
    assert_eq!(find_memory_type(&types, 0b001, host.as_raw()), None);
    assert_eq!(find_memory_type(&types, 0, 0), None);
    assert_eq!(
        find_memory_type(&types, 0b111, vk::MemoryPropertyFlags::PROTECTED.as_raw()),
        None
    );
}

//! The choices that shape a swap chain.

use vstd::prelude::*;

verus! {

/// A format and a colour space that a surface can be presented in, both as
/// raw values.
#[derive(PartialEq, Eq, Structural, Debug, Clone, Copy)]
pub struct SurfaceFormat {
    pub format: i32,
    pub color_space: i32,
}

/// Whether `wanted` is among the first `count` of `available`.
pub open spec fn offered<T>(available: Seq<T>, wanted: T, count: int) -> bool {
    exists|i: int| 0 <= i < count && i < available.len() && #[trigger] available[i] == wanted
}

/// The surface format to present in: the preferred one where the surface
/// offers it, the first one that the surface offers otherwise.
pub fn choose_swap_surface_format(
    available_formats: &Vec<SurfaceFormat>,
    preferred: SurfaceFormat,
) -> (chosen: SurfaceFormat)
    requires
        available_formats.len() > 0,
    ensures
        chosen == (if offered(available_formats@, preferred, available_formats.len() as int) {
            preferred
        } else {
            available_formats[0]
        }),
{
    let mut i: usize = 0;
    while i < available_formats.len()
        invariant
            0 <= i <= available_formats.len(),
            !offered(available_formats@, preferred, i as int),
        decreases available_formats.len() - i,
    {
        let available_format = available_formats[i];
        if available_format.format == preferred.format && available_format.color_space
            == preferred.color_space {
            assert(available_formats@[i as int] == preferred);
            return available_format;
        }
        i += 1;
    }
    available_formats[0]
}

/// The present mode to use: the preferred one where the surface offers it,
/// the fallback otherwise.
pub fn choose_swap_present_mode(
    available_present_modes: &Vec<i32>,
    preferred: i32,
    fallback: i32,
) -> (chosen: i32)
    ensures
        chosen == (if offered(
            available_present_modes@,
            preferred,
            available_present_modes.len() as int,
        ) {
            preferred
        } else {
            fallback
        }),
{
    let mut i: usize = 0;
    while i < available_present_modes.len()
        invariant
            0 <= i <= available_present_modes.len(),
            !offered(available_present_modes@, preferred, i as int),
        decreases available_present_modes.len() - i,
    {
        if available_present_modes[i] == preferred {
            return available_present_modes[i];
        }
        i += 1;
    }
    fallback
}

/// The number of images to ask for: one more than the surface needs at
/// least, but no more than it allows, where it sets a limit.
pub fn choose_image_count(min_image_count: u32, max_image_count: u32) -> (image_count: u32)
    requires
        min_image_count < u32::MAX,
    ensures
        image_count == (if max_image_count > 0 && min_image_count + 1 > max_image_count {
            max_image_count
        } else {
            (min_image_count + 1) as u32
        }),
{
    let mut image_count = min_image_count + 1;
    if max_image_count > 0 && image_count > max_image_count {
        image_count = max_image_count;
    }
    image_count
}

} // verus!

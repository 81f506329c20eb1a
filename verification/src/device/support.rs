//! What a device must offer to be drawn with.

use ash::vk;
use vstd::prelude::*;

verus! {

/// Whether `name` is among `names`.
pub open spec fn has_name(names: Seq<String>, name: String) -> bool {
    exists|j: int| 0 <= j < names.len() && (#[trigger] names[j])@ == name@
}

/// Whether every name of `required` is among `available`.
pub open spec fn has_all_names(available: Seq<String>, required: Seq<String>) -> bool {
    forall|i: int| 0 <= i < required.len() ==> has_name(available, #[trigger] required[i])
}

/// Tells whether `name` is among `names`.
pub fn contains_name(names: &Vec<String>, name: &String) -> (found: bool)
    ensures
        found == has_name(names@, *name),
{
    let mut j: usize = 0;
    while j < names.len()
        invariant
            0 <= j <= names.len(),
            forall|k: int| 0 <= k < j ==> (#[trigger] names[k])@ != name@,
        decreases names.len() - j,
    {
        if names[j] == *name {
            return true;
        }
        j += 1;
    }
    false
}

/// Tells whether the device has every extension that is asked for.
pub fn check_device_extension_support(
    available: &Vec<String>,
    required: &Vec<String>,
) -> (supported: bool)
    ensures
        supported == has_all_names(available@, required@),
{
    let mut i: usize = 0;
    while i < required.len()
        invariant
            0 <= i <= required.len(),
            forall|k: int| 0 <= k < i ==> has_name(available@, #[trigger] required[k]),
        decreases required.len() - i,
    {
        if !contains_name(available, &required[i]) {
            return false;
        }
        i += 1;
    }
    true
}

/// Tells whether every validation layer that is asked for is at hand.  With
/// no layer at hand at all the answer is no.
pub fn check_validation_layer_support(
    available: &Vec<String>,
    required: &Vec<String>,
) -> (supported: bool)
    ensures
        supported == (available.len() > 0 && has_all_names(available@, required@)),
{
    if available.len() == 0 {
        return false;
    }
    check_device_extension_support(available, required)
}

/// What is known of a device when it is judged.
#[derive(PartialEq, Eq, Structural, Debug, Clone, Copy)]
pub struct DeviceReport {
    /// Whether a queue family was found for drawing and one for presenting.
    pub queues_complete: bool,
    /// Whether the device filters textures anisotropically.
    pub sampler_anisotropy: bool,
    /// Whether the device has every extension asked for.
    pub extensions_supported: bool,
    /// The number of surface formats that the device offers.
    pub format_count: usize,
    /// The number of present modes that the device offers.
    pub present_mode_count: usize,
}

impl DeviceReport {
    /// Whether the swap chain can be built: the extensions are there, and a
    /// surface format or a present mode is offered.
    pub open spec fn swap_chain_adequate(&self) -> bool {
        self.extensions_supported && !(self.format_count == 0 && self.present_mode_count == 0)
    }

    /// Whether the device can be drawn with.
    pub open spec fn suitable(&self) -> bool {
        self.queues_complete && self.sampler_anisotropy && self.swap_chain_adequate()
            && self.extensions_supported
    }

    /// Tells whether the device can be drawn with.
    #[verifier::when_used_as_spec(suitable)]
    pub fn is_device_suitable(&self) -> (suitable: bool)
        ensures
            suitable == self.suitable(),
    {
        let swap_chain_adequate = if self.extensions_supported {
            !(self.format_count == 0 && self.present_mode_count == 0)
        } else {
            false
        };
        self.queues_complete && self.sampler_anisotropy && swap_chain_adequate
            && self.extensions_supported
    }
}

/// How the texels of an image are laid out.
#[derive(PartialEq, Eq, Structural, Debug, Clone, Copy)]
pub enum ImageTiling {
    Optimal,
    Linear,
}

/// What a device can do with images of one format.
#[derive(PartialEq, Eq, Structural, Debug, Clone, Copy)]
pub struct FormatSupport {
    /// The raw value of the format.
    pub format: i32,
    /// The raw bits of what linearly tiled images of the format can do.
    pub linear_tiling_features: u32,
    /// The raw bits of what optimally tiled images of the format can do.
    pub optimal_tiling_features: u32,
}

impl FormatSupport {
    /// Whether images of the format with the tiling can do all of
    /// `features`.
    pub open spec fn offers(&self, tiling: ImageTiling, features: u32) -> bool {
        match tiling {
            ImageTiling::Linear => self.linear_tiling_features & features == features,
            ImageTiling::Optimal => self.optimal_tiling_features & features == features,
        }
    }
}

/// `vk::FormatFeatureFlags::contains`: whether the flags in `required` are a
/// subset of those in `flags`.  Both are handed over as raw bits.
#[verifier::external_body]
fn format_features_contain(flags: u32, required: u32) -> (contained: bool)
    ensures
        contained == (flags & required == required),
{
    vk::FormatFeatureFlags::from_raw(flags).contains(vk::FormatFeatureFlags::from_raw(required))
}

/// The first format from `start` on whose images with the tiling can do all
/// of `features`.
pub open spec fn first_format_from(
    candidates: Seq<FormatSupport>,
    start: int,
    tiling: ImageTiling,
    features: u32,
) -> Option<i32>
    decreases candidates.len() - start,
{
    if start < 0 || start >= candidates.len() {
        None
    } else if candidates[start].offers(tiling, features) {
        Some(candidates[start].format)
    } else {
        first_format_from(candidates, start + 1, tiling, features)
    }
}

/// The first of the candidate formats whose images with the tiling can do
/// all of `features`.
pub fn find_supported_format(
    candidates: &Vec<FormatSupport>,
    tiling: ImageTiling,
    features: u32,
) -> (format: Option<i32>)
    ensures
        format == first_format_from(candidates@, 0, tiling, features),
{
    let mut i: usize = 0;
    while i < candidates.len()
        invariant
            0 <= i <= candidates.len(),
            first_format_from(candidates@, 0, tiling, features) == first_format_from(
                candidates@,
                i as int,
                tiling,
                features,
            ),
        decreases candidates.len() - i,
    {
        let candidate = candidates[i];
        if tiling == ImageTiling::Linear && format_features_contain(
            candidate.linear_tiling_features,
            features,
        ) {
            return Some(candidate.format);
        } else if tiling == ImageTiling::Optimal && format_features_contain(
            candidate.optimal_tiling_features,
            features,
        ) {
            return Some(candidate.format);
        }
        i += 1;
    }
    None
}

} // verus!

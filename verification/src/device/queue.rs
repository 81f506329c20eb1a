//! The queue families that the renderer draws and presents with.

use ash::vk;
use std::collections::HashSet;
use vstd::prelude::*;

verus! {

broadcast use vstd::std_specs::hash::group_hash_axioms;

/// What the device reports of one queue family, together with whether the
/// surface can be presented to from it.
#[derive(PartialEq, Eq, Structural, Debug, Clone, Copy)]
pub struct QueueFamily {
    /// The number of queues in the family.
    pub queue_count: u32,
    /// The raw bits of the capabilities of the family.
    pub queue_flags: u32,
    /// Whether the family can present to the surface.
    pub present_support: bool,
}

/// The flag of a queue family that takes graphics commands.
pub open spec fn graphics_bits() -> u32 {
    0x1
}

impl QueueFamily {
    /// Whether the family has a queue that takes graphics commands.
    pub open spec fn draws(&self) -> bool {
        self.queue_count > 0 && self.queue_flags & graphics_bits() == graphics_bits()
    }
}

/// `vk::QueueFlags::contains` with `vk::QueueFlags::GRAPHICS` as the flags
/// asked for: whether the graphics flag is among `flags`, which are handed
/// over as raw bits.
#[verifier::external_body]
fn has_graphics(flags: u32) -> (graphics: bool)
    ensures
        graphics == (flags & graphics_bits() == graphics_bits()),
{
    vk::QueueFlags::from_raw(flags).contains(vk::QueueFlags::GRAPHICS)
}

/// The indices of the queue families chosen for drawing and for presenting.
#[derive(PartialEq, Eq, Structural, Debug, Clone, Copy)]
pub struct QueueFamilyIndices {
    pub graphics_family: Option<u32>,
    pub present_family: Option<u32>,
}

/// The choice after the first `count` families have been looked at: for each
/// purpose the last family among them that serves it.
pub open spec fn chosen_among(families: Seq<QueueFamily>, count: int) -> QueueFamilyIndices
    decreases count,
{
    if count <= 0 {
        QueueFamilyIndices { graphics_family: None, present_family: None }
    } else {
        let earlier = chosen_among(families, count - 1);
        let family = families[count - 1];
        QueueFamilyIndices {
            graphics_family: if family.draws() {
                Some((count - 1) as u32)
            } else {
                earlier.graphics_family
            },
            present_family: if family.present_support {
                Some((count - 1) as u32)
            } else {
                earlier.present_family
            },
        }
    }
}

impl QueueFamilyIndices {
    /// No family chosen yet.
    pub fn new() -> (indices: Self)
        ensures
            indices.graphics_family is None,
            indices.present_family is None,
    {
        QueueFamilyIndices { graphics_family: None, present_family: None }
    }

    /// Whether a family is chosen for each purpose.
    pub open spec fn complete(&self) -> bool {
        self.graphics_family is Some && self.present_family is Some
    }

    /// The chosen families without repetition.
    pub open spec fn unique(&self) -> Set<u32> {
        let graphics = match self.graphics_family {
            Some(family) => set![family],
            None => Set::empty(),
        };
        let present = match self.present_family {
            Some(family) => set![family],
            None => Set::empty(),
        };
        graphics.union(present)
    }

    /// The chosen families, the one for graphics first.
    pub open spec fn listed(&self) -> Seq<u32> {
        let graphics = match self.graphics_family {
            Some(family) => seq![family],
            None => Seq::empty(),
        };
        let present = match self.present_family {
            Some(family) => seq![family],
            None => Seq::empty(),
        };
        graphics + present
    }

    /// Looks at the families in the order in which the device reports them
    /// and stops as soon as one is chosen for each purpose.  `None` where
    /// the families do not serve both purposes.
    pub fn find_queue_families(families: &Vec<QueueFamily>) -> (found: Option<Self>)
        requires
            families.len() <= u32::MAX,
        ensures
            match found {
                Some(indices) => exists|count: int|
                    {
                        &&& 0 <= count <= families.len()
                        &&& indices == #[trigger] chosen_among(families@, count)
                        &&& indices.complete()
                        &&& forall|fewer: int|
                            0 <= fewer < count ==> !(#[trigger] chosen_among(
                                families@,
                                fewer,
                            )).complete()
                    },
                None => forall|count: int|
                    0 <= count <= families.len() ==> !(#[trigger] chosen_among(
                        families@,
                        count,
                    )).complete(),
            },
    {
        let mut indices = QueueFamilyIndices::new();
        let mut i: usize = 0;
        while i < families.len()
            invariant
                0 <= i <= families.len(),
                families.len() <= u32::MAX,
                indices == chosen_among(families@, i as int),
                forall|fewer: int|
                    0 <= fewer <= i ==> !(#[trigger] chosen_among(families@, fewer)).complete(),
            decreases families.len() - i,
        {
            let family = families[i];
            if family.queue_count > 0 && has_graphics(family.queue_flags) {
                indices.graphics_family = Some(i as u32);
            }
            if family.present_support {
                indices.present_family = Some(i as u32);
            }
            i += 1;
            if indices.is_complete() {
                return Some(indices);
            }
        }
        None
    }

    /// Tells whether a family is chosen for each purpose.
    #[verifier::when_used_as_spec(complete)]
    pub fn is_complete(&self) -> (complete: bool)
        ensures
            complete == self.complete(),
    {
        self.graphics_family.is_some() && self.present_family.is_some()
    }

    /// The set of the chosen families.
    pub fn to_unique(&self) -> (set: HashSet<u32>)
        ensures
            set@ == self.unique(),
    {
        let mut set = HashSet::new();
        if let Some(graphics_family) = self.graphics_family {
            set.insert(graphics_family);
        }
        if let Some(present_family) = self.present_family {
            set.insert(present_family);
        }
        assert(set@ =~= self.unique());
        set
    }

    /// The chosen families in a vector, the one for graphics first.
    pub fn to_vec(&self) -> (vec: Vec<u32>)
        ensures
            vec@ == self.listed(),
    {
        let mut vec = Vec::new();
        if let Some(graphics_family) = self.graphics_family {
            vec.push(graphics_family);
        }
        if let Some(present_family) = self.present_family {
            vec.push(present_family);
        }
        assert(vec@ =~= self.listed());
        vec
    }
}

} // verus!

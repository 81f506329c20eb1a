//! Which frame is being drawn.
//!
//! A fixed number of frames may be in flight at a time.  The renderer draws
//! them in turn: it begins a frame once an image is acquired, and moves on to
//! the next frame once the frame was submitted and presented.

use vstd::prelude::*;

verus! {

/// The number of frames that may be in flight at a time.
pub const MAX_FRAMES_IN_FLIGHT: u32 = 2;

/// The frame being drawn and whether drawing has begun.
#[derive(PartialEq, Eq, Structural, Debug, Clone, Copy)]
pub struct FrameCycle {
    is_frame_started: bool,
    current_frame_index: u32,
}

impl FrameCycle {
    /// Whether a frame is being drawn.
    pub closed spec fn started(&self) -> bool {
        self.is_frame_started
    }

    /// The index of the frame that is drawn or drawn next.
    pub closed spec fn index(&self) -> u32 {
        self.current_frame_index
    }

    /// The index is that of one of the frames in flight.
    pub open spec fn wf(&self) -> bool {
        self.index() < MAX_FRAMES_IN_FLIGHT
    }

    /// The cycle before the first frame.
    pub fn new() -> (cycle: Self)
        ensures
            cycle.wf(),
            !cycle.started(),
            cycle.index() == 0,
    {
        FrameCycle { is_frame_started: false, current_frame_index: 0 }
    }

    /// Whether a frame is being drawn.
    #[verifier::when_used_as_spec(started)]
    pub fn is_frame_started(&self) -> (started: bool)
        ensures
            started == self.started(),
    {
        self.is_frame_started
    }

    /// The index of the frame that is drawn or drawn next.
    #[verifier::when_used_as_spec(index)]
    pub fn current_frame_index(&self) -> (index: u32)
        ensures
            index == self.index(),
    {
        self.current_frame_index
    }

    /// Begins the frame if an image was acquired for it, and tells whether
    /// it has begun.
    pub fn begin_frame(&mut self, acquired: bool) -> (begun: bool)
        requires
            old(self).wf(),
            !old(self).started(),
        ensures
            final(self).wf(),
            begun == acquired,
            final(self).started() == acquired,
            final(self).index() == old(self).index(),
    {
        self.is_frame_started = acquired;
        acquired
    }

    /// Ends the frame.  The cycle moves on to the next frame if the frame
    /// was presented, and stays at this one if it was not.
    pub fn end_frame(&mut self, presented: bool)
        requires
            old(self).wf(),
            old(self).started(),
        ensures
            final(self).wf(),
            !final(self).started(),
            final(self).index() == (if presented {
                (old(self).index() + 1) % (MAX_FRAMES_IN_FLIGHT as int)
            } else {
                old(self).index() as int
            }),
    {
        self.is_frame_started = false;
        if presented {
            self.current_frame_index = (self.current_frame_index + 1) % MAX_FRAMES_IN_FLIGHT;
        }
    }
}

} // verus!

//! The count of the frames that have been accumulated into a picture.

use vstd::prelude::*;

verus! {

/// The count of the frames that have gone into the running picture.  The
/// frames are accumulated in two buffers that take turns: the frame with an
/// even count is drawn from the first one, the frame with an odd count from
/// the second.
#[derive(Clone, Copy, Debug, PartialEq, Eq, Structural)]
pub struct FrameCounter {
    pub frame_count: u32,
}

impl FrameCounter {
    /// No frame yet.
    pub fn new() -> (r: Self)
        ensures
            r.frame_count == 0,
    {
        FrameCounter { frame_count: 0 }
    }

    /// Starts the picture afresh.
    pub fn reset_samples(&mut self)
        ensures
            final(self).frame_count == 0,
    {
        self.frame_count = 0;
    }

    /// Counts one more frame and tells which of the two buffers it is drawn
    /// from.
    pub fn next_frame(&mut self) -> (r: usize)
        requires
            old(self).frame_count < u32::MAX,
        ensures
            final(self).frame_count == old(self).frame_count + 1,
            r == final(self).frame_count % 2,
    {
        self.frame_count = self.frame_count + 1;
        (self.frame_count % 2) as usize
    }
}

/// Two frames in a row are drawn from different buffers.
pub proof fn lemma_buffers_take_turns(count: u32)
    requires
        count < u32::MAX,
    ensures
        (count + 1) % 2 != count % 2,
{
}

} // verus!

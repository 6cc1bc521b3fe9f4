use vstd::prelude::*;

use crate::boundary::{encodes, HostEvent, SceneNewHypeEvent};

verus! {

/// The number of frames per scene unless configured otherwise.
pub const DEFAULT_GOP_SIZE: u32 = 10;

/// The frame with source offset `offset` starts a scene of `gop_size`
/// frames.
pub open spec fn starts_scene(offset: u64, gop_size: u32) -> bool {
    (offset as int) % (gop_size as int) == 0
}

/// The index of the scene that holds the frame with source offset `offset`.
pub open spec fn scene_of(offset: u64, gop_size: u32) -> int {
    (offset as int) / (gop_size as int)
}

/// Along increasing offsets, the boundaries carry strictly increasing scene
/// indices, whatever the group size.
pub proof fn lemma_scenes_ascend(o1: u64, o2: u64, gop_size: u32)
    requires
        gop_size > 0,
        o1 < o2,
        starts_scene(o1, gop_size),
        starts_scene(o2, gop_size),
    ensures
        scene_of(o1, gop_size) < scene_of(o2, gop_size),
{
    let g = gop_size as int;
    let a = o1 as int;
    let b = o2 as int;
    assert(a == g * (a / g)) by (nonlinear_arith)
        requires g > 0, a % g == 0;
    assert(b == g * (b / g)) by (nonlinear_arith)
        requires g > 0, b % g == 0;
    assert(a / g < b / g) by (nonlinear_arith)
        requires g > 0, a == g * (a / g), b == g * (b / g), a < b;
}

/// Why the segmenter cannot announce the boundary that a frame starts.
#[derive(Debug, Clone, Copy, PartialEq, Eq, Structural)]
pub enum SegmentError {
    /// The frame starts a scene whose index does not fit in 32 bits.
    SceneIndexTooLarge,
}

/// The segmenter's configuration.
#[derive(Debug, Clone, Copy, PartialEq, Eq, Structural)]
pub struct Settings {
    pub gop_size: u32,
}

impl Default for Settings {
    fn default() -> (r: Self)
        ensures
            r.gop_size == DEFAULT_GOP_SIZE,
    {
        Settings { gop_size: DEFAULT_GOP_SIZE }
    }
}

/// The segmenter: passes every frame through and announces a scene
/// boundary before each frame whose number is a multiple of the group size.
pub struct SceneDetector {
    settings: Settings,
}

impl SceneDetector {
    pub closed spec fn spec_gop_size(&self) -> u32 {
        self.settings.gop_size
    }

    /// A segmenter with the default group size.
    pub fn new() -> (r: Self)
        ensures
            r.spec_gop_size() == DEFAULT_GOP_SIZE,
    {
        SceneDetector { settings: Settings::default() }
    }

    /// The group size now in force.
    pub fn gop_size(&self) -> (r: u32)
        ensures
            r == self.spec_gop_size(),
    {
        self.settings.gop_size
    }

    /// Sets the group size; it applies from the next frame on.
    pub fn set_gop_size(&mut self, gop_size: u32)
        ensures
            final(self).spec_gop_size() == gop_size,
    {
        self.settings.gop_size = gop_size;
    }

    /// Looks at the frame with source offset `offset`, which passes on
    /// unchanged, and returns the boundary event to announce before it: one
    /// for scene `offset / g` where the offset is a multiple of the group
    /// size `g`, none otherwise. A boundary whose scene index does not fit in
    /// 32 bits cannot be announced: that is an error.
    pub fn transform_frame_ip_passthrough(&self, offset: u64) -> (r: Result<Option<HostEvent>, SegmentError>)
        requires
            self.spec_gop_size() > 0,
        ensures
            !starts_scene(offset, self.spec_gop_size()) ==> r matches Ok(None),
            starts_scene(offset, self.spec_gop_size()) && scene_of(offset, self.spec_gop_size())
                > u32::MAX ==> r matches Err(SegmentError::SceneIndexTooLarge),
            starts_scene(offset, self.spec_gop_size()) && scene_of(offset, self.spec_gop_size())
                <= u32::MAX ==> (r matches Ok(Some(ev)) && encodes(
                ev,
                scene_of(offset, self.spec_gop_size()) as u32,
                self.spec_gop_size(),
            )),
    {
        let gop_size = self.settings.gop_size as u64;
        if offset % gop_size != 0 {
            return Ok(None);
        }
        let gop_index = offset / gop_size;
        if gop_index > u32::MAX as u64 {
            return Err(SegmentError::SceneIndexTooLarge);
        }
        Ok(Some(SceneNewHypeEvent::new(gop_index as u32, self.settings.gop_size)))
    }
}

} // verus!

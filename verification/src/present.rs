//! Whether a redraw draws a frame: the surface must have an area and a
//! texture to draw into.
use vstd::prelude::*;
use crate::clock::RenderStatus;

verus! {

/// What asking the surface for its next texture gave.
#[derive(Clone, Copy, Debug, PartialEq, Eq, Structural)]
pub enum TextureAcquisition {
    /// A texture, matching the surface.
    Success,
    /// A texture, but the surface would be better reconfigured.
    Suboptimal,
    /// No texture in time.
    Timeout,
    /// No texture: the window is hidden.
    Occluded,
    /// No texture: the surface configuration is out of date.
    Outdated,
    /// No texture: the surface was lost.
    Lost,
    /// No texture: a validation error was caught.
    Validation,
}

/// What a redraw does next.
#[derive(Clone, Copy, Debug, PartialEq, Eq, Structural)]
pub enum FrameStep {
    /// Draw into the texture and present it.
    Draw,
    /// Reconfigure the surface and ask for another redraw.
    Reconfigure,
    /// Draw nothing now; try again later.
    Wait,
}

/// A surface of this size can be drawn to (and configured): neither side is
/// zero.
pub fn size_drawable(width: u32, height: u32) -> (drawable: bool)
    ensures
        drawable == (width != 0 && height != 0),
{
    width != 0 && height != 0
}

/// The step a redraw takes after asking for a texture: draw with any
/// texture; reconfigure an outdated or lost surface; otherwise wait.
pub fn acquisition_step(acquisition: TextureAcquisition) -> (step: FrameStep)
    ensures
        step == match acquisition {
            TextureAcquisition::Success | TextureAcquisition::Suboptimal => FrameStep::Draw,
            TextureAcquisition::Outdated | TextureAcquisition::Lost => FrameStep::Reconfigure,
            TextureAcquisition::Timeout | TextureAcquisition::Occluded | TextureAcquisition::Validation => FrameStep::Wait,
        },
{
    match acquisition {
        TextureAcquisition::Success | TextureAcquisition::Suboptimal => FrameStep::Draw,
        TextureAcquisition::Outdated | TextureAcquisition::Lost => FrameStep::Reconfigure,
        TextureAcquisition::Timeout | TextureAcquisition::Occluded | TextureAcquisition::Validation => FrameStep::Wait,
    }
}

impl FrameStep {
    /// The status a redraw that took this step ends with: a drawn frame is
    /// presented, a reconfigured surface needs another redraw, a skipped
    /// frame waits.
    pub fn status(self) -> (status: RenderStatus)
        ensures
            status == match self {
                FrameStep::Draw => RenderStatus::Presented,
                FrameStep::Reconfigure => RenderStatus::NeedsRedraw,
                FrameStep::Wait => RenderStatus::Waiting,
            },
    {
        match self {
            FrameStep::Draw => RenderStatus::Presented,
            FrameStep::Reconfigure => RenderStatus::NeedsRedraw,
            FrameStep::Wait => RenderStatus::Waiting,
        }
    }
}

} // verus!

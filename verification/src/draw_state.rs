//! The state of a stroke that is being drawn.

use vstd::prelude::*;
use crate::point::all_in_range;
use crate::point::Point2;
use crate::spatial_grid::PathSegment;

verus! {

/// The points of the stroke in progress, and the handles of the visuals
/// that show it.
pub struct DrawingPoints {
    pub points: Vec<Point2>,
    pub line_entities: Vec<u64>,
}

/// The segments of the stroke in progress, one from each accepted point to
/// the next. They serve undo only.
pub struct PendingSegments {
    pub segments: Vec<PathSegment>,
}

/// Whether a finished stroke is still cooling down.
#[derive(Clone, Copy, Debug, PartialEq, Eq, Structural)]
pub enum DrawingFinalizeState {
    /// No stroke is cooling down.
    Idle,
    Cooldown,
}

/// Everything else a stroke in progress keeps track of.
pub struct DrawingInfo {
    /// Number of strokes finished so far.
    pub counter: usize,
    /// The point accepted last.
    pub last_pos: Option<Point2>,
    /// Where the cursor was when the last point was accepted.
    pub last_mouse_pos: Option<Point2>,
    /// When the last point was accepted, in microseconds.
    pub last_mouse_time: Option<u64>,
    pub snapped_seg_id: Option<usize>,
    pub is_drawing: bool,
    pub is_paused: bool,
    pub started_from_seg_id: Option<usize>,
    pub finalize_state: DrawingFinalizeState,
    pub drawing_enabled: bool,
    pub start_candidate: Option<Point2>,
    /// Whether a crossing waits to be confirmed.
    pub confirm_pending: bool,
    /// The end of the crossed segment that the stroke would end on.
    pub confirm_point: Option<Point2>,
    pub confirm_seg_id: Option<usize>,
    /// Whether the question has been put already.
    pub confirm_prompt_printed: bool,
}

/// How far the stroke advances towards the cursor with every accepted
/// tick, in lattice steps.
pub struct FollowConfig {
    pub speed: u32,
}

/// Whether an optional point, where there is one, lies in range.
pub open spec fn opt_in_range(p: Option<Point2>) -> bool {
    match p {
        Some(v) => v.in_range(),
        None => true,
    }
}

impl Default for DrawingFinalizeState {
    /// The state a session starts in.
    fn default() -> (s: DrawingFinalizeState)
        ensures
            s == DrawingFinalizeState::Idle,
    {
        DrawingFinalizeState::Idle
    }
}

impl Default for DrawingPoints {
    /// No points and no visuals.
    fn default() -> (p: DrawingPoints)
        ensures
            p.points@.len() == 0,
            p.line_entities@.len() == 0,
            p.wf(),
    {
        DrawingPoints::new()
    }
}

impl Default for PendingSegments {
    /// No segments.
    fn default() -> (p: PendingSegments)
        ensures
            p.segments@.len() == 0,
    {
        PendingSegments::new()
    }
}

impl Default for DrawingInfo {
    /// The state before the first stroke.
    fn default() -> (info: DrawingInfo)
        ensures
            info == DrawingInfo::initial(),
            info.wf(),
    {
        DrawingInfo::new()
    }
}

impl Default for FollowConfig {
    /// No speed: the stroke stays where it is.
    fn default() -> (config: FollowConfig)
        ensures
            config.speed == 0,
    {
        FollowConfig { speed: 0 }
    }
}

impl DrawingPoints {
    /// Whether every point lies in range.
    pub open spec fn wf(&self) -> bool {
        all_in_range(self.points@)
    }

    /// No points and no visuals.
    pub fn new() -> (p: DrawingPoints)
        ensures
            p.points@.len() == 0,
            p.line_entities@.len() == 0,
            p.wf(),
    {
        DrawingPoints { points: Vec::new(), line_entities: Vec::new() }
    }
}

impl PendingSegments {
    /// No segments.
    pub fn new() -> (p: PendingSegments)
        ensures
            p.segments@.len() == 0,
    {
        PendingSegments { segments: Vec::new() }
    }
}

impl DrawingInfo {
    /// Whether every point that is kept lies in range.
    pub open spec fn wf(&self) -> bool {
        &&& opt_in_range(self.last_pos)
        &&& opt_in_range(self.last_mouse_pos)
        &&& opt_in_range(self.start_candidate)
        &&& opt_in_range(self.confirm_point)
    }

    /// The state before the first stroke: nothing drawn, nothing pending,
    /// drawing disabled.
    pub open spec fn initial() -> DrawingInfo {
        DrawingInfo {
            counter: 0,
            last_pos: None,
            last_mouse_pos: None,
            last_mouse_time: None,
            snapped_seg_id: None,
            is_drawing: false,
            is_paused: false,
            started_from_seg_id: None,
            finalize_state: DrawingFinalizeState::Idle,
            drawing_enabled: false,
            start_candidate: None,
            confirm_pending: false,
            confirm_point: None,
            confirm_seg_id: None,
            confirm_prompt_printed: false,
        }
    }

    /// The state before the first stroke.
    pub fn new() -> (info: DrawingInfo)
        ensures
            info == DrawingInfo::initial(),
            info.wf(),
    {
        DrawingInfo {
            counter: 0,
            last_pos: None,
            last_mouse_pos: None,
            last_mouse_time: None,
            snapped_seg_id: None,
            is_drawing: false,
            is_paused: false,
            started_from_seg_id: None,
            finalize_state: DrawingFinalizeState::Idle,
            drawing_enabled: false,
            start_candidate: None,
            confirm_pending: false,
            confirm_point: None,
            confirm_seg_id: None,
            confirm_prompt_printed: false,
        }
    }

    /// Whether a tick would capture: a stroke is being drawn, is not
    /// paused, and no crossing waits to be confirmed.
    pub open spec fn capturing(&self) -> bool {
        self.is_drawing && !self.is_paused && !self.confirm_pending
    }

    /// Executable form of [`DrawingInfo::capturing`].
    pub fn is_capturing(&self) -> (b: bool)
        ensures
            b == self.capturing(),
    {
        self.is_drawing && !self.is_paused && !self.confirm_pending
    }
}

} // verus!

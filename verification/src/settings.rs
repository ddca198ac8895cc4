//! The two switches of a session: snapping and drawing.

use vstd::prelude::*;
use crate::draw_state::DrawingInfo;
use crate::spatial_grid::SnapState;

verus! {

impl SnapState {
    /// The snap state a session starts with: snapping off, no stroke
    /// started, and a neighbourhood of twenty ids to either side.
    pub fn new() -> (s: SnapState)
        ensures
            s == (SnapState {
                initial_seg_id: None,
                blocked_range: 20,
                initial_snap_pos: None,
                is_blocking: false,
                is_enabled: false,
            }),
    {
        SnapState {
            initial_seg_id: None,
            blocked_range: 20,
            initial_snap_pos: None,
            is_blocking: false,
            is_enabled: false,
        }
    }
}

/// Switches snapping over where the switch was pressed. Returns whether
/// snapping is on.
pub fn snap_toggle_system(pressed: bool, snap_state: &mut SnapState) -> (enabled: bool)
    ensures
        enabled == (old(snap_state).is_enabled != pressed),
        *final(snap_state) == (SnapState { is_enabled: enabled, ..*old(snap_state) }),
{
    if pressed {
        snap_state.is_enabled = !snap_state.is_enabled;
    }
    snap_state.is_enabled
}

/// Switches drawing over where the switch was pressed. Returns whether
/// drawing is enabled.
pub fn drawing_toggle_system(pressed: bool, drawing_info: &mut DrawingInfo) -> (enabled: bool)
    ensures
        enabled == (old(drawing_info).drawing_enabled != pressed),
        *final(drawing_info) == (DrawingInfo { drawing_enabled: enabled, ..*old(drawing_info) }),
{
    if pressed {
        drawing_info.drawing_enabled = !drawing_info.drawing_enabled;
    }
    drawing_info.drawing_enabled
}

} // verus!

//! Starting, pausing and resuming a stroke.

use vstd::prelude::*;
use crate::draw_state::DrawingInfo;

verus! {

/// What a click did to the stroke.
#[derive(Clone, Copy, Debug, PartialEq, Eq, Structural)]
pub enum ControlEvent {
    /// Nothing: there was no click, or drawing is disabled.
    Ignored,
    Started,
    Paused,
    Resumed,
}

/// What a click does in the state `info`.
pub open spec fn control_event(info: DrawingInfo, clicked: bool) -> ControlEvent {
    if !info.drawing_enabled || !clicked {
        ControlEvent::Ignored
    } else if !info.is_drawing {
        ControlEvent::Started
    } else if info.is_paused {
        ControlEvent::Resumed
    } else {
        ControlEvent::Paused
    }
}

/// A click starts a stroke where none is drawn, and pauses or resumes the
/// stroke where one is. While drawing is disabled a click does nothing.
pub fn drawing_control_system(clicked: bool, drawing_info: &mut DrawingInfo) -> (event:
    ControlEvent)
    ensures
        event == control_event(*old(drawing_info), clicked),
        *final(drawing_info) == match event {
            ControlEvent::Ignored => *old(drawing_info),
            ControlEvent::Started => DrawingInfo {
                is_drawing: true,
                is_paused: false,
                ..*old(drawing_info)
            },
            ControlEvent::Paused => DrawingInfo { is_paused: true, ..*old(drawing_info) },
            ControlEvent::Resumed => DrawingInfo { is_paused: false, ..*old(drawing_info) },
        },
{
    if !drawing_info.drawing_enabled {
        return ControlEvent::Ignored;
    }
    if !clicked {
        return ControlEvent::Ignored;
    }
    if !drawing_info.is_drawing {
        drawing_info.is_drawing = true;
        drawing_info.is_paused = false;
        ControlEvent::Started
    } else {
        drawing_info.is_paused = !drawing_info.is_paused;
        if drawing_info.is_paused {
            ControlEvent::Paused
        } else {
            ControlEvent::Resumed
        }
    }
}

} // verus!

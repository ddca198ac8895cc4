//! Undo: taking the last points of the stroke in progress back.

use vstd::prelude::*;
use crate::draw_state::DrawingPoints;
use crate::draw_state::PendingSegments;

verus! {

/// How many points one undo takes back.
pub const UNDO_COUNT: usize = 30;

/// How many of `n` items are left when `k` are taken back.
pub open spec fn left_after_undo(n: int, k: int) -> int {
    if n >= k {
        n - k
    } else {
        0
    }
}

/// Takes the last `count` points of the stroke back, and as many pending
/// segments; where there are fewer, all of them. What is left is the
/// stroke as it began.
pub fn undo_points(
    drawing_points: &mut DrawingPoints,
    pending_segments: &mut PendingSegments,
    count: usize,
)
    ensures
        final(drawing_points).points@.len() == left_after_undo(
            old(drawing_points).points@.len() as int,
            count as int,
        ),
        final(drawing_points).points@ == old(drawing_points).points@.take(
            left_after_undo(old(drawing_points).points@.len() as int, count as int),
        ),
        final(drawing_points).line_entities == old(drawing_points).line_entities,
        final(pending_segments).segments@ == old(pending_segments).segments@.take(
            left_after_undo(old(pending_segments).segments@.len() as int, count as int),
        ),
        old(drawing_points).wf() ==> final(drawing_points).wf(),
{
    let n: usize = drawing_points.points.len();
    let keep: usize = if n >= count { n - count } else { 0 };
    drawing_points.points.truncate(keep);
    let m: usize = pending_segments.segments.len();
    let keep_pending: usize = if m >= count { m - count } else { 0 };
    pending_segments.segments.truncate(keep_pending);
    proof {
        assert(drawing_points.points@ =~= old(drawing_points).points@.take(keep as int));
        assert(pending_segments.segments@ =~= old(pending_segments).segments@.take(
            keep_pending as int,
        ));
    }
}

/// One undo, where it was asked for: takes the last [`UNDO_COUNT`] points
/// of the stroke back.
pub fn undo_last_drawing(
    requested: bool,
    drawing_points: &mut DrawingPoints,
    pending_segments: &mut PendingSegments,
)
    ensures
        final(drawing_points).points@ == if requested {
            old(drawing_points).points@.take(
                left_after_undo(old(drawing_points).points@.len() as int, UNDO_COUNT as int),
            )
        } else {
            old(drawing_points).points@
        },
        final(drawing_points).line_entities == old(drawing_points).line_entities,
        final(pending_segments).segments@ == if requested {
            old(pending_segments).segments@.take(
                left_after_undo(old(pending_segments).segments@.len() as int, UNDO_COUNT as int),
            )
        } else {
            old(pending_segments).segments@
        },
        old(drawing_points).wf() ==> final(drawing_points).wf(),
{
    if requested {
        undo_points(drawing_points, pending_segments, UNDO_COUNT);
    }
}

} // verus!

//! The stroke pipeline: what one tick of capture does to a stroke, how a
//! crossing is confirmed, and how a finished stroke is committed.

use vstd::prelude::*;
use crate::arith::lemma_step_length;
use crate::arith::step_toward;
use crate::arith::step_toward_of;
use crate::draw_state::DrawingFinalizeState;
use crate::draw_state::DrawingInfo;
use crate::draw_state::DrawingPoints;
use crate::draw_state::FollowConfig;
use crate::draw_state::PendingSegments;
use crate::math_utils::meeting_point;
use crate::math_utils::segment_intersection_point;
use crate::math_utils::segments_meet;
use crate::merge_svg::check_and_merge_svg;
use crate::merge_svg::commits;
use crate::merge_svg::keeps_ends;
use crate::merge_svg::lemma_commit_keeps_ends;
use crate::merge_svg::lifted;
use crate::merge_svg::prepared_stroke;
use crate::merge_svg::strays;
use crate::merge_svg::vertices;
use crate::merge_svg::MergeOutcome;
use crate::merge_svg::SvgLibrary;
use crate::point::all_in_range;
use crate::point::clamp_coord;
use crate::point::coord_in_range;
use crate::point::dist_sq;
use crate::point::dist_sq_of;
use crate::point::PathPoint;
use crate::point::Point2;
use crate::spatial_grid::excluded;
use crate::spatial_grid::rebuilt_bounds;
use crate::spatial_grid::renumbered;
use crate::spatial_grid::PathSegment;
use crate::spatial_grid::SnapState;
use crate::spatial_grid::SpatialGrid;

verus! {

/// Least speed of the cursor at which a point is captured, in lattice
/// steps per second: one world unit per second.
pub const MIN_MOUSE_VELOCITY: u32 = 1000;

/// Radius within which a point snaps onto committed geometry, in lattice
/// steps: fifteen world units.
pub const SNAP_RADIUS: u32 = 15000;

/// Radius within which committed geometry keeps a stroke out, in lattice
/// steps: seven world units.
pub const BLOCK_RADIUS: u32 = 7000;

/// Least time between two captured points that the speed of the cursor is
/// reckoned with, in microseconds.
pub const MIN_TICK_US: u64 = 100;

/// The time since the last captured point, in microseconds, but no less
/// than [`MIN_TICK_US`]. Times are taken as they come: a clock that ran
/// backwards gives the least time.
pub open spec fn elapsed_us(last: Option<u64>, now: u64) -> int {
    let dt: int = match last {
        Some(t) => now - t,
        None => 0,
    };
    if dt < MIN_TICK_US {
        MIN_TICK_US as int
    } else {
        dt
    }
}

/// Whether the cursor has moved faster than [`MIN_MOUSE_VELOCITY`] since
/// the last captured point. The first point of a stroke is always fast
/// enough.
pub open spec fn fast_enough(info: DrawingInfo, mouse: Point2, now: u64) -> bool {
    match info.last_mouse_pos {
        Some(last_mouse) => {
            let dt = elapsed_us(info.last_mouse_time, now);
            dist_sq(last_mouse, mouse) * 1_000_000_000_000 > (MIN_MOUSE_VELOCITY
                * MIN_MOUSE_VELOCITY) * (dt * dt)
        },
        None => true,
    }
}

/// Whether a segment found near the cursor keeps the stroke out: the
/// cursor is within [`BLOCK_RADIUS`] of it, and the nearest point on it is
/// not within [`SNAP_RADIUS`] of either of its ends.
pub open spec fn blocks_entry(seg: PathSegment, nearest: Point2, mouse: Point2) -> bool {
    let near_start = dist_sq(nearest, seg.start) < SNAP_RADIUS * SNAP_RADIUS;
    let near_end = dist_sq(nearest, seg.end) < SNAP_RADIUS * SNAP_RADIUS;
    let near_segment = dist_sq(nearest, mouse) < BLOCK_RADIUS * BLOCK_RADIUS;
    near_segment && !(near_start || near_end)
}

/// Whether committed geometry keeps a stroke out at the cursor.
pub open spec fn entry_blocked(grid: SpatialGrid, mouse: Point2) -> bool {
    match grid.nearest_segment(mouse, SNAP_RADIUS) {
        Some((seg, nearest)) => blocks_entry(seg, nearest, mouse),
        None => false,
    }
}

/// The point one step of `speed` from `last` towards `mouse`, on the
/// lattice and kept in range: either coordinate of the step is its exact
/// share of the speed, rounded to the nearest whole number. The step is
/// not cut short where the cursor is nearer than that.
pub open spec fn followed(last: Point2, mouse: Point2, speed: u32) -> Point2 {
    let d2 = dist_sq(last, mouse);
    if d2 == 0 {
        last
    } else {
        Point2 {
            x: clamp_coord(last.x + step_toward(mouse.x - last.x, speed as int, d2)) as i32,
            y: clamp_coord(last.y + step_toward(mouse.y - last.y, speed as int, d2)) as i32,
        }
    }
}

/// Whether the step from `last` towards `mouse` stays in range, so that
/// nothing of it is cut off.
pub open spec fn step_in_range(last: Point2, mouse: Point2, speed: u32) -> bool {
    let d2 = dist_sq(last, mouse);
    &&& coord_in_range(last.x + step_toward(mouse.x - last.x, speed as int, d2))
    &&& coord_in_range(last.y + step_toward(mouse.y - last.y, speed as int, d2))
}

/// Whether `p` lies one step of `speed` from `last`, to within one lattice
/// step.
pub open spec fn one_step_away(last: Point2, p: Point2, speed: u32) -> bool {
    &&& dist_sq(last, p) <= (speed + 1) * (speed + 1)
    &&& speed >= 1 ==> (speed - 1) * (speed - 1) <= dist_sq(last, p)
}

/// A fixed follow speed: where the cursor is not on the last point and
/// the step stays in range, the point that follows lies one step of
/// `speed` from the last point, to within one lattice step.
pub proof fn lemma_followed_length(last: Point2, mouse: Point2, speed: u32)
    requires
        last != mouse,
        step_in_range(last, mouse, speed),
    ensures
        one_step_away(last, followed(last, mouse, speed), speed),
{
    let dx = mouse.x - last.x;
    let dy = mouse.y - last.y;
    assert(dx * dx + dy * dy > 0) by (nonlinear_arith)
        requires
            dx != 0 || dy != 0,
    ;
    lemma_step_length(dx, dy, speed as int);
}

/// The point that a tick would capture: the cursor itself for the first
/// point of a stroke, and after that one step from the last point towards
/// the cursor.
pub open spec fn target_pos(last_pos: Option<Point2>, mouse: Point2, speed: u32) -> Point2 {
    match last_pos {
        Some(last) => followed(last, mouse, speed),
        None => mouse,
    }
}

/// The place of the first of the first `n` segments that the line from
/// `a` to `b` crosses.
pub open spec fn first_crossing(segs: Seq<PathSegment>, a: Point2, b: Point2, n: int) -> Option<
    int,
>
    decreases n,
{
    if n <= 0 {
        None
    } else {
        match first_crossing(segs, a, b, n - 1) {
            Some(i) => Some(i),
            None => if segments_meet(a, b, segs[n - 1].start, segs[n - 1].end) {
                Some(n - 1)
            } else {
                None
            },
        }
    }
}

/// The end of `seg` nearer to `hit`; its second end where both are as
/// near.
pub open spec fn nearer_end(seg: PathSegment, hit: Point2) -> Point2 {
    if dist_sq(hit, seg.start) < dist_sq(hit, seg.end) {
        seg.start
    } else {
        seg.end
    }
}

/// The segments between consecutive points of a path, numbered from zero.
pub open spec fn edges(points: Seq<Point2>) -> Seq<PathSegment> {
    Seq::new(
        if points.len() >= 1 {
            (points.len() - 1) as nat
        } else {
            0
        },
        |i: int| PathSegment { start: points[i], end: points[i + 1], id: i as usize },
    )
}

/// The state after a point has been captured.
pub open spec fn accepted_info(
    info: DrawingInfo,
    new_pos: Point2,
    mouse: Point2,
    now: u64,
) -> DrawingInfo {
    DrawingInfo {
        last_pos: Some(new_pos),
        last_mouse_pos: Some(mouse),
        last_mouse_time: Some(now),
        ..info
    }
}

/// The pending segments after a point has been captured: one more, from
/// the last point to the new one, unless the new point is the first.
pub open spec fn accepted_pending(
    pending: Seq<PathSegment>,
    last_pos: Option<Point2>,
    new_pos: Point2,
) -> Seq<PathSegment> {
    match last_pos {
        Some(last) => pending.push(
            PathSegment { start: last, end: new_pos, id: pending.len() as usize },
        ),
        None => pending,
    }
}

/// Executable form of [`fast_enough`].
pub fn moving_fast_enough(info: &DrawingInfo, mouse: Point2, now: u64) -> (b: bool)
    requires
        info.wf(),
        mouse.in_range(),
    ensures
        b == fast_enough(*info, mouse, now),
{
    match info.last_mouse_pos {
        Some(last_mouse) => {
            let raw: u64 = match info.last_mouse_time {
                Some(t) => if now >= t {
                    now - t
                } else {
                    0
                },
                None => 0,
            };
            let dt: u64 = if raw < MIN_TICK_US { MIN_TICK_US } else { raw };
            let d2: u128 = dist_sq_of(last_mouse, mouse);
            let lhs: u128 = d2 * 1_000_000_000_000;
            proof {
                assert(dt == elapsed_us(info.last_mouse_time, now));
                assert(MIN_MOUSE_VELOCITY * MIN_MOUSE_VELOCITY == 1_000_000);
            }
            if dt >= 0x1_0000_0000_0000 {
                // so long a time that no distance in range is fast enough
                assert(dt * dt >= 0x1_0000_0000_0000_0000_0000_0000int) by (nonlinear_arith)
                    requires
                        dt >= 0x1_0000_0000_0000,
                ;
                false
            } else {
                assert(dt * dt <= 0x1_0000_0000_0000_0000_0000_0000int) by (nonlinear_arith)
                    requires
                        0 <= dt <= 0x1_0000_0000_0000,
                ;
                let dt2: u128 = (dt as u128) * (dt as u128);
                lhs > 1_000_000 * dt2
            }
        },
        None => true,
    }
}

/// Executable form of [`entry_blocked`].
pub fn is_entry_blocked(grid: &SpatialGrid, mouse: Point2) -> (b: bool)
    requires
        grid.wf(),
        mouse.in_range(),
    ensures
        b == entry_blocked(*grid, mouse),
{
    match grid.query_nearest_segment(mouse, SNAP_RADIUS) {
        Some((seg, nearest)) => {
            let snap: u128 = (SNAP_RADIUS as u128) * (SNAP_RADIUS as u128);
            let block: u128 = (BLOCK_RADIUS as u128) * (BLOCK_RADIUS as u128);
            let near_start = dist_sq_of(nearest, seg.start) < snap;
            let near_end = dist_sq_of(nearest, seg.end) < snap;
            let near_segment = dist_sq_of(nearest, mouse) < block;
            near_segment && !(near_start || near_end)
        },
        None => false,
    }
}

/// One step of `speed` from `last` towards `mouse`.
fn follow(last: Point2, mouse: Point2, speed: u32) -> (p: Point2)
    requires
        last.in_range(),
        mouse.in_range(),
    ensures
        p == followed(last, mouse, speed),
        p.in_range(),
{
    let d2: u128 = dist_sq_of(last, mouse);
    if d2 == 0 {
        return last;
    }
    let sx: i128 = step_toward_of(mouse.x as i64 - last.x as i64, speed, d2);
    let sy: i128 = step_toward_of(mouse.y as i64 - last.y as i64, speed, d2);
    Point2::clamped(last.x as i128 + sx, last.y as i128 + sy)
}

/// The point that the next tick would capture.
pub fn compute_new_pos(drawing_info: &DrawingInfo, mouse_pos: Point2, speed: u32) -> (p: Point2)
    requires
        drawing_info.wf(),
        mouse_pos.in_range(),
    ensures
        p == target_pos(drawing_info.last_pos, mouse_pos, speed),
        p.in_range(),
        match drawing_info.last_pos {
            Some(last) => last != mouse_pos && step_in_range(last, mouse_pos, speed)
                ==> one_step_away(last, p, speed),
            None => true,
        },
{
    proof {
        match drawing_info.last_pos {
            Some(last) => {
                if last != mouse_pos && step_in_range(last, mouse_pos, speed) {
                    lemma_followed_length(last, mouse_pos, speed);
                }
            },
            None => {},
        }
    }
    match drawing_info.last_pos {
        Some(last_pos) => follow(last_pos, mouse_pos, speed),
        None => mouse_pos,
    }
}

/// The first committed segment that the line from `last` to `new_pos`
/// crosses, and the point in which it does.
pub fn find_crossing(grid: &SpatialGrid, last: Point2, new_pos: Point2) -> (r: Option<
    (PathSegment, Point2),
>)
    requires
        grid.wf(),
        last.in_range(),
        new_pos.in_range(),
    ensures
        match first_crossing(grid.segments@, last, new_pos, grid.segments@.len() as int) {
            Some(i) => r == Some(
                (
                    grid.segments@[i],
                    meeting_point(last, new_pos, grid.segments@[i].start, grid.segments@[i].end),
                ),
            ) && 0 <= i < grid.segments@.len(),
            None => r is None,
        },
        match r {
            Some((seg, hit)) => seg.in_range() && hit.in_range(),
            None => true,
        },
{
    let mut i: usize = 0;
    while i < grid.segments.len()
        invariant
            i <= grid.segments@.len(),
            grid.wf(),
            last.in_range(),
            new_pos.in_range(),
            first_crossing(grid.segments@, last, new_pos, i as int) is None,
        decreases grid.segments@.len() - i,
    {
        let seg = grid.segments[i];
        assert(seg.in_range());
        match segment_intersection_point(last, new_pos, seg.start, seg.end) {
            Some(hit) => {
                proof {
                    lemma_first_crossing_stays(
                        grid.segments@,
                        last,
                        new_pos,
                        i + 1,
                        grid.segments@.len() as int,
                    );
                }
                return Some((seg, hit));
            },
            None => {},
        }
        i += 1;
    }
    None
}

/// A first crossing stays the first when more segments are looked at.
proof fn lemma_first_crossing_stays(segs: Seq<PathSegment>, a: Point2, b: Point2, n: int, m: int)
    requires
        n <= m,
        first_crossing(segs, a, b, n) is Some,
    ensures
        first_crossing(segs, a, b, m) == first_crossing(segs, a, b, n),
    decreases m - n,
{
    if n < m {
        lemma_first_crossing_stays(segs, a, b, n, m - 1);
    }
}

/// Captures `new_pos`: it becomes the last point of the stroke, and the
/// segment that leads to it from the point before is kept for undo.
pub fn update_drawing_points(
    drawing_info: &mut DrawingInfo,
    drawing_points: &mut DrawingPoints,
    pending_segments: &mut PendingSegments,
    new_pos: Point2,
    mouse_pos: Point2,
    now: u64,
)
    ensures
        *final(drawing_info) == accepted_info(*old(drawing_info), new_pos, mouse_pos, now),
        final(drawing_points).points@ == old(drawing_points).points@.push(new_pos),
        final(drawing_points).line_entities == old(drawing_points).line_entities,
        final(pending_segments).segments@ == accepted_pending(
            old(pending_segments).segments@,
            old(drawing_info).last_pos,
            new_pos,
        ),
{
    match drawing_info.last_pos {
        Some(last) => {
            let id: usize = pending_segments.segments.len();
            pending_segments.segments.push(PathSegment { start: last, end: new_pos, id });
        },
        None => {},
    }
    drawing_points.points.push(new_pos);
    drawing_info.last_pos = Some(new_pos);
    drawing_info.last_mouse_pos = Some(mouse_pos);
    drawing_info.last_mouse_time = Some(now);
}

/// The stroke with its first point moved onto the nearest committed
/// segment, where the index finds one within [`SNAP_RADIUS`]: onto the
/// point that the query returns, which lies inside that radius.
pub open spec fn start_snapped(grid: SpatialGrid, stroke: Seq<Point2>) -> Seq<Point2> {
    if stroke.len() == 0 {
        stroke
    } else {
        match grid.nearest_point(stroke[0], SNAP_RADIUS, None, 0) {
            Some((pt, _id)) => stroke.update(0, pt),
            None => stroke,
        }
    }
}

/// The stroke with its last point moved onto the confirmed end point,
/// where there is one.
pub open spec fn end_snapped(stroke: Seq<Point2>, confirm: Option<Point2>) -> Seq<Point2> {
    match confirm {
        Some(c) => if stroke.len() > 0 {
            stroke.update(stroke.len() - 1, c)
        } else {
            stroke
        },
        None => stroke,
    }
}

/// The stroke as it goes to the merge engine: snapped at its start, then
/// at its end.
pub open spec fn closed_stroke(grid: SpatialGrid, stroke: Seq<Point2>, confirm: Option<Point2>) -> Seq<
    Point2,
> {
    end_snapped(start_snapped(grid, stroke), confirm)
}

/// The state after a stroke has been finished: one more stroke counted,
/// and everything that belonged to the stroke forgotten.
pub open spec fn finished_info(info: DrawingInfo) -> DrawingInfo {
    DrawingInfo {
        counter: (info.counter + 1) as usize,
        last_pos: None,
        last_mouse_pos: None,
        last_mouse_time: None,
        snapped_seg_id: None,
        is_drawing: false,
        is_paused: false,
        started_from_seg_id: None,
        finalize_state: info.finalize_state,
        drawing_enabled: info.drawing_enabled,
        start_candidate: None,
        confirm_pending: false,
        confirm_point: None,
        confirm_seg_id: None,
        confirm_prompt_printed: false,
    }
}

/// The snap state after a stroke has been finished.
pub open spec fn finished_snap(snap: SnapState) -> SnapState {
    SnapState { is_blocking: false, initial_seg_id: None, initial_snap_pos: None, ..snap }
}

/// Whether `after` is the index `before` with the edges of `grid_path`
/// appended and rebuilt. An index that still has no segment is left as it
/// was.
pub open spec fn reindexed(before: SpatialGrid, after: SpatialGrid, grid_path: Seq<Point2>) -> bool {
    &&& after.wf()
    &&& after.indexed()
    &&& after.segments@ == before.segments@ + renumbered(
        edges(grid_path),
        before.segments@.len() as int,
    )
    &&& if after.segments@.len() > 0 {
        rebuilt_bounds(after.segments@, after.bounds)
    } else {
        &&& after.bounds == before.bounds
        &&& after.cols == before.cols
        &&& after.rows == before.rows
        &&& after.cells == before.cells
    }
}

/// Whether finishing a stroke leads from the state before to the state
/// after: the stroke is snapped at both ends and committed to the library,
/// the vertices of the merged path go into the index as new segments, the
/// index is rebuilt, and the state of the stroke is reset.
pub open spec fn finalized(
    info: DrawingInfo,
    stroke: Seq<Point2>,
    entries: Seq<(u64, Seq<PathPoint>)>,
    grid: SpatialGrid,
    snap: SnapState,
    new_handle: u64,
    info_after: DrawingInfo,
    entries_after: Seq<(u64, Seq<PathPoint>)>,
    grid_after: SpatialGrid,
    snap_after: SnapState,
    outcome: MergeOutcome,
) -> bool {
    &&& commits(
        closed_stroke(grid, stroke, info.confirm_point),
        entries,
        new_handle,
        entries_after,
        outcome,
    )
    &&& reindexed(grid, grid_after, outcome.grid_path@)
    &&& info_after == finished_info(info)
    &&& snap_after == finished_snap(snap)
}

/// Where a stroke that is finished starts: on the point that the index
/// finds for its first point within [`SNAP_RADIUS`], or on its first point
/// where the index finds none.
pub open spec fn snapped_start(grid: SpatialGrid, stroke: Seq<Point2>) -> Point2 {
    match grid.nearest_point(stroke[0], SNAP_RADIUS, None, 0) {
        Some((q, _id)) => q,
        None => stroke[0],
    }
}

/// Where a stroke that is finished ends: on the confirmed end point, or on
/// its last point where none was confirmed.
pub open spec fn snapped_end(stroke: Seq<Point2>, confirm: Option<Point2>) -> Point2 {
    match confirm {
        Some(c) => c,
        None => stroke.last(),
    }
}

/// A stroke that is finished and committed runs from where it snapped to
/// where it was confirmed: the first segment that the index gains starts
/// there, the new entry of the library starts there, and the run of the
/// stroke in that entry ends on the end point, before the first break
/// marker. Where the stroke took in no entry of the library, the last
/// segment that the index gains ends on the end point too.
pub proof fn lemma_finalized_ends(
    info: DrawingInfo,
    stroke: Seq<Point2>,
    entries: Seq<(u64, Seq<PathPoint>)>,
    grid: SpatialGrid,
    snap: SnapState,
    new_handle: u64,
    info_after: DrawingInfo,
    entries_after: Seq<(u64, Seq<PathPoint>)>,
    grid_after: SpatialGrid,
    snap_after: SnapState,
    outcome: MergeOutcome,
)
    requires
        finalized(
            info,
            stroke,
            entries,
            grid,
            snap,
            new_handle,
            info_after,
            entries_after,
            grid_after,
            snap_after,
            outcome,
        ),
        stroke.len() >= 2,
        outcome.merged,
    ensures
        ({
            let start = snapped_start(grid, stroke);
            let end = snapped_end(stroke, info.confirm_point);
            let run = prepared_stroke(closed_stroke(grid, stroke, info.confirm_point));
            let entry = entries_after.last().1;
            &&& run.len() >= 2
            &&& grid_after.segments@.len() > grid.segments@.len()
            &&& grid_after.segments@[grid.segments@.len() as int].start == start
            &&& entry[0] == PathPoint::Vertex(start)
            &&& entry[run.len() - 1] == PathPoint::Vertex(end)
            &&& entry[run.len() as int] == PathPoint::Break
            &&& outcome.despawned@.len() == 0 ==> grid_after.segments@.last().end == end
        }),
{
    let closed = closed_stroke(grid, stroke, info.confirm_point);
    let run = prepared_stroke(closed);
    let entry = entries_after.last().1;
    lemma_commit_keeps_ends(closed, entries, new_handle, entries_after, outcome);
    assert(closed.len() == stroke.len());
    let head = lifted(run).push(PathPoint::Break);
    assert(entry.subrange(0, run.len() as int + 1) == head);
    assert(entry[0] == head[0]);
    assert(entry[run.len() - 1] == head[run.len() - 1]);
    assert(entry[run.len() as int] == head[run.len() as int]);
    let path = outcome.grid_path@;
    assert(path[0] == path.subrange(0, run.len() as int)[0]);
    let added = renumbered(edges(path), grid.segments@.len() as int);
    assert(added.len() >= 1);
    assert(grid_after.segments@[grid.segments@.len() as int] == added[0]);
    if outcome.despawned@.len() == 0 {
        assert(grid_after.segments@.last() == added.last());
    }
}

/// The segments between consecutive points of a path.
pub fn segments_from_path(points: &[Point2]) -> (r: Vec<PathSegment>)
    requires
        all_in_range(points@),
    ensures
        r@ == edges(points@),
        forall|i: int| 0 <= i < r@.len() ==> (#[trigger] r@[i]).in_range(),
{
    let mut out: Vec<PathSegment> = Vec::new();
    if points.len() < 2 {
        assert(out@ =~= edges(points@));
        return out;
    }
    let mut i: usize = 0;
    while i < points.len() - 1
        invariant
            points@.len() >= 2,
            i <= points@.len() - 1,
            all_in_range(points@),
            out@.len() == i,
            forall|k: int| 0 <= k < i ==> #[trigger] out@[k] == edges(points@)[k],
            forall|k: int| 0 <= k < i ==> (#[trigger] out@[k]).in_range(),
        decreases points@.len() - i,
    {
        assert(points@[i as int].in_range());
        assert(points@[i + 1].in_range());
        out.push(PathSegment { start: points[i], end: points[i + 1], id: i });
        i += 1;
    }
    assert(out@ =~= edges(points@));
    out
}

/// Finishes the stroke: its first point snaps onto the nearest committed
/// segment within [`SNAP_RADIUS`], its last point onto the confirmed end
/// point if there is one; the merge engine commits it to the library under
/// `new_handle`; the vertices of the merged path go into the index as new
/// segments and the index is rebuilt; the state of the stroke is reset,
/// and its pending segments are discarded.
pub fn finalize_svg_drawing(
    drawing_info: &mut DrawingInfo,
    drawing_points: &mut DrawingPoints,
    pending_segments: &mut PendingSegments,
    svg_library: &mut SvgLibrary,
    spatial_grid: &mut SpatialGrid,
    snap_state: &mut SnapState,
    new_handle: u64,
) -> (outcome: MergeOutcome)
    requires
        old(drawing_info).wf(),
        old(drawing_points).wf(),
        old(svg_library).wf(),
        old(spatial_grid).wf(),
        old(drawing_info).counter < usize::MAX,
    ensures
        finalized(
            *old(drawing_info),
            old(drawing_points).points@,
            old(svg_library).entries(),
            *old(spatial_grid),
            *old(snap_state),
            new_handle,
            *final(drawing_info),
            final(svg_library).entries(),
            *final(spatial_grid),
            *final(snap_state),
            outcome,
        ),
        outcome.merged == strays(
            closed_stroke(
                *old(spatial_grid),
                old(drawing_points).points@,
                old(drawing_info).confirm_point,
            ),
        ),
        outcome.merged ==> keeps_ends(
            closed_stroke(
                *old(spatial_grid),
                old(drawing_points).points@,
                old(drawing_info).confirm_point,
            ),
            final(svg_library).entries(),
            outcome,
        ),
        final(drawing_points).points@.len() == 0,
        final(drawing_points).line_entities == old(drawing_points).line_entities,
        final(pending_segments).segments@.len() == 0,
        final(drawing_info).wf(),
        final(drawing_points).wf(),
        final(svg_library).wf(),
        final(spatial_grid).wf(),
{
    let n: usize = drawing_points.points.len();
    if n > 0 {
        let first = drawing_points.points[0];
        assert(first.in_range());
        match spatial_grid.query_nearest_point(first, SNAP_RADIUS, None, 0) {
            Some((closest_pt, _seg_id)) => {
                drawing_points.points[0] = closest_pt;
            },
            None => {},
        }
    }
    assert(drawing_points.points@ == start_snapped(
        *old(spatial_grid),
        old(drawing_points).points@,
    ));
    match drawing_info.confirm_point {
        Some(confirm_point) => {
            if n > 0 {
                drawing_points.points[n - 1] = confirm_point;
            }
        },
        None => {},
    }
    assert(drawing_points.points@ == closed_stroke(
        *old(spatial_grid),
        old(drawing_points).points@,
        old(drawing_info).confirm_point,
    ));
    let outcome = check_and_merge_svg(drawing_info, drawing_points, svg_library, new_handle);
    let new_segments = segments_from_path(outcome.grid_path.as_slice());
    spatial_grid.insert_segments(new_segments);
    spatial_grid.rebuild_grid();
    pending_segments.segments.clear();

    snap_state.is_blocking = false;
    snap_state.initial_seg_id = None;
    snap_state.initial_snap_pos = None;

    drawing_info.snapped_seg_id = None;
    drawing_info.last_pos = None;
    drawing_info.last_mouse_pos = None;
    drawing_info.last_mouse_time = None;
    drawing_info.is_drawing = false;
    drawing_info.is_paused = false;
    drawing_info.confirm_pending = false;
    drawing_info.confirm_point = None;
    drawing_info.confirm_seg_id = None;
    drawing_info.confirm_prompt_printed = false;
    drawing_info.started_from_seg_id = None;
    drawing_info.start_candidate = None;
    outcome
}

/// What one tick of the pipeline did.
pub enum TickOutcome {
    /// No stroke is being drawn, or it is paused.
    Inactive,
    /// A crossing waits to be confirmed, and the question is to be put
    /// now.
    PromptRequested,
    /// A crossing waits to be confirmed, and the question has been put.
    AwaitingAnswer,
    /// The interval between two ticks has not passed.
    NotDue,
    /// The cursor moved too slowly.
    TooSlow,
    /// Committed geometry keeps the stroke out at the cursor.
    Blocked,
    /// The stroke would cross a committed segment: the point was not
    /// captured, and the crossing waits to be confirmed.
    CrossingFound,
    /// A point was captured.
    Accepted,
    /// A point was captured, and the stroke was finished with it.
    Finalized(MergeOutcome),
}

/// What one tick of the pipeline decides, before it changes anything.
pub enum TickStep {
    Inactive,
    Prompt,
    NotDue,
    TooSlow,
    Blocked,
    /// The stroke would cross the committed segment at this place.
    Crossing(int),
    Capture,
}

/// The decision of a tick, step by step: nothing happens while no stroke
/// is drawn or the stroke is paused; a pending crossing holds everything
/// else up; then the tick must be due, the cursor fast enough and the
/// entry free; and then the point is captured unless the line to it
/// crosses a committed segment.
pub open spec fn tick_step(
    info: DrawingInfo,
    grid: SpatialGrid,
    speed: u32,
    timer_fired: bool,
    mouse: Point2,
    now: u64,
) -> TickStep {
    if !(info.is_drawing && !info.is_paused) {
        TickStep::Inactive
    } else if info.confirm_pending {
        TickStep::Prompt
    } else if !timer_fired {
        TickStep::NotDue
    } else if !fast_enough(info, mouse, now) {
        TickStep::TooSlow
    } else if entry_blocked(grid, mouse) {
        TickStep::Blocked
    } else {
        match info.last_pos {
            Some(last) => match first_crossing(
                grid.segments@,
                last,
                target_pos(info.last_pos, mouse, speed),
                grid.segments@.len() as int,
            ) {
                Some(i) => TickStep::Crossing(i),
                None => TickStep::Capture,
            },
            None => TickStep::Capture,
        }
    }
}

/// The state after a crossing of `seg` in `hit` has been found: the
/// crossing waits to be confirmed, with the nearer end of `seg` as the
/// point that the stroke would end on.
pub open spec fn crossing_info(info: DrawingInfo, seg: PathSegment, hit: Point2) -> DrawingInfo {
    DrawingInfo {
        confirm_pending: true,
        confirm_point: Some(nearer_end(seg, hit)),
        confirm_seg_id: Some(seg.id),
        confirm_prompt_printed: false,
        ..info
    }
}

/// Whether a stroke of `n_points` points finishes by itself: it has two
/// points or more, it started on a segment, and the segment it snapped to
/// last lies outside the neighbourhood of the one it started on.
pub open spec fn auto_finalizes(snapped: Option<usize>, snap: SnapState, n_points: int) -> bool {
    n_points >= 2 && match (snapped, snap.initial_seg_id) {
        (Some(current), Some(start)) => !excluded(current, Some(start), snap.blocked_range),
        _ => false,
    }
}

/// The end of `seg` nearer to `hit`.
fn nearer_end_of(seg: &PathSegment, hit: Point2) -> (p: Point2)
    requires
        seg.in_range(),
        hit.in_range(),
    ensures
        p == nearer_end(*seg, hit),
        p.in_range(),
{
    if dist_sq_of(hit, seg.start) < dist_sq_of(hit, seg.end) {
        seg.start
    } else {
        seg.end
    }
}

/// Executable form of [`auto_finalizes`].
fn should_auto_finalize(snapped: Option<usize>, snap: &SnapState, n_points: usize) -> (b: bool)
    ensures
        b == auto_finalizes(snapped, *snap, n_points as int),
{
    if n_points < 2 {
        return false;
    }
    match (snapped, snap.initial_seg_id) {
        (Some(current), Some(start)) => {
            let blocked = snap.blocked_range;
            current < start.saturating_sub(blocked) || current > start.saturating_add(blocked)
        },
        _ => false,
    }
}

/// One tick of the stroke pipeline, for the cursor at `mouse_pos` at the
/// time `now`. `timer_fired` says whether the interval between two ticks
/// has passed; `new_handle` is the handle that a stroke finished by this
/// tick is committed under.
pub fn drawing(
    drawing_info: &mut DrawingInfo,
    drawing_points: &mut DrawingPoints,
    svg_library: &mut SvgLibrary,
    spatial_grid: &mut SpatialGrid,
    pending_segments: &mut PendingSegments,
    snap_state: &mut SnapState,
    config: &FollowConfig,
    timer_fired: bool,
    mouse_pos: Point2,
    now: u64,
    new_handle: u64,
) -> (outcome: TickOutcome)
    requires
        old(drawing_info).wf(),
        old(drawing_points).wf(),
        old(svg_library).wf(),
        old(spatial_grid).wf(),
        old(drawing_info).counter < usize::MAX,
        mouse_pos.in_range(),
    ensures
        final(drawing_info).wf(),
        final(drawing_points).wf(),
        final(svg_library).wf(),
        final(spatial_grid).wf(),
        final(drawing_points).line_entities == old(drawing_points).line_entities,
        match tick_step(
            *old(drawing_info),
            *old(spatial_grid),
            config.speed,
            timer_fired,
            mouse_pos,
            now,
        ) {
            TickStep::Inactive => outcome is Inactive && *final(drawing_info) == *old(
                drawing_info,
            ),
            TickStep::Prompt => {
                &&& old(drawing_info).confirm_prompt_printed ==> outcome is AwaitingAnswer
                &&& !old(drawing_info).confirm_prompt_printed ==> outcome is PromptRequested
                &&& *final(drawing_info) == (DrawingInfo {
                    confirm_prompt_printed: true,
                    ..*old(drawing_info)
                })
            },
            TickStep::NotDue => outcome is NotDue && *final(drawing_info) == *old(drawing_info),
            TickStep::TooSlow => outcome is TooSlow && *final(drawing_info) == *old(drawing_info),
            TickStep::Blocked => outcome is Blocked && *final(drawing_info) == *old(drawing_info),
            TickStep::Crossing(i) => {
                let seg = old(spatial_grid).segments@[i];
                let hit = meeting_point(
                    old(drawing_info).last_pos->0,
                    target_pos(old(drawing_info).last_pos, mouse_pos, config.speed),
                    seg.start,
                    seg.end,
                );
                &&& 0 <= i < old(spatial_grid).segments@.len()
                &&& outcome is CrossingFound
                &&& *final(drawing_info) == crossing_info(*old(drawing_info), seg, hit)
            },
            TickStep::Capture => true,
        },
        !(tick_step(
            *old(drawing_info),
            *old(spatial_grid),
            config.speed,
            timer_fired,
            mouse_pos,
            now,
        ) is Capture) ==> {
            &&& *final(drawing_points) == *old(drawing_points)
            &&& *final(pending_segments) == *old(pending_segments)
            &&& *final(svg_library) == *old(svg_library)
            &&& *final(spatial_grid) == *old(spatial_grid)
            &&& *final(snap_state) == *old(snap_state)
        },
        tick_step(
            *old(drawing_info),
            *old(spatial_grid),
            config.speed,
            timer_fired,
            mouse_pos,
            now,
        ) is Capture ==> {
            let new_pos = target_pos(old(drawing_info).last_pos, mouse_pos, config.speed);
            let captured = accepted_info(*old(drawing_info), new_pos, mouse_pos, now);
            let stroke = old(drawing_points).points@.push(new_pos);
            if auto_finalizes(captured.snapped_seg_id, *old(snap_state), stroke.len() as int) {
                match outcome {
                    TickOutcome::Finalized(merge) => {
                        &&& final(pending_segments).segments@.len() == 0
                        &&& finalized(
                            captured,
                            stroke,
                            old(svg_library).entries(),
                            *old(spatial_grid),
                            *old(snap_state),
                            new_handle,
                            *final(drawing_info),
                            final(svg_library).entries(),
                            *final(spatial_grid),
                            *final(snap_state),
                            merge,
                        )
                        &&& final(drawing_points).points@.len() == 0
                    },
                    _ => false,
                }
            } else {
                &&& outcome is Accepted
                &&& *final(drawing_info) == captured
                &&& final(drawing_points).points@ == stroke
                &&& final(pending_segments).segments@ == accepted_pending(
                    old(pending_segments).segments@,
                    old(drawing_info).last_pos,
                    new_pos,
                )
                &&& *final(svg_library) == *old(svg_library)
                &&& *final(spatial_grid) == *old(spatial_grid)
                &&& *final(snap_state) == *old(snap_state)
            }
        },
{
    if !(drawing_info.is_drawing && !drawing_info.is_paused) {
        return TickOutcome::Inactive;
    }
    if drawing_info.confirm_pending {
        if !drawing_info.confirm_prompt_printed {
            drawing_info.confirm_prompt_printed = true;
            return TickOutcome::PromptRequested;
        }
        return TickOutcome::AwaitingAnswer;
    }
    if !timer_fired {
        return TickOutcome::NotDue;
    }
    if !moving_fast_enough(drawing_info, mouse_pos, now) {
        return TickOutcome::TooSlow;
    }
    if is_entry_blocked(spatial_grid, mouse_pos) {
        return TickOutcome::Blocked;
    }
    let new_pos = compute_new_pos(drawing_info, mouse_pos, config.speed);
    match drawing_info.last_pos {
        Some(last) => {
            match find_crossing(spatial_grid, last, new_pos) {
                Some((seg, hit)) => {
                    let snapped_point = nearer_end_of(&seg, hit);
                    drawing_info.confirm_pending = true;
                    drawing_info.confirm_point = Some(snapped_point);
                    drawing_info.confirm_seg_id = Some(seg.id);
                    drawing_info.confirm_prompt_printed = false;
                    return TickOutcome::CrossingFound;
                },
                None => {},
            }
        },
        None => {},
    }
    update_drawing_points(
        drawing_info,
        drawing_points,
        pending_segments,
        new_pos,
        mouse_pos,
        now,
    );
    if should_auto_finalize(drawing_info.snapped_seg_id, snap_state, drawing_points.points.len()) {
        let merge = finalize_svg_drawing(
            drawing_info,
            drawing_points,
            pending_segments,
            svg_library,
            spatial_grid,
            snap_state,
            new_handle,
        );
        TickOutcome::Finalized(merge)
    } else {
        TickOutcome::Accepted
    }
}

/// The answer to a pending crossing. `yes` ends the stroke on the end
/// point that was offered and finishes it; `no` forgets the crossing and
/// lets capture go on with the stroke as it was. Without a pending
/// crossing, and without an answer, nothing happens. Where both answers
/// come at once, `yes` counts.
pub fn drawing_confirmation_system(
    yes: bool,
    no: bool,
    drawing_info: &mut DrawingInfo,
    drawing_points: &mut DrawingPoints,
    pending_segments: &mut PendingSegments,
    svg_library: &mut SvgLibrary,
    spatial_grid: &mut SpatialGrid,
    snap_state: &mut SnapState,
    new_handle: u64,
) -> (outcome: Option<MergeOutcome>)
    requires
        old(drawing_info).wf(),
        old(drawing_points).wf(),
        old(svg_library).wf(),
        old(spatial_grid).wf(),
        old(drawing_info).counter < usize::MAX,
    ensures
        final(drawing_info).wf(),
        final(drawing_points).wf(),
        final(svg_library).wf(),
        final(spatial_grid).wf(),
        final(drawing_points).line_entities == old(drawing_points).line_entities,
        outcome is Some <==> old(drawing_info).confirm_pending && yes,
        match outcome {
            Some(merge) => {
                &&& finalized(
                    *old(drawing_info),
                    old(drawing_points).points@,
                    old(svg_library).entries(),
                    *old(spatial_grid),
                    *old(snap_state),
                    new_handle,
                    *final(drawing_info),
                    final(svg_library).entries(),
                    *final(spatial_grid),
                    *final(snap_state),
                    merge,
                )
                &&& final(drawing_points).points@.len() == 0
                &&& final(pending_segments).segments@.len() == 0
            },
            None => {
                &&& *final(drawing_points) == *old(drawing_points)
                &&& *final(pending_segments) == *old(pending_segments)
                &&& *final(svg_library) == *old(svg_library)
                &&& *final(spatial_grid) == *old(spatial_grid)
                &&& *final(snap_state) == *old(snap_state)
                &&& *final(drawing_info) == if old(drawing_info).confirm_pending && no {
                    DrawingInfo {
                        confirm_pending: false,
                        confirm_point: None,
                        confirm_seg_id: None,
                        confirm_prompt_printed: false,
                        ..*old(drawing_info)
                    }
                } else {
                    *old(drawing_info)
                }
            },
        },
{
    if !drawing_info.confirm_pending {
        return None;
    }
    if yes {
        let merge = finalize_svg_drawing(
            drawing_info,
            drawing_points,
            pending_segments,
            svg_library,
            spatial_grid,
            snap_state,
            new_handle,
        );
        return Some(merge);
    }
    if no {
        drawing_info.confirm_pending = false;
        drawing_info.confirm_point = None;
        drawing_info.confirm_seg_id = None;
        drawing_info.confirm_prompt_printed = false;
    }
    None
}

/// Ends the cooldown of a finished stroke once its timer has run out.
/// Returns whether it ended.
pub fn drawing_cooldown_system(drawing_info: &mut DrawingInfo, timer_finished: bool) -> (ended:
    bool)
    ensures
        ended == (old(drawing_info).finalize_state == DrawingFinalizeState::Cooldown
            && timer_finished),
        *final(drawing_info) == if ended {
            DrawingInfo { finalize_state: DrawingFinalizeState::Idle, ..*old(drawing_info) }
        } else {
            *old(drawing_info)
        },
{
    if drawing_info.finalize_state != DrawingFinalizeState::Cooldown {
        return false;
    }
    if timer_finished {
        drawing_info.finalize_state = DrawingFinalizeState::Idle;
        return true;
    }
    false
}

} // verus!

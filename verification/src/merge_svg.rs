//! The merge engine: a finished stroke is thinned, smoothed and
//! simplified, its ends are put back where they were, and the paths of the
//! library that it crosses are joined with it into one path.

use vstd::prelude::*;
use crate::draw_state::DrawingInfo;
use crate::draw_state::DrawingPoints;
use crate::math_utils::lemma_simplified_ends;
use crate::math_utils::path_in_range;
use crate::math_utils::paths_intersect;
use crate::math_utils::paths_meet;
use crate::math_utils::ramer_douglas_peucker;
use crate::math_utils::simplified;
use crate::math_utils::smooth_lines;
use crate::math_utils::smoothed;
use crate::point::all_in_range;
use crate::point::dist_sq;
use crate::point::dist_sq_of;
use crate::point::PathPoint;
use crate::point::Point2;
use crate::arith::lemma_square_range;

verus! {

/// Least distance between two consecutive points of a stroke that are both
/// kept, in lattice steps: one world unit.
pub const MERGE_MIN_DIST: u32 = 1000;

/// Window of the moving average.
pub const MERGE_WINDOW: usize = 3;

/// Tolerance of the simplification, in lattice steps: a fifth of a world
/// unit.
pub const MERGE_EPSILON: u32 = 200;

/// A committed path: vertices, with break markers between its disjoint
/// parts.
pub struct SvgLine {
    pub path: Vec<PathPoint>,
}

/// The committed paths, each with the handle of the visual that shows it.
pub struct SvgLibrary {
    pub lines: Vec<(u64, SvgLine)>,
}

/// What a merge hands to the caller.
pub struct MergeOutcome {
    /// The vertices of the merged path, break markers left out.
    pub grid_path: Vec<Point2>,
    /// The handles of the library entries that the merged path took in.
    pub despawned: Vec<u64>,
    /// Whether a path was committed to the library.
    pub merged: bool,
}

/// The points of a stroke that are kept when near-coincident ones are
/// dropped: the first, and then every point farther than `min_dist` from
/// the point kept before it.
pub open spec fn close_filtered(points: Seq<Point2>, min_dist: int) -> Seq<Point2>
    decreases points.len(),
{
    if points.len() == 0 {
        points
    } else {
        let kept = close_filtered(points.drop_last(), min_dist);
        if kept.len() == 0 || dist_sq(kept.last(), points.last()) > min_dist * min_dist {
            kept.push(points.last())
        } else {
            kept
        }
    }
}

/// The path with its two ends replaced by the two ends of `stroke`.
pub open spec fn reattached(path: Seq<Point2>, stroke: Seq<Point2>) -> Seq<Point2> {
    path.update(0, stroke[0]).update(path.len() - 1, stroke.last())
}

/// The stroke as it is committed: thinned, smoothed, simplified, and with
/// its ends put back. A stroke that comes down to fewer than two points
/// gives nothing.
pub open spec fn prepared_stroke(stroke: Seq<Point2>) -> Seq<Point2> {
    let simple = simplified(
        smoothed(close_filtered(stroke, MERGE_MIN_DIST as int), MERGE_WINDOW as int),
        MERGE_EPSILON as int,
    );
    if simple.len() >= 2 {
        reattached(simple, stroke)
    } else {
        Seq::empty()
    }
}

/// The points as vertices of a flattened path.
pub open spec fn lifted(points: Seq<Point2>) -> Seq<PathPoint> {
    Seq::new(points.len(), |i: int| PathPoint::Vertex(points[i]))
}

/// The vertices of a flattened path, in order, break markers left out.
pub open spec fn vertices(path: Seq<PathPoint>) -> Seq<Point2>
    decreases path.len(),
{
    if path.len() == 0 {
        Seq::empty()
    } else {
        match path.last() {
            PathPoint::Vertex(v) => vertices(path.drop_last()).push(v),
            PathPoint::Break => vertices(path.drop_last()),
        }
    }
}

/// The merged path after the first `n` entries of the library have been
/// looked at: the new path and then every entry that the new path crosses,
/// each followed by a break marker.
pub open spec fn absorbed(
    path: Seq<PathPoint>,
    entries: Seq<(u64, Seq<PathPoint>)>,
    n: int,
) -> Seq<PathPoint>
    decreases n,
{
    if n <= 0 {
        path.push(PathPoint::Break)
    } else {
        let before = absorbed(path, entries, n - 1);
        if paths_meet(path, entries[n - 1].1) {
            (before + entries[n - 1].1).push(PathPoint::Break)
        } else {
            before
        }
    }
}

/// The handles of those of the first `n` entries that the new path
/// crosses.
pub open spec fn consumed(path: Seq<PathPoint>, entries: Seq<(u64, Seq<PathPoint>)>, n: int) -> Seq<
    u64,
>
    decreases n,
{
    if n <= 0 {
        Seq::empty()
    } else {
        let before = consumed(path, entries, n - 1);
        if paths_meet(path, entries[n - 1].1) {
            before.push(entries[n - 1].0)
        } else {
            before
        }
    }
}

/// Those of the first `n` entries that the new path does not cross.
pub open spec fn untouched(
    path: Seq<PathPoint>,
    entries: Seq<(u64, Seq<PathPoint>)>,
    n: int,
) -> Seq<(u64, Seq<PathPoint>)>
    decreases n,
{
    if n <= 0 {
        Seq::empty()
    } else {
        let before = untouched(path, entries, n - 1);
        if paths_meet(path, entries[n - 1].1) {
            before
        } else {
            before.push(entries[n - 1])
        }
    }
}

/// Whether committing `stroke` turns the library `entries` into `after`
/// and gives `outcome`. A stroke that is committed takes every entry that
/// it crosses out of the library and leaves, under `new_handle`, one entry
/// that joins it with them; a stroke that comes down to fewer than two
/// points leaves the library as it is and gives nothing.
pub open spec fn commits(
    stroke: Seq<Point2>,
    entries: Seq<(u64, Seq<PathPoint>)>,
    new_handle: u64,
    after: Seq<(u64, Seq<PathPoint>)>,
    outcome: MergeOutcome,
) -> bool {
    let path = lifted(prepared_stroke(stroke));
    let n = entries.len() as int;
    &&& outcome.merged == (prepared_stroke(stroke).len() >= 2)
    &&& if outcome.merged {
        &&& after == untouched(path, entries, n).push((new_handle, absorbed(path, entries, n)))
        &&& outcome.despawned@ == consumed(path, entries, n)
        &&& outcome.grid_path@ == vertices(absorbed(path, entries, n))
    } else {
        &&& after == entries
        &&& outcome.despawned@.len() == 0
        &&& outcome.grid_path@.len() == 0
    }
}

/// Whether a committed stroke kept its ends: the vertices handed out begin
/// with the run of the stroke, which starts on the first and ends on the
/// last point of the stroke as it was drawn; the new entry of the library
/// begins with that run and a break marker; and where the stroke crossed
/// no entry, the run is all that is handed out.
pub open spec fn keeps_ends(
    stroke: Seq<Point2>,
    after: Seq<(u64, Seq<PathPoint>)>,
    outcome: MergeOutcome,
) -> bool {
    let run = prepared_stroke(stroke);
    let entry = after.last().1;
    &&& run.len() >= 2
    &&& run[0] == stroke[0]
    &&& run.last() == stroke.last()
    &&& outcome.grid_path@.len() >= run.len()
    &&& outcome.grid_path@.subrange(0, run.len() as int) == run
    &&& after.len() >= 1
    &&& entry.len() >= run.len() + 1
    &&& entry.subrange(0, run.len() as int + 1) == lifted(run).push(PathPoint::Break)
    &&& outcome.despawned@.len() == 0 ==> outcome.grid_path@ == run
}

impl SvgLibrary {
    /// The entries as plain values: handle and path.
    pub open spec fn entries(&self) -> Seq<(u64, Seq<PathPoint>)> {
        Seq::new(self.lines@.len(), |i: int| (self.lines@[i].0, self.lines@[i].1.path@))
    }

    /// Whether every path lies in range.
    pub open spec fn wf(&self) -> bool {
        forall|i: int| 0 <= i < self.lines@.len() ==> path_in_range(#[trigger] self.lines@[i].1.path@)
    }

    /// An empty library.
    pub fn new() -> (lib: SvgLibrary)
        ensures
            lib.lines@.len() == 0,
            lib.wf(),
    {
        SvgLibrary { lines: Vec::new() }
    }
}

impl Default for SvgLibrary {
    /// An empty library.
    fn default() -> (lib: SvgLibrary)
        ensures
            lib.lines@.len() == 0,
            lib.wf(),
    {
        SvgLibrary::new()
    }
}

/// Drops near-coincident points: every point that is no farther than
/// `min_dist` from the point kept before it.
pub fn filter_close_points(points: &[Point2], min_dist: u32) -> (r: Vec<Point2>)
    requires
        all_in_range(points@),
    ensures
        r@ == close_filtered(points@, min_dist as int),
        all_in_range(r@),
{
    let mut out: Vec<Point2> = Vec::new();
    proof {
        lemma_square_range(min_dist as int, 0xffff_ffff);
    }
    let limit: u128 = (min_dist as u128) * (min_dist as u128);
    let mut i: usize = 0;
    while i < points.len()
        invariant
            i <= points@.len(),
            all_in_range(points@),
            limit == min_dist * min_dist,
            out@ == close_filtered(points@.take(i as int), min_dist as int),
            all_in_range(out@),
        decreases points@.len() - i,
    {
        let pt = points[i];
        assert(pt.in_range());
        assert(points@.take(i + 1).drop_last() == points@.take(i as int));
        let n = out.len();
        if n == 0 {
            out.push(pt);
        } else {
            let last = out[n - 1];
            assert(last.in_range());
            if dist_sq_of(last, pt) > limit {
                out.push(pt);
            }
        }
        i += 1;
    }
    assert(points@.take(i as int) == points@);
    out
}

/// Thinning keeps the first point of a stroke first.
proof fn lemma_close_filtered_first(points: Seq<Point2>, min_dist: int)
    requires
        points.len() > 0,
    ensures
        close_filtered(points, min_dist).len() >= 1,
        close_filtered(points, min_dist).len() <= points.len(),
        close_filtered(points, min_dist)[0] == points[0],
    decreases points.len(),
{
    if points.len() > 1 {
        lemma_close_filtered_first(points.drop_last(), min_dist);
    } else {
        assert(close_filtered(points.drop_last(), min_dist).len() == 0);
    }
}

/// Endpoint preservation: a stroke that is committed at all starts where
/// the stroke that was drawn starts and ends where it ends, whatever the
/// thinning, the smoothing and the simplification did in between.
pub proof fn lemma_endpoints_preserved(stroke: Seq<Point2>)
    requires
        prepared_stroke(stroke).len() > 0,
    ensures
        prepared_stroke(stroke).len() >= 2,
        prepared_stroke(stroke)[0] == stroke[0],
        prepared_stroke(stroke).last() == stroke.last(),
{
}

/// Whether some point of the stroke lies farther than [`MERGE_MIN_DIST`]
/// from its first point.
pub open spec fn strays(stroke: Seq<Point2>) -> bool {
    exists|i: int|
        0 <= i < stroke.len() && dist_sq(stroke[0], #[trigger] stroke[i]) > MERGE_MIN_DIST
            * MERGE_MIN_DIST
}

/// Thinning leaves two points or more exactly when some point lies farther
/// than the least distance from the first.
proof fn lemma_close_filtered_two(points: Seq<Point2>, min_dist: int)
    ensures
        close_filtered(points, min_dist).len() >= 2 <==> exists|i: int|
            0 <= i < points.len() && dist_sq(points[0], #[trigger] points[i]) > min_dist
                * min_dist,
    decreases points.len(),
{
    if points.len() > 0 {
        let init = points.drop_last();
        let kept = close_filtered(init, min_dist);
        lemma_close_filtered_two(init, min_dist);
        if init.len() > 0 {
            lemma_close_filtered_first(init, min_dist);
            assert(init[0] == points[0]);
        }
        if close_filtered(points, min_dist).len() >= 2 {
            if kept.len() >= 2 {
                let i = choose|i: int|
                    0 <= i < init.len() && dist_sq(init[0], #[trigger] init[i]) > min_dist
                        * min_dist;
                assert(points[i] == init[i]);
            } else {
                assert(dist_sq(points[0], points[points.len() - 1]) > min_dist * min_dist);
            }
        }
        if exists|i: int|
            0 <= i < points.len() && dist_sq(points[0], #[trigger] points[i]) > min_dist
                * min_dist {
            let i = choose|i: int|
                0 <= i < points.len() && dist_sq(points[0], #[trigger] points[i]) > min_dist
                    * min_dist;
            if i < init.len() {
                assert(init[i] == points[i]);
                assert(dist_sq(init[0], init[i]) > min_dist * min_dist);
            } else {
                assert(init.len() > 0) by {
                    if init.len() == 0 {
                        assert(dist_sq(points[0], points[0]) == 0) by (nonlinear_arith)
                            requires
                                dist_sq(points[0], points[0]) == (points[0].x - points[0].x) * (
                                points[0].x - points[0].x) + (points[0].y - points[0].y) * (
                                points[0].y - points[0].y),
                        ;
                        assert(min_dist * min_dist >= 0) by (nonlinear_arith);
                    }
                }
            }
        }
    }
}

/// When a stroke is committed: exactly when some point of it lies farther
/// than [`MERGE_MIN_DIST`] from its first point. A stroke that is not
/// committed gives nothing.
pub proof fn lemma_prepared_when(stroke: Seq<Point2>)
    ensures
        prepared_stroke(stroke).len() >= 2 <==> strays(stroke),
        prepared_stroke(stroke).len() == 0 || prepared_stroke(stroke).len() >= 2,
{
    let thin = close_filtered(stroke, MERGE_MIN_DIST as int);
    let smooth = smoothed(thin, MERGE_WINDOW as int);
    assert(smooth.len() == thin.len());
    if smooth.len() >= 2 {
        lemma_simplified_ends(smooth, MERGE_EPSILON as int);
    }
    lemma_close_filtered_two(stroke, MERGE_MIN_DIST as int);
}

/// The vertices of two paths joined are the vertices of the one and then
/// of the other.
proof fn lemma_vertices_joined(a: Seq<PathPoint>, b: Seq<PathPoint>)
    ensures
        vertices(a + b) == vertices(a) + vertices(b),
    decreases b.len(),
{
    if b.len() == 0 {
        assert(a + b == a);
        assert(vertices(a) + vertices(b) == vertices(a));
    } else {
        lemma_vertices_joined(a, b.drop_last());
        assert((a + b).drop_last() == a + b.drop_last());
        assert((a + b).last() == b.last());
        match b.last() {
            PathPoint::Vertex(v) => {
                assert(vertices(a) + vertices(b.drop_last()).push(v) == (vertices(a) + vertices(
                    b.drop_last(),
                )).push(v));
            },
            PathPoint::Break => {},
        }
    }
}

/// The vertices of points lifted to a path are the points.
proof fn lemma_vertices_lifted(points: Seq<Point2>)
    ensures
        vertices(lifted(points)) == points,
        vertices(lifted(points).push(PathPoint::Break)) == points,
    decreases points.len(),
{
    if points.len() > 0 {
        lemma_vertices_lifted(points.drop_last());
        assert(lifted(points).drop_last() == lifted(points.drop_last()));
        assert(vertices(lifted(points)) == points.drop_last().push(points.last()));
        assert(points.drop_last().push(points.last()) == points);
    } else {
        assert(lifted(points).len() == 0);
    }
    assert(lifted(points).push(PathPoint::Break).drop_last() == lifted(points));
}

/// A merged path begins with the new path and a break marker, and is no
/// more than that where the new path crosses no entry.
proof fn lemma_absorbed_begins(
    path: Seq<PathPoint>,
    entries: Seq<(u64, Seq<PathPoint>)>,
    n: int,
)
    ensures
        absorbed(path, entries, n).len() >= path.len() + 1,
        absorbed(path, entries, n).subrange(0, path.len() as int + 1) == path.push(PathPoint::Break),
        consumed(path, entries, n).len() == 0 ==> absorbed(path, entries, n) == path.push(
            PathPoint::Break,
        ),
    decreases n,
{
    if n > 0 {
        lemma_absorbed_begins(path, entries, n - 1);
        let before = absorbed(path, entries, n - 1);
        let now = absorbed(path, entries, n);
        assert(now.subrange(0, path.len() as int + 1) == before.subrange(0, path.len() as int + 1));
    } else {
        assert(path.push(PathPoint::Break).subrange(0, path.len() as int + 1) == path.push(
            PathPoint::Break,
        ));
    }
}

/// Endpoint preservation, of the merge as a whole: a stroke with a point
/// farther than [`MERGE_MIN_DIST`] from its first point is committed, and
/// what is committed keeps its ends; any other stroke is dropped, and
/// nothing changes but the stroke.
pub proof fn lemma_commit_keeps_ends(
    stroke: Seq<Point2>,
    entries: Seq<(u64, Seq<PathPoint>)>,
    new_handle: u64,
    after: Seq<(u64, Seq<PathPoint>)>,
    outcome: MergeOutcome,
)
    requires
        commits(stroke, entries, new_handle, after, outcome),
    ensures
        outcome.merged == strays(stroke),
        outcome.merged ==> keeps_ends(stroke, after, outcome),
        !outcome.merged ==> after == entries && outcome.grid_path@.len() == 0
            && outcome.despawned@.len() == 0,
{
    lemma_prepared_when(stroke);
    if outcome.merged {
        let run = prepared_stroke(stroke);
        let path = lifted(run);
        let n = entries.len() as int;
        let merged = absorbed(path, entries, n);
        lemma_absorbed_begins(path, entries, n);
        lemma_vertices_lifted(run);
        let head = path.push(PathPoint::Break);
        let rest = merged.subrange(path.len() as int + 1, merged.len() as int);
        assert(merged == head + rest);
        lemma_vertices_joined(head, rest);
        assert(outcome.grid_path@ == run + vertices(rest));
        assert(outcome.grid_path@.subrange(0, run.len() as int) == run);
        assert(after.last().1 == merged);
        if outcome.despawned@.len() == 0 {
            assert(merged == head);
        }
    }
}

/// The stroke as it is committed.
pub fn prepare_stroke(stroke: &[Point2]) -> (r: Vec<Point2>)
    requires
        all_in_range(stroke@),
    ensures
        r@ == prepared_stroke(stroke@),
        all_in_range(r@),
{
    let filtered = filter_close_points(stroke, MERGE_MIN_DIST);
    let smoothed_path = smooth_lines(filtered.as_slice(), MERGE_WINDOW);
    let mut path = ramer_douglas_peucker(smoothed_path.as_slice(), MERGE_EPSILON);
    if stroke.len() > 0 && path.len() >= 2 {
        let last_idx: usize = path.len() - 1;
        assert(stroke@[0].in_range());
        assert(stroke@[stroke@.len() - 1].in_range());
        path[0] = stroke[0];
        path[last_idx] = stroke[stroke.len() - 1];
        path
    } else {
        proof {
            if stroke@.len() == 0 {
                assert(filtered@.len() == 0);
                assert(smoothed_path@.len() == 0);
            }
        }
        Vec::new()
    }
}

/// The points as vertices of a flattened path.
pub fn lift_points(points: &[Point2]) -> (r: Vec<PathPoint>)
    ensures
        r@ == lifted(points@),
        all_in_range(points@) ==> path_in_range(r@),
{
    let mut out: Vec<PathPoint> = Vec::new();
    let mut i: usize = 0;
    while i < points.len()
        invariant
            i <= points@.len(),
            out@ == lifted(points@.take(i as int)),
        decreases points@.len() - i,
    {
        out.push(PathPoint::Vertex(points[i]));
        assert(out@ =~= lifted(points@.take(i + 1)));
        i += 1;
    }
    assert(points@.take(i as int) == points@);
    proof {
        if all_in_range(points@) {
            assert forall|k: int| 0 <= k < out@.len() implies match #[trigger] out@[k] {
                PathPoint::Vertex(v) => v.in_range(),
                PathPoint::Break => true,
            } by {
                assert(points@[k].in_range());
            }
        }
    }
    out
}

/// The vertices of a flattened path, break markers left out.
pub fn path_vertices(path: &[PathPoint]) -> (r: Vec<Point2>)
    ensures
        r@ == vertices(path@),
        path_in_range(path@) ==> all_in_range(r@),
{
    let mut out: Vec<Point2> = Vec::new();
    let mut i: usize = 0;
    while i < path.len()
        invariant
            i <= path@.len(),
            out@ == vertices(path@.take(i as int)),
            path_in_range(path@) ==> all_in_range(out@),
        decreases path@.len() - i,
    {
        assert(path@.take(i + 1).drop_last() == path@.take(i as int));
        match path[i] {
            PathPoint::Vertex(v) => {
                out.push(v);
            },
            PathPoint::Break => {},
        }
        i += 1;
    }
    assert(path@.take(i as int) == path@);
    out
}

/// Appends a copy of `src` to `dst`.
fn append_path(dst: &mut Vec<PathPoint>, src: &[PathPoint])
    ensures
        final(dst)@ == old(dst)@ + src@,
{
    let mut i: usize = 0;
    while i < src.len()
        invariant
            i <= src@.len(),
            dst@ == old(dst)@ + src@.take(i as int),
        decreases src@.len() - i,
    {
        dst.push(src[i]);
        assert(src@.take(i + 1) == src@.take(i as int).push(src@[i as int]));
        assert(dst@ == old(dst)@ + src@.take(i + 1));
        i += 1;
    }
    assert(src@.take(i as int) == src@);
}

/// Every path that a merge builds lies in range.
proof fn lemma_absorbed_in_range(
    path: Seq<PathPoint>,
    entries: Seq<(u64, Seq<PathPoint>)>,
    n: int,
)
    requires
        0 <= n <= entries.len(),
        path_in_range(path),
        forall|i: int| 0 <= i < entries.len() ==> path_in_range(#[trigger] entries[i].1),
    ensures
        path_in_range(absorbed(path, entries, n)),
    decreases n,
{
    if n > 0 {
        lemma_absorbed_in_range(path, entries, n - 1);
        assert(path_in_range(entries[n - 1].1));
    }
}

/// Commits the stroke in `drawing_points` to the library. The stroke is
/// thinned, smoothed and simplified and gets its two ends back; every
/// entry of the library that it crosses is taken out of the library and
/// joined to it behind break markers; the joined path becomes one new
/// entry under `new_handle`. A stroke that comes down to fewer than two
/// points is dropped and leaves the library as it is. Either way the
/// stroke is cleared and the count of finished strokes goes up by one.
pub fn check_and_merge_svg(
    drawing_info: &mut DrawingInfo,
    drawing_points: &mut DrawingPoints,
    svg_library: &mut SvgLibrary,
    new_handle: u64,
) -> (outcome: MergeOutcome)
    requires
        old(drawing_points).wf(),
        old(svg_library).wf(),
        old(drawing_info).counter < usize::MAX,
    ensures
        final(drawing_points).points@.len() == 0,
        final(drawing_points).line_entities == old(drawing_points).line_entities,
        *final(drawing_info) == (DrawingInfo {
            last_pos: None,
            counter: (old(drawing_info).counter + 1) as usize,
            ..*old(drawing_info)
        }),
        final(svg_library).wf(),
        all_in_range(outcome.grid_path@),
        commits(
            old(drawing_points).points@,
            old(svg_library).entries(),
            new_handle,
            final(svg_library).entries(),
            outcome,
        ),
        outcome.merged == strays(old(drawing_points).points@),
        outcome.merged ==> keeps_ends(
            old(drawing_points).points@,
            final(svg_library).entries(),
            outcome,
        ),
        !outcome.merged ==> final(svg_library).entries() == old(svg_library).entries()
            && outcome.grid_path@.len() == 0 && outcome.despawned@.len() == 0,
{
    let stroke = prepare_stroke(drawing_points.points.as_slice());
    drawing_points.points.clear();
    drawing_info.last_pos = None;
    drawing_info.counter = drawing_info.counter + 1;
    proof {
        lemma_prepared_when(old(drawing_points).points@);
    }
    if stroke.len() < 2 {
        assert(svg_library.entries() =~= old(svg_library).entries());
        let outcome = MergeOutcome { grid_path: Vec::new(), despawned: Vec::new(), merged: false };
        proof {
            lemma_commit_keeps_ends(
                old(drawing_points).points@,
                old(svg_library).entries(),
                new_handle,
                svg_library.entries(),
                outcome,
            );
        }
        return outcome;
    }
    let path = lift_points(stroke.as_slice());
    let ghost entries = svg_library.entries();
    let mut new_path: Vec<PathPoint> = Vec::new();
    append_path(&mut new_path, path.as_slice());
    new_path.push(PathPoint::Break);
    let mut despawned: Vec<u64> = Vec::new();
    let mut kept: Vec<(u64, SvgLine)> = Vec::new();
    let n: usize = svg_library.lines.len();
    let mut i: usize = 0;
    assert(new_path@ == path@.push(PathPoint::Break));
    while i < n
        invariant
            i <= n,
            n == svg_library.lines@.len(),
            svg_library.wf(),
            entries == svg_library.entries(),
            path_in_range(path@),
            new_path@ == absorbed(path@, entries, i as int),
            despawned@ == consumed(path@, entries, i as int),
            kept@.len() == untouched(path@, entries, i as int).len(),
            forall|k: int|
                0 <= k < kept@.len() ==> (#[trigger] kept@[k]).0 == untouched(
                    path@,
                    entries,
                    i as int,
                )[k].0 && kept@[k].1.path@ == untouched(path@, entries, i as int)[k].1,
        decreases n - i,
    {
        let handle: u64 = svg_library.lines[i].0;
        assert(path_in_range(svg_library.lines@[i as int].1.path@));
        assert(entries[i as int] == (handle, svg_library.lines@[i as int].1.path@));
        if paths_intersect(path.as_slice(), svg_library.lines[i].1.path.as_slice()) {
            append_path(&mut new_path, svg_library.lines[i].1.path.as_slice());
            new_path.push(PathPoint::Break);
            despawned.push(handle);
        } else {
            let mut copy: Vec<PathPoint> = Vec::new();
            append_path(&mut copy, svg_library.lines[i].1.path.as_slice());
            assert(copy@ == svg_library.lines@[i as int].1.path@);
            kept.push((handle, SvgLine { path: copy }));
        }
        i += 1;
    }
    proof {
        lemma_absorbed_in_range(path@, entries, n as int);
    }
    let grid_path = path_vertices(new_path.as_slice());
    let ghost merged_path = new_path@;
    let ghost rest = untouched(path@, entries, n as int);
    kept.push((new_handle, SvgLine { path: new_path }));
    svg_library.lines = kept;
    proof {
        assert(svg_library.entries() =~= rest.push((new_handle, merged_path)));
        assert forall|k: int| 0 <= k < svg_library.lines@.len() implies path_in_range(
            #[trigger] svg_library.lines@[k].1.path@,
        ) by {
            if k < rest.len() {
                lemma_untouched_member(path@, entries, n as int, k);
            }
        }
    }
    let outcome = MergeOutcome { grid_path, despawned, merged: true };
    proof {
        lemma_commit_keeps_ends(
            old(drawing_points).points@,
            old(svg_library).entries(),
            new_handle,
            svg_library.entries(),
            outcome,
        );
    }
    outcome
}

/// Every entry that a merge leaves untouched is an entry of the library.
proof fn lemma_untouched_member(
    path: Seq<PathPoint>,
    entries: Seq<(u64, Seq<PathPoint>)>,
    n: int,
    k: int,
)
    requires
        0 <= n <= entries.len(),
        0 <= k < untouched(path, entries, n).len(),
    ensures
        exists|i: int| 0 <= i < n && #[trigger] entries[i] == untouched(path, entries, n)[k],
    decreases n,
{
    if n > 0 {
        let before = untouched(path, entries, n - 1);
        if k < before.len() {
            lemma_untouched_member(path, entries, n - 1, k);
            let i = choose|i: int| 0 <= i < n - 1 && #[trigger] entries[i] == before[k];
            assert(entries[i] == untouched(path, entries, n)[k]);
        } else {
            assert(entries[n - 1] == untouched(path, entries, n)[k]);
        }
    }
}

} // verus!

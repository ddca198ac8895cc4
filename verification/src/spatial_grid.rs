//! A uniform grid over the committed segments: every cell lists the
//! segments whose bounding box, clipped to the bounds of the grid, overlaps
//! it, and the nearest segment to a position is looked up in the block of
//! cells around it.

use vstd::prelude::*;
use vstd::arithmetic::div_mod::lemma_fundamental_div_mod_converse;
use crate::arith::lemma_div_bracket;
use crate::arith::lemma_div_unique;
use crate::arith::lemma_square_range;
use crate::math_utils::closest_point;
use crate::math_utils::closest_point_on_segment;
use crate::math_utils::lemma_closest_point_reach;
use crate::math_utils::within_reach;
use crate::point::dist_sq;
use crate::point::dist_sq_of;
use crate::point::Point2;

verus! {

/// Side of a grid cell, in lattice steps: five world units.
pub const CELL_SIZE: i32 = 5000;

/// A line between two points. Its `id` is its place in the list of the
/// index that owns it. A segment whose two ends coincide stands for a
/// removed entry.
#[derive(Clone, Copy, Debug, PartialEq, Eq, Structural)]
pub struct PathSegment {
    pub start: Point2,
    pub end: Point2,
    pub id: usize,
}

/// An axis-aligned rectangle, given by its least and its greatest corner.
#[derive(Clone, Copy, Debug, PartialEq, Eq, Structural)]
pub struct Rect {
    pub min: Point2,
    pub max: Point2,
}

/// What a stroke remembers about the segment it started from.
#[derive(Clone, Copy, Debug, PartialEq, Eq, Structural)]
pub struct SnapState {
    /// The segment the stroke started from, if it started on one.
    pub initial_seg_id: Option<usize>,
    /// How many ids to either side of the starting segment count as its
    /// neighbourhood.
    pub blocked_range: usize,
    pub initial_snap_pos: Option<Point2>,
    pub is_blocking: bool,
    pub is_enabled: bool,
}

/// The segment index.
pub struct SpatialGrid {
    pub bounds: Rect,
    pub cell_size: i32,
    pub cols: usize,
    pub rows: usize,
    /// Row after row, for every cell the ids of the segments registered in
    /// it.
    pub cells: Vec<Vec<usize>>,
    pub segments: Vec<PathSegment>,
}

/// The least of two coordinates.
pub open spec fn min_of(a: int, b: int) -> int {
    if a <= b {
        a
    } else {
        b
    }
}

/// The greatest of two coordinates.
pub open spec fn max_of(a: int, b: int) -> int {
    if a >= b {
        a
    } else {
        b
    }
}

/// Number of cells needed along an extent: the extent divided by the cell
/// size, rounded up.
pub open spec fn grid_dim(extent: int) -> int {
    (extent + CELL_SIZE - 1) / (CELL_SIZE as int)
}

/// The column (or row) of a coordinate `c` in a grid of `n` columns that
/// starts at `lo`. The last column takes the far edge of the grid in.
pub open spec fn cell_of(c: int, lo: int, n: int) -> int {
    let k = (c - lo) / (CELL_SIZE as int);
    if k >= n {
        n - 1
    } else {
        k
    }
}

/// The list `s` with every `id` taken out.
pub open spec fn without(s: Seq<usize>, id: usize) -> Seq<usize>
    decreases s.len(),
{
    if s.len() == 0 {
        s
    } else if s.last() == id {
        without(s.drop_last(), id)
    } else {
        without(s.drop_last(), id).push(s.last())
    }
}

/// Whether a list of ids ascends strictly.
pub open spec fn ascending(s: Seq<usize>) -> bool {
    forall|i: int, j: int| 0 <= i < j < s.len() ==> s[i] < s[j]
}

impl PathSegment {
    /// Whether the two ends coincide.
    pub open spec fn is_degenerate(self) -> bool {
        self.start == self.end
    }

    /// Whether both ends lie in the supported range.
    pub open spec fn in_range(self) -> bool {
        self.start.in_range() && self.end.in_range()
    }

    /// Least corner of the bounding box.
    pub open spec fn lo(self) -> Point2 {
        Point2 {
            x: min_of(self.start.x as int, self.end.x as int) as i32,
            y: min_of(self.start.y as int, self.end.y as int) as i32,
        }
    }

    /// Greatest corner of the bounding box.
    pub open spec fn hi(self) -> Point2 {
        Point2 {
            x: max_of(self.start.x as int, self.end.x as int) as i32,
            y: max_of(self.start.y as int, self.end.y as int) as i32,
        }
    }

    /// The removed entry with the given id.
    pub open spec fn removed(id: usize) -> PathSegment {
        PathSegment { start: Point2 { x: 0, y: 0 }, end: Point2 { x: 0, y: 0 }, id }
    }
}

impl Rect {
    /// Whether the corners are in range and in order.
    pub open spec fn valid(self) -> bool {
        &&& self.min.in_range()
        &&& self.max.in_range()
        &&& self.min.x <= self.max.x
        &&& self.min.y <= self.max.y
    }

    /// The rectangle of size zero at the origin.
    pub open spec fn zero() -> Rect {
        Rect { min: Point2 { x: 0, y: 0 }, max: Point2 { x: 0, y: 0 } }
    }

    /// Whether `p` lies inside, edges included.
    pub open spec fn contains(self, p: Point2) -> bool {
        self.min.x <= p.x <= self.max.x && self.min.y <= p.y <= self.max.y
    }

    pub open spec fn width(self) -> int {
        self.max.x - self.min.x
    }

    pub open spec fn height(self) -> int {
        self.max.y - self.min.y
    }

    /// Whether a grid over this rectangle has a number of cells that the
    /// machine can address.
    pub open spec fn grid_fits(self) -> bool {
        grid_dim(self.width()) * grid_dim(self.height()) <= usize::MAX
    }

    /// Whether the bounding box of `seg` overlaps this rectangle.
    pub open spec fn overlaps(self, seg: PathSegment) -> bool {
        &&& max_of(seg.lo().x as int, self.min.x as int) <= min_of(
            seg.hi().x as int,
            self.max.x as int,
        )
        &&& max_of(seg.lo().y as int, self.min.y as int) <= min_of(
            seg.hi().y as int,
            self.max.y as int,
        )
    }
}

/// The dimensions of a grid over a valid rectangle are small.
pub proof fn lemma_grid_dim_range(extent: int)
    requires
        0 <= extent <= 0x8000_0000,
    ensures
        0 <= grid_dim(extent) <= 429497,
        extent == 0 <==> grid_dim(extent) == 0,
{
    lemma_div_bracket(extent + CELL_SIZE - 1, CELL_SIZE as int);
}

/// The cell of a coordinate inside the grid is a cell of the grid, and
/// cells ascend with the coordinate.
pub proof fn lemma_cell_of_range(c: int, lo: int, n: int)
    requires
        lo <= c,
        n >= 1,
    ensures
        0 <= cell_of(c, lo, n) < n,
{
    lemma_div_bracket(c - lo, CELL_SIZE as int);
}

/// Cells ascend with the coordinate.
pub proof fn lemma_cell_of_monotonic(c1: int, c2: int, lo: int, n: int)
    requires
        lo <= c1 <= c2,
    ensures
        cell_of(c1, lo, n) <= cell_of(c2, lo, n),
{
    lemma_div_bracket(c1 - lo, CELL_SIZE as int);
    lemma_div_bracket(c2 - lo, CELL_SIZE as int);
}

/// The place of the cell `(col, row)` in the list of cells gives the cell
/// back.
pub proof fn lemma_cell_place(cols: int, rows: int, col: int, row: int)
    requires
        0 <= col < cols,
        0 <= row < rows,
    ensures
        0 <= row * cols + col < cols * rows,
        (row * cols + col) % cols == col,
        (row * cols + col) / cols == row,
{
    lemma_fundamental_div_mod_converse(row * cols + col, cols, row, col);
    assert(cols * row == row * cols) by (nonlinear_arith);
    assert(row * cols + col < cols * rows) by (nonlinear_arith)
        requires
            0 <= col < cols,
            0 <= row < rows,
    ;
    assert(0 <= row * cols) by (nonlinear_arith)
        requires
            0 <= row,
            0 <= cols,
    ;
}

/// Every place in the list of cells is the place of a cell.
pub proof fn lemma_place_cell(cols: int, rows: int, k: int)
    requires
        0 <= k < cols * rows,
        cols >= 0,
        rows >= 0,
    ensures
        0 <= k % cols < cols,
        0 <= k / cols < rows,
        (k / cols) * cols + k % cols == k,
{
    assert(cols > 0) by (nonlinear_arith)
        requires
            0 <= k < cols * rows,
            cols >= 0,
            rows >= 0,
    ;
    lemma_div_bracket(k, cols);
    vstd::arithmetic::div_mod::lemma_fundamental_div_mod(k, cols);
    vstd::arithmetic::div_mod::lemma_mod_bound(k, cols);
    let q = k / cols;
    assert(cols * q == q * cols) by (nonlinear_arith);
    if q >= rows {
        assert(q * cols >= rows * cols) by (nonlinear_arith)
            requires
                q >= rows,
                cols > 0,
        ;
        assert(rows * cols == cols * rows) by (nonlinear_arith);
    }
}

/// Facts about taking an id out of a list: what stays is what was there
/// and is not the id, and an ascending list stays ascending.
pub proof fn lemma_without(s: Seq<usize>, id: usize)
    ensures
        forall|x: usize| without(s, id).contains(x) <==> s.contains(x) && x != id,
        ascending(s) ==> ascending(without(s, id)),
        without(s, id).len() <= s.len(),
    decreases s.len(),
{
    if s.len() > 0 {
        let init = s.drop_last();
        let last = s.last();
        lemma_without(init, id);
        let w = without(init, id);
        assert forall|x: usize| without(s, id).contains(x) <==> s.contains(x) && x != id by {
            if s.contains(x) {
                let i = choose|i: int| 0 <= i < s.len() && s[i] == x;
                if i < s.len() - 1 {
                    assert(init[i] == x);
                    assert(init.contains(x));
                }
            }
            if init.contains(x) {
                let i = choose|i: int| 0 <= i < init.len() && init[i] == x;
                assert(s[i] == x);
            }
            if last != id {
                assert(without(s, id) == w.push(last));
                if w.contains(x) {
                    let i = choose|i: int| 0 <= i < w.len() && w[i] == x;
                    assert(w.push(last)[i] == x);
                }
                if x == last {
                    assert(w.push(last)[w.len() as int] == x);
                    assert(s[s.len() - 1] == x);
                }
                if without(s, id).contains(x) {
                    let i = choose|i: int| 0 <= i < w.push(last).len() && w.push(last)[i] == x;
                    if i < w.len() {
                        assert(w[i] == x);
                        assert(w.contains(x));
                    }
                }
            } else {
                if x == last {
                    assert(x == id);
                }
            }
        }
        if ascending(s) {
            assert(ascending(init)) by {
                assert forall|i: int, j: int| 0 <= i < j < init.len() implies init[i] < init[j] by {
                    assert(s[i] < s[j]);
                }
            }
            if last != id {
                let out = w.push(last);
                assert forall|i: int, j: int| 0 <= i < j < out.len() implies out[i] < out[j] by {
                    if j == w.len() {
                        assert(w.contains(w[i]));
                        assert(init.contains(w[i]));
                        let k = choose|k: int| 0 <= k < init.len() && init[k] == w[i];
                        assert(s[k] < s[s.len() - 1]);
                    }
                }
            }
        }
    }
}

/// Whether the cell `(col, row)` lies in the block of the columns
/// `c0 ..= c1` and the rows `r0 ..= r1`.
pub open spec fn in_block(col: int, row: int, c0: int, c1: int, r0: int, r1: int) -> bool {
    c0 <= col <= c1 && r0 <= row <= r1
}

/// Executable form of [`cell_of`].
fn cell_coord(c: i32, lo: i32, n: usize) -> (k: usize)
    requires
        lo <= c,
        n >= 1,
    ensures
        k == cell_of(c as int, lo as int, n as int),
        k < n,
{
    proof {
        lemma_cell_of_range(c as int, lo as int, n as int);
    }
    let d: u64 = (c as i64 - lo as i64) as u64;
    let k: u64 = d / 5000;
    if k >= n as u64 {
        n - 1
    } else {
        k as usize
    }
}

/// A list of `n` empty cells.
fn fresh_cells(n: usize) -> (cells: Vec<Vec<usize>>)
    ensures
        cells@.len() == n,
        forall|k: int| 0 <= k < n ==> (#[trigger] cells@[k])@.len() == 0,
{
    let mut cells: Vec<Vec<usize>> = Vec::new();
    let mut i: usize = 0;
    while i < n
        invariant
            i <= n,
            cells@.len() == i,
            forall|k: int| 0 <= k < i ==> (#[trigger] cells@[k])@.len() == 0,
        decreases n - i,
    {
        cells.push(Vec::new());
        i += 1;
    }
    cells
}

/// Appends `id` to every cell of a block.
fn register_block(
    cells: &mut Vec<Vec<usize>>,
    cols: usize,
    rows: usize,
    c0: usize,
    c1: usize,
    r0: usize,
    r1: usize,
    id: usize,
)
    requires
        old(cells)@.len() == cols * rows,
        c0 <= c1 < cols,
        r0 <= r1 < rows,
    ensures
        final(cells)@.len() == old(cells)@.len(),
        forall|k: int|
            0 <= k < old(cells)@.len() ==> (#[trigger] final(cells)@[k])@ == if in_block(
                k % (cols as int),
                k / (cols as int),
                c0 as int,
                c1 as int,
                r0 as int,
                r1 as int,
            ) {
                old(cells)@[k]@.push(id)
            } else {
                old(cells)@[k]@
            },
{
    let ghost base = cells@;
    assert(cells.len() <= usize::MAX);
    let mut col: usize = c0;
    while col <= c1
        invariant
            cols * rows <= usize::MAX,
            c0 <= col <= c1 + 1,
            c1 < cols,
            r0 <= r1 < rows,
            base.len() == cols * rows,
            cells@.len() == base.len(),
            forall|k: int|
                0 <= k < base.len() ==> (#[trigger] cells@[k])@ == if in_block(
                    k % (cols as int),
                    k / (cols as int),
                    c0 as int,
                    col - 1,
                    r0 as int,
                    r1 as int,
                ) {
                    base[k]@.push(id)
                } else {
                    base[k]@
                },
        decreases c1 + 1 - col,
    {
        let mut row: usize = r0;
        while row <= r1
            invariant
                cols * rows <= usize::MAX,
                c0 <= col <= c1 < cols,
                r0 <= row <= r1 + 1,
                r1 < rows,
                base.len() == cols * rows,
                cells@.len() == base.len(),
                forall|k: int|
                    0 <= k < base.len() ==> (#[trigger] cells@[k])@ == if in_block(
                        k % (cols as int),
                        k / (cols as int),
                        c0 as int,
                        col - 1,
                        r0 as int,
                        r1 as int,
                    ) || in_block(
                        k % (cols as int),
                        k / (cols as int),
                        col as int,
                        col as int,
                        r0 as int,
                        row - 1,
                    ) {
                        base[k]@.push(id)
                    } else {
                        base[k]@
                    },
            decreases r1 + 1 - row,
        {
            proof {
                lemma_cell_place(cols as int, rows as int, col as int, row as int);
            }
            let idx: usize = row * cols + col;
            let ghost prev = cells@;
            cells[idx].push(id);
            proof {
                assert forall|k: int| 0 <= k < base.len() && k != idx implies (#[trigger] cells@[k])
                    == prev[k] && !(k % (cols as int) == col && k / (cols as int) == row) by {
                    lemma_place_cell(cols as int, rows as int, k);
                }
            }
            row += 1;
        }
        col += 1;
    }
}

/// Takes `id` out of every cell of a block.
fn unregister_block(
    cells: &mut Vec<Vec<usize>>,
    cols: usize,
    rows: usize,
    c0: usize,
    c1: usize,
    r0: usize,
    r1: usize,
    id: usize,
)
    requires
        old(cells)@.len() == cols * rows,
        c0 <= c1 < cols,
        r0 <= r1 < rows,
    ensures
        final(cells)@.len() == old(cells)@.len(),
        forall|k: int|
            0 <= k < old(cells)@.len() ==> (#[trigger] final(cells)@[k])@ == if in_block(
                k % (cols as int),
                k / (cols as int),
                c0 as int,
                c1 as int,
                r0 as int,
                r1 as int,
            ) {
                without(old(cells)@[k]@, id)
            } else {
                old(cells)@[k]@
            },
{
    let ghost base = cells@;
    assert(cells.len() <= usize::MAX);
    let mut col: usize = c0;
    while col <= c1
        invariant
            cols * rows <= usize::MAX,
            c0 <= col <= c1 + 1,
            c1 < cols,
            r0 <= r1 < rows,
            base.len() == cols * rows,
            cells@.len() == base.len(),
            forall|k: int|
                0 <= k < base.len() ==> (#[trigger] cells@[k])@ == if in_block(
                    k % (cols as int),
                    k / (cols as int),
                    c0 as int,
                    col - 1,
                    r0 as int,
                    r1 as int,
                ) {
                    without(base[k]@, id)
                } else {
                    base[k]@
                },
        decreases c1 + 1 - col,
    {
        let mut row: usize = r0;
        while row <= r1
            invariant
                cols * rows <= usize::MAX,
                c0 <= col <= c1 < cols,
                r0 <= row <= r1 + 1,
                r1 < rows,
                base.len() == cols * rows,
                cells@.len() == base.len(),
                forall|k: int|
                    0 <= k < base.len() ==> (#[trigger] cells@[k])@ == if in_block(
                        k % (cols as int),
                        k / (cols as int),
                        c0 as int,
                        col - 1,
                        r0 as int,
                        r1 as int,
                    ) || in_block(
                        k % (cols as int),
                        k / (cols as int),
                        col as int,
                        col as int,
                        r0 as int,
                        row - 1,
                    ) {
                        without(base[k]@, id)
                    } else {
                        base[k]@
                    },
            decreases r1 + 1 - row,
        {
            proof {
                lemma_cell_place(cols as int, rows as int, col as int, row as int);
            }
            let idx: usize = row * cols + col;
            let kept = list_without(&cells[idx], id);
            let ghost prev = cells@;
            cells[idx] = kept;
            proof {
                assert forall|k: int| 0 <= k < base.len() && k != idx implies (#[trigger] cells@[k])
                    == prev[k] && !(k % (cols as int) == col && k / (cols as int) == row) by {
                    lemma_place_cell(cols as int, rows as int, k);
                }
            }
            row += 1;
        }
        col += 1;
    }
}

/// Executable form of [`without`].
fn list_without(list: &Vec<usize>, id: usize) -> (r: Vec<usize>)
    ensures
        r@ == without(list@, id),
{
    let mut out: Vec<usize> = Vec::new();
    let mut i: usize = 0;
    while i < list.len()
        invariant
            i <= list@.len(),
            out@ == without(list@.take(i as int), id),
        decreases list@.len() - i,
    {
        assert(list@.take(i + 1).drop_last() == list@.take(i as int));
        if list[i] != id {
            out.push(list[i]);
        }
        i += 1;
    }
    assert(list@.take(i as int) == list@);
    out
}

/// Whether `v` is an end of a segment of `segs` that is not a removed
/// entry.
pub open spec fn has_end(segs: Seq<PathSegment>, v: Point2) -> bool {
    exists|i: int|
        0 <= i < segs.len() && !(#[trigger] segs[i]).is_degenerate() && (segs[i].start == v
            || segs[i].end == v)
}

/// Whether `r` is the union of the bounding boxes of the segments of
/// `segs` that are not removed entries: every end lies inside, and each of
/// the four sides touches one.
pub open spec fn is_union_box(segs: Seq<PathSegment>, r: Rect) -> bool {
    &&& forall|v: Point2| #[trigger] has_end(segs, v) ==> r.contains(v)
    &&& exists|v: Point2| #[trigger] has_end(segs, v) && v.x == r.min.x
    &&& exists|v: Point2| #[trigger] has_end(segs, v) && v.y == r.min.y
    &&& exists|v: Point2| #[trigger] has_end(segs, v) && v.x == r.max.x
    &&& exists|v: Point2| #[trigger] has_end(segs, v) && v.y == r.max.y
}

/// The bounds that a rebuild gives an index of the segments `segs`: the
/// union of their bounding boxes, or the zero rectangle where there is
/// none or where its grid could not be addressed.
pub open spec fn rebuilt_bounds(segs: Seq<PathSegment>, b: Rect) -> bool {
    if forall|v: Point2| !has_end(segs, v) {
        b == Rect::zero()
    } else {
        ||| is_union_box(segs, b) && b.grid_fits()
        ||| b == Rect::zero() && forall|r: Rect| is_union_box(segs, r) ==> !r.grid_fits()
    }
}

/// The rectangle of the given width and height around the origin.
pub open spec fn centred_rect(width: i32, height: i32) -> Rect {
    Rect {
        min: Point2 { x: (-(width / 2)) as i32, y: (-(height / 2)) as i32 },
        max: Point2 { x: (width / 2) as i32, y: (height / 2) as i32 },
    }
}

/// Whether every segment is in range and carries its place as its id.
pub open spec fn segments_valid(segs: Seq<PathSegment>) -> bool {
    forall|i: int| 0 <= i < segs.len() ==> (#[trigger] segs[i]).in_range() && segs[i].id == i
}

/// The segments `added`, renumbered to follow a list of `n` segments.
pub open spec fn renumbered(added: Seq<PathSegment>, n: int) -> Seq<PathSegment> {
    Seq::new(
        added.len(),
        |i: int| PathSegment { start: added[i].start, end: added[i].end, id: (n + i) as usize },
    )
}

impl Rect {
    /// Executable form of [`Rect::zero`].
    pub fn zero_rect() -> (r: Rect)
        ensures
            r == Rect::zero(),
            r.valid(),
    {
        Rect { min: Point2 { x: 0, y: 0 }, max: Point2 { x: 0, y: 0 } }
    }

    /// The middle of the rectangle, rounded down.
    pub fn center(&self) -> (c: Point2)
        requires
            self.valid(),
        ensures
            c.x == (self.min.x + self.max.x) / 2,
            c.y == (self.min.y + self.max.y) / 2,
            c.in_range(),
    {
        let sx: i64 = self.min.x as i64 + self.max.x as i64;
        let sy: i64 = self.min.y as i64 + self.max.y as i64;
        let cx: i64 = match sx.checked_div_euclid(2) {
            Some(q) => q,
            None => 0,
        };
        let cy: i64 = match sy.checked_div_euclid(2) {
            Some(q) => q,
            None => 0,
        };
        Point2 { x: cx as i32, y: cy as i32 }
    }
}

impl SpatialGrid {
    /// Whether the bounds are valid, the grid has the dimensions that the
    /// bounds call for, and the segments are valid.
    pub open spec fn frame_ok(&self) -> bool {
        &&& self.cell_size == CELL_SIZE
        &&& self.bounds.valid()
        &&& self.cols == grid_dim(self.bounds.width())
        &&& self.rows == grid_dim(self.bounds.height())
        &&& segments_valid(self.segments@)
    }

    /// Well-formedness: the frame is sound, there is one list per cell,
    /// and the lists hold ids of segments.
    pub open spec fn wf(&self) -> bool {
        &&& self.frame_ok()
        &&& self.cells@.len() == self.cols * self.rows
        &&& forall|k: int, j: int|
            0 <= k < self.cells@.len() && 0 <= j < self.cells@[k]@.len() ==> (
            #[trigger] self.cells@[k]@[j]) < self.segments@.len()
    }

    /// Whether the bounding box of `seg` can be mapped to cells: there are
    /// cells, and the box overlaps the bounds.
    pub open spec fn mapped(&self, seg: PathSegment) -> bool {
        self.cols > 0 && self.rows > 0 && self.bounds.overlaps(seg)
    }

    /// First column of the bounding box of `seg`, clipped to the bounds.
    pub open spec fn col_lo(&self, seg: PathSegment) -> int {
        cell_of(
            max_of(seg.lo().x as int, self.bounds.min.x as int),
            self.bounds.min.x as int,
            self.cols as int,
        )
    }

    /// Last column of the bounding box of `seg`, clipped to the bounds.
    pub open spec fn col_hi(&self, seg: PathSegment) -> int {
        cell_of(
            min_of(seg.hi().x as int, self.bounds.max.x as int),
            self.bounds.min.x as int,
            self.cols as int,
        )
    }

    /// First row of the bounding box of `seg`, clipped to the bounds.
    pub open spec fn row_lo(&self, seg: PathSegment) -> int {
        cell_of(
            max_of(seg.lo().y as int, self.bounds.min.y as int),
            self.bounds.min.y as int,
            self.rows as int,
        )
    }

    /// Last row of the bounding box of `seg`, clipped to the bounds.
    pub open spec fn row_hi(&self, seg: PathSegment) -> int {
        cell_of(
            min_of(seg.hi().y as int, self.bounds.max.y as int),
            self.bounds.min.y as int,
            self.rows as int,
        )
    }

    /// Whether the cell at place `k` overlaps the clipped bounding box of
    /// `seg`.
    pub open spec fn covers(&self, seg: PathSegment, k: int) -> bool {
        self.mapped(seg) && in_block(
            k % (self.cols as int),
            k / (self.cols as int),
            self.col_lo(seg),
            self.col_hi(seg),
            self.row_lo(seg),
            self.row_hi(seg),
        )
    }

    /// Whether the segment `id` belongs in the cell at place `k`: it is no
    /// removed entry, and the cell overlaps its clipped bounding box.
    pub open spec fn registers(&self, id: int, k: int) -> bool {
        &&& 0 <= id < self.segments@.len()
        &&& !self.segments@[id].is_degenerate()
        &&& self.covers(self.segments@[id], k)
    }

    /// Whether the cell at place `k` lists, in ascending order, exactly the
    /// segments below `n` that belong in it.
    pub open spec fn cell_lists(&self, k: int, n: int) -> bool {
        &&& ascending(self.cells@[k]@)
        &&& forall|id: usize| #[trigger]
            self.cells@[k]@.contains(id) <==> id < n && self.registers(id as int, k)
    }

    /// Grid coverage: every cell lists, in ascending order, exactly the
    /// segments that belong in it. A segment that is no removed entry is
    /// so listed in every cell that overlaps its clipped bounding box, and
    /// in no other cell.
    pub open spec fn indexed(&self) -> bool {
        forall|k: int|
            0 <= k < self.cells@.len() ==> #[trigger] self.cell_lists(k, self.segments@.len() as int)
    }

    /// Whether no cell lists anything.
    pub open spec fn cleared(&self) -> bool {
        forall|k: int| 0 <= k < self.cells@.len() ==> (#[trigger] self.cells@[k])@.len() == 0
    }

    /// A new, empty index. The cell size is fixed at [`CELL_SIZE`]; the
    /// argument is not used.
    pub fn new(_cell_size: i32) -> (grid: SpatialGrid)
        ensures
            grid.wf(),
            grid.indexed(),
            grid.bounds == Rect::zero(),
            grid.cell_size == CELL_SIZE,
            grid.cols == 0,
            grid.rows == 0,
            grid.cells@.len() == 0,
            grid.segments@.len() == 0,
    {
        proof {
            lemma_grid_dim_range(0);
        }
        SpatialGrid {
            bounds: Rect::zero_rect(),
            cell_size: CELL_SIZE,
            cols: 0,
            rows: 0,
            cells: Vec::new(),
            segments: Vec::new(),
        }
    }

    /// Recomputes the dimensions of the grid from the bounds and empties
    /// every cell. Bounds whose grid could not be addressed collapse to the
    /// zero rectangle.
    pub fn recalc_grid(&mut self)
        requires
            old(self).cell_size == CELL_SIZE,
            old(self).bounds.valid(),
            segments_valid(old(self).segments@),
        ensures
            final(self).wf(),
            final(self).cleared(),
            final(self).segments == old(self).segments,
            final(self).bounds == if old(self).bounds.grid_fits() {
                old(self).bounds
            } else {
                Rect::zero()
            },
    {
        let width: i64 = self.bounds.max.x as i64 - self.bounds.min.x as i64;
        let height: i64 = self.bounds.max.y as i64 - self.bounds.min.y as i64;
        proof {
            lemma_grid_dim_range(width as int);
            lemma_grid_dim_range(height as int);
            lemma_grid_dim_range(0);
        }
        let cols: usize = (((width + 4999) as u64) / 5000) as usize;
        let rows: usize = (((height + 4999) as u64) / 5000) as usize;
        match cols.checked_mul(rows) {
            Some(n) => {
                self.cols = cols;
                self.rows = rows;
                self.cells = fresh_cells(n);
            },
            None => {
                self.bounds = Rect::zero_rect();
                self.cols = 0;
                self.rows = 0;
                self.cells = Vec::new();
            },
        }
    }

    /// The block of cells that the clipped bounding box of `seg` overlaps,
    /// as first and last column and first and last row.
    fn segment_region(&self, seg: &PathSegment) -> (r: Option<(usize, usize, usize, usize)>)
        requires
            self.frame_ok(),
            seg.in_range(),
        ensures
            r is Some <==> self.mapped(*seg),
            match r {
                Some((c0, c1, r0, r1)) => {
                    &&& c0 == self.col_lo(*seg)
                    &&& c1 == self.col_hi(*seg)
                    &&& r0 == self.row_lo(*seg)
                    &&& r1 == self.row_hi(*seg)
                    &&& c0 <= c1 < self.cols
                    &&& r0 <= r1 < self.rows
                },
                None => true,
            },
    {
        if self.cols == 0 || self.rows == 0 {
            return None;
        }
        let lo_x: i32 = if seg.start.x <= seg.end.x { seg.start.x } else { seg.end.x };
        let hi_x: i32 = if seg.start.x >= seg.end.x { seg.start.x } else { seg.end.x };
        let lo_y: i32 = if seg.start.y <= seg.end.y { seg.start.y } else { seg.end.y };
        let hi_y: i32 = if seg.start.y >= seg.end.y { seg.start.y } else { seg.end.y };
        let cl_x: i32 = if lo_x >= self.bounds.min.x { lo_x } else { self.bounds.min.x };
        let ch_x: i32 = if hi_x <= self.bounds.max.x { hi_x } else { self.bounds.max.x };
        let cl_y: i32 = if lo_y >= self.bounds.min.y { lo_y } else { self.bounds.min.y };
        let ch_y: i32 = if hi_y <= self.bounds.max.y { hi_y } else { self.bounds.max.y };
        if cl_x > ch_x || cl_y > ch_y {
            return None;
        }
        proof {
            lemma_cell_of_monotonic(
                cl_x as int,
                ch_x as int,
                self.bounds.min.x as int,
                self.cols as int,
            );
            lemma_cell_of_monotonic(
                cl_y as int,
                ch_y as int,
                self.bounds.min.y as int,
                self.rows as int,
            );
        }
        let c0 = cell_coord(cl_x, self.bounds.min.x, self.cols);
        let c1 = cell_coord(ch_x, self.bounds.min.x, self.cols);
        let r0 = cell_coord(cl_y, self.bounds.min.y, self.rows);
        let r1 = cell_coord(ch_y, self.bounds.min.y, self.rows);
        Some((c0, c1, r0, r1))
    }

    /// Registers every segment in the cells of a cleared grid.
    fn register_all(&mut self)
        requires
            old(self).wf(),
            old(self).cleared(),
        ensures
            final(self).wf(),
            final(self).indexed(),
            final(self).segments == old(self).segments,
            final(self).bounds == old(self).bounds,
            final(self).cols == old(self).cols,
            final(self).rows == old(self).rows,
    {
        let n: usize = self.segments.len();
        let mut s: usize = 0;
        assert forall|k: int| 0 <= k < self.cells@.len() implies #[trigger] self.cell_lists(
            k,
            0,
        ) by {
            assert(self.cells@[k]@.len() == 0);
        }
        while s < n
            invariant
                s <= n,
                n == self.segments@.len(),
                self.wf(),
                self.segments == old(self).segments,
                self.bounds == old(self).bounds,
                self.cols == old(self).cols,
                self.rows == old(self).rows,
                forall|k: int| 0 <= k < self.cells@.len() ==> #[trigger] self.cell_lists(k, s as int),
            decreases n - s,
        {
            let seg = self.segments[s];
            let ghost before = *self;
            assert(seg.in_range());
            let mut region: Option<(usize, usize, usize, usize)> = None;
            if seg.start != seg.end {
                region = self.segment_region(&seg);
            }
            match region {
                Some((c0, c1, r0, r1)) => {
                    register_block(&mut self.cells, self.cols, self.rows, c0, c1, r0, r1, s);
                },
                None => {},
            }
            proof {
                assert forall|k: int| 0 <= k < self.cells@.len() implies #[trigger] self.cell_lists(
                    k,
                    s + 1,
                ) by {
                    assert(before.cell_lists(k, s as int));
                    let prev = before.cells@[k]@;
                    let cur = self.cells@[k]@;
                    assert forall|id: usize| prev.contains(id) implies id < s by {}
                    if self.registers(s as int, k) {
                        assert(cur == prev.push(s));
                        assert forall|i: int, j: int| 0 <= i < j < cur.len() implies cur[i]
                            < cur[j] by {
                            if j == prev.len() {
                                assert(prev.contains(prev[i]));
                            }
                        }
                        assert forall|id: usize| #[trigger]
                            cur.contains(id) <==> id < s + 1 && self.registers(id as int, k) by {
                            if cur.contains(id) {
                                let i = choose|i: int| 0 <= i < cur.len() && cur[i] == id;
                                if i < prev.len() {
                                    assert(prev[i] == id);
                                    assert(prev.contains(id));
                                }
                            }
                            if prev.contains(id) {
                                let i = choose|i: int| 0 <= i < prev.len() && prev[i] == id;
                                assert(cur[i] == id);
                            }
                            if id == s {
                                assert(cur[prev.len() as int] == id);
                            }
                        }
                    } else {
                        assert(cur == prev);
                    }
                }
                assert forall|k: int, j: int|
                    0 <= k < self.cells@.len() && 0 <= j < self.cells@[k]@.len() implies (
                #[trigger] self.cells@[k]@[j]) < self.segments@.len() by {
                    assert(self.cell_lists(k, s + 1));
                    assert(self.cells@[k]@.contains(self.cells@[k]@[j]));
                }
            }
            s += 1;
        }
    }

    /// Sets the bounds of the grid, recomputes its dimensions and registers
    /// every segment anew. Corners out of order, or bounds whose grid could
    /// not be addressed, collapse to the zero rectangle.
    pub fn set_bounds(&mut self, min: Point2, max: Point2)
        requires
            old(self).wf(),
            min.in_range(),
            max.in_range(),
        ensures
            final(self).wf(),
            final(self).indexed(),
            final(self).segments == old(self).segments,
            final(self).bounds == if min.x <= max.x && min.y <= max.y && (Rect {
                min,
                max,
            }).grid_fits() {
                Rect { min, max }
            } else {
                Rect::zero()
            },
    {
        proof {
            lemma_grid_dim_range(0);
        }
        if min.x <= max.x && min.y <= max.y {
            self.bounds = Rect { min, max };
        } else {
            self.bounds = Rect::zero_rect();
        }
        self.recalc_grid();
        self.register_all();
    }

    /// Sets the bounds from a view box `(min_x, min_y, width, height)`: the
    /// rectangle of that width and height around the origin.
    pub fn set_bounds_from_viewbox(&mut self, viewbox: (i32, i32, i32, i32))
        requires
            old(self).wf(),
        ensures
            final(self).wf(),
            final(self).indexed(),
            final(self).segments == old(self).segments,
            final(self).bounds == if viewbox.2 >= 0 && viewbox.3 >= 0 && centred_rect(
                viewbox.2,
                viewbox.3,
            ).grid_fits() {
                centred_rect(viewbox.2, viewbox.3)
            } else {
                Rect::zero()
            },
    {
        let (_min_x, _min_y, width, height) = viewbox;
        if width >= 0 && height >= 0 {
            let hw: i32 = width / 2;
            let hh: i32 = height / 2;
            self.set_bounds(Point2 { x: -hw, y: -hh }, Point2 { x: hw, y: hh });
        } else {
            self.set_bounds(Point2 { x: 0, y: 0 }, Point2 { x: 0, y: 0 });
        }
    }

    /// Appends segments to the list, each renumbered to its place. They
    /// are not registered in any cell before the next rebuild.
    pub fn insert_segments(&mut self, new_segments: Vec<PathSegment>)
        requires
            old(self).wf(),
            forall|i: int| 0 <= i < new_segments@.len() ==> (#[trigger] new_segments@[i]).in_range(),
        ensures
            final(self).wf(),
            final(self).segments@ == old(self).segments@ + renumbered(
                new_segments@,
                old(self).segments@.len() as int,
            ),
            final(self).bounds == old(self).bounds,
            final(self).cols == old(self).cols,
            final(self).rows == old(self).rows,
            final(self).cells == old(self).cells,
            final(self).cell_size == old(self).cell_size,
    {
        let ghost base = self.segments@;
        let mut i: usize = 0;
        while i < new_segments.len()
            invariant
                i <= new_segments@.len(),
                self.wf(),
                base == old(self).segments@,
                forall|j: int|
                    0 <= j < new_segments@.len() ==> (#[trigger] new_segments@[j]).in_range(),
                self.segments@ == base + renumbered(new_segments@, base.len() as int).take(i as int),
                self.bounds == old(self).bounds,
                self.cols == old(self).cols,
                self.rows == old(self).rows,
                self.cells == old(self).cells,
                self.cell_size == old(self).cell_size,
            decreases new_segments@.len() - i,
        {
            let seg = new_segments[i];
            assert(seg.in_range());
            let id: usize = self.segments.len();
            self.segments.push(PathSegment { start: seg.start, end: seg.end, id });
            proof {
                let all = renumbered(new_segments@, base.len() as int);
                assert(all.take(i + 1) == all.take(i as int).push(all[i as int]));
                assert(self.segments@ == base + all.take(i + 1));
            }
            i += 1;
        }
        proof {
            let all = renumbered(new_segments@, base.len() as int);
            assert(all.take(i as int) == all);
        }
    }
}

/// There is only one union of bounding boxes.
pub proof fn lemma_union_box_unique(segs: Seq<PathSegment>, r1: Rect, r2: Rect)
    requires
        is_union_box(segs, r1),
        is_union_box(segs, r2),
    ensures
        r1 == r2,
{
    let a1 = choose|v: Point2| #[trigger] has_end(segs, v) && v.x == r1.min.x;
    let a2 = choose|v: Point2| #[trigger] has_end(segs, v) && v.x == r2.min.x;
    let b1 = choose|v: Point2| #[trigger] has_end(segs, v) && v.y == r1.min.y;
    let b2 = choose|v: Point2| #[trigger] has_end(segs, v) && v.y == r2.min.y;
    let c1 = choose|v: Point2| #[trigger] has_end(segs, v) && v.x == r1.max.x;
    let c2 = choose|v: Point2| #[trigger] has_end(segs, v) && v.x == r2.max.x;
    let d1 = choose|v: Point2| #[trigger] has_end(segs, v) && v.y == r1.max.y;
    let d2 = choose|v: Point2| #[trigger] has_end(segs, v) && v.y == r2.max.y;
    assert(r2.contains(a1) && r1.contains(a2));
    assert(r2.contains(b1) && r1.contains(b2));
    assert(r2.contains(c1) && r1.contains(c2));
    assert(r2.contains(d1) && r1.contains(d2));
}

/// The union of the bounding boxes of the segments that are no removed
/// entries; none where every segment is one.
fn union_box(segs: &Vec<PathSegment>) -> (r: Option<Rect>)
    requires
        segments_valid(segs@),
    ensures
        r is None <==> forall|v: Point2| !has_end(segs@, v),
        match r {
            Some(b) => is_union_box(segs@, b) && b.valid(),
            None => true,
        },
{
    let mut found: Option<Rect> = None;
    let mut i: usize = 0;
    while i < segs.len()
        invariant
            i <= segs@.len(),
            segments_valid(segs@),
            found is None <==> forall|v: Point2| !has_end(segs@.take(i as int), v),
            match found {
                Some(b) => is_union_box(segs@.take(i as int), b) && b.valid(),
                None => true,
            },
        decreases segs@.len() - i,
    {
        let ghost before = segs@.take(i as int);
        let ghost after = segs@.take(i + 1);
        let seg = segs[i];
        assert(seg.in_range());
        assert(after == before.push(seg));
        assert forall|v: Point2| has_end(after, v) <==> has_end(before, v) || (!seg.is_degenerate()
            && (seg.start == v || seg.end == v)) by {
            if has_end(before, v) {
                let k = choose|k: int|
                    0 <= k < before.len() && !(#[trigger] before[k]).is_degenerate() && (
                    before[k].start == v || before[k].end == v);
                assert(after[k] == before[k]);
            }
            if !seg.is_degenerate() && (seg.start == v || seg.end == v) {
                assert(after[i as int] == seg);
            }
        }
        if seg.start != seg.end {
            let lo_x: i32 = if seg.start.x <= seg.end.x { seg.start.x } else { seg.end.x };
            let hi_x: i32 = if seg.start.x >= seg.end.x { seg.start.x } else { seg.end.x };
            let lo_y: i32 = if seg.start.y <= seg.end.y { seg.start.y } else { seg.end.y };
            let hi_y: i32 = if seg.start.y >= seg.end.y { seg.start.y } else { seg.end.y };
            assert(has_end(after, seg.start) && has_end(after, seg.end));
            let ghost sx_lo = if seg.start.x <= seg.end.x { seg.start } else { seg.end };
            let ghost sx_hi = if seg.start.x >= seg.end.x { seg.start } else { seg.end };
            let ghost sy_lo = if seg.start.y <= seg.end.y { seg.start } else { seg.end };
            let ghost sy_hi = if seg.start.y >= seg.end.y { seg.start } else { seg.end };
            match found {
                None => {
                    let b = Rect {
                        min: Point2 { x: lo_x, y: lo_y },
                        max: Point2 { x: hi_x, y: hi_y },
                    };
                    proof {
                        assert(has_end(after, sx_lo) && sx_lo.x == b.min.x);
                        assert(has_end(after, sy_lo) && sy_lo.y == b.min.y);
                        assert(has_end(after, sx_hi) && sx_hi.x == b.max.x);
                        assert(has_end(after, sy_hi) && sy_hi.y == b.max.y);
                    }
                    found = Some(b);
                },
                Some(old_box) => {
                    let b = Rect {
                        min: Point2 {
                            x: if lo_x < old_box.min.x { lo_x } else { old_box.min.x },
                            y: if lo_y < old_box.min.y { lo_y } else { old_box.min.y },
                        },
                        max: Point2 {
                            x: if hi_x > old_box.max.x { hi_x } else { old_box.max.x },
                            y: if hi_y > old_box.max.y { hi_y } else { old_box.max.y },
                        },
                    };
                    proof {
                        let v1 = choose|v: Point2| #[trigger]
                            has_end(before, v) && v.x == old_box.min.x;
                        let v2 = choose|v: Point2| #[trigger]
                            has_end(before, v) && v.y == old_box.min.y;
                        let v3 = choose|v: Point2| #[trigger]
                            has_end(before, v) && v.x == old_box.max.x;
                        let v4 = choose|v: Point2| #[trigger]
                            has_end(before, v) && v.y == old_box.max.y;
                        let w1 = if lo_x < old_box.min.x { sx_lo } else { v1 };
                        let w2 = if lo_y < old_box.min.y { sy_lo } else { v2 };
                        let w3 = if hi_x > old_box.max.x { sx_hi } else { v3 };
                        let w4 = if hi_y > old_box.max.y { sy_hi } else { v4 };
                        assert(has_end(after, w1) && w1.x == b.min.x);
                        assert(has_end(after, w2) && w2.y == b.min.y);
                        assert(has_end(after, w3) && w3.x == b.max.x);
                        assert(has_end(after, w4) && w4.y == b.max.y);
                    }
                    found = Some(b);
                },
            }
        }
        i += 1;
    }
    assert(segs@.take(i as int) == segs@);
    found
}

impl SpatialGrid {
    /// Rebuilds the index from its segments: the bounds become the union
    /// of the bounding boxes of the segments that are no removed entries,
    /// the grid is laid out anew, and every segment is registered. An index
    /// without segments is left as it is.
    pub fn rebuild_grid(&mut self)
        requires
            old(self).wf(),
        ensures
            old(self).segments@.len() == 0 ==> *final(self) == *old(self),
            final(self).wf(),
            final(self).indexed(),
            final(self).segments == old(self).segments,
            old(self).segments@.len() > 0 ==> rebuilt_bounds(
                old(self).segments@,
                final(self).bounds,
            ),
    {
        if self.segments.len() == 0 {
            proof {
                // without segments no cell lists anything
                assert forall|k: int| 0 <= k < self.cells@.len() implies #[trigger]
                    self.cell_lists(k, 0) by {
                    if self.cells@[k]@.len() > 0 {
                        assert(self.cells@[k]@[0] < self.segments@.len());
                    }
                    assert forall|id: usize| !(#[trigger] self.cells@[k]@.contains(id)) by {
                        if self.cells@[k]@.contains(id) {
                            let j = choose|j: int|
                                0 <= j < self.cells@[k]@.len() && self.cells@[k]@[j] == id;
                        }
                    }
                }
            }
            return ;
        }
        let found = union_box(&self.segments);
        proof {
            lemma_grid_dim_range(0);
            assert(Rect::zero().grid_fits()) by {
                assert(grid_dim(0) * grid_dim(0) == 0) by (nonlinear_arith)
                    requires
                        grid_dim(0) == 0,
                ;
            }
        }
        match found {
            Some(b) => {
                self.bounds = b;
                proof {
                    assert forall|r: Rect| is_union_box(self.segments@, r) implies r == b by {
                        lemma_union_box_unique(self.segments@, r, b);
                    }
                }
            },
            None => {
                self.bounds = Rect::zero_rect();
            },
        }
        self.recalc_grid();
        self.register_all();
    }

    /// Removes the segment `id`: takes it out of every cell that its
    /// clipped bounding box overlaps and puts a removed entry in its
    /// place, so that later ids stay as they are. Nothing happens where
    /// there is no such segment or where its bounding box cannot be mapped
    /// to cells.
    pub fn remove_segment(&mut self, id: usize)
        requires
            old(self).wf(),
        ensures
            final(self).wf(),
            final(self).bounds == old(self).bounds,
            final(self).cols == old(self).cols,
            final(self).rows == old(self).rows,
            final(self).cells@.len() == old(self).cells@.len(),
            if id < old(self).segments@.len() && old(self).mapped(old(self).segments@[id as int]) {
                &&& final(self).segments@ == old(self).segments@.update(
                    id as int,
                    PathSegment::removed(id),
                )
                &&& forall|k: int|
                    0 <= k < old(self).cells@.len() ==> (#[trigger] final(self).cells@[k])@
                        == if old(self).covers(old(self).segments@[id as int], k) {
                        without(old(self).cells@[k]@, id)
                    } else {
                        old(self).cells@[k]@
                    }
            } else {
                *final(self) == *old(self)
            },
            old(self).indexed() ==> final(self).indexed(),
    {
        if id >= self.segments.len() {
            return ;
        }
        let segment = self.segments[id];
        assert(segment.in_range());
        match self.segment_region(&segment) {
            None => {},
            Some((c0, c1, r0, r1)) => {
                unregister_block(&mut self.cells, self.cols, self.rows, c0, c1, r0, r1, id);
                self.segments[id] = PathSegment {
                    start: Point2 { x: 0, y: 0 },
                    end: Point2 { x: 0, y: 0 },
                    id,
                };
                proof {
                    let before = *old(self);
                    assert forall|k: int, j: int|
                        0 <= k < self.cells@.len() && 0 <= j < self.cells@[k]@.len() implies (
                    #[trigger] self.cells@[k]@[j]) < self.segments@.len() by {
                        lemma_without(before.cells@[k]@, id);
                        let x = self.cells@[k]@[j];
                        assert(self.cells@[k]@.contains(x));
                        assert(before.cells@[k]@.contains(x));
                        let i = choose|i: int|
                            0 <= i < before.cells@[k]@.len() && before.cells@[k]@[i] == x;
                        assert(before.cells@[k]@[i] < before.segments@.len());
                    }
                    if before.indexed() {
                        assert forall|k: int| 0 <= k < self.cells@.len() implies #[trigger]
                            self.cell_lists(k, self.segments@.len() as int) by {
                            assert(before.cell_lists(k, before.segments@.len() as int));
                            lemma_without(before.cells@[k]@, id);
                            assert forall|x: usize| #[trigger]
                                self.cells@[k]@.contains(x) <==> x < self.segments@.len()
                                    && self.registers(x as int, k) by {
                                let prev = before.cells@[k]@;
                                let cur = self.cells@[k]@;
                                assert(prev.contains(x) <==> x < before.segments@.len()
                                    && before.registers(x as int, k));
                                assert(self.segments@[id as int].is_degenerate());
                                if x != id && x < self.segments@.len() {
                                    assert(self.segments@[x as int] == before.segments@[x as int]);
                                    assert(self.covers(self.segments@[x as int], k)
                                        == before.covers(before.segments@[x as int], k));
                                    assert(self.registers(x as int, k) == before.registers(
                                        x as int,
                                        k,
                                    ));
                                }
                                if before.covers(segment, k) {
                                    assert(cur == without(prev, id));
                                    assert(cur.contains(x) <==> prev.contains(x) && x != id);
                                } else {
                                    assert(cur == prev);
                                    assert(!before.registers(id as int, k));
                                }
                            }
                        }
                    }
                }
            },
        }
    }
}

/// Whether the id lies in the neighbourhood of the starting segment
/// `initial`, at most `range` ids away from it. Without a starting segment
/// no id does.
pub open spec fn excluded(id: usize, initial: Option<usize>, range: usize) -> bool {
    match initial {
        Some(c) => c - range <= id <= c + range,
        None => false,
    }
}

/// Executable form of [`excluded`].
fn is_excluded(id: usize, initial: Option<usize>, range: usize) -> (b: bool)
    ensures
        b == excluded(id, initial, range),
{
    match initial {
        Some(c) => id >= c.saturating_sub(range) && id <= c.saturating_add(range),
        None => false,
    }
}

impl SpatialGrid {
    /// Grid coverage, cell by cell: in an indexed grid a segment that is no
    /// removed entry is listed in a cell exactly when the cell overlaps
    /// its clipped bounding box.
    pub proof fn lemma_coverage(&self, id: usize, k: int)
        requires
            self.indexed(),
            0 <= k < self.cells@.len(),
            id < self.segments@.len(),
            !self.segments@[id as int].is_degenerate(),
        ensures
            self.cells@[k]@.contains(id) <==> self.covers(self.segments@[id as int], k),
    {
        assert(self.cell_lists(k, self.segments@.len() as int));
    }

    /// The cell that holds `p`: none where `p` lies outside the bounds or
    /// the grid has no cells.
    pub open spec fn cell_at(&self, p: Point2) -> Option<(int, int)> {
        if self.bounds.contains(p) && self.cols > 0 && self.rows > 0 {
            Some(
                (
                    cell_of(p.x as int, self.bounds.min.x as int, self.cols as int),
                    cell_of(p.y as int, self.bounds.min.y as int, self.rows as int),
                ),
            )
        } else {
            None
        }
    }

    /// Whether `p` lies in the bounding box of `seg`, clipped to the
    /// bounds.
    pub open spec fn in_clipped_box(&self, seg: PathSegment, p: Point2) -> bool {
        &&& max_of(seg.lo().x as int, self.bounds.min.x as int) <= p.x <= min_of(
            seg.hi().x as int,
            self.bounds.max.x as int,
        )
        &&& max_of(seg.lo().y as int, self.bounds.min.y as int) <= p.y <= min_of(
            seg.hi().y as int,
            self.bounds.max.y as int,
        )
    }

    /// What it means for a cell to overlap a clipped bounding box: the
    /// cell holds a point of the box.
    pub proof fn lemma_covers_holds_point(&self, seg: PathSegment, k: int)
        requires
            self.frame_ok(),
            seg.in_range(),
            0 <= k < self.cols * self.rows,
        ensures
            self.covers(seg, k) <==> exists|p: Point2|
                self.in_clipped_box(seg, p) && #[trigger] self.cell_at(p) == Some(
                    (k % (self.cols as int), k / (self.cols as int)),
                ),
    {
        let cols = self.cols as int;
        let rows = self.rows as int;
        lemma_place_cell(cols, rows, k);
        let c = k % cols;
        let r = k / cols;
        let lo_x = self.bounds.min.x as int;
        let lo_y = self.bounds.min.y as int;
        let cl_x = max_of(seg.lo().x as int, lo_x);
        let ch_x = min_of(seg.hi().x as int, self.bounds.max.x as int);
        let cl_y = max_of(seg.lo().y as int, lo_y);
        let ch_y = min_of(seg.hi().y as int, self.bounds.max.y as int);
        if self.covers(seg, k) {
            lemma_div_bracket(cl_x - lo_x, CELL_SIZE as int);
            lemma_div_bracket(ch_x - lo_x, CELL_SIZE as int);
            lemma_div_bracket(cl_y - lo_y, CELL_SIZE as int);
            lemma_div_bracket(ch_y - lo_y, CELL_SIZE as int);
            let x = if c == self.col_lo(seg) {
                cl_x
            } else {
                lo_x + c * CELL_SIZE
            };
            let y = if r == self.row_lo(seg) {
                cl_y
            } else {
                lo_y + r * CELL_SIZE
            };
            lemma_div_unique(c * CELL_SIZE, CELL_SIZE as int, c);
            lemma_div_unique(r * CELL_SIZE, CELL_SIZE as int, r);
            let p = Point2 { x: x as i32, y: y as i32 };
            assert(self.in_clipped_box(seg, p));
            assert(self.cell_at(p) == Some((c, r)));
        }
        if exists|p: Point2|
            self.in_clipped_box(seg, p) && #[trigger] self.cell_at(p) == Some((c, r)) {
            let p = choose|p: Point2|
                self.in_clipped_box(seg, p) && #[trigger] self.cell_at(p) == Some((c, r));
            lemma_cell_of_monotonic(cl_x, p.x as int, lo_x, cols);
            lemma_cell_of_monotonic(p.x as int, ch_x, lo_x, cols);
            lemma_cell_of_monotonic(cl_y, p.y as int, lo_y, rows);
            lemma_cell_of_monotonic(p.y as int, ch_y, lo_y, rows);
        }
    }

    /// The ids listed in the cells of column `cx` from row `r0` up to, not
    /// including, row `r`, row after row.
    pub open spec fn column_scan(&self, cx: int, r0: int, r: int) -> Seq<usize>
        decreases r - r0,
    {
        if r <= r0 {
            Seq::empty()
        } else {
            self.column_scan(cx, r0, r - 1) + self.cells@[(r - 1) * self.cols + cx]@
        }
    }

    /// The ids listed in the cells of the columns from `c0` up to, not
    /// including, `c`, in the rows `r0 ..= r1`, column after column.
    pub open spec fn block_scan(&self, c0: int, c: int, r0: int, r1: int) -> Seq<usize>
        decreases c - c0,
    {
        if c <= c0 {
            Seq::empty()
        } else {
            self.block_scan(c0, c - 1, r0, r1) + self.column_scan(c - 1, r0, r1 + 1)
        }
    }

    /// The candidates of a query at `pos`, in the order in which it
    /// examines them: the ids listed in the block of three by three cells
    /// around the cell of `pos`, as far as the grid reaches. A segment
    /// listed in several cells occurs once for each.
    pub open spec fn candidates(&self, pos: Point2) -> Seq<usize> {
        match self.cell_at(pos) {
            Some((col, row)) => self.block_scan(
                max_of(col - 1, 0),
                min_of(col + 1, self.cols - 1) + 1,
                max_of(row - 1, 0),
                min_of(row + 1, self.rows - 1),
            ),
            None => Seq::empty(),
        }
    }

    /// Whether a query may return the segment `id`: it is no removed entry
    /// and lies outside the neighbourhood of the starting segment.
    pub open spec fn eligible(&self, id: usize, initial: Option<usize>, range: usize) -> bool {
        &&& id < self.segments@.len()
        &&& !self.segments@[id as int].is_degenerate()
        &&& !excluded(id, initial, range)
    }

    /// The squared distance from `pos` to the point nearest to it on the
    /// segment `id`, as a query returns that point: on the lattice.
    pub open spec fn measure(&self, pos: Point2, id: usize) -> int {
        dist_sq(
            pos,
            closest_point(pos, self.segments@[id as int].start, self.segments@[id as int].end),
        )
    }

    /// Whether the candidate at place `k` is the first nearest one: it is
    /// eligible and nearer than the limit, no eligible candidate is
    /// nearer, and none before it is as near.
    pub open spec fn first_nearest(
        &self,
        pos: Point2,
        limit: int,
        initial: Option<usize>,
        range: usize,
        cands: Seq<usize>,
        k: int,
    ) -> bool {
        &&& 0 <= k < cands.len()
        &&& self.eligible(cands[k], initial, range)
        &&& self.measure(pos, cands[k]) < limit
        &&& forall|j: int|
            0 <= j < cands.len() && self.eligible(#[trigger] cands[j], initial, range)
                ==> self.measure(pos, cands[j]) >= self.measure(pos, cands[k])
        &&& forall|j: int|
            0 <= j < k && self.eligible(#[trigger] cands[j], initial, range) ==> self.measure(
                pos,
                cands[j],
            ) > self.measure(pos, cands[k])
    }

    /// Whether no eligible candidate is nearer than the limit.
    pub open spec fn none_near(
        &self,
        pos: Point2,
        limit: int,
        initial: Option<usize>,
        range: usize,
        cands: Seq<usize>,
    ) -> bool {
        forall|j: int|
            0 <= j < cands.len() && self.eligible(#[trigger] cands[j], initial, range)
                ==> self.measure(pos, cands[j]) >= limit
    }

    /// Whether `found` is what a scan of the candidates `cands` gives: the
    /// first nearest eligible candidate within the squared distance
    /// `limit`, or none where there is no such candidate.
    pub open spec fn scan_gives(
        &self,
        pos: Point2,
        limit: int,
        initial: Option<usize>,
        range: usize,
        cands: Seq<usize>,
        found: Option<usize>,
    ) -> bool {
        match found {
            Some(id) => exists|k: int| #[trigger]
                self.first_nearest(pos, limit, initial, range, cands, k) && cands[k] == id,
            None => self.none_near(pos, limit, initial, range, cands),
        }
    }

    /// Whether `found` is the segment nearest to `pos` and nearer than
    /// `radius`, among the candidates of `pos`. Every distance is taken to
    /// the point that the query returns for the segment, so the point
    /// returned lies strictly inside the radius and no candidate has a
    /// nearer one. Of several nearest ones it is the one examined first.
    pub open spec fn nearest_is(
        &self,
        pos: Point2,
        radius: u32,
        initial: Option<usize>,
        range: usize,
        found: Option<usize>,
    ) -> bool {
        self.scan_gives(pos, radius * radius, initial, range, self.candidates(pos), found)
    }

    /// A scan gives one result only.
    pub proof fn lemma_scan_unique(
        &self,
        pos: Point2,
        limit: int,
        initial: Option<usize>,
        range: usize,
        cands: Seq<usize>,
        a: Option<usize>,
        b: Option<usize>,
    )
        requires
            self.scan_gives(pos, limit, initial, range, cands, a),
            self.scan_gives(pos, limit, initial, range, cands, b),
        ensures
            a == b,
    {
        match (a, b) {
            (Some(x), Some(y)) => {
                let kx = choose|k: int| #[trigger]
                    self.first_nearest(pos, limit, initial, range, cands, k) && cands[k] == x;
                let ky = choose|k: int| #[trigger]
                    self.first_nearest(pos, limit, initial, range, cands, k) && cands[k] == y;
                assert(self.eligible(cands[kx], initial, range));
                assert(self.eligible(cands[ky], initial, range));
                if kx < ky {
                    assert(self.measure(pos, cands[kx]) > self.measure(pos, cands[ky]));
                } else if ky < kx {
                    assert(self.measure(pos, cands[ky]) > self.measure(pos, cands[kx]));
                }
            },
            (Some(x), None) => {
                let kx = choose|k: int| #[trigger]
                    self.first_nearest(pos, limit, initial, range, cands, k) && cands[k] == x;
                assert(self.eligible(cands[kx], initial, range));
            },
            (None, Some(y)) => {
                let ky = choose|k: int| #[trigger]
                    self.first_nearest(pos, limit, initial, range, cands, k) && cands[k] == y;
                assert(self.eligible(cands[ky], initial, range));
            },
            (None, None) => {},
        }
    }

    /// The segment that a query at `pos` finds: the one that `nearest_is`
    /// singles out.
    pub open spec fn nearest(
        &self,
        pos: Point2,
        radius: u32,
        initial: Option<usize>,
        range: usize,
    ) -> Option<usize> {
        if exists|id: usize| self.nearest_is(pos, radius, initial, range, Some(id)) {
            Some(choose|id: usize| self.nearest_is(pos, radius, initial, range, Some(id)))
        } else {
            None
        }
    }

    /// What `nearest_is` singles out is `nearest`.
    pub proof fn lemma_nearest(
        &self,
        pos: Point2,
        radius: u32,
        initial: Option<usize>,
        range: usize,
        found: Option<usize>,
    )
        requires
            self.nearest_is(pos, radius, initial, range, found),
        ensures
            found == self.nearest(pos, radius, initial, range),
    {
        let cands = self.candidates(pos);
        let limit = radius * radius;
        let n = self.nearest(pos, radius, initial, range);
        match found {
            Some(id) => {
                assert(self.nearest_is(pos, radius, initial, range, Some(id)));
                self.lemma_scan_unique(pos, limit, initial, range, cands, found, n);
            },
            None => {
                if exists|id: usize| self.nearest_is(pos, radius, initial, range, Some(id)) {
                    let id = choose|id: usize| self.nearest_is(pos, radius, initial, range, Some(id));
                    self.lemma_scan_unique(pos, limit, initial, range, cands, found, Some(id));
                }
            },
        }
    }

    /// One step of a scan: examining one more candidate.
    proof fn lemma_scan_step(
        &self,
        pos: Point2,
        limit: int,
        initial: Option<usize>,
        range: usize,
        scanned: Seq<usize>,
        best: Option<usize>,
        c: usize,
    )
        requires
            self.scan_gives(pos, limit, initial, range, scanned, best),
        ensures
            self.scan_gives(
                pos,
                limit,
                initial,
                range,
                scanned.push(c),
                if self.eligible(c, initial, range) && self.measure(pos, c) < (match best {
                    Some(id) => self.measure(pos, id),
                    None => limit,
                }) {
                    Some(c)
                } else {
                    best
                },
            ),
    {
        let next = scanned.push(c);
        let closest = match best {
            Some(id) => self.measure(pos, id),
            None => limit,
        };
        assert forall|j: int| 0 <= j < scanned.len() implies next[j] == scanned[j] by {}
        if self.eligible(c, initial, range) && self.measure(pos, c) < closest {
            let k = scanned.len() as int;
            assert(next[k] == c);
            match best {
                Some(id) => {
                    let kb = choose|kb: int| #[trigger]
                        self.first_nearest(pos, limit, initial, range, scanned, kb) && scanned[kb]
                            == id;
                    assert forall|j: int|
                        0 <= j < next.len() && self.eligible(
                            #[trigger] next[j],
                            initial,
                            range,
                        ) implies self.measure(pos, next[j]) >= self.measure(pos, c) by {
                        if j < scanned.len() {
                            assert(self.eligible(scanned[j], initial, range));
                        }
                    }
                    assert forall|j: int|
                        0 <= j < k && self.eligible(
                            #[trigger] next[j],
                            initial,
                            range,
                        ) implies self.measure(pos, next[j]) > self.measure(pos, c) by {
                        assert(self.eligible(scanned[j], initial, range));
                    }
                },
                None => {
                    assert forall|j: int|
                        0 <= j < next.len() && self.eligible(
                            #[trigger] next[j],
                            initial,
                            range,
                        ) implies self.measure(pos, next[j]) >= self.measure(pos, c) by {
                        if j < scanned.len() {
                            assert(self.eligible(scanned[j], initial, range));
                        }
                    }
                    assert forall|j: int|
                        0 <= j < k && self.eligible(
                            #[trigger] next[j],
                            initial,
                            range,
                        ) implies self.measure(pos, next[j]) > self.measure(pos, c) by {
                        assert(self.eligible(scanned[j], initial, range));
                    }
                },
            }
            assert(self.first_nearest(pos, limit, initial, range, next, k));
        } else {
            match best {
                Some(id) => {
                    let kb = choose|kb: int| #[trigger]
                        self.first_nearest(pos, limit, initial, range, scanned, kb) && scanned[kb]
                            == id;
                    assert(next[kb] == id);
                    assert forall|j: int|
                        0 <= j < next.len() && self.eligible(
                            #[trigger] next[j],
                            initial,
                            range,
                        ) implies self.measure(pos, next[j]) >= self.measure(pos, id) by {
                        if j < scanned.len() {
                            assert(self.eligible(scanned[j], initial, range));
                        }
                    }
                    assert forall|j: int|
                        0 <= j < kb && self.eligible(
                            #[trigger] next[j],
                            initial,
                            range,
                        ) implies self.measure(pos, next[j]) > self.measure(pos, id) by {
                        assert(self.eligible(scanned[j], initial, range));
                    }
                    assert(self.first_nearest(pos, limit, initial, range, next, kb));
                },
                None => {
                    assert forall|j: int|
                        0 <= j < next.len() && self.eligible(
                            #[trigger] next[j],
                            initial,
                            range,
                        ) implies self.measure(pos, next[j]) >= limit by {
                        if j < scanned.len() {
                            assert(self.eligible(scanned[j], initial, range));
                        }
                    }
                },
            }
        }
    }

    /// What `query_nearest_point` returns.
    pub open spec fn nearest_point(
        &self,
        pos: Point2,
        radius: u32,
        initial: Option<usize>,
        range: usize,
    ) -> Option<(Point2, usize)> {
        match self.nearest(pos, radius, initial, range) {
            Some(id) => Some(
                (
                    closest_point(
                        pos,
                        self.segments@[id as int].start,
                        self.segments@[id as int].end,
                    ),
                    id,
                ),
            ),
            None => None,
        }
    }

    /// What `query_nearest_segment` returns.
    pub open spec fn nearest_segment(&self, pos: Point2, radius: u32) -> Option<
        (PathSegment, Point2),
    > {
        match self.nearest(pos, radius, None, 0) {
            Some(id) => Some(
                (
                    self.segments@[id as int],
                    closest_point(
                        pos,
                        self.segments@[id as int].start,
                        self.segments@[id as int].end,
                    ),
                ),
            ),
            None => None,
        }
    }

    /// The cell that holds `point`.
    pub fn point_to_cell(&self, point: Point2) -> (r: Option<(usize, usize)>)
        requires
            self.frame_ok(),
        ensures
            match r {
                Some((col, row)) => self.cell_at(point) == Some((col as int, row as int)) && col
                    < self.cols && row < self.rows,
                None => self.cell_at(point) is None,
            },
    {
        if point.x < self.bounds.min.x || point.x > self.bounds.max.x || point.y
            < self.bounds.min.y || point.y > self.bounds.max.y {
            return None;
        }
        if self.cols == 0 || self.rows == 0 {
            return None;
        }
        let col = cell_coord(point.x, self.bounds.min.x, self.cols);
        let row = cell_coord(point.y, self.bounds.min.y, self.rows);
        Some((col, row))
    }

    /// Scans the candidates of `pos` for the nearest eligible segment
    /// nearer than `radius`.
    fn scan_nearest(&self, pos: Point2, radius: u32, initial: Option<usize>, range: usize) -> (found:
        Option<usize>)
        requires
            self.wf(),
            pos.in_range(),
        ensures
            self.nearest_is(pos, radius, initial, range, found),
            found == self.nearest(pos, radius, initial, range),
            found is Some ==> found->0 < self.segments@.len(),
            self.cell_at(pos) is None ==> found is None,
    {
        proof {
            if self.cell_at(pos) is None {
                self.lemma_nearest(pos, radius, initial, range, None);
            }
        }
        let (col, row) = match self.point_to_cell(pos) {
            Some(cell) => cell,
            None => {
                return None;
            },
        };
        let c0: usize = if col >= 1 { col - 1 } else { 0 };
        let c1: usize = if col + 1 < self.cols { col + 1 } else { self.cols - 1 };
        let r0: usize = if row >= 1 { row - 1 } else { 0 };
        let r1: usize = if row + 1 < self.rows { row + 1 } else { self.rows - 1 };
        proof {
            lemma_square_range(radius as int, 0xffff_ffff);
        }
        let limit: u128 = (radius as u128) * (radius as u128);
        let mut closest: u128 = limit;
        let mut best: Option<usize> = None;
        let ghost mut scanned: Seq<usize> = Seq::empty();
        let mut cx: usize = c0;
        while cx <= c1
            invariant
                self.wf(),
                pos.in_range(),
                c0 <= cx <= c1 + 1,
                c1 < self.cols,
                r0 <= r1 < self.rows,
                scanned == self.block_scan(c0 as int, cx as int, r0 as int, r1 as int),
                self.scan_gives(pos, limit as int, initial, range, scanned, best),
                closest == (match best {
                    Some(id) => self.measure(pos, id),
                    None => limit as int,
                }),
                best is Some ==> best->0 < self.segments@.len(),
            decreases c1 + 1 - cx,
        {
            let mut cy: usize = r0;
            while cy <= r1
                invariant
                    self.wf(),
                    pos.in_range(),
                    c0 <= cx <= c1 < self.cols,
                    r0 <= cy <= r1 + 1,
                    r1 < self.rows,
                    scanned == self.block_scan(c0 as int, cx as int, r0 as int, r1 as int)
                        + self.column_scan(cx as int, r0 as int, cy as int),
                    self.scan_gives(pos, limit as int, initial, range, scanned, best),
                    closest == (match best {
                        Some(id) => self.measure(pos, id),
                        None => limit as int,
                    }),
                    best is Some ==> best->0 < self.segments@.len(),
                decreases r1 + 1 - cy,
            {
                proof {
                    lemma_cell_place(self.cols as int, self.rows as int, cx as int, cy as int);
                    assert(self.cells.len() <= usize::MAX);
                    assert(cy * self.cols >= 0) by (nonlinear_arith)
                        requires
                            cy >= 0,
                            self.cols >= 0,
                    ;
                }
                let idx: usize = cy * self.cols + cx;
                let ghost before = scanned;
                let mut j: usize = 0;
                while j < self.cells[idx].len()
                    invariant
                        self.wf(),
                        pos.in_range(),
                        idx < self.cells@.len(),
                        j <= self.cells@[idx as int]@.len(),
                        scanned == before + self.cells@[idx as int]@.take(j as int),
                        self.scan_gives(pos, limit as int, initial, range, scanned, best),
                        closest == (match best {
                            Some(id) => self.measure(pos, id),
                            None => limit as int,
                        }),
                        best is Some ==> best->0 < self.segments@.len(),
                    decreases self.cells@[idx as int]@.len() - j,
                {
                    let seg_id: usize = self.cells[idx][j];
                    assert(seg_id < self.segments@.len());
                    let segment = self.segments[seg_id];
                    assert(segment.in_range());
                    proof {
                        self.lemma_scan_step(pos, limit as int, initial, range, scanned, best, seg_id);
                        let cell = self.cells@[idx as int]@;
                        assert(cell.take(j + 1) == cell.take(j as int).push(seg_id));
                        assert(before + cell.take(j + 1) == (before + cell.take(j as int)).push(
                            seg_id,
                        ));
                        scanned = scanned.push(seg_id);
                    }
                    if !is_excluded(seg_id, initial, range) && segment.start != segment.end {
                        let pt = closest_point_on_segment(pos, segment.start, segment.end);
                        let dist = dist_sq_of(pos, pt);
                        if dist < closest {
                            closest = dist;
                            best = Some(seg_id);
                        }
                    }
                    j += 1;
                }
                proof {
                    let cell = self.cells@[idx as int]@;
                    assert(cell.take(j as int) == cell);
                    assert(self.column_scan(cx as int, r0 as int, cy + 1) == self.column_scan(
                        cx as int,
                        r0 as int,
                        cy as int,
                    ) + cell);
                    assert(scanned == self.block_scan(c0 as int, cx as int, r0 as int, r1 as int)
                        + self.column_scan(cx as int, r0 as int, cy + 1));
                }
                cy += 1;
            }
            cx += 1;
        }
        proof {
            self.lemma_nearest(pos, radius, initial, range, best);
        }
        best
    }

    /// The point nearest to `pos` on the segments around it, with the id
    /// of its segment: the first nearest segment, nearer than
    /// `snap_radius`, among the candidates of `pos` that are no removed
    /// entries and lie outside the neighbourhood of `initial_seg_id`. The
    /// point returned lies strictly inside the radius. None where `pos`
    /// lies outside the bounds.
    pub fn query_nearest_point(
        &self,
        pos: Point2,
        snap_radius: u32,
        initial_seg_id: Option<usize>,
        blocked_range: usize,
    ) -> (r: Option<(Point2, usize)>)
        requires
            self.wf(),
            pos.in_range(),
        ensures
            match r {
                Some((pt, id)) => {
                    &&& self.nearest_is(pos, snap_radius, initial_seg_id, blocked_range, Some(id))
                    &&& id < self.segments@.len()
                    &&& !self.segments@[id as int].is_degenerate()
                    &&& !excluded(id, initial_seg_id, blocked_range)
                    &&& pt == closest_point(
                        pos,
                        self.segments@[id as int].start,
                        self.segments@[id as int].end,
                    )
                    &&& pt.in_range()
                    &&& dist_sq(pos, pt) < snap_radius * snap_radius
                },
                None => self.nearest_is(pos, snap_radius, initial_seg_id, blocked_range, None),
            },
            r == self.nearest_point(pos, snap_radius, initial_seg_id, blocked_range),
            !self.bounds.contains(pos) ==> r is None,
    {
        match self.scan_nearest(pos, snap_radius, initial_seg_id, blocked_range) {
            Some(id) => {
                let segment = self.segments[id];
                assert(segment.in_range());
                let pt = closest_point_on_segment(pos, segment.start, segment.end);
                proof {
                    let cands = self.candidates(pos);
                    let k = choose|k: int| #[trigger]
                        self.first_nearest(
                            pos,
                            snap_radius * snap_radius,
                            initial_seg_id,
                            blocked_range,
                            cands,
                            k,
                        ) && cands[k] == id;
                }
                Some((pt, id))
            },
            None => None,
        }
    }

    /// The segment nearest to `pos`, with the point nearest to `pos` on
    /// it: the first nearest segment, nearer than `snap_radius`, among the
    /// candidates of `pos` that are no removed entries. None where `pos`
    /// lies outside the bounds. The point returned lies strictly inside the
    /// radius, and as it is never nearer to `pos` than the segment itself,
    /// some point of the segment is truly nearer to `pos` than
    /// `snap_radius`.
    pub fn query_nearest_segment(&self, pos: Point2, snap_radius: u32) -> (r: Option<
        (PathSegment, Point2),
    >)
        requires
            self.wf(),
            pos.in_range(),
        ensures
            match r {
                Some((seg, pt)) => {
                    &&& self.nearest_is(pos, snap_radius, None, 0, Some(seg.id))
                    &&& seg.id < self.segments@.len()
                    &&& seg == self.segments@[seg.id as int]
                    &&& pt == closest_point(pos, seg.start, seg.end)
                    &&& pt.in_range()
                    &&& seg.in_range()
                    &&& !seg.is_degenerate()
                    &&& dist_sq(pos, pt) < snap_radius * snap_radius
                    &&& within_reach(pos, seg.start, seg.end, snap_radius as int)
                },
                None => self.nearest_is(pos, snap_radius, None, 0, None),
            },
            r == self.nearest_segment(pos, snap_radius),
            !self.bounds.contains(pos) ==> r is None,
    {
        match self.scan_nearest(pos, snap_radius, None, 0) {
            Some(id) => {
                let segment = self.segments[id];
                assert(segment.in_range());
                assert(segment.id == id);
                let pt = closest_point_on_segment(pos, segment.start, segment.end);
                proof {
                    let cands = self.candidates(pos);
                    let k = choose|k: int| #[trigger]
                        self.first_nearest(pos, snap_radius * snap_radius, None, 0, cands, k)
                            && cands[k] == id;
                    lemma_closest_point_reach(pos, segment.start, segment.end, snap_radius as int);
                }
                Some((segment, pt))
            },
            None => None,
        }
    }
}

} // verus!

//! Stateless geometry on lattice points: projection onto a segment,
//! intersection of segments and of paths, bounding boxes, moving-average
//! smoothing and polyline simplification.

use vstd::prelude::*;
use crate::arith::div_away;
use crate::arith::div_away_i128;
use crate::arith::lemma_div_away;
use crate::arith::lemma_div_away_range;
use crate::arith::lemma_square_farther;
use crate::arith::lemma_mul_distributes;
use crate::arith::lemma_mul_range;
use crate::arith::lemma_mul_regroup;
use crate::arith::lemma_round_div_negate;
use crate::arith::lemma_round_div_range;
use crate::arith::lemma_round_div_shift;
use crate::arith::lemma_square_range;
use crate::arith::round_div;
use crate::arith::round_div_i128;
use crate::point::all_in_range;
use crate::point::cross;
use crate::point::cross_of;
use crate::point::cross_vec;
use crate::point::cross_vec_of;
use crate::point::dist_sq;
use crate::point::dist_sq_of;
use crate::point::dot;
use crate::point::dot_of;
use crate::point::lemma_product_bounds;
use crate::point::PathPoint;
use crate::point::Point2;

verus! {

/// The point `from + round(step * num / den)`, taken coordinate by
/// coordinate: the lattice point nearest to the point that lies the fraction
/// `num / den` of the way from `from` to `to`.
pub open spec fn point_along(from: Point2, to: Point2, num: int, den: int) -> Point2 {
    Point2 {
        x: (from.x + round_div((to.x - from.x) * num, den)) as i32,
        y: (from.y + round_div((to.y - from.y) * num, den)) as i32,
    }
}

/// Whether the fraction `num / den` lies in the closed unit interval.
pub open spec fn param_in_unit(num: int, den: int) -> bool {
    (den > 0 && 0 <= num <= den) || (den < 0 && den <= num <= 0)
}

/// One coordinate of `point_along` stays between the two end coordinates
/// when the fraction lies in the unit interval.
pub proof fn lemma_step_between(w: int, num: int, den: int)
    requires
        param_in_unit(num, den),
    ensures
        w >= 0 ==> 0 <= round_div(w * num, den) <= w,
        w <= 0 ==> w <= round_div(w * num, den) <= 0,
    decreases (if den > 0 { 0int } else { 1int }),
{
    if den > 0 {
        if w >= 0 {
            assert(0 * den <= w * num <= w * den) by (nonlinear_arith)
                requires w >= 0, 0 <= num <= den;
            lemma_round_div_range(w * num, den, 0, w);
        }
        if w <= 0 {
            assert(w * den <= w * num <= 0 * den) by (nonlinear_arith)
                requires w <= 0, 0 <= num <= den;
            lemma_round_div_range(w * num, den, w, 0);
        }
    } else {
        lemma_round_div_negate(w * num, den);
        assert(-(w * num) == w * (-num)) by (nonlinear_arith);
        lemma_step_between(w, -num, -den);
    }
}

/// `point_along` with a fraction in the unit interval stays inside the
/// bounding box of its two ends, so it is in range when they are.
pub proof fn lemma_point_along_between(from: Point2, to: Point2, num: int, den: int)
    requires
        from.in_range(),
        to.in_range(),
        param_in_unit(num, den),
    ensures
        point_along(from, to, num, den).in_range(),
        point_along(from, to, num, den).x == from.x + round_div((to.x - from.x) * num, den),
        point_along(from, to, num, den).y == from.y + round_div((to.y - from.y) * num, den),
        from.x <= to.x ==> from.x <= point_along(from, to, num, den).x <= to.x,
        from.x >= to.x ==> from.x >= point_along(from, to, num, den).x >= to.x,
        from.y <= to.y ==> from.y <= point_along(from, to, num, den).y <= to.y,
        from.y >= to.y ==> from.y >= point_along(from, to, num, den).y >= to.y,
{
    lemma_step_between(to.x - from.x, num, den);
    lemma_step_between(to.y - from.y, num, den);
}

/// Executable form of [`point_along`] for a fraction in the unit interval.
fn point_along_of(from: Point2, to: Point2, num: i128, den: i128) -> (p: Point2)
    requires
        from.in_range(),
        to.in_range(),
        param_in_unit(num as int, den as int),
        -0x8000_0000_0000_0000 <= den <= 0x8000_0000_0000_0000,
    ensures
        p == point_along(from, to, num as int, den as int),
        p.in_range(),
{
    let wx: i128 = to.x as i128 - from.x as i128;
    let wy: i128 = to.y as i128 - from.y as i128;
    proof {
        lemma_point_along_between(from, to, num as int, den as int);
        lemma_mul_range(wx as int, num as int, 0x8000_0000, 0x8000_0000_0000_0000);
        lemma_mul_range(wy as int, num as int, 0x8000_0000, 0x8000_0000_0000_0000);
        lemma_round_div_negate(wx * num, den as int);
        lemma_round_div_negate(wy * num, den as int);
    }
    let (sx, sy) = if den > 0 {
        (round_div_i128(wx * num, den), round_div_i128(wy * num, den))
    } else {
        (round_div_i128(-(wx * num), -den), round_div_i128(-(wy * num), -den))
    };
    Point2 { x: (from.x as i128 + sx) as i32, y: (from.y as i128 + sy) as i32 }
}

/// The lattice point beside the point that lies the fraction `d / len` of
/// the way from `a` to `b`: either coordinate is rounded to a whole number
/// away from `p`, so that rounding never brings the point nearer to `p`.
pub open spec fn projected(p: Point2, a: Point2, b: Point2, d: int, len: int) -> Point2 {
    Point2 {
        x: (a.x + div_away((b.x - a.x) * d, len, p.x - a.x)) as i32,
        y: (a.y + div_away((b.y - a.y) * d, len, p.y - a.y)) as i32,
    }
}

/// The point of the segment `[a, b]` nearest to `p`, on the lattice: the
/// orthogonal projection of `p` onto the line through `a` and `b`, clamped
/// to the segment and rounded away from `p`. So the point is never nearer
/// to `p` than the segment itself is, and it lies less than one step from
/// the nearest point of the segment in either coordinate. A segment of
/// length zero gives `a`.
pub open spec fn closest_point(p: Point2, a: Point2, b: Point2) -> Point2 {
    let len = dist_sq(a, b);
    let d = dot(a, p, b);
    if len == 0 || d < 0 {
        a
    } else if d > len {
        b
    } else {
        projected(p, a, b, d, len)
    }
}

/// The projected point lies in the bounding box of the two ends.
pub proof fn lemma_projected_between(p: Point2, a: Point2, b: Point2, d: int, len: int)
    requires
        a.in_range(),
        b.in_range(),
        0 <= d <= len,
        len > 0,
    ensures
        projected(p, a, b, d, len).in_range(),
        projected(p, a, b, d, len).x == a.x + div_away((b.x - a.x) * d, len, p.x - a.x),
        projected(p, a, b, d, len).y == a.y + div_away((b.y - a.y) * d, len, p.y - a.y),
{
    let wx = b.x - a.x;
    let wy = b.y - a.y;
    if wx >= 0 {
        assert(0 * len <= wx * d <= wx * len) by (nonlinear_arith)
            requires wx >= 0, 0 <= d <= len;
        lemma_div_away_range(wx * d, len, p.x - a.x, 0, wx);
    } else {
        assert(wx * len <= wx * d <= 0 * len) by (nonlinear_arith)
            requires wx <= 0, 0 <= d <= len;
        lemma_div_away_range(wx * d, len, p.x - a.x, wx, 0);
    }
    if wy >= 0 {
        assert(0 * len <= wy * d <= wy * len) by (nonlinear_arith)
            requires wy >= 0, 0 <= d <= len;
        lemma_div_away_range(wy * d, len, p.y - a.y, 0, wy);
    } else {
        assert(wy * len <= wy * d <= 0 * len) by (nonlinear_arith)
            requires wy <= 0, 0 <= d <= len;
        lemma_div_away_range(wy * d, len, p.y - a.y, wy, 0);
    }
}

/// Orthogonal projection of `p` onto the segment `[a, b]`, clamped to the
/// segment and rounded to the lattice away from `p`.
pub fn closest_point_on_segment(p: Point2, a: Point2, b: Point2) -> (r: Point2)
    requires
        p.in_range(),
        a.in_range(),
        b.in_range(),
    ensures
        r == closest_point(p, a, b),
        r.in_range(),
{
    proof {
        lemma_product_bounds(a, b, p);
        lemma_product_bounds(a, p, b);
    }
    let len: i128 = dist_sq_of(a, b) as i128;
    if len == 0 {
        return a;
    }
    let d: i128 = dot_of(a, p, b);
    if d < 0 {
        a
    } else if d > len {
        b
    } else {
        let wx: i128 = b.x as i128 - a.x as i128;
        let wy: i128 = b.y as i128 - a.y as i128;
        proof {
            lemma_projected_between(p, a, b, d as int, len as int);
            lemma_mul_range(wx as int, d as int, 0x8000_0000, 0x8000_0000_0000_0000);
            lemma_mul_range(wy as int, d as int, 0x8000_0000, 0x8000_0000_0000_0000);
        }
        let sx: i128 = div_away_i128(wx * d, len, p.x as i128 - a.x as i128);
        let sy: i128 = div_away_i128(wy * d, len, p.y as i128 - a.y as i128);
        Point2 { x: (a.x as i128 + sx) as i32, y: (a.y as i128 + sy) as i32 }
    }
}

/// Squared distance, scaled by `n * n`, from `p` to the point that lies
/// the fraction `s / n` of the way from `a` to `b`.
pub open spec fn scaled_dist_sq(p: Point2, a: Point2, b: Point2, s: int, n: int) -> int {
    let ex = n * (p.x - a.x) - s * (b.x - a.x);
    let ey = n * (p.y - a.y) - s * (b.y - a.y);
    ex * ex + ey * ey
}

/// Whether some point of the segment `[a, b]` is strictly nearer to `p`
/// than `r`. The points of the segment are taken at every rational
/// fraction `s / n` of the way from `a` to `b`.
pub open spec fn within_reach(p: Point2, a: Point2, b: Point2, r: int) -> bool {
    exists|s: int, n: int|
        0 <= s <= n && n > 0 && #[trigger] scaled_dist_sq(p, a, b, s, n) < r * r * (n * n)
}

/// One coordinate of the distance to the projected point: rounding away
/// from `p` leaves the rounded coordinate as far from `p` as the exact one,
/// or farther.
proof fn lemma_projected_farther(v: int, w: int, d: int, len: int)
    requires
        len > 0,
    ensures
        (len * v - d * w) * (len * v - d * w) <= (len * len) * ((div_away(w * d, len, v) - v) * (
        div_away(w * d, len, v) - v)),
{
    let n = w * d;
    let q = div_away(n, len, v);
    lemma_div_away(n, len, v);
    let e = len * v - d * w;
    let t = len * (q - v);
    assert(d * w == w * d) by (nonlinear_arith);
    assert(len * v == v * len) by (nonlinear_arith);
    lemma_mul_distributes(len, q, v);
    assert(len * q == q * len) by (nonlinear_arith);
    // t == q * len - v * len, and -e == n - v * len
    if n >= v * len {
        lemma_square_farther(t, -e);
    } else {
        lemma_square_farther(t, -e);
    }
    assert((-e) * (-e) == e * e) by (nonlinear_arith);
    lemma_mul_regroup(len, q - v, len, q - v);
}

/// The point returned for a segment is never nearer than the segment
/// itself: where it is nearer to `p` than `r`, some point of the segment
/// is.
pub proof fn lemma_closest_point_reach(p: Point2, a: Point2, b: Point2, r: int)
    requires
        a.in_range(),
        b.in_range(),
        dist_sq(p, closest_point(p, a, b)) < r * r,
    ensures
        within_reach(p, a, b, r),
{
    let len = dist_sq(a, b);
    let d = dot(a, p, b);
    let pt = closest_point(p, a, b);
    assert(len >= 0) by (nonlinear_arith)
        requires
            len == (b.x - a.x) * (b.x - a.x) + (b.y - a.y) * (b.y - a.y),
    ;
    if len == 0 || d < 0 {
        assert((1 * (p.x - a.x) - 0 * (b.x - a.x)) * (1 * (p.x - a.x) - 0 * (b.x - a.x)) == (a.x
            - p.x) * (a.x - p.x)) by (nonlinear_arith);
        assert((1 * (p.y - a.y) - 0 * (b.y - a.y)) * (1 * (p.y - a.y) - 0 * (b.y - a.y)) == (a.y
            - p.y) * (a.y - p.y)) by (nonlinear_arith);
        assert(r * r * (1 * 1) == r * r) by (nonlinear_arith);
        assert(scaled_dist_sq(p, a, b, 0, 1) == dist_sq(p, a));
    } else if d > len {
        assert((1 * (p.x - a.x) - 1 * (b.x - a.x)) * (1 * (p.x - a.x) - 1 * (b.x - a.x)) == (b.x
            - p.x) * (b.x - p.x)) by (nonlinear_arith);
        assert((1 * (p.y - a.y) - 1 * (b.y - a.y)) * (1 * (p.y - a.y) - 1 * (b.y - a.y)) == (b.y
            - p.y) * (b.y - p.y)) by (nonlinear_arith);
        assert(r * r * (1 * 1) == r * r) by (nonlinear_arith);
        assert(scaled_dist_sq(p, a, b, 1, 1) == dist_sq(p, b));
    } else {
        lemma_projected_between(p, a, b, d, len);
        let vx = p.x - a.x;
        let vy = p.y - a.y;
        let wx = b.x - a.x;
        let wy = b.y - a.y;
        let qx = div_away(wx * d, len, vx);
        let qy = div_away(wy * d, len, vy);
        lemma_projected_farther(vx, wx, d, len);
        lemma_projected_farther(vy, wy, d, len);
        assert(pt.x - p.x == qx - vx);
        assert(pt.y - p.y == qy - vy);
        let dist = dist_sq(p, pt);
        assert(dist == (qx - vx) * (qx - vx) + (qy - vy) * (qy - vy));
        lemma_mul_distributes(len * len, (qx - vx) * (qx - vx), (qy - vy) * (qy - vy));
        assert(len * len > 0) by (nonlinear_arith)
            requires
                len > 0,
        ;
        assert((len * len) * dist < (len * len) * (r * r)) by (nonlinear_arith)
            requires
                len * len > 0,
                dist < r * r,
        ;
        assert((len * len) * (r * r) == r * r * (len * len)) by (nonlinear_arith);
        assert(scaled_dist_sq(p, a, b, d, len) < r * r * (len * len));
    }
}

/// Determinant of the two direction vectors `p1 -> p2` and `q1 -> q2`. It
/// is zero exactly when the two lines are parallel.
pub open spec fn meet_det(p1: Point2, p2: Point2, q1: Point2, q2: Point2) -> int {
    cross_vec(p2.x - p1.x, p2.y - p1.y, q2.x - q1.x, q2.y - q1.y)
}

/// Numerator of the parameter of the meeting point along `p1 -> p2`; its
/// denominator is `meet_det`.
pub open spec fn meet_param_first(p1: Point2, p2: Point2, q1: Point2, q2: Point2) -> int {
    cross_vec(q1.x - p1.x, q1.y - p1.y, q2.x - q1.x, q2.y - q1.y)
}

/// Numerator of the parameter of the meeting point along `q1 -> q2`; its
/// denominator is `meet_det`.
pub open spec fn meet_param_second(p1: Point2, p2: Point2, q1: Point2, q2: Point2) -> int {
    cross_vec(q1.x - p1.x, q1.y - p1.y, p2.x - p1.x, p2.y - p1.y)
}

/// Whether the segments `[p1, p2]` and `[q1, q2]` meet in a single point:
/// their lines are not parallel and both parameters of the meeting point
/// lie in the closed unit interval, so touching end points count.
pub open spec fn segments_meet(p1: Point2, p2: Point2, q1: Point2, q2: Point2) -> bool {
    let det = meet_det(p1, p2, q1, q2);
    &&& det != 0
    &&& param_in_unit(meet_param_first(p1, p2, q1, q2), det)
    &&& param_in_unit(meet_param_second(p1, p2, q1, q2), det)
}

/// The meeting point of two segments that meet, rounded to the lattice.
pub open spec fn meeting_point(p1: Point2, p2: Point2, q1: Point2, q2: Point2) -> Point2 {
    point_along(p1, p2, meet_param_first(p1, p2, q1, q2), meet_det(p1, p2, q1, q2))
}

/// What `segment_intersection_point` returns.
pub open spec fn intersection_of(p1: Point2, p2: Point2, q1: Point2, q2: Point2) -> Option<
    Point2,
> {
    if segments_meet(p1, p2, q1, q2) {
        Some(meeting_point(p1, p2, q1, q2))
    } else {
        None
    }
}

/// Cramer's rule for one coordinate: with `det = s1 x s2`, `u = w x s2` and
/// `v = w x s1`, the step `u * s1` along the first segment differs from the
/// step `v * s2` along the second by `w * det`.
proof fn lemma_cramer(wx: int, wy: int, s1x: int, s1y: int, s2x: int, s2y: int)
    ensures
        s1x * cross_vec(wx, wy, s2x, s2y) == s2x * cross_vec(wx, wy, s1x, s1y) + wx * cross_vec(
            s1x,
            s1y,
            s2x,
            s2y,
        ),
        s1y * cross_vec(wx, wy, s2x, s2y) == s2y * cross_vec(wx, wy, s1x, s1y) + wy * cross_vec(
            s1x,
            s1y,
            s2x,
            s2y,
        ),
{
    lemma_mul_distributes(s1x, wx * s2y, wy * s2x);
    lemma_mul_distributes(s2x, wx * s1y, wy * s1x);
    lemma_mul_distributes(wx, s1x * s2y, s1y * s2x);
    assert(s1x * (wx * s2y) == wx * (s1x * s2y)) by (nonlinear_arith);
    assert(s1x * (wy * s2x) == s2x * (wy * s1x)) by (nonlinear_arith);
    assert(s2x * (wx * s1y) == wx * (s1y * s2x)) by (nonlinear_arith);
    lemma_mul_distributes(s1y, wx * s2y, wy * s2x);
    lemma_mul_distributes(s2y, wx * s1y, wy * s1x);
    lemma_mul_distributes(wy, s1x * s2y, s1y * s2x);
    assert(s1y * (wx * s2y) == s2y * (wx * s1y)) by (nonlinear_arith);
    assert(s1y * (wy * s2x) == wy * (s1y * s2x)) by (nonlinear_arith);
    assert(s2y * (wy * s1x) == wy * (s1x * s2y)) by (nonlinear_arith);
}

/// Exchanging the two segments negates the determinant and exchanges the
/// two parameters, negated.
proof fn lemma_meet_swapped(p1: Point2, p2: Point2, q1: Point2, q2: Point2)
    ensures
        meet_det(q1, q2, p1, p2) == -meet_det(p1, p2, q1, q2),
        meet_param_first(q1, q2, p1, p2) == -meet_param_second(p1, p2, q1, q2),
        meet_param_second(q1, q2, p1, p2) == -meet_param_first(p1, p2, q1, q2),
{
    let wx = q1.x - p1.x;
    let wy = q1.y - p1.y;
    let s1x = p2.x - p1.x;
    let s1y = p2.y - p1.y;
    let s2x = q2.x - q1.x;
    let s2y = q2.y - q1.y;
    assert((-wx) * s1y == -(wx * s1y)) by (nonlinear_arith);
    assert((-wy) * s1x == -(wy * s1x)) by (nonlinear_arith);
    assert((-wx) * s2y == -(wx * s2y)) by (nonlinear_arith);
    assert((-wy) * s2x == -(wy * s2x)) by (nonlinear_arith);
    assert(p1.x - q1.x == -wx);
    assert(p1.y - q1.y == -wy);
}

/// Intersection is symmetric: exchanging the two segments changes neither
/// whether they meet nor the point in which they meet.
pub proof fn lemma_intersection_symmetric(p1: Point2, p2: Point2, q1: Point2, q2: Point2)
    ensures
        segments_meet(p1, p2, q1, q2) == segments_meet(q1, q2, p1, p2),
        intersection_of(p1, p2, q1, q2) == intersection_of(q1, q2, p1, p2),
{
    lemma_meet_swapped(p1, p2, q1, q2);
    let det = meet_det(p1, p2, q1, q2);
    let u = meet_param_first(p1, p2, q1, q2);
    let v = meet_param_second(p1, p2, q1, q2);
    if segments_meet(p1, p2, q1, q2) {
        let wx = q1.x - p1.x;
        let wy = q1.y - p1.y;
        let s1x = p2.x - p1.x;
        let s1y = p2.y - p1.y;
        let s2x = q2.x - q1.x;
        let s2y = q2.y - q1.y;
        lemma_cramer(wx, wy, s1x, s1y, s2x, s2y);
        // along the first segment: s1 * u == s2 * v + w * det
        lemma_round_div_shift(s2x * v, det, wx);
        lemma_round_div_shift(s2y * v, det, wy);
        // along the second segment the step is s2 * (-v) over -det
        lemma_round_div_negate(s2x * v, det);
        lemma_round_div_negate(s2y * v, det);
        assert(s2x * (-v) == -(s2x * v)) by (nonlinear_arith);
        assert(s2y * (-v) == -(s2y * v)) by (nonlinear_arith);
        let m1 = meeting_point(p1, p2, q1, q2);
        let m2 = meeting_point(q1, q2, p1, p2);
        assert(p1.x + round_div(s1x * u, det) == q1.x + round_div(s2x * (-v), -det));
        assert(p1.y + round_div(s1y * u, det) == q1.y + round_div(s2y * (-v), -det));
        assert(m1.x == m2.x);
        assert(m1.y == m2.y);
    }
}

/// Executable form of [`param_in_unit`].
fn param_in_unit_of(num: i128, den: i128) -> (b: bool)
    ensures
        b == param_in_unit(num as int, den as int),
{
    (den > 0 && 0 <= num && num <= den) || (den < 0 && den <= num && num <= 0)
}

/// Whether the segments `[p1, p2]` and `[q1, q2]` meet.
pub fn lines_intersect(p1: Point2, p2: Point2, q1: Point2, q2: Point2) -> (b: bool)
    requires
        p1.in_range(),
        p2.in_range(),
        q1.in_range(),
        q2.in_range(),
    ensures
        b == segments_meet(p1, p2, q1, q2),
{
    let s1x: i64 = p2.x as i64 - p1.x as i64;
    let s1y: i64 = p2.y as i64 - p1.y as i64;
    let s2x: i64 = q2.x as i64 - q1.x as i64;
    let s2y: i64 = q2.y as i64 - q1.y as i64;
    let wx: i64 = q1.x as i64 - p1.x as i64;
    let wy: i64 = q1.y as i64 - p1.y as i64;
    let det: i128 = cross_vec_of(s1x, s1y, s2x, s2y);
    if det == 0 {
        return false;
    }
    let u: i128 = cross_vec_of(wx, wy, s2x, s2y);
    let v: i128 = cross_vec_of(wx, wy, s1x, s1y);
    param_in_unit_of(u, det) && param_in_unit_of(v, det)
}

/// The point in which the segments `[p1, p2]` and `[q1, q2]` meet, if they
/// do.
pub fn segment_intersection_point(p1: Point2, p2: Point2, q1: Point2, q2: Point2) -> (r: Option<
    Point2,
>)
    requires
        p1.in_range(),
        p2.in_range(),
        q1.in_range(),
        q2.in_range(),
    ensures
        r == intersection_of(p1, p2, q1, q2),
        r is Some ==> r->0.in_range(),
{
    let s1x: i64 = p2.x as i64 - p1.x as i64;
    let s1y: i64 = p2.y as i64 - p1.y as i64;
    let s2x: i64 = q2.x as i64 - q1.x as i64;
    let s2y: i64 = q2.y as i64 - q1.y as i64;
    let wx: i64 = q1.x as i64 - p1.x as i64;
    let wy: i64 = q1.y as i64 - p1.y as i64;
    let det: i128 = cross_vec_of(s1x, s1y, s2x, s2y);
    if det == 0 {
        return None;
    }
    let u: i128 = cross_vec_of(wx, wy, s2x, s2y);
    let v: i128 = cross_vec_of(wx, wy, s1x, s1y);
    if param_in_unit_of(u, det) && param_in_unit_of(v, det) {
        Some(point_along_of(p1, p2, u, det))
    } else {
        None
    }
}

/// Whether every vertex of a flattened path lies in the supported range.
pub open spec fn path_in_range(path: Seq<PathPoint>) -> bool {
    forall|i: int|
        0 <= i < path.len() ==> match #[trigger] path[i] {
            PathPoint::Vertex(v) => v.in_range(),
            PathPoint::Break => true,
        }
}

/// Whether the edge that starts at place `i` of `path1` meets the edge that
/// starts at place `j` of `path2`. Two consecutive vertices make an edge; a
/// break marker on either side makes none.
pub open spec fn edges_meet(path1: Seq<PathPoint>, i: int, path2: Seq<PathPoint>, j: int) -> bool {
    match (path1[i], path1[i + 1], path2[j], path2[j + 1]) {
        (
            PathPoint::Vertex(a),
            PathPoint::Vertex(b),
            PathPoint::Vertex(c),
            PathPoint::Vertex(d),
        ) => segments_meet(a, b, c, d),
        _ => false,
    }
}

/// Whether some edge of `path1` meets some edge of `path2`.
pub open spec fn paths_meet(path1: Seq<PathPoint>, path2: Seq<PathPoint>) -> bool {
    exists|i: int, j: int|
        0 <= i < path1.len() - 1 && 0 <= j < path2.len() - 1 && #[trigger] edges_meet(
            path1,
            i,
            path2,
            j,
        )
}

/// Executable form of [`edges_meet`].
fn edges_intersect(path1: &[PathPoint], i: usize, path2: &[PathPoint], j: usize) -> (b: bool)
    requires
        i + 1 < path1@.len(),
        j + 1 < path2@.len(),
        path_in_range(path1@),
        path_in_range(path2@),
    ensures
        b == edges_meet(path1@, i as int, path2@, j as int),
{
    match (path1[i], path1[i + 1], path2[j], path2[j + 1]) {
        (
            PathPoint::Vertex(a),
            PathPoint::Vertex(b),
            PathPoint::Vertex(c),
            PathPoint::Vertex(d),
        ) => lines_intersect(a, b, c, d),
        _ => false,
    }
}

/// Whether any edge of `path1` meets any edge of `path2`.
pub fn paths_intersect(path1: &[PathPoint], path2: &[PathPoint]) -> (b: bool)
    requires
        path_in_range(path1@),
        path_in_range(path2@),
    ensures
        b == paths_meet(path1@, path2@),
{
    if path1.len() < 2 || path2.len() < 2 {
        return false;
    }
    let mut i: usize = 0;
    while i < path1.len() - 1
        invariant
            path1@.len() >= 2,
            path2@.len() >= 2,
            i <= path1@.len() - 1,
            path_in_range(path1@),
            path_in_range(path2@),
            forall|a: int, b: int|
                0 <= a < i && 0 <= b < path2@.len() - 1 ==> !#[trigger] edges_meet(
                    path1@,
                    a,
                    path2@,
                    b,
                ),
        decreases path1@.len() - i,
    {
        let mut j: usize = 0;
        while j < path2.len() - 1
            invariant
                path1@.len() >= 2,
                path2@.len() >= 2,
                i < path1@.len() - 1,
                j <= path2@.len() - 1,
                path_in_range(path1@),
                path_in_range(path2@),
                forall|a: int, b: int|
                    0 <= a < i && 0 <= b < path2@.len() - 1 ==> !#[trigger] edges_meet(
                        path1@,
                        a,
                        path2@,
                        b,
                    ),
                forall|b: int| 0 <= b < j ==> !#[trigger] edges_meet(path1@, i as int, path2@, b),
            decreases path2@.len() - j,
        {
            if edges_intersect(path1, i, path2, j) {
                return true;
            }
            j += 1;
        }
        i += 1;
    }
    false
}

/// Whether a flattened path holds the vertex `v`.
pub open spec fn has_vertex(points: Seq<PathPoint>, v: Point2) -> bool {
    exists|i: int| 0 <= i < points.len() && #[trigger] points[i] == PathPoint::Vertex(v)
}

/// Whether `(lo, hi)` is the bounding box of the vertices of `points`:
/// every vertex lies inside it, and each of its four sides touches one.
pub open spec fn is_bounding_box(points: Seq<PathPoint>, lo: Point2, hi: Point2) -> bool {
    &&& forall|v: Point2| #[trigger]
        has_vertex(points, v) ==> lo.x <= v.x <= hi.x && lo.y <= v.y <= hi.y
    &&& exists|v: Point2| #[trigger] has_vertex(points, v) && v.x == lo.x
    &&& exists|v: Point2| #[trigger] has_vertex(points, v) && v.y == lo.y
    &&& exists|v: Point2| #[trigger] has_vertex(points, v) && v.x == hi.x
    &&& exists|v: Point2| #[trigger] has_vertex(points, v) && v.y == hi.y
}

/// The bounding box of the vertices of a flattened path, as its least and
/// greatest corner; none where the path holds no vertex.
pub fn bounding_box(points: &[PathPoint]) -> (r: Option<(Point2, Point2)>)
    ensures
        r is None <==> forall|v: Point2| !has_vertex(points@, v),
        match r {
            Some((lo, hi)) => is_bounding_box(points@, lo, hi),
            None => true,
        },
{
    let mut found: Option<(Point2, Point2)> = None;
    let mut i: usize = 0;
    while i < points.len()
        invariant
            i <= points@.len(),
            found is None <==> forall|v: Point2| !has_vertex(points@.take(i as int), v),
            match found {
                Some((lo, hi)) => is_bounding_box(points@.take(i as int), lo, hi),
                None => true,
            },
        decreases points@.len() - i,
    {
        let ghost before = points@.take(i as int);
        let ghost after = points@.take(i + 1);
        assert(after == before.push(points@[i as int]));
        assert forall|v: Point2| has_vertex(after, v) <==> has_vertex(before, v) || points@[i as int]
            == PathPoint::Vertex(v) by {
            if has_vertex(before, v) {
                let k = choose|k: int| 0 <= k < before.len() && before[k] == PathPoint::Vertex(v);
                assert(after[k] == PathPoint::Vertex(v));
            }
            if points@[i as int] == PathPoint::Vertex(v) {
                assert(after[i as int] == PathPoint::Vertex(v));
            }
        }
        match points[i] {
            PathPoint::Vertex(p) => {
                assert(has_vertex(after, p));
                match found {
                    None => {
                        found = Some((p, p));
                    },
                    Some((lo, hi)) => {
                        let nlo = Point2 {
                            x: if p.x < lo.x { p.x } else { lo.x },
                            y: if p.y < lo.y { p.y } else { lo.y },
                        };
                        let nhi = Point2 {
                            x: if p.x > hi.x { p.x } else { hi.x },
                            y: if p.y > hi.y { p.y } else { hi.y },
                        };
                        proof {
                            let v1 = choose|v: Point2| #[trigger]
                                has_vertex(before, v) && v.x == lo.x;
                            let v2 = choose|v: Point2| #[trigger]
                                has_vertex(before, v) && v.y == lo.y;
                            let v3 = choose|v: Point2| #[trigger]
                                has_vertex(before, v) && v.x == hi.x;
                            let v4 = choose|v: Point2| #[trigger]
                                has_vertex(before, v) && v.y == hi.y;
                            let w1 = if p.x < lo.x { p } else { v1 };
                            let w2 = if p.y < lo.y { p } else { v2 };
                            let w3 = if p.x > hi.x { p } else { v3 };
                            let w4 = if p.y > hi.y { p } else { v4 };
                            assert(has_vertex(after, w1) && w1.x == nlo.x);
                            assert(has_vertex(after, w2) && w2.y == nlo.y);
                            assert(has_vertex(after, w3) && w3.x == nhi.x);
                            assert(has_vertex(after, w4) && w4.y == nhi.y);
                        }
                        found = Some((nlo, nhi));
                    },
                }
            },
            PathPoint::Break => {},
        }
        i += 1;
    }
    assert(points@.take(i as int) == points@);
    found
}

/// A copy of a slice of points.
pub fn copy_points(path: &[Point2]) -> (r: Vec<Point2>)
    ensures
        r@ == path@,
{
    let mut out: Vec<Point2> = Vec::new();
    let mut i: usize = 0;
    while i < path.len()
        invariant
            i <= path@.len(),
            out@ == path@.take(i as int),
        decreases path@.len() - i,
    {
        out.push(path[i]);
        assert(path@.take(i + 1) == path@.take(i as int).push(path@[i as int]));
        i += 1;
    }
    assert(path@.take(i as int) == path@);
    out
}

/// First place of the averaging window around place `i`.
pub open spec fn window_lo(i: int, window: int) -> int {
    if i >= window / 2 {
        i - window / 2
    } else {
        0
    }
}

/// The place after the last one of the averaging window around place `i`
/// of a path of `len` points.
pub open spec fn window_hi(i: int, window: int, len: int) -> int {
    if i + window / 2 + 1 <= len {
        i + window / 2 + 1
    } else {
        len
    }
}

/// Sum of the `x` coordinates of `path[lo .. hi]`.
pub open spec fn sum_x(path: Seq<Point2>, lo: int, hi: int) -> int
    decreases hi - lo,
{
    if hi <= lo {
        0
    } else {
        sum_x(path, lo, hi - 1) + path[hi - 1].x
    }
}

/// Sum of the `y` coordinates of `path[lo .. hi]`.
pub open spec fn sum_y(path: Seq<Point2>, lo: int, hi: int) -> int
    decreases hi - lo,
{
    if hi <= lo {
        0
    } else {
        sum_y(path, lo, hi - 1) + path[hi - 1].y
    }
}

/// The mean of the points in the window around place `i`, rounded to the
/// lattice.
pub open spec fn window_mean(path: Seq<Point2>, i: int, window: int) -> Point2 {
    let lo = window_lo(i, window);
    let hi = window_hi(i, window, path.len() as int);
    Point2 {
        x: round_div(sum_x(path, lo, hi), hi - lo) as i32,
        y: round_div(sum_y(path, lo, hi), hi - lo) as i32,
    }
}

/// The moving average of a path: every point is replaced by the mean of
/// the points at most `window / 2` places away from it. A path of fewer
/// than two points, or a window of fewer than two places, leaves the path
/// as it is.
pub open spec fn smoothed(path: Seq<Point2>, window: int) -> Seq<Point2> {
    if path.len() < 2 || window < 2 {
        path
    } else {
        Seq::new(path.len(), |i: int| window_mean(path, i, window))
    }
}

/// A sum of coordinates in range is bounded by their number times the
/// range.
proof fn lemma_sum_range(path: Seq<Point2>, lo: int, hi: int)
    requires
        0 <= lo <= hi <= path.len(),
        all_in_range(path),
    ensures
        -0x4000_0000 * (hi - lo) <= sum_x(path, lo, hi) <= 0x4000_0000 * (hi - lo),
        -0x4000_0000 * (hi - lo) <= sum_y(path, lo, hi) <= 0x4000_0000 * (hi - lo),
    decreases hi - lo,
{
    if hi > lo {
        lemma_sum_range(path, lo, hi - 1);
        assert(path[hi - 1].in_range());
    }
}

/// The mean of points in range is in range.
pub proof fn lemma_window_mean_in_range(path: Seq<Point2>, i: int, window: int)
    requires
        0 <= i < path.len(),
        window >= 0,
        all_in_range(path),
    ensures
        window_mean(path, i, window).in_range(),
        window_mean(path, i, window).x == round_div(
            sum_x(path, window_lo(i, window), window_hi(i, window, path.len() as int)),
            window_hi(i, window, path.len() as int) - window_lo(i, window),
        ),
        window_mean(path, i, window).y == round_div(
            sum_y(path, window_lo(i, window), window_hi(i, window, path.len() as int)),
            window_hi(i, window, path.len() as int) - window_lo(i, window),
        ),
{
    let lo = window_lo(i, window);
    let hi = window_hi(i, window, path.len() as int);
    lemma_sum_range(path, lo, hi);
    lemma_round_div_range(sum_x(path, lo, hi), hi - lo, -0x4000_0000, 0x4000_0000);
    lemma_round_div_range(sum_y(path, lo, hi), hi - lo, -0x4000_0000, 0x4000_0000);
}

/// The mean of the window around place `i`.
fn window_mean_of(path: &[Point2], i: usize, window: usize) -> (r: Point2)
    requires
        i < path@.len(),
        all_in_range(path@),
    ensures
        r == window_mean(path@, i as int, window as int),
        r.in_range(),
{
    let half: usize = window / 2;
    let lo: usize = if i >= half { i - half } else { 0 };
    let hi: usize = if half <= path.len() - i - 1 { i + half + 1 } else { path.len() };
    let mut sx: i128 = 0;
    let mut sy: i128 = 0;
    let mut k: usize = lo;
    while k < hi
        invariant
            lo <= k <= hi <= path@.len(),
            all_in_range(path@),
            sx == sum_x(path@, lo as int, k as int),
            sy == sum_y(path@, lo as int, k as int),
            -0x4000_0000 * (k - lo) <= sx <= 0x4000_0000 * (k - lo),
            -0x4000_0000 * (k - lo) <= sy <= 0x4000_0000 * (k - lo),
        decreases hi - k,
    {
        assert(path@[k as int].in_range());
        sx = sx + path[k].x as i128;
        sy = sy + path[k].y as i128;
        k += 1;
    }
    proof {
        lemma_window_mean_in_range(path@, i as int, window as int);
    }
    let count: i128 = (hi - lo) as i128;
    Point2 { x: round_div_i128(sx, count) as i32, y: round_div_i128(sy, count) as i32 }
}

/// Moving-average smoothing of a path.
pub fn smooth_lines(path: &[Point2], window: usize) -> (r: Vec<Point2>)
    requires
        all_in_range(path@),
    ensures
        r@ == smoothed(path@, window as int),
        all_in_range(r@),
{
    if path.len() < 2 || window < 2 {
        return copy_points(path);
    }
    let mut out: Vec<Point2> = Vec::new();
    let mut i: usize = 0;
    while i < path.len()
        invariant
            i <= path@.len(),
            all_in_range(path@),
            out@.len() == i,
            forall|j: int| 0 <= j < i ==> out@[j] == window_mean(path@, j, window as int),
            all_in_range(out@),
        decreases path@.len() - i,
    {
        let p = window_mean_of(path, i, window);
        out.push(p);
        i += 1;
    }
    assert(out@ =~= smoothed(path@, window as int));
    out
}

/// How far `pt` strays from the chord `start -> end`, in a measure that
/// orders the points of one chord as their distance from its line does: the
/// squared distance from `pt` to the line, times the squared length of the
/// chord. For a chord of length zero it is the squared distance from `pt`
/// to `start`.
pub open spec fn deviation(pt: Point2, start: Point2, end: Point2) -> int {
    if dist_sq(start, end) == 0 {
        dist_sq(start, pt)
    } else {
        cross(start, pt, end) * cross(start, pt, end)
    }
}

/// Whether a deviation from the chord `start -> end` stands for a distance
/// greater than `eps`.
pub open spec fn deviation_exceeds(dev: int, start: Point2, end: Point2, eps: int) -> bool {
    if dist_sq(start, end) == 0 {
        dev > eps * eps
    } else {
        dev > eps * eps * dist_sq(start, end)
    }
}

/// The place among `path[1 .. k]` of the first point that strays farthest
/// from the chord between the two ends of `path`; 0 where none of them
/// strays at all.
pub open spec fn farthest(path: Seq<Point2>, k: int) -> int
    decreases k,
{
    if k <= 1 {
        0
    } else {
        let m = farthest(path, k - 1);
        if deviation(path[k - 1], path[0], path.last()) > deviation(
            path[m],
            path[0],
            path.last(),
        ) {
            k - 1
        } else {
            m
        }
    }
}

/// Whether `path` is split at its farthest interior point: that point
/// strays from the chord by more than `eps`.
pub open spec fn splits(path: Seq<Point2>, eps: int) -> bool {
    let m = farthest(path, path.len() - 1);
    0 < m < path.len() - 1 && deviation_exceeds(
        deviation(path[m], path[0], path.last()),
        path[0],
        path.last(),
        eps,
    )
}

/// The simplification of a path after Ramer, Douglas and Peucker: where
/// the interior point farthest from the chord between the two ends strays
/// by more than `eps`, both halves are simplified and joined at that point;
/// otherwise only the two ends stay. A path of fewer than two points stays
/// as it is.
pub open spec fn simplified(path: Seq<Point2>, eps: int) -> Seq<Point2>
    decreases path.len(),
{
    if path.len() < 2 {
        path
    } else if splits(path, eps) {
        let m = farthest(path, path.len() - 1);
        simplified(path.subrange(0, m + 1), eps).drop_last() + simplified(
            path.subrange(m, path.len() as int),
            eps,
        )
    } else {
        seq![path[0], path.last()]
    }
}

/// A deviation is never negative, and a point on an end of the chord does
/// not stray.
pub proof fn lemma_deviation_basics(pt: Point2, start: Point2, end: Point2)
    ensures
        deviation(pt, start, end) >= 0,
        deviation(start, start, end) == 0,
{
    let c = cross(start, pt, end);
    assert(c * c >= 0) by (nonlinear_arith);
    assert(dist_sq(start, pt) >= 0) by (nonlinear_arith)
        requires
            dist_sq(start, pt) == (pt.x - start.x) * (pt.x - start.x) + (pt.y - start.y) * (pt.y
                - start.y),
    ;
    assert(cross(start, start, end) == 0) by (nonlinear_arith)
        requires
            cross(start, start, end) == (start.x - start.x) * (end.y - start.y) - (start.y
                - start.y) * (end.x - start.x),
    ;
    assert(dist_sq(start, start) == 0);
}

/// What makes a place the farthest: no point before it strays as far, and
/// no point after it strays farther.
pub proof fn lemma_farthest_properties(path: Seq<Point2>, k: int)
    requires
        1 <= k <= path.len(),
    ensures
        0 <= farthest(path, k) < k,
        forall|j: int|
            0 <= j < k ==> deviation(#[trigger] path[j], path[0], path.last()) <= deviation(
                path[farthest(path, k)],
                path[0],
                path.last(),
            ),
        forall|j: int|
            0 <= j < farthest(path, k) ==> deviation(#[trigger] path[j], path[0], path.last())
                < deviation(path[farthest(path, k)], path[0], path.last()),
    decreases k,
{
    if k > 1 {
        lemma_farthest_properties(path, k - 1);
    }
}

/// The place that the properties above single out is the farthest.
pub proof fn lemma_farthest_unique(path: Seq<Point2>, k: int, m: int)
    requires
        1 <= k <= path.len(),
        0 <= m < k,
        forall|j: int|
            0 <= j < k ==> deviation(#[trigger] path[j], path[0], path.last()) <= deviation(
                path[m],
                path[0],
                path.last(),
            ),
        forall|j: int|
            0 <= j < m ==> deviation(#[trigger] path[j], path[0], path.last()) < deviation(
                path[m],
                path[0],
                path.last(),
            ),
    ensures
        farthest(path, k) == m,
{
    lemma_farthest_properties(path, k);
    let f = farthest(path, k);
    if f < m {
        assert(deviation(path[f], path[0], path.last()) < deviation(path[m], path[0], path.last()));
        assert(deviation(path[m], path[0], path.last()) <= deviation(path[f], path[0], path.last()));
    } else if f > m {
        assert(deviation(path[m], path[0], path.last()) < deviation(path[f], path[0], path.last()));
        assert(deviation(path[f], path[0], path.last()) <= deviation(path[m], path[0], path.last()));
    }
}

/// The deviation of `point` from the chord `line_start -> line_end`.
pub fn perpendicular_distance(point: Point2, line_start: Point2, line_end: Point2) -> (r: u128)
    requires
        point.in_range(),
        line_start.in_range(),
        line_end.in_range(),
    ensures
        r == deviation(point, line_start, line_end),
        r <= 0x4000_0000_0000_0000_0000_0000_0000_0000,
{
    proof {
        lemma_product_bounds(line_start, point, line_end);
    }
    if dist_sq_of(line_start, line_end) == 0 {
        dist_sq_of(line_start, point)
    } else {
        let c: i128 = cross_of(line_start, point, line_end);
        proof {
            lemma_square_range(c as int, 0x8000_0000_0000_0000);
        }
        (c * c) as u128
    }
}

/// Executable form of [`deviation_exceeds`].
fn exceeds(dev: u128, start: Point2, end: Point2, eps: u32) -> (b: bool)
    requires
        start.in_range(),
        end.in_range(),
    ensures
        b == deviation_exceeds(dev as int, start, end, eps as int),
{
    let e: u128 = eps as u128;
    proof {
        lemma_square_range(eps as int, 0xffff_ffff);
    }
    let e2: u128 = e * e;
    let len: u128 = dist_sq_of(start, end);
    if len == 0 {
        dev > e2
    } else {
        proof {
            lemma_mul_range(e2 as int, len as int, 0xffff_fffe_0000_0001, 0x8000_0000_0000_0000);
        }
        dev > e2 * len
    }
}

/// The ends of a simplified path are the ends of the path, and a path of
/// two points or more keeps two or more.
pub proof fn lemma_simplified_ends(path: Seq<Point2>, eps: int)
    requires
        path.len() >= 2,
    ensures
        simplified(path, eps).len() >= 2,
        simplified(path, eps)[0] == path[0],
        simplified(path, eps).last() == path.last(),
    decreases path.len(),
{
    if splits(path, eps) {
        let m = farthest(path, path.len() - 1);
        let left = path.subrange(0, m + 1);
        let right = path.subrange(m, path.len() as int);
        lemma_simplified_ends(left, eps);
        lemma_simplified_ends(right, eps);
    }
}

/// Simplification of `path[lo ..= hi]`.
fn simplify_between(path: &[Point2], lo: usize, hi: usize, epsilon: u32) -> (r: Vec<Point2>)
    requires
        lo < hi < path@.len(),
        all_in_range(path@),
    ensures
        r@ == simplified(path@.subrange(lo as int, hi + 1), epsilon as int),
    decreases hi - lo,
{
    let ghost sub = path@.subrange(lo as int, hi + 1);
    let start = path[lo];
    let end = path[hi];
    assert(start.in_range() && end.in_range());
    assert(sub[0] == start && sub.last() == end);
    let mut max_dist: u128 = 0;
    let mut max_index: usize = lo;
    let mut i: usize = lo + 1;
    proof {
        lemma_deviation_basics(start, start, end);
    }
    while i < hi
        invariant
            lo < i <= hi < path@.len(),
            all_in_range(path@),
            sub == path@.subrange(lo as int, hi + 1),
            start == sub[0],
            end == sub.last(),
            start.in_range(),
            end.in_range(),
            lo <= max_index < i,
            max_index - lo == farthest(sub, i - lo),
            max_dist == deviation(sub[max_index - lo], start, end),
        decreases hi - i,
    {
        let point = path[i];
        assert(point.in_range());
        assert(sub[i - lo] == point);
        let dist = perpendicular_distance(point, start, end);
        if dist > max_dist {
            max_dist = dist;
            max_index = i;
        }
        i += 1;
    }
    if max_index > lo && exceeds(max_dist, start, end, epsilon) {
        let mut left = simplify_between(path, lo, max_index, epsilon);
        let mut right = simplify_between(path, max_index, hi, epsilon);
        proof {
            let m = max_index - lo;
            assert(sub.subrange(0, m + 1) == path@.subrange(lo as int, max_index + 1));
            assert(sub.subrange(m, sub.len() as int) == path@.subrange(max_index as int, hi + 1));
            lemma_simplified_ends(sub.subrange(0, m + 1), epsilon as int);
        }
        left.pop();
        left.append(&mut right);
        left
    } else {
        let mut out: Vec<Point2> = Vec::new();
        out.push(start);
        out.push(end);
        assert(out@ == seq![start, end]);
        out
    }
}

/// Simplification of a path after Ramer, Douglas and Peucker, with the
/// tolerance `epsilon` in lattice steps.
pub fn ramer_douglas_peucker(path: &[Point2], epsilon: u32) -> (r: Vec<Point2>)
    requires
        all_in_range(path@),
    ensures
        r@ == simplified(path@, epsilon as int),
        all_in_range(r@),
{
    proof {
        lemma_simplified_in_range(path@, epsilon as int);
    }
    if path.len() < 2 {
        return copy_points(path);
    }
    assert(path@.subrange(0, path@.len() as int) == path@);
    simplify_between(path, 0, path.len() - 1, epsilon)
}

/// Whether `pt` is one of the points of `path` strictly between the places
/// `lo` and `hi`.
pub open spec fn occurs_between(path: Seq<Point2>, pt: Point2, lo: int, hi: int) -> bool {
    exists|i: int| lo < i < hi && #[trigger] path[i] == pt
}

/// Every interior point of a simplified path is an interior point of the
/// path.
pub proof fn lemma_simplified_interior(path: Seq<Point2>, eps: int, j: int)
    requires
        path.len() >= 2,
        0 < j < simplified(path, eps).len() - 1,
    ensures
        occurs_between(path, simplified(path, eps)[j], 0, path.len() - 1),
    decreases path.len(),
{
    if splits(path, eps) {
        let m = farthest(path, path.len() - 1);
        let left = path.subrange(0, m + 1);
        let right = path.subrange(m, path.len() as int);
        let sl = simplified(left, eps);
        let sr = simplified(right, eps);
        lemma_simplified_ends(left, eps);
        lemma_simplified_ends(right, eps);
        let k = sl.len() - 1;
        let out = simplified(path, eps);
        assert(out == sl.drop_last() + sr);
        if j < k {
            assert(out[j] == sl[j]);
            lemma_simplified_interior(left, eps, j);
            let i = choose|i: int| 0 < i < left.len() - 1 && #[trigger] left[i] == sl[j];
            assert(path[i] == out[j]);
        } else if j == k {
            assert(out[j] == sr[0]);
            assert(path[m] == out[j]);
        } else {
            assert(out[j] == sr[j - k]);
            lemma_simplified_interior(right, eps, j - k);
            let i = choose|i: int| 0 < i < right.len() - 1 && #[trigger] right[i] == sr[j - k];
            assert(path[m + i] == out[j]);
        }
    }
}

/// A simplified path holds only points of the path, so it is in range
/// where the path is.
pub proof fn lemma_simplified_in_range(path: Seq<Point2>, eps: int)
    requires
        all_in_range(path),
    ensures
        all_in_range(simplified(path, eps)),
{
    let out = simplified(path, eps);
    if path.len() >= 2 {
        lemma_simplified_ends(path, eps);
        assert forall|j: int| 0 <= j < out.len() implies (#[trigger] out[j]).in_range() by {
            if 0 < j < out.len() - 1 {
                lemma_simplified_interior(path, eps, j);
                let i = choose|i: int| 0 < i < path.len() - 1 && #[trigger] path[i] == out[j];
                assert(path[i].in_range());
            } else if j == 0 {
                assert(path[0].in_range());
            } else {
                assert(path[path.len() - 1].in_range());
            }
        }
    }
}

/// Simplification is idempotent: a simplified path is its own
/// simplification, for the same tolerance.
pub proof fn lemma_simplified_idempotent(path: Seq<Point2>, eps: int)
    ensures
        simplified(simplified(path, eps), eps) == simplified(path, eps),
    decreases path.len(),
{
    let out = simplified(path, eps);
    if path.len() < 2 {
    } else if splits(path, eps) {
        let m = farthest(path, path.len() - 1);
        let left = path.subrange(0, m + 1);
        let right = path.subrange(m, path.len() as int);
        let sl = simplified(left, eps);
        let sr = simplified(right, eps);
        lemma_simplified_ends(left, eps);
        lemma_simplified_ends(right, eps);
        lemma_simplified_ends(path, eps);
        lemma_simplified_idempotent(left, eps);
        lemma_simplified_idempotent(right, eps);
        let k = sl.len() - 1;
        assert(out == sl.drop_last() + sr);
        assert(out[k] == path[m]);
        let a = path[0];
        let b = path.last();
        assert(out[0] == a && out.last() == b);
        lemma_farthest_properties(path, path.len() - 1);
        lemma_deviation_basics(a, a, b);
        // the joint is the farthest interior point of the simplified path
        assert forall|j: int| 0 <= j < out.len() - 1 implies deviation(#[trigger] out[j], a, b)
            <= deviation(out[k], a, b) by {
            if j == 0 {
                assert(deviation(path[0], a, b) <= deviation(path[m], a, b));
            } else if j != k {
                lemma_simplified_interior(path, eps, j);
                let i = choose|i: int| 0 < i < path.len() - 1 && #[trigger] path[i] == out[j];
                assert(deviation(path[i], a, b) <= deviation(path[m], a, b));
            }
        }
        assert forall|j: int| 0 <= j < k implies deviation(#[trigger] out[j], a, b) < deviation(
            out[k],
            a,
            b,
        ) by {
            if j == 0 {
                assert(deviation(path[0], a, b) < deviation(path[m], a, b));
            } else {
                assert(out[j] == sl[j]);
                lemma_simplified_interior(left, eps, j);
                let i = choose|i: int| 0 < i < left.len() - 1 && #[trigger] left[i] == sl[j];
                assert(path[i] == out[j]);
                assert(deviation(path[i], a, b) < deviation(path[m], a, b));
            }
        }
        lemma_farthest_unique(out, out.len() - 1, k);
        assert(splits(out, eps));
        assert(out.subrange(0, k + 1) == sl);
        assert(out.subrange(k, out.len() as int) == sr);
    } else {
        assert(out == seq![path[0], path.last()]);
        assert(farthest(out, 1) == 0);
        assert(!splits(out, eps));
        assert(simplified(out, eps) == seq![out[0], out.last()]);
    }
}

} // verus!

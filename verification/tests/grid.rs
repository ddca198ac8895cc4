use svgdraw::math_utils::closest_point_on_segment;
use svgdraw::point::dist_sq_of;
use svgdraw::point::Point2;
use svgdraw::spatial_grid::PathSegment;
use svgdraw::spatial_grid::Rect;
use svgdraw::spatial_grid::SpatialGrid;
use svgdraw::spatial_grid::CELL_SIZE;

fn p(x: i32, y: i32) -> Point2 {
    Point2 { x, y }
}

fn seg(x0: i32, y0: i32, x1: i32, y1: i32) -> PathSegment {
    PathSegment { start: p(x0, y0), end: p(x1, y1), id: 0 }
}

fn grid_of(segments: Vec<PathSegment>) -> SpatialGrid {
    let mut grid = SpatialGrid::new(50_000);
    grid.insert_segments(segments);
    grid.rebuild_grid();
    grid
}

#[test]
fn new_index_is_empty_and_ignores_its_argument() {
    let grid = SpatialGrid::new(50_000);
    assert_eq!(grid.cell_size, CELL_SIZE);
    assert_eq!(grid.cell_size, 5000);
    assert_eq!(grid.cols, 0);
    assert_eq!(grid.rows, 0);
    assert!(grid.cells.is_empty());
    assert!(grid.segments.is_empty());
    assert_eq!(grid.bounds, Rect { min: p(0, 0), max: p(0, 0) });
    let other = SpatialGrid::new(1);
    assert_eq!(other.cell_size, 5000);
}

#[test]
fn rebuild_of_an_empty_index_changes_nothing() {
    let mut grid = SpatialGrid::new(0);
    grid.set_bounds(p(0, 0), p(10_000, 10_000));
    assert_eq!(grid.cols, 2);
    grid.rebuild_grid();
    assert_eq!(grid.cols, 2);
    assert_eq!(grid.rows, 2);
    assert_eq!(grid.cells.len(), 4);
    assert_eq!(grid.bounds, Rect { min: p(0, 0), max: p(10_000, 10_000) });
}

#[test]
fn insert_renumbers_segments_by_place() {
    let mut grid = SpatialGrid::new(0);
    grid.insert_segments(vec![
        PathSegment { start: p(0, 0), end: p(1, 1), id: 17 },
        PathSegment { start: p(2, 2), end: p(3, 3), id: 17 },
    ]);
    grid.insert_segments(vec![PathSegment { start: p(4, 4), end: p(5, 5), id: 0 }]);
    assert_eq!(grid.segments.len(), 3);
    assert_eq!(grid.segments[0], PathSegment { start: p(0, 0), end: p(1, 1), id: 0 });
    assert_eq!(grid.segments[1], PathSegment { start: p(2, 2), end: p(3, 3), id: 1 });
    assert_eq!(grid.segments[2], PathSegment { start: p(4, 4), end: p(5, 5), id: 2 });
    // not registered before a rebuild
    assert!(grid.cells.is_empty());
}

#[test]
fn rebuild_takes_the_union_of_the_bounding_boxes() {
    let grid = grid_of(vec![seg(0, 0, 10_000, 20_000), seg(-5000, 3000, 2000, 1000)]);
    assert_eq!(grid.bounds, Rect { min: p(-5000, 0), max: p(10_000, 20_000) });
    assert_eq!(grid.cols, 3);
    assert_eq!(grid.rows, 4);
    assert_eq!(grid.cells.len(), 12);
}

#[test]
fn grid_dimensions_round_up() {
    let grid = grid_of(vec![seg(0, 0, 10_001, 4999)]);
    assert_eq!(grid.cols, 3);
    assert_eq!(grid.rows, 1);
    let grid = grid_of(vec![seg(0, 0, 1, 1)]);
    assert_eq!(grid.cols, 1);
    assert_eq!(grid.rows, 1);
}

#[test]
fn rebuild_registers_every_segment_in_the_cells_it_overlaps() {
    let grid = grid_of(vec![seg(0, 0, 10_000, 20_000), seg(-5000, 3000, 2000, 1000)]);
    let expected: Vec<Vec<usize>> = vec![
        vec![1],
        vec![0, 1],
        vec![0],
        vec![],
        vec![0],
        vec![0],
        vec![],
        vec![0],
        vec![0],
        vec![],
        vec![0],
        vec![0],
    ];
    assert_eq!(grid.cells, expected);
}

#[test]
fn a_segment_on_the_far_edge_is_registered_in_the_last_cell() {
    // the width is a whole number of cells, and the second segment lies on
    // the far edge
    let grid = grid_of(vec![seg(0, 0, 10_000, 5000), seg(10_000, 0, 10_000, 5000)]);
    assert_eq!(grid.cols, 2);
    assert_eq!(grid.rows, 1);
    assert_eq!(grid.cells, vec![vec![0], vec![0, 1]]);
    let found = grid.query_nearest_point(p(10_000, 2500), 100, None, 0);
    assert_eq!(found, Some((p(10_000, 2500), 1)));
}

#[test]
fn removed_entries_are_left_out_of_the_bounds_and_the_cells() {
    let grid = grid_of(vec![seg(50_000, 50_000, 50_000, 50_000), seg(0, 0, 4000, 4000)]);
    assert_eq!(grid.bounds, Rect { min: p(0, 0), max: p(4000, 4000) });
    assert_eq!(grid.cells, vec![vec![1]]);
}

#[test]
fn an_index_of_removed_entries_only_collapses_to_the_origin() {
    let grid = grid_of(vec![seg(7, 7, 7, 7)]);
    assert_eq!(grid.bounds, Rect { min: p(0, 0), max: p(0, 0) });
    assert_eq!(grid.cols, 0);
    assert_eq!(grid.rows, 0);
    assert!(grid.cells.is_empty());
    assert_eq!(grid.query_nearest_point(p(7, 7), 100, None, 0), None);
}

#[test]
fn query_finds_the_point_on_the_segment() {
    // the segment (0,0)-(10,0), in world units, queried at (5,1) with
    // radius 2
    let mut grid = SpatialGrid::new(50_000);
    grid.insert_segments(vec![seg(0, 0, 10_000, 0)]);
    grid.set_bounds(p(-5000, -5000), p(15_000, 5000));
    let found = grid.query_nearest_point(p(5000, 1000), 2000, None, 0);
    assert_eq!(found, Some((p(5000, 0), 0)));
}

#[test]
fn query_finds_the_point_on_the_segment_in_lattice_steps() {
    let mut grid = SpatialGrid::new(50_000);
    grid.insert_segments(vec![seg(0, 0, 10, 0)]);
    grid.set_bounds(p(-5, -5), p(15, 5));
    assert_eq!(grid.cols, 1);
    assert_eq!(grid.rows, 1);
    assert_eq!(grid.query_nearest_point(p(5, 1), 2, None, 0), Some((p(5, 0), 0)));
}

#[test]
fn query_outside_the_bounds_finds_nothing() {
    // rebuilt from one level segment the bounds have no height: there are
    // no cells, and a position beside the segment lies outside
    let grid = grid_of(vec![seg(0, 0, 10_000, 0)]);
    assert_eq!(grid.bounds, Rect { min: p(0, 0), max: p(10_000, 0) });
    assert_eq!(grid.rows, 0);
    assert_eq!(grid.query_nearest_point(p(5000, 1000), 2000, None, 0), None);
    assert_eq!(grid.query_nearest_point(p(5000, 0), 2000, None, 0), None);
    let grid = grid_of(vec![seg(0, 0, 10_000, 10_000)]);
    assert_eq!(grid.query_nearest_point(p(-1, 0), 2000, None, 0), None);
    assert_eq!(grid.query_nearest_point(p(0, 10_001), 2000, None, 0), None);
    assert!(grid.query_nearest_segment(p(10_001, 5), 2000).is_none());
    assert_eq!(grid.point_to_cell(p(-1, 0)), None);
    assert_eq!(grid.point_to_cell(p(0, 0)), Some((0, 0)));
    assert_eq!(grid.point_to_cell(p(10_000, 10_000)), Some((1, 1)));
    assert_eq!(grid.point_to_cell(p(4999, 5000)), Some((0, 1)));
}

#[test]
fn query_takes_only_segments_strictly_inside_the_radius() {
    let mut grid = SpatialGrid::new(0);
    grid.insert_segments(vec![seg(0, 0, 10_000, 0)]);
    grid.set_bounds(p(0, -5000), p(10_000, 5000));
    assert_eq!(grid.query_nearest_point(p(5000, 1000), 1000, None, 0), None);
    assert_eq!(grid.query_nearest_point(p(5000, 1000), 1001, None, 0), Some((p(5000, 0), 0)));
    assert_eq!(grid.query_nearest_point(p(5000, 1000), 0, None, 0), None);
}

#[test]
fn query_returns_the_nearest_segment() {
    let grid = grid_of(vec![seg(0, 0, 10_000, 0), seg(0, 3000, 10_000, 3000)]);
    assert_eq!(grid.query_nearest_point(p(5000, 1000), 4000, None, 0), Some((p(5000, 0), 0)));
    assert_eq!(grid.query_nearest_point(p(5000, 2000), 4000, None, 0), Some((p(5000, 3000), 1)));
    let found = grid.query_nearest_segment(p(5000, 2000), 4000);
    assert_eq!(
        found,
        Some((PathSegment { start: p(0, 3000), end: p(10_000, 3000), id: 1 }, p(5000, 3000)))
    );
}

#[test]
fn query_never_returns_a_segment_farther_than_the_radius() {
    let grid = grid_of(vec![
        seg(0, 0, 10_000, 0),
        seg(0, 3000, 10_000, 3000),
        seg(2000, 0, 8000, 9000),
        seg(0, 9000, 10_000, 9000),
    ]);
    for x in [0, 1234, 5000, 9999, 10_000] {
        for y in [0, 700, 2999, 4500, 9000] {
            for r in [0u32, 1, 500, 1500, 20_000] {
                if let Some((s, pt)) = grid.query_nearest_segment(p(x, y), r) {
                    // the point returned lies inside the radius, and the
                    // segment is no farther than that point
                    let dx = (pt.x - x) as i64;
                    let dy = (pt.y - y) as i64;
                    assert!(dx * dx + dy * dy < (r as i64) * (r as i64));
                    assert_eq!(grid.segments[s.id], s);
                }
            }
        }
    }
}

#[test]
fn of_two_nearest_segments_the_query_returns_the_one_examined_first() {
    let grid = grid_of(vec![seg(0, 0, 10_000, 0), seg(0, 2000, 10_000, 2000)]);
    assert_eq!(grid.query_nearest_point(p(5000, 1000), 2000, None, 0), Some((p(5000, 0), 0)));
    let grid = grid_of(vec![seg(0, 2000, 10_000, 2000), seg(0, 0, 10_000, 0)]);
    assert_eq!(grid.query_nearest_point(p(5000, 1000), 2000, None, 0), Some((p(5000, 2000), 0)));
}

#[test]
fn query_skips_the_neighbourhood_of_the_starting_segment() {
    let grid = grid_of(vec![
        seg(0, 0, 10_000, 0),
        seg(0, 1000, 10_000, 1000),
        seg(0, 2000, 10_000, 2000),
        seg(0, 3000, 10_000, 3000),
    ]);
    let pos = p(5000, 100);
    assert_eq!(grid.query_nearest_point(pos, 5000, None, 0), Some((p(5000, 0), 0)));
    assert_eq!(grid.query_nearest_point(pos, 5000, Some(0), 0), Some((p(5000, 1000), 1)));
    assert_eq!(grid.query_nearest_point(pos, 5000, Some(0), 1), Some((p(5000, 2000), 2)));
    assert_eq!(grid.query_nearest_point(pos, 5000, Some(1), 1), Some((p(5000, 3000), 3)));
    assert_eq!(grid.query_nearest_point(pos, 5000, Some(2), 5), None);
    assert_eq!(grid.query_nearest_point(pos, 5000, Some(1), usize::MAX), None);
    assert_eq!(grid.query_nearest_point(pos, 5000, Some(usize::MAX), 1), Some((p(5000, 0), 0)));
    // the segment query knows no neighbourhood
    assert!(grid.query_nearest_segment(pos, 5000).is_some());
}

#[test]
fn query_looks_only_at_the_cells_around_the_position() {
    let grid = grid_of(vec![seg(0, 0, 1000, 1000), seg(40_000, 40_000, 41_000, 41_000)]);
    assert_eq!(grid.cols, 9);
    // far more than one cell away
    assert_eq!(grid.query_nearest_point(p(20_000, 20_000), 1_000_000, None, 0), None);
    assert_eq!(
        grid.query_nearest_point(p(6000, 6000), 1_000_000, None, 0),
        Some((p(1000, 1000), 0))
    );
}

#[test]
fn remove_takes_the_segment_out_of_its_cells() {
    let mut grid = grid_of(vec![seg(0, 0, 10_000, 20_000), seg(-5000, 3000, 2000, 1000)]);
    grid.remove_segment(0);
    assert_eq!(grid.segments.len(), 2);
    assert_eq!(grid.segments[0], PathSegment { start: p(0, 0), end: p(0, 0), id: 0 });
    assert_eq!(grid.segments[1], PathSegment { start: p(-5000, 3000), end: p(2000, 1000), id: 1 });
    let expected: Vec<Vec<usize>> = vec![
        vec![1],
        vec![1],
        vec![],
        vec![],
        vec![],
        vec![],
        vec![],
        vec![],
        vec![],
        vec![],
        vec![],
        vec![],
    ];
    assert_eq!(grid.cells, expected);
    assert_eq!(grid.bounds, Rect { min: p(-5000, 0), max: p(10_000, 20_000) });
    assert_eq!(grid.query_nearest_point(p(5000, 10_000), 3000, None, 0), None);
}

#[test]
fn remove_of_an_unknown_or_unmapped_segment_does_nothing() {
    let mut grid = grid_of(vec![seg(0, 0, 10_000, 20_000)]);
    let cells = grid.cells.clone();
    grid.remove_segment(5);
    assert_eq!(grid.segments.len(), 1);
    assert_eq!(grid.cells, cells);
    // not yet rebuilt, and outside the bounds: its box maps to no cell
    grid.insert_segments(vec![seg(50_000, 50_000, 60_000, 60_000)]);
    grid.remove_segment(1);
    assert_eq!(
        grid.segments[1],
        PathSegment { start: p(50_000, 50_000), end: p(60_000, 60_000), id: 1 }
    );
    assert_eq!(grid.cells, cells);
}

#[test]
fn a_removed_segment_stays_removed_after_a_rebuild() {
    let mut grid = grid_of(vec![seg(0, 0, 10_000, 20_000), seg(-5000, 3000, 2000, 1000)]);
    grid.remove_segment(0);
    grid.rebuild_grid();
    assert_eq!(grid.bounds, Rect { min: p(-5000, 1000), max: p(2000, 3000) });
    assert_eq!(grid.cols, 2);
    assert_eq!(grid.rows, 1);
    assert_eq!(grid.cells, vec![vec![1], vec![1]]);
}

#[test]
fn set_bounds_registers_the_clipped_boxes() {
    let mut grid = SpatialGrid::new(0);
    grid.insert_segments(vec![
        seg(-20_000, 2500, 20_000, 2500),
        seg(50_000, 50_000, 60_000, 60_000),
        seg(7000, -9000, 7000, 1000),
    ]);
    grid.set_bounds(p(0, 0), p(10_000, 10_000));
    assert_eq!(grid.bounds, Rect { min: p(0, 0), max: p(10_000, 10_000) });
    assert_eq!(grid.cols, 2);
    assert_eq!(grid.rows, 2);
    assert_eq!(grid.cells, vec![vec![0], vec![0, 2], vec![], vec![]]);
}

#[test]
fn set_bounds_with_corners_out_of_order_collapses() {
    let mut grid = SpatialGrid::new(0);
    grid.insert_segments(vec![seg(0, 0, 10_000, 0)]);
    grid.set_bounds(p(10, 0), p(0, 10));
    assert_eq!(grid.bounds, Rect { min: p(0, 0), max: p(0, 0) });
    assert_eq!(grid.cols, 0);
    assert_eq!(grid.rows, 0);
    assert!(grid.cells.is_empty());
}

#[test]
fn set_bounds_from_viewbox_centres_the_bounds() {
    let mut grid = SpatialGrid::new(0);
    grid.set_bounds_from_viewbox((123, 456, 20_000, 10_000));
    assert_eq!(grid.bounds, Rect { min: p(-10_000, -5000), max: p(10_000, 5000) });
    assert_eq!(grid.cols, 4);
    assert_eq!(grid.rows, 2);
    assert_eq!(grid.cells.len(), 8);
    grid.set_bounds_from_viewbox((0, 0, -4, 10));
    assert_eq!(grid.bounds, Rect { min: p(0, 0), max: p(0, 0) });
    grid.set_bounds_from_viewbox((0, 0, 7, 5));
    assert_eq!(grid.bounds, Rect { min: p(-3, -2), max: p(3, 2) });
}

#[test]
fn recalc_grid_empties_the_cells() {
    let mut grid = grid_of(vec![seg(0, 0, 10_000, 20_000)]);
    grid.recalc_grid();
    assert_eq!(grid.cols, 2);
    assert_eq!(grid.rows, 4);
    assert_eq!(grid.cells.len(), 8);
    assert!(grid.cells.iter().all(|cell| cell.is_empty()));
    assert_eq!(grid.segments.len(), 1);
}

#[test]
fn rect_center_is_the_middle() {
    assert_eq!((Rect { min: p(0, 0), max: p(10, 4) }).center(), p(5, 2));
    assert_eq!((Rect { min: p(-7, -3), max: p(0, 0) }).center(), p(-4, -2));
    assert_eq!(Rect::zero_rect(), Rect { min: p(0, 0), max: p(0, 0) });
}

fn sample_segments() -> Vec<PathSegment> {
    vec![
        seg(0, 0, 10_000, 20_000),
        seg(-5000, 3000, 2000, 1000),
        seg(12_345, -6789, 12_345, 30_000),
        seg(-20_000, 15_000, 40_000, 15_000),
        seg(4999, 5000, 5001, 4999),
        seg(9, 9, 9, 9),
        seg(39_999, 29_999, 40_000, 30_000),
        seg(-20_000, -6789, -19_000, -6000),
    ]
}

#[test]
fn a_cell_lists_a_segment_exactly_when_it_holds_a_point_of_its_box() {
    let mut grids = vec![grid_of(sample_segments())];
    let mut clipped = SpatialGrid::new(0);
    clipped.insert_segments(sample_segments());
    clipped.set_bounds(p(-3000, 2000), p(13_000, 16_000));
    grids.push(clipped);
    for grid in grids {
        let cell = CELL_SIZE as i64;
        let min_x = grid.bounds.min.x as i64;
        let min_y = grid.bounds.min.y as i64;
        let max_x = grid.bounds.max.x as i64;
        let max_y = grid.bounds.max.y as i64;
        assert_eq!(grid.cells.len(), grid.cols * grid.rows);
        for row in 0..grid.rows {
            for col in 0..grid.cols {
                // the cell is half open, but the last one takes the far edge in
                let x0 = min_x + col as i64 * cell;
                let x1 = if col + 1 == grid.cols { max_x } else { x0 + cell - 1 };
                let y0 = min_y + row as i64 * cell;
                let y1 = if row + 1 == grid.rows { max_y } else { y0 + cell - 1 };
                let mut expected = Vec::new();
                for s in &grid.segments {
                    if s.start == s.end {
                        continue;
                    }
                    let lo_x = (s.start.x.min(s.end.x) as i64).max(min_x);
                    let hi_x = (s.start.x.max(s.end.x) as i64).min(max_x);
                    let lo_y = (s.start.y.min(s.end.y) as i64).max(min_y);
                    let hi_y = (s.start.y.max(s.end.y) as i64).min(max_y);
                    if lo_x <= hi_x && lo_y <= hi_y && lo_x <= x1 && x0 <= hi_x && lo_y <= y1
                        && y0 <= hi_y
                    {
                        expected.push(s.id);
                    }
                }
                assert_eq!(grid.cells[row * grid.cols + col], expected);
            }
        }
    }
}

#[test]
fn a_query_returns_the_first_nearest_candidate() {
    let grid = grid_of(sample_segments());
    for x in [-20_000, -4000, 0, 4999, 5000, 9000, 12_345, 25_000, 40_000] {
        for y in [-6789, 0, 2500, 5000, 14_000, 15_000, 29_999, 30_000] {
            for r in [0u32, 10, 1500, 6000, 100_000] {
                let pos = p(x, y);
                let mut best: Option<(u128, usize)> = None;
                if let Some((col, row)) = grid.point_to_cell(pos) {
                    for cx in col.saturating_sub(1)..=(col + 1).min(grid.cols - 1) {
                        for cy in row.saturating_sub(1)..=(row + 1).min(grid.rows - 1) {
                            for &id in &grid.cells[cy * grid.cols + cx] {
                                let s = grid.segments[id];
                                if s.start == s.end {
                                    continue;
                                }
                                let pt = closest_point_on_segment(pos, s.start, s.end);
                                let d = dist_sq_of(pos, pt);
                                let limit = match best {
                                    Some((nearest, _)) => nearest,
                                    None => (r as u128) * (r as u128),
                                };
                                if d < limit {
                                    best = Some((d, id));
                                }
                            }
                        }
                    }
                }
                let expected = best.map(|(_, id)| {
                    let s = grid.segments[id];
                    (closest_point_on_segment(pos, s.start, s.end), id)
                });
                assert_eq!(grid.query_nearest_point(pos, r, None, 0), expected);
                let found = grid.query_nearest_segment(pos, r);
                assert_eq!(found.map(|(s, pt)| (pt, s.id)), expected);
            }
        }
    }
}

#[test]
fn a_point_that_rounds_beyond_the_radius_is_not_returned() {
    // the nearest point of the first segment to the origin is (-0.6, 3000)
    // to within a step; on the lattice it is (-1, 3000), just beyond 3000
    let grid = grid_of(vec![seg(-5000, 2999, 5000, 3001), seg(100_000, -1, 100_001, 0)]);
    assert_eq!(grid.query_nearest_point(p(0, 0), 3000, None, 0), None);
    assert!(grid.query_nearest_segment(p(0, 0), 3000).is_none());
    assert_eq!(grid.query_nearest_point(p(0, 0), 3001, None, 0), Some((p(-1, 3000), 0)));
}

#[test]
fn the_point_returned_is_the_nearest_of_the_points_on_the_candidates() {
    let grid = grid_of(vec![seg(-5000, 2999, 5000, 3001), seg(-5000, -3000, 5000, -3000)]);
    assert_eq!(grid.query_nearest_point(p(0, 0), 3001, None, 0), Some((p(0, -3000), 1)));
    let found = grid.query_nearest_segment(p(0, 0), 3001);
    assert_eq!(
        found,
        Some((PathSegment { start: p(-5000, -3000), end: p(5000, -3000), id: 1 }, p(0, -3000)))
    );
    assert_eq!(grid.query_nearest_point(p(0, 0), 3001, Some(1), 0), Some((p(-1, 3000), 0)));
    assert_eq!(grid.query_nearest_point(p(0, 0), 3000, None, 0), None);
}

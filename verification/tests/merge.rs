use svgdraw::draw_state::DrawingInfo;
use svgdraw::draw_state::DrawingPoints;
use svgdraw::merge_svg::check_and_merge_svg;
use svgdraw::merge_svg::filter_close_points;
use svgdraw::merge_svg::lift_points;
use svgdraw::merge_svg::path_vertices;
use svgdraw::merge_svg::prepare_stroke;
use svgdraw::merge_svg::SvgLibrary;
use svgdraw::merge_svg::SvgLine;
use svgdraw::merge_svg::MERGE_EPSILON;
use svgdraw::merge_svg::MERGE_MIN_DIST;
use svgdraw::merge_svg::MERGE_WINDOW;
use svgdraw::point::PathPoint;
use svgdraw::point::Point2;

fn p(x: i32, y: i32) -> Point2 {
    Point2 { x, y }
}

fn v(x: i32, y: i32) -> PathPoint {
    PathPoint::Vertex(Point2 { x, y })
}

fn stroke_of(points: Vec<Point2>) -> DrawingPoints {
    let mut stroke = DrawingPoints::new();
    stroke.points = points;
    stroke
}

fn library_of(entries: Vec<(u64, Vec<PathPoint>)>) -> SvgLibrary {
    let mut library = SvgLibrary::new();
    for (handle, path) in entries {
        library.lines.push((handle, SvgLine { path }));
    }
    library
}

fn entries_of(library: &SvgLibrary) -> Vec<(u64, Vec<PathPoint>)> {
    library.lines.iter().map(|(handle, line)| (*handle, line.path.clone())).collect()
}

#[test]
fn merge_constants_are_in_lattice_steps() {
    assert_eq!(MERGE_MIN_DIST, 1000);
    assert_eq!(MERGE_WINDOW, 3);
    assert_eq!(MERGE_EPSILON, 200);
}

#[test]
fn filter_drops_points_near_the_point_kept_before() {
    let points = vec![p(0, 0), p(500, 0), p(1500, 0), p(1600, 0), p(1500, 1001)];
    assert_eq!(filter_close_points(&points, 1000), vec![p(0, 0), p(1500, 0), p(1500, 1001)]);
}

#[test]
fn filter_drops_a_point_at_exactly_the_least_distance() {
    let points = vec![p(0, 0), p(1000, 0), p(1001, 0)];
    assert_eq!(filter_close_points(&points, 1000), vec![p(0, 0), p(1001, 0)]);
    assert_eq!(filter_close_points(&points, 0), points);
}

#[test]
fn filter_measures_from_the_point_kept_last() {
    // each point is 600 from the one before it
    let points = vec![p(0, 0), p(600, 0), p(1200, 0), p(1800, 0), p(2400, 0)];
    assert_eq!(filter_close_points(&points, 1000), vec![p(0, 0), p(1200, 0), p(2400, 0)]);
}

#[test]
fn filter_of_nothing_is_nothing() {
    let empty: Vec<Point2> = Vec::new();
    assert_eq!(filter_close_points(&empty, 1000), empty);
    assert_eq!(filter_close_points(&[p(3, 3), p(3, 3)], 1000), vec![p(3, 3)]);
}

#[test]
fn prepared_stroke_keeps_the_ends_of_the_stroke() {
    let strokes = vec![
        vec![p(0, 0), p(3000, 100), p(6000, -100), p(9000, 0)],
        vec![p(17, 23), p(5000, 5000), p(9000, 1000), p(12_000, 8000), p(20_001, -77)],
        vec![p(0, 0), p(1001, 0)],
        vec![p(0, 0), p(2000, 0), p(2000, 2000), p(0, 2000), p(0, 1)],
    ];
    for stroke in strokes {
        let prepared = prepare_stroke(&stroke);
        assert!(prepared.len() >= 2);
        assert_eq!(prepared[0], stroke[0]);
        assert_eq!(prepared[prepared.len() - 1], stroke[stroke.len() - 1]);
    }
}

#[test]
fn prepared_stroke_is_thinned_smoothed_and_simplified() {
    let stroke = vec![p(0, 0), p(5000, 0), p(10_000, 0)];
    assert_eq!(prepare_stroke(&stroke), vec![p(0, 0), p(10_000, 0)]);
    // a corner survives, smoothed
    let corner = vec![p(0, 0), p(6000, 0), p(6000, 6000)];
    assert_eq!(prepare_stroke(&corner), vec![p(0, 0), p(4000, 2000), p(6000, 6000)]);
}

#[test]
fn a_stroke_that_thins_to_one_point_gives_nothing() {
    let empty: Vec<Point2> = Vec::new();
    assert_eq!(prepare_stroke(&empty), empty);
    assert_eq!(prepare_stroke(&[p(5, 5)]), empty);
    assert_eq!(prepare_stroke(&[p(0, 0), p(0, 0)]), empty);
    assert_eq!(prepare_stroke(&[p(0, 0), p(600, 0), p(0, 800), p(1000, 0)]), empty);
}

#[test]
fn lifting_and_flattening_are_inverse() {
    let points = vec![p(1, 2), p(3, 4)];
    assert_eq!(lift_points(&points), vec![v(1, 2), v(3, 4)]);
    let path = vec![v(1, 2), PathPoint::Break, PathPoint::Break, v(3, 4), PathPoint::Break];
    assert_eq!(path_vertices(&path), points);
    assert_eq!(path_vertices(&lift_points(&points)), points);
}

#[test]
fn degenerate_stroke_is_discarded() {
    for points in [vec![], vec![p(4, 4)], vec![p(4, 4), p(5, 5)]] {
        let mut info = DrawingInfo::new();
        info.last_pos = Some(p(4, 4));
        info.counter = 3;
        let mut stroke = stroke_of(points);
        let mut library = library_of(vec![(7, vec![v(5, -5), v(5, 5)])]);
        let outcome = check_and_merge_svg(&mut info, &mut stroke, &mut library, 99);
        assert!(!outcome.merged);
        assert!(outcome.grid_path.is_empty());
        assert!(outcome.despawned.is_empty());
        assert_eq!(entries_of(&library), vec![(7, vec![v(5, -5), v(5, 5)])]);
        assert!(stroke.points.is_empty());
        assert_eq!(info.last_pos, None);
        assert_eq!(info.counter, 4);
    }
}

#[test]
fn crossing_paths_merge_into_one_entry() {
    let mut info = DrawingInfo::new();
    let mut stroke = stroke_of(vec![p(0, 0), p(5000, 0), p(10_000, 0)]);
    let mut library = library_of(vec![(7, vec![v(5000, -5000), v(5000, 5000)])]);
    let outcome = check_and_merge_svg(&mut info, &mut stroke, &mut library, 99);
    assert!(outcome.merged);
    assert_eq!(outcome.despawned, vec![7]);
    assert_eq!(
        outcome.grid_path,
        vec![p(0, 0), p(10_000, 0), p(5000, -5000), p(5000, 5000)]
    );
    assert_eq!(library.lines.len(), 1);
    assert_eq!(
        entries_of(&library),
        vec![(
            99,
            vec![
                v(0, 0),
                v(10_000, 0),
                PathPoint::Break,
                v(5000, -5000),
                v(5000, 5000),
                PathPoint::Break,
            ]
        )]
    );
    assert!(stroke.points.is_empty());
    assert_eq!(info.counter, 1);
    assert_eq!(info.last_pos, None);
}

#[test]
fn a_stroke_that_crosses_nothing_adds_one_entry() {
    let mut info = DrawingInfo::new();
    let mut stroke = stroke_of(vec![p(0, 0), p(5000, 0), p(10_000, 0)]);
    let mut library = library_of(vec![(7, vec![v(50_000, -5000), v(50_000, 5000)])]);
    let outcome = check_and_merge_svg(&mut info, &mut stroke, &mut library, 99);
    assert!(outcome.merged);
    assert!(outcome.despawned.is_empty());
    assert_eq!(outcome.grid_path, vec![p(0, 0), p(10_000, 0)]);
    assert_eq!(
        entries_of(&library),
        vec![
            (7, vec![v(50_000, -5000), v(50_000, 5000)]),
            (99, vec![v(0, 0), v(10_000, 0), PathPoint::Break]),
        ]
    );
}

#[test]
fn a_stroke_takes_in_every_entry_it_crosses() {
    let mut info = DrawingInfo::new();
    let mut stroke = stroke_of(vec![p(0, 0), p(5000, 0), p(10_000, 0)]);
    let mut library = library_of(vec![
        (1, vec![v(2000, -5000), v(2000, 5000)]),
        (2, vec![v(0, 9000), v(10_000, 9000)]),
        (3, vec![v(70_000, 0), v(80_000, 0), PathPoint::Break, v(8000, 5000), v(8000, -5000)]),
    ]);
    let outcome = check_and_merge_svg(&mut info, &mut stroke, &mut library, 4);
    assert!(outcome.merged);
    assert_eq!(outcome.despawned, vec![1, 3]);
    assert_eq!(
        entries_of(&library),
        vec![
            (2, vec![v(0, 9000), v(10_000, 9000)]),
            (
                4,
                vec![
                    v(0, 0),
                    v(10_000, 0),
                    PathPoint::Break,
                    v(2000, -5000),
                    v(2000, 5000),
                    PathPoint::Break,
                    v(70_000, 0),
                    v(80_000, 0),
                    PathPoint::Break,
                    v(8000, 5000),
                    v(8000, -5000),
                    PathPoint::Break,
                ]
            ),
        ]
    );
    assert_eq!(
        outcome.grid_path,
        vec![
            p(0, 0),
            p(10_000, 0),
            p(2000, -5000),
            p(2000, 5000),
            p(70_000, 0),
            p(80_000, 0),
            p(8000, 5000),
            p(8000, -5000),
        ]
    );
}

#[test]
fn merge_leaves_the_visuals_of_the_stroke_alone() {
    let mut info = DrawingInfo::new();
    let mut stroke = stroke_of(vec![p(0, 0), p(5000, 0)]);
    stroke.line_entities = vec![11, 12];
    let mut library = SvgLibrary::new();
    let outcome = check_and_merge_svg(&mut info, &mut stroke, &mut library, 1);
    assert!(outcome.merged);
    assert_eq!(stroke.line_entities, vec![11, 12]);
    assert_eq!(entries_of(&library), vec![(1, vec![v(0, 0), v(5000, 0), PathPoint::Break])]);
}

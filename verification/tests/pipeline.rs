use svgdraw::draw_input::drawing_control_system;
use svgdraw::draw_input::ControlEvent;
use svgdraw::draw_logic::compute_new_pos;
use svgdraw::draw_logic::drawing;
use svgdraw::draw_logic::drawing_confirmation_system;
use svgdraw::draw_logic::drawing_cooldown_system;
use svgdraw::draw_logic::finalize_svg_drawing;
use svgdraw::draw_logic::find_crossing;
use svgdraw::draw_logic::is_entry_blocked;
use svgdraw::draw_logic::moving_fast_enough;
use svgdraw::draw_logic::segments_from_path;
use svgdraw::draw_logic::update_drawing_points;
use svgdraw::draw_logic::TickOutcome;
use svgdraw::draw_logic::BLOCK_RADIUS;
use svgdraw::draw_logic::MIN_MOUSE_VELOCITY;
use svgdraw::draw_logic::MIN_TICK_US;
use svgdraw::draw_logic::SNAP_RADIUS;
use svgdraw::draw_state::DrawingFinalizeState;
use svgdraw::draw_state::DrawingInfo;
use svgdraw::draw_state::DrawingPoints;
use svgdraw::draw_state::FollowConfig;
use svgdraw::draw_state::PendingSegments;
use svgdraw::draw_undo_delete::undo_last_drawing;
use svgdraw::draw_undo_delete::undo_points;
use svgdraw::draw_undo_delete::UNDO_COUNT;
use svgdraw::merge_svg::SvgLibrary;
use svgdraw::point::PathPoint;
use svgdraw::point::Point2;
use svgdraw::point::COORD_MAX;
use svgdraw::settings::drawing_toggle_system;
use svgdraw::settings::snap_toggle_system;
use svgdraw::spatial_grid::PathSegment;
use svgdraw::spatial_grid::Rect;
use svgdraw::spatial_grid::SnapState;
use svgdraw::spatial_grid::SpatialGrid;

fn p(x: i32, y: i32) -> Point2 {
    Point2 { x, y }
}

fn v(x: i32, y: i32) -> PathPoint {
    PathPoint::Vertex(Point2 { x, y })
}

fn seg(x0: i32, y0: i32, x1: i32, y1: i32) -> PathSegment {
    PathSegment { start: p(x0, y0), end: p(x1, y1), id: 0 }
}

struct Session {
    info: DrawingInfo,
    points: DrawingPoints,
    library: SvgLibrary,
    grid: SpatialGrid,
    pending: PendingSegments,
    snap: SnapState,
    config: FollowConfig,
}

impl Session {
    fn new(segments: Vec<PathSegment>) -> Session {
        let mut grid = SpatialGrid::new(50_000);
        grid.insert_segments(segments);
        grid.rebuild_grid();
        Session {
            info: DrawingInfo::new(),
            points: DrawingPoints::new(),
            library: SvgLibrary::new(),
            grid,
            pending: PendingSegments::new(),
            snap: SnapState::new(),
            config: FollowConfig { speed: 2000 },
        }
    }

    fn started(segments: Vec<PathSegment>) -> Session {
        let mut session = Session::new(segments);
        session.info.drawing_enabled = true;
        assert_eq!(drawing_control_system(true, &mut session.info), ControlEvent::Started);
        session
    }

    fn tick(&mut self, fired: bool, mouse: Point2, now: u64) -> TickOutcome {
        drawing(
            &mut self.info,
            &mut self.points,
            &mut self.library,
            &mut self.grid,
            &mut self.pending,
            &mut self.snap,
            &self.config,
            fired,
            mouse,
            now,
            500,
        )
    }
}

#[test]
fn pipeline_constants_are_in_lattice_steps() {
    assert_eq!(MIN_MOUSE_VELOCITY, 1000);
    assert_eq!(SNAP_RADIUS, 15_000);
    assert_eq!(BLOCK_RADIUS, 7000);
    assert_eq!(MIN_TICK_US, 100);
    assert_eq!(UNDO_COUNT, 30);
}

#[test]
fn a_click_starts_pauses_and_resumes() {
    let mut info = DrawingInfo::new();
    assert_eq!(drawing_control_system(true, &mut info), ControlEvent::Ignored);
    assert!(!info.is_drawing);
    assert!(drawing_toggle_system(true, &mut info));
    assert!(info.drawing_enabled);
    assert_eq!(drawing_control_system(false, &mut info), ControlEvent::Ignored);
    assert!(!info.is_drawing);
    assert_eq!(drawing_control_system(true, &mut info), ControlEvent::Started);
    assert!(info.is_drawing && !info.is_paused);
    assert!(info.is_capturing());
    assert_eq!(drawing_control_system(true, &mut info), ControlEvent::Paused);
    assert!(info.is_drawing && info.is_paused);
    assert!(!info.is_capturing());
    assert_eq!(drawing_control_system(true, &mut info), ControlEvent::Resumed);
    assert!(info.is_drawing && !info.is_paused);
}

#[test]
fn switches_toggle_when_pressed() {
    let mut snap = SnapState::new();
    assert_eq!(snap.blocked_range, 20);
    assert!(!snap.is_enabled);
    assert!(!snap_toggle_system(false, &mut snap));
    assert!(snap_toggle_system(true, &mut snap));
    assert!(snap.is_enabled);
    assert!(!snap_toggle_system(true, &mut snap));
    assert!(!snap.is_enabled);
    let mut info = DrawingInfo::new();
    assert!(!drawing_toggle_system(false, &mut info));
    assert!(drawing_toggle_system(true, &mut info));
    assert!(!drawing_toggle_system(true, &mut info));
    assert!(!info.drawing_enabled);
}

#[test]
fn undo_takes_thirty_points_back() {
    let mut points = DrawingPoints::new();
    let mut pending = PendingSegments::new();
    for i in 0..40 {
        points.points.push(p(i, 0));
        if i > 0 {
            pending.segments.push(seg(i - 1, 0, i, 0));
        }
    }
    undo_last_drawing(false, &mut points, &mut pending);
    assert_eq!(points.points.len(), 40);
    assert_eq!(pending.segments.len(), 39);
    undo_last_drawing(true, &mut points, &mut pending);
    assert_eq!(points.points.len(), 10);
    assert_eq!(pending.segments.len(), 9);
    assert_eq!(points.points[9], p(9, 0));
    assert_eq!(pending.segments[8], seg(8, 0, 9, 0));
    undo_last_drawing(true, &mut points, &mut pending);
    assert!(points.points.is_empty());
    assert!(pending.segments.is_empty());
    undo_last_drawing(true, &mut points, &mut pending);
    assert!(points.points.is_empty());
}

#[test]
fn undo_leaves_the_difference_or_nothing() {
    for n in [0usize, 1, 7, 29, 30, 31, 100] {
        for k in [0usize, 1, 5, 29, 30] {
            let mut points = DrawingPoints::new();
            let mut pending = PendingSegments::new();
            for i in 0..n {
                points.points.push(p(i as i32, 0));
            }
            undo_points(&mut points, &mut pending, k);
            let left = if n >= k { n - k } else { 0 };
            assert_eq!(points.points.len(), left);
            for i in 0..left {
                assert_eq!(points.points[i], p(i as i32, 0));
            }
        }
    }
}

#[test]
fn cooldown_ends_when_its_timer_has_run_out() {
    let mut info = DrawingInfo::new();
    assert_eq!(DrawingFinalizeState::default(), DrawingFinalizeState::Idle);
    assert_eq!(DrawingInfo::default().finalize_state, DrawingFinalizeState::Idle);
    assert!(!DrawingInfo::default().drawing_enabled);
    assert!(DrawingPoints::default().points.is_empty());
    assert!(PendingSegments::default().segments.is_empty());
    assert!(SvgLibrary::default().lines.is_empty());
    assert_eq!(FollowConfig::default().speed, 0);
    assert!(!drawing_cooldown_system(&mut info, true));
    info.finalize_state = DrawingFinalizeState::Cooldown;
    assert!(!drawing_cooldown_system(&mut info, false));
    assert_eq!(info.finalize_state, DrawingFinalizeState::Cooldown);
    assert!(drawing_cooldown_system(&mut info, true));
    assert_eq!(info.finalize_state, DrawingFinalizeState::Idle);
}

#[test]
fn the_cursor_is_fast_enough_above_one_unit_a_second() {
    let mut info = DrawingInfo::new();
    // the first point of a stroke is always fast enough
    assert!(moving_fast_enough(&info, p(0, 0), 0));
    info.last_mouse_pos = Some(p(0, 0));
    info.last_mouse_time = Some(1_000_000);
    assert!(moving_fast_enough(&info, p(1001, 0), 2_000_000));
    assert!(!moving_fast_enough(&info, p(1000, 0), 2_000_000));
    assert!(!moving_fast_enough(&info, p(500, 0), 2_000_000));
    assert!(moving_fast_enough(&info, p(500, 0), 1_400_000));
    assert!(!moving_fast_enough(&info, p(0, 0), 1_000_001));
    // no less than a tenth of a millisecond is reckoned with
    assert!(moving_fast_enough(&info, p(1, 0), 1_000_000));
    assert!(moving_fast_enough(&info, p(1, 0), 999_000));
    assert!(!moving_fast_enough(&info, p(0, 0), 999_000));
    // without a time the least time counts
    info.last_mouse_time = None;
    assert!(moving_fast_enough(&info, p(1, 0), 5_000_000));
    // a very long time
    info.last_mouse_time = Some(0);
    assert!(!moving_fast_enough(&info, p(COORD_MAX, COORD_MAX), u64::MAX));
}

#[test]
fn the_stroke_follows_the_cursor_at_a_fixed_speed() {
    let mut info = DrawingInfo::new();
    assert_eq!(compute_new_pos(&info, p(700, -300), 2000), p(700, -300));
    info.last_pos = Some(p(0, 0));
    assert_eq!(compute_new_pos(&info, p(10_000, 0), 2000), p(2000, 0));
    assert_eq!(compute_new_pos(&info, p(0, -10_000), 2000), p(0, -2000));
    assert_eq!(compute_new_pos(&info, p(3000, 4000), 2000), p(1200, 1600));
    // the step is not cut short at the cursor
    assert_eq!(compute_new_pos(&info, p(100, 0), 2000), p(2000, 0));
    // however near the cursor is, the step has the length of the speed
    assert_eq!(compute_new_pos(&info, p(1, 1), 2000), p(1414, 1414));
    assert_eq!(compute_new_pos(&info, p(-1, 2), 2000), p(-894, 1789));
    assert_eq!(compute_new_pos(&info, p(1, 0), 0), p(0, 0));
    // no direction, no step
    assert_eq!(compute_new_pos(&info, p(0, 0), 2000), p(0, 0));
    info.last_pos = Some(p(COORD_MAX, 0));
    assert_eq!(compute_new_pos(&info, p(COORD_MAX - 1, 0), 2000), p(COORD_MAX - 2000, 0));
    info.last_pos = Some(p(COORD_MAX - 500, 0));
    assert_eq!(compute_new_pos(&info, p(COORD_MAX, 0), 2000), p(COORD_MAX, 0));
}

#[test]
fn capture_keeps_the_point_and_the_segment_to_it() {
    let mut info = DrawingInfo::new();
    let mut points = DrawingPoints::new();
    let mut pending = PendingSegments::new();
    update_drawing_points(&mut info, &mut points, &mut pending, p(1, 1), p(9, 9), 77);
    assert_eq!(points.points, vec![p(1, 1)]);
    assert!(pending.segments.is_empty());
    assert_eq!(info.last_pos, Some(p(1, 1)));
    assert_eq!(info.last_mouse_pos, Some(p(9, 9)));
    assert_eq!(info.last_mouse_time, Some(77));
    update_drawing_points(&mut info, &mut points, &mut pending, p(2, 3), p(8, 8), 99);
    assert_eq!(points.points, vec![p(1, 1), p(2, 3)]);
    assert_eq!(pending.segments, vec![PathSegment { start: p(1, 1), end: p(2, 3), id: 0 }]);
    update_drawing_points(&mut info, &mut points, &mut pending, p(5, 5), p(8, 8), 120);
    assert_eq!(pending.segments[1], PathSegment { start: p(2, 3), end: p(5, 5), id: 1 });
    assert_eq!(info.last_mouse_time, Some(120));
}

#[test]
fn segments_from_path_join_consecutive_points() {
    let path = vec![p(0, 0), p(1, 0), p(1, 1)];
    assert_eq!(
        segments_from_path(&path),
        vec![
            PathSegment { start: p(0, 0), end: p(1, 0), id: 0 },
            PathSegment { start: p(1, 0), end: p(1, 1), id: 1 },
        ]
    );
    assert!(segments_from_path(&[p(3, 3)]).is_empty());
    assert!(segments_from_path(&[]).is_empty());
}

#[test]
fn crossing_is_found_at_the_first_segment_in_the_list() {
    let session = Session::new(vec![
        seg(9000, -5000, 9000, 5000),
        seg(5000, -5000, 5000, 9000),
        seg(7, 7, 7, 7),
    ]);
    let found = find_crossing(&session.grid, p(0, 0), p(10_000, 0));
    assert_eq!(
        found,
        Some((PathSegment { start: p(9000, -5000), end: p(9000, 5000), id: 0 }, p(9000, 0)))
    );
    let found = find_crossing(&session.grid, p(0, 0), p(6000, 0));
    assert_eq!(
        found,
        Some((PathSegment { start: p(5000, -5000), end: p(5000, 9000), id: 1 }, p(5000, 0)))
    );
    assert_eq!(find_crossing(&session.grid, p(0, 0), p(4000, 0)), None);
}

#[test]
fn entry_is_blocked_beside_the_middle_of_a_segment() {
    let mut session = Session::new(vec![seg(0, 0, 100_000, 0)]);
    session.grid.set_bounds(p(0, -20_000), p(100_000, 20_000));
    assert!(is_entry_blocked(&session.grid, p(50_000, 1000)));
    assert!(is_entry_blocked(&session.grid, p(50_000, 6999)));
    assert!(is_entry_blocked(&session.grid, p(50_000, -4999)));
    // the segment is looked for one cell around the cursor only
    assert!(!is_entry_blocked(&session.grid, p(50_000, -6999)));
    // too far from the segment
    assert!(!is_entry_blocked(&session.grid, p(50_000, 7000)));
    // near an end
    assert!(!is_entry_blocked(&session.grid, p(1000, 1000)));
    assert!(!is_entry_blocked(&session.grid, p(14_999, 1000)));
    assert!(is_entry_blocked(&session.grid, p(15_000, 1000)));
    assert!(!is_entry_blocked(&session.grid, p(99_000, 1000)));
    // outside the bounds nothing is found
    assert!(!is_entry_blocked(&session.grid, p(50_000, 20_001)));
}

#[test]
fn a_tick_does_nothing_while_no_stroke_is_drawn() {
    let mut session = Session::new(vec![]);
    assert!(matches!(session.tick(true, p(0, 0), 0), TickOutcome::Inactive));
    session.info.drawing_enabled = true;
    drawing_control_system(true, &mut session.info);
    drawing_control_system(true, &mut session.info);
    assert!(session.info.is_paused);
    assert!(matches!(session.tick(true, p(0, 0), 0), TickOutcome::Inactive));
    assert!(session.points.points.is_empty());
}

#[test]
fn a_tick_waits_for_its_timer() {
    let mut session = Session::started(vec![]);
    assert!(matches!(session.tick(false, p(0, 0), 0), TickOutcome::NotDue));
    assert!(session.points.points.is_empty());
    assert_eq!(session.info.last_pos, None);
}

#[test]
fn the_first_tick_captures_the_cursor() {
    let mut session = Session::started(vec![]);
    assert!(matches!(session.tick(true, p(4000, 100), 5), TickOutcome::Accepted));
    assert_eq!(session.points.points, vec![p(4000, 100)]);
    assert!(session.pending.segments.is_empty());
    assert_eq!(session.info.last_pos, Some(p(4000, 100)));
    assert_eq!(session.info.last_mouse_pos, Some(p(4000, 100)));
    assert_eq!(session.info.last_mouse_time, Some(5));
}

#[test]
fn later_ticks_follow_the_cursor() {
    let mut session = Session::started(vec![]);
    assert!(matches!(session.tick(true, p(0, 0), 0), TickOutcome::Accepted));
    assert!(matches!(session.tick(true, p(10_000, 0), 64_000), TickOutcome::Accepted));
    assert!(matches!(session.tick(true, p(10_000, 10_000), 128_000), TickOutcome::Accepted));
    assert_eq!(session.points.points, vec![p(0, 0), p(2000, 0), p(3249, 1562)]);
    assert_eq!(
        session.pending.segments,
        vec![
            PathSegment { start: p(0, 0), end: p(2000, 0), id: 0 },
            PathSegment { start: p(2000, 0), end: p(3249, 1562), id: 1 },
        ]
    );
    assert_eq!(session.info.last_mouse_pos, Some(p(10_000, 10_000)));
}

#[test]
fn a_slow_cursor_captures_nothing() {
    let mut session = Session::started(vec![]);
    assert!(matches!(session.tick(true, p(0, 0), 0), TickOutcome::Accepted));
    assert!(matches!(session.tick(true, p(50, 0), 64_000), TickOutcome::TooSlow));
    assert_eq!(session.points.points, vec![p(0, 0)]);
    assert_eq!(session.info.last_mouse_pos, Some(p(0, 0)));
    assert_eq!(session.info.last_mouse_time, Some(0));
    assert!(matches!(session.tick(true, p(65, 0), 64_000), TickOutcome::Accepted));
}

#[test]
fn a_blocked_entry_captures_nothing() {
    let mut session = Session::started(vec![seg(0, 0, 100_000, 0)]);
    session.grid.set_bounds(p(0, -20_000), p(100_000, 20_000));
    assert!(matches!(session.tick(true, p(50_000, 1000), 0), TickOutcome::Blocked));
    assert!(session.points.points.is_empty());
    assert_eq!(session.info.last_mouse_pos, None);
    assert!(matches!(session.tick(true, p(50_000, 8000), 0), TickOutcome::Accepted));
}

#[test]
fn a_crossing_waits_to_be_confirmed() {
    let mut session = Session::started(vec![seg(5000, -5000, 5000, 6000)]);
    assert!(matches!(session.tick(true, p(4000, 0), 0), TickOutcome::Accepted));
    assert!(matches!(session.tick(true, p(40_000, 0), 64_000), TickOutcome::CrossingFound));
    assert_eq!(session.points.points, vec![p(4000, 0)]);
    assert!(session.info.confirm_pending);
    assert_eq!(session.info.confirm_point, Some(p(5000, -5000)));
    assert_eq!(session.info.confirm_seg_id, Some(0));
    assert!(!session.info.confirm_prompt_printed);
    assert_eq!(session.info.last_pos, Some(p(4000, 0)));
    assert_eq!(session.info.last_mouse_pos, Some(p(4000, 0)));
    // the question is put once, and capture is held up
    assert!(matches!(session.tick(true, p(40_000, 0), 128_000), TickOutcome::PromptRequested));
    assert!(session.info.confirm_prompt_printed);
    assert!(matches!(session.tick(true, p(40_000, 0), 192_000), TickOutcome::AwaitingAnswer));
    assert!(matches!(session.tick(false, p(40_000, 0), 200_000), TickOutcome::AwaitingAnswer));
    assert_eq!(session.points.points, vec![p(4000, 0)]);
}

#[test]
fn of_two_ends_as_near_the_far_end_is_offered() {
    let mut session = Session::started(vec![seg(5000, -5000, 5000, 5000)]);
    assert!(matches!(session.tick(true, p(4000, 0), 0), TickOutcome::Accepted));
    assert!(matches!(session.tick(true, p(40_000, 0), 64_000), TickOutcome::CrossingFound));
    assert_eq!(session.info.confirm_point, Some(p(5000, 5000)));
}

#[test]
fn no_forgets_the_crossing_and_capture_goes_on() {
    let mut session = Session::started(vec![seg(5000, -5000, 5000, 6000)]);
    session.tick(true, p(4000, 0), 0);
    session.tick(true, p(40_000, 0), 64_000);
    assert!(session.info.confirm_pending);
    let answer = drawing_confirmation_system(
        false,
        false,
        &mut session.info,
        &mut session.points,
        &mut session.pending,
        &mut session.library,
        &mut session.grid,
        &mut session.snap,
        500,
    );
    assert!(answer.is_none());
    assert!(session.info.confirm_pending);
    let answer = drawing_confirmation_system(
        false,
        true,
        &mut session.info,
        &mut session.points,
        &mut session.pending,
        &mut session.library,
        &mut session.grid,
        &mut session.snap,
        500,
    );
    assert!(answer.is_none());
    assert!(!session.info.confirm_pending);
    assert_eq!(session.info.confirm_point, None);
    assert_eq!(session.info.confirm_seg_id, None);
    assert!(!session.info.confirm_prompt_printed);
    assert_eq!(session.points.points, vec![p(4000, 0)]);
    assert!(session.info.is_drawing);
    assert!(session.library.lines.is_empty());
    assert_eq!(session.grid.segments.len(), 1);
    // capture goes on, away from the segment
    assert!(matches!(session.tick(true, p(0, 0), 128_000), TickOutcome::Accepted));
    assert_eq!(session.points.points, vec![p(4000, 0), p(2000, 0)]);
}

#[test]
fn an_answer_without_a_question_does_nothing() {
    let mut session = Session::started(vec![]);
    session.tick(true, p(4000, 0), 0);
    let answer = drawing_confirmation_system(
        true,
        true,
        &mut session.info,
        &mut session.points,
        &mut session.pending,
        &mut session.library,
        &mut session.grid,
        &mut session.snap,
        500,
    );
    assert!(answer.is_none());
    assert_eq!(session.points.points, vec![p(4000, 0)]);
    assert!(session.info.is_drawing);
    assert_eq!(session.info.counter, 0);
}

#[test]
fn yes_ends_the_stroke_on_the_offered_point() {
    let mut session = Session::started(vec![seg(30_000, -5000, 30_000, 6000)]);
    session.snap.is_blocking = true;
    session.snap.initial_snap_pos = Some(p(1, 1));
    session.tick(true, p(0, 0), 0);
    let mut now = 0;
    let mut mouse_x = 60_000;
    while session.points.points.len() < 15 {
        now += 64_000;
        mouse_x += 1000;
        assert!(matches!(session.tick(true, p(mouse_x, 0), now), TickOutcome::Accepted));
    }
    assert_eq!(session.points.points[14], p(28_000, 0));
    now += 64_000;
    assert!(matches!(session.tick(true, p(mouse_x + 1000, 0), now), TickOutcome::CrossingFound));
    assert_eq!(session.info.confirm_point, Some(p(30_000, -5000)));
    let answer = drawing_confirmation_system(
        true,
        false,
        &mut session.info,
        &mut session.points,
        &mut session.pending,
        &mut session.library,
        &mut session.grid,
        &mut session.snap,
        500,
    );
    let merge = answer.unwrap();
    assert!(merge.merged);
    // the stroke ran level and then turned to the offered point
    assert_eq!(merge.grid_path, vec![p(0, 0), p(24_000, 0), p(30_000, -5000)]);
    assert!(merge.despawned.is_empty());
    assert_eq!(session.library.lines.len(), 1);
    assert_eq!(session.library.lines[0].0, 500);
    assert_eq!(
        session.library.lines[0].1.path,
        vec![v(0, 0), v(24_000, 0), v(30_000, -5000), PathPoint::Break]
    );
    // the index has the new segments and is rebuilt
    assert_eq!(session.grid.segments.len(), 3);
    assert_eq!(
        session.grid.segments[1],
        PathSegment { start: p(0, 0), end: p(24_000, 0), id: 1 }
    );
    assert_eq!(
        session.grid.segments[2],
        PathSegment { start: p(24_000, 0), end: p(30_000, -5000), id: 2 }
    );
    assert_eq!(session.grid.bounds, Rect { min: p(0, -5000), max: p(30_000, 6000) });
    assert_eq!(session.grid.cols, 6);
    assert_eq!(session.grid.rows, 3);
    // everything that belonged to the stroke is forgotten
    assert!(session.points.points.is_empty());
    assert!(session.pending.segments.is_empty());
    assert!(!session.info.is_drawing);
    assert!(!session.info.is_paused);
    assert!(!session.info.confirm_pending);
    assert_eq!(session.info.confirm_point, None);
    assert_eq!(session.info.confirm_seg_id, None);
    assert_eq!(session.info.last_pos, None);
    assert_eq!(session.info.last_mouse_pos, None);
    assert_eq!(session.info.last_mouse_time, None);
    assert_eq!(session.info.counter, 1);
    assert!(session.info.drawing_enabled);
    assert!(!session.snap.is_blocking);
    assert_eq!(session.snap.initial_snap_pos, None);
    assert_eq!(session.snap.initial_seg_id, None);
    assert_eq!(session.snap.blocked_range, 20);
}

#[test]
fn finalize_snaps_the_first_point_onto_committed_geometry() {
    let mut session = Session::new(vec![seg(0, 0, 0, 50_000), seg(0, 0, 50_000, 0)]);
    session.points.points = vec![p(3000, 20_000), p(20_000, 20_000), p(40_000, 30_000)];
    let merge = finalize_svg_drawing(
        &mut session.info,
        &mut session.points,
        &mut session.pending,
        &mut session.library,
        &mut session.grid,
        &mut session.snap,
        9,
    );
    assert!(merge.merged);
    assert_eq!(merge.grid_path[0], p(0, 20_000));
    assert_eq!(merge.grid_path[merge.grid_path.len() - 1], p(40_000, 30_000));
    assert_eq!(session.grid.segments.len(), 2 + merge.grid_path.len() - 1);
    assert_eq!(session.grid.segments[2].start, p(0, 20_000));
    assert_eq!(session.grid.segments[2].id, 2);
    assert_eq!(session.info.counter, 1);
}

#[test]
fn finalize_leaves_a_far_first_point_alone() {
    let mut session = Session::new(vec![seg(0, 0, 0, 50_000), seg(0, 0, 50_000, 0)]);
    session.points.points = vec![p(15_000, 20_000), p(30_000, 20_000)];
    let merge = finalize_svg_drawing(
        &mut session.info,
        &mut session.points,
        &mut session.pending,
        &mut session.library,
        &mut session.grid,
        &mut session.snap,
        9,
    );
    assert_eq!(merge.grid_path, vec![p(15_000, 20_000), p(30_000, 20_000)]);
}

#[test]
fn finalize_of_a_degenerate_stroke_commits_nothing() {
    let mut session = Session::new(vec![seg(0, 0, 0, 50_000)]);
    session.info.is_drawing = true;
    session.points.points = vec![p(20_000, 20_000)];
    let cells = session.grid.cells.clone();
    let merge = finalize_svg_drawing(
        &mut session.info,
        &mut session.points,
        &mut session.pending,
        &mut session.library,
        &mut session.grid,
        &mut session.snap,
        9,
    );
    assert!(!merge.merged);
    assert!(merge.grid_path.is_empty());
    assert!(session.library.lines.is_empty());
    assert_eq!(session.grid.segments.len(), 1);
    assert_eq!(session.grid.cells, cells);
    assert!(session.points.points.is_empty());
    assert!(!session.info.is_drawing);
    assert_eq!(session.info.counter, 1);
}

#[test]
fn a_stroke_that_leaves_the_neighbourhood_of_its_start_finishes_itself() {
    let mut session = Session::started(vec![]);
    session.snap.initial_seg_id = Some(100);
    session.info.snapped_seg_id = Some(121);
    assert!(matches!(session.tick(true, p(0, 0), 0), TickOutcome::Accepted));
    assert_eq!(session.points.points.len(), 1);
    let outcome = session.tick(true, p(60_000, 0), 64_000);
    match outcome {
        TickOutcome::Finalized(merge) => {
            assert!(merge.merged);
            assert_eq!(merge.grid_path, vec![p(0, 0), p(2000, 0)]);
        },
        _ => panic!("the stroke should have finished"),
    }
    assert!(session.points.points.is_empty());
    assert!(!session.info.is_drawing);
    assert_eq!(session.info.snapped_seg_id, None);
    assert_eq!(session.snap.initial_seg_id, None);
    assert_eq!(session.library.lines.len(), 1);
    assert_eq!(session.grid.segments.len(), 1);
    assert!(session.pending.segments.is_empty());
}

#[test]
fn a_stroke_inside_the_neighbourhood_of_its_start_goes_on() {
    for snapped in [Some(80), Some(100), Some(120), None] {
        let mut session = Session::started(vec![]);
        session.snap.initial_seg_id = Some(100);
        session.info.snapped_seg_id = snapped;
        session.tick(true, p(0, 0), 0);
        assert!(matches!(session.tick(true, p(60_000, 0), 64_000), TickOutcome::Accepted));
        assert_eq!(session.points.points.len(), 2);
    }
    let mut session = Session::started(vec![]);
    session.info.snapped_seg_id = Some(500);
    session.tick(true, p(0, 0), 0);
    assert!(matches!(session.tick(true, p(60_000, 0), 64_000), TickOutcome::Accepted));
    let mut session = Session::started(vec![]);
    session.snap.initial_seg_id = Some(100);
    session.info.snapped_seg_id = Some(79);
    session.tick(true, p(0, 0), 0);
    assert!(matches!(session.tick(true, p(60_000, 0), 64_000), TickOutcome::Finalized(_)));
}

#[test]
fn a_step_has_the_length_of_the_speed() {
    let mut info = DrawingInfo::new();
    info.last_pos = Some(p(100, -200));
    for speed in [0u32, 1, 2, 7, 2000, 65_535] {
        for (x, y) in [(1, 0), (1, 1), (-1, 2), (3, -4), (-700, -1), (9999, 10_001), (0, -5)] {
            let next = compute_new_pos(&info, p(100 + x, -200 + y), speed);
            let dx = (next.x - 100) as i64;
            let dy = (next.y + 200) as i64;
            let length = dx * dx + dy * dy;
            let speed = speed as i64;
            assert!(length <= (speed + 1) * (speed + 1));
            if speed >= 1 {
                assert!(length >= (speed - 1) * (speed - 1));
            }
            // and it points the way of the cursor
            assert!(dx * x as i64 >= 0 && dy * y as i64 >= 0);
        }
    }
}

#[test]
fn finalize_starts_the_stroke_on_the_point_that_the_index_finds() {
    let mut session = Session::new(vec![seg(0, 21_212, 21_212, 0)]);
    session.points.points = vec![p(0, 0), p(0, -5000)];
    session.info.confirm_point = Some(p(0, -6000));
    let found = session.grid.query_nearest_point(p(0, 0), SNAP_RADIUS, None, 0);
    assert_eq!(found, Some((p(10_606, 10_606), 0)));
    let merge = finalize_svg_drawing(
        &mut session.info,
        &mut session.points,
        &mut session.pending,
        &mut session.library,
        &mut session.grid,
        &mut session.snap,
        9,
    );
    assert!(merge.merged);
    assert_eq!(merge.grid_path, vec![p(10_606, 10_606), p(0, -6000)]);
    assert_eq!(
        session.library.lines[0].1.path,
        vec![v(10_606, 10_606), v(0, -6000), PathPoint::Break]
    );
    assert_eq!(session.grid.segments.len(), 2);
    assert_eq!(
        session.grid.segments[1],
        PathSegment { start: p(10_606, 10_606), end: p(0, -6000), id: 1 }
    );
}

#[test]
fn finalize_leaves_the_start_where_the_index_finds_no_point_in_reach() {
    // the nearest point of the segment is (10606.5, 10606.5); on the
    // lattice it lies just beyond fifteen units
    let mut session = Session::new(vec![seg(0, 21_213, 21_213, 0)]);
    session.points.points = vec![p(0, 0), p(0, -5000)];
    session.info.confirm_point = Some(p(0, -6000));
    assert_eq!(session.grid.query_nearest_point(p(0, 0), SNAP_RADIUS, None, 0), None);
    let merge = finalize_svg_drawing(
        &mut session.info,
        &mut session.points,
        &mut session.pending,
        &mut session.library,
        &mut session.grid,
        &mut session.snap,
        9,
    );
    assert!(merge.merged);
    assert_eq!(merge.grid_path, vec![p(0, 0), p(0, -6000)]);
}

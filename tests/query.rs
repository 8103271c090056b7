use mapannot::geometry::Point;
use mapannot::overlay::{Drawable, DrawableType, OverlayRenderer};
use mapannot::query::{closest_circle, closest_line, closest_object, closest_point};

fn pt(x: i32, y: i32) -> Point {
    Point { x, y }
}

fn figure(id: i32, object_type: DrawableType, point1: Point, point2: Point) -> Drawable {
    Drawable { id, object_type, point1, point2, ..Default::default() }
}

#[test]
fn closest_line_prefers_the_line_through_the_query() {
    let drawables = vec![
        figure(1, DrawableType::Line, pt(1, 1), pt(3, 3)),
        figure(2, DrawableType::Segment, pt(2, 2), pt(4, 2)),
        figure(3, DrawableType::HalfLine, pt(5, 3), pt(5, 5)),
    ];
    assert_eq!(closest_line(pt(0, 0), &drawables).unwrap().id, 1);
}

#[test]
fn closest_line_uses_the_whole_line_of_a_segment() {
    let drawables = vec![
        figure(1, DrawableType::Segment, pt(100, 0), pt(101, 0)),
        figure(2, DrawableType::Segment, pt(1, 3), pt(1, 4)),
    ];
    // the first segment is far away, but its line passes through the query
    assert_eq!(closest_line(pt(0, 0), &drawables).unwrap().id, 1);
}

#[test]
fn closest_line_compares_exact_distances() {
    let drawables = vec![
        figure(1, DrawableType::Line, pt(0, 10), pt(10, 0)),
        figure(2, DrawableType::Line, pt(0, 7), pt(1, 7)),
        figure(3, DrawableType::Line, pt(0, 7), pt(2, 7)),
    ];
    // distances 10 / sqrt(2) > 7, and the first of two equal lines wins
    assert_eq!(closest_line(pt(0, 0), &drawables).unwrap().id, 2);
}

#[test]
fn closest_line_skips_other_kinds_and_coincident_points() {
    let drawables = vec![
        figure(1, DrawableType::Point, pt(0, 0), pt(0, 0)),
        figure(2, DrawableType::Circle, pt(0, 0), pt(5, 0)),
        figure(3, DrawableType::Segment, pt(1, 1), pt(1, 1)),
    ];
    assert!(closest_line(pt(0, 0), &drawables).is_none());
    assert!(closest_line(pt(0, 0), &Vec::new()).is_none());
}

#[test]
fn closest_line_at_the_extremes() {
    let drawables = vec![
        figure(1, DrawableType::Line, pt(i32::MIN, i32::MIN), pt(i32::MAX, i32::MIN + 1)),
        figure(2, DrawableType::Line, pt(i32::MIN, i32::MAX), pt(i32::MAX, i32::MIN)),
    ];
    assert_eq!(closest_line(pt(i32::MAX, i32::MAX), &drawables).unwrap().id, 2);
    assert_eq!(closest_line(pt(i32::MIN, i32::MIN + 5), &drawables).unwrap().id, 1);
}

#[test]
fn closest_point_over_a_snapshot() {
    let drawables = vec![
        figure(1, DrawableType::Point, pt(10, 10), pt(10, 10)),
        figure(2, DrawableType::Segment, pt(0, 0), pt(1, 1)),
        figure(3, DrawableType::Point, pt(-2, 1), pt(-2, 1)),
    ];
    assert_eq!(closest_point(pt(0, 0), &drawables).unwrap().id, 3);
    assert!(closest_point(pt(0, 0), &drawables[1..2].to_vec()).is_none());
}

#[test]
fn closest_circle_ranks_by_distance_to_the_rim() {
    let mut r = OverlayRenderer::new(200, 200);
    r.add_circle(pt(0, 0), 10);
    r.add_circle(pt(30, 0), 5);
    assert_eq!(r.closest_circle(pt(1, 0)).unwrap().id, 1);
    assert_eq!(r.closest_circle(pt(20, 0)).unwrap().id, 2);
    assert_eq!(r.closest_circle(pt(24, 0)).unwrap().id, 2);
}

#[test]
fn closest_circle_lets_an_inner_point_win() {
    let mut r = OverlayRenderer::new(200, 200);
    r.add_circle(pt(0, 0), 50);
    r.add_circle(pt(100, 0), 10);
    // inside the large circle, near its centre, 48 pixels from its rim
    assert_eq!(r.closest_circle(pt(2, 0)).unwrap().id, 1);
    assert_eq!(r.closest_circle(pt(95, 0)).unwrap().id, 2);
}

#[test]
fn closest_circle_with_irrational_distances() {
    let small_first = vec![
        figure(1, DrawableType::Circle, pt(0, 0), pt(3, 0)),
        figure(2, DrawableType::Circle, pt(7, 7), pt(16, 7)),
    ];
    // sqrt(32) - 3 against sqrt(18) - 9
    assert_eq!(closest_circle(pt(4, 4), &small_first).unwrap().id, 2);
    let large_first = vec![small_first[1], small_first[0]];
    assert_eq!(closest_circle(pt(4, 4), &large_first).unwrap().id, 2);
    // sqrt(4) - 3 against sqrt(74) - 9
    assert_eq!(closest_circle(pt(2, 0), &small_first).unwrap().id, 1);
    assert_eq!(closest_circle(pt(2, 0), &large_first).unwrap().id, 1);
}

#[test]
fn closest_circle_keeps_the_first_of_equals() {
    let drawables = vec![
        figure(1, DrawableType::Circle, pt(-10, 0), pt(-5, 0)),
        figure(2, DrawableType::Point, pt(0, 0), pt(0, 0)),
        figure(3, DrawableType::Circle, pt(10, 0), pt(15, 0)),
    ];
    assert_eq!(closest_circle(pt(0, 0), &drawables).unwrap().id, 1);
    assert!(closest_circle(pt(0, 0), &drawables[1..2].to_vec()).is_none());
}

#[test]
fn overlay_queries_use_its_figures() {
    let mut r = OverlayRenderer::new(100, 100);
    assert!(r.closest_line(pt(0, 0)).is_none());
    r.add_segment(pt(10, 10), pt(20, 10));
    r.add_point(pt(3, 3));
    r.add_line(pt(0, 50), pt(10, 50)).unwrap();
    assert_eq!(r.closest_line(pt(15, 40)).unwrap().id, 3);
    assert_eq!(r.closest_line(pt(15, 12)).unwrap().id, 1);
    assert_eq!(r.closest_point(pt(15, 12)).unwrap().id, 2);
    assert!(r.closest_circle(pt(15, 12)).is_none());
}

#[test]
fn closest_object_measures_each_kind() {
    let drawables = vec![
        figure(1, DrawableType::Circle, pt(0, 0), pt(10, 0)),
        figure(2, DrawableType::Point, pt(20, 0), pt(20, 0)),
    ];
    // 12 - 10 against 8
    assert_eq!(closest_object(pt(12, 0), &drawables).unwrap().id, 1);
    // 17 - 10 against 3
    assert_eq!(closest_object(pt(17, 0), &drawables).unwrap().id, 2);
}

#[test]
fn closest_object_takes_the_line_of_a_segment_beside_its_end() {
    let segment = figure(1, DrawableType::Segment, pt(0, 0), pt(10, 0));
    // from (20, 5) the segment counts as 5 away, its line's distance
    let near = vec![segment, figure(2, DrawableType::Point, pt(20, 9), pt(20, 9))];
    assert_eq!(closest_object(pt(20, 5), &near).unwrap().id, 2);
    let far = vec![segment, figure(2, DrawableType::Point, pt(20, 11), pt(20, 11))];
    assert_eq!(closest_object(pt(20, 5), &far).unwrap().id, 1);
}

#[test]
fn closest_object_half_line_and_degenerate_figures() {
    let drawables = vec![
        figure(1, DrawableType::Line, pt(3, 3), pt(3, 3)),
        figure(2, DrawableType::HalfLine, pt(0, 0), pt(10, 0)),
        figure(3, DrawableType::Point, pt(-5, 6), pt(-5, 6)),
    ];
    // the line through two equal points is never kept; the half-line is 3 away
    assert_eq!(closest_object(pt(-5, 3), &drawables).unwrap().id, 2);
    let ends = vec![
        figure(1, DrawableType::Segment, pt(4, 4), pt(4, 4)),
        figure(2, DrawableType::Point, pt(0, 6), pt(0, 6)),
    ];
    // a segment whose ends coincide is measured to them: 4 * sqrt(2) against 6
    assert_eq!(closest_object(pt(0, 0), &ends).unwrap().id, 1);
    assert!(closest_object(pt(0, 0), &drawables[0..1].to_vec()).is_none());
    assert!(closest_object(pt(0, 0), &Vec::new()).is_none());
}

#[test]
fn closest_object_between_circle_and_line() {
    let drawables = vec![
        figure(1, DrawableType::Line, pt(0, 0), pt(100, 0)),
        figure(2, DrawableType::Circle, pt(50, 50), pt(80, 50)),
    ];
    // inside the circle: 5 - 30 against 45
    assert_eq!(closest_object(pt(50, 45), &drawables).unwrap().id, 2);
    // 45 - 30 against 5
    assert_eq!(closest_object(pt(50, 5), &drawables).unwrap().id, 1);
}

#[test]
fn closest_object_with_irrational_distances() {
    let drawables = vec![
        figure(1, DrawableType::Segment, pt(10, 0), pt(10, 10)),
        figure(2, DrawableType::Circle, pt(0, 0), pt(3, 0)),
    ];
    // 4 against sqrt(37) - 3
    assert_eq!(closest_object(pt(6, 1), &drawables).unwrap().id, 2);
    // 3 against sqrt(50) - 3
    assert_eq!(closest_object(pt(7, 1), &drawables).unwrap().id, 1);
    let swapped = vec![drawables[1], drawables[0]];
    assert_eq!(closest_object(pt(6, 1), &swapped).unwrap().id, 2);
    assert_eq!(closest_object(pt(7, 1), &swapped).unwrap().id, 1);
}

#[test]
fn closest_object_keeps_the_first_of_equals() {
    let drawables = vec![
        figure(1, DrawableType::Point, pt(0, 5), pt(0, 5)),
        figure(2, DrawableType::Circle, pt(0, -8), pt(3, -8)),
        figure(3, DrawableType::Point, pt(5, 0), pt(5, 0)),
    ];
    assert_eq!(closest_object(pt(0, 0), &drawables).unwrap().id, 1);
}

#[test]
fn closest_object_at_the_extremes() {
    let drawables = vec![
        figure(1, DrawableType::Circle, pt(i32::MIN, 0), pt(i32::MAX, 0)),
        figure(2, DrawableType::Segment, pt(i32::MIN, i32::MIN), pt(i32::MAX, i32::MAX)),
    ];
    // on the rim of the huge circle against far from the diagonal
    assert_eq!(closest_object(pt(i32::MAX, 0), &drawables).unwrap().id, 1);
    // on the diagonal, but deep inside the circle, whose measure is negative there
    assert_eq!(closest_object(pt(-1, -1), &drawables).unwrap().id, 1);
    assert_eq!(closest_object(pt(i32::MAX, i32::MAX), &drawables).unwrap().id, 2);
}

#[test]
fn overlay_closest_object_uses_its_figures() {
    let mut r = OverlayRenderer::new(100, 100);
    assert!(r.closest_object(pt(0, 0)).is_none());
    r.add_circle(pt(50, 50), 10);
    r.add_segment(pt(0, 0), pt(20, 0));
    r.add_point(pt(90, 90));
    assert_eq!(r.closest_object(pt(55, 50)).unwrap().id, 1);
    assert_eq!(r.closest_object(pt(10, 3)).unwrap().id, 2);
    assert_eq!(r.closest_object(pt(88, 88)).unwrap().id, 3);
}

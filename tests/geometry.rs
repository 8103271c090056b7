use mapannot::geometry::{
    angle_terms, circle_center_from_three_points, find_line_extreme_coordinates, median_line, parallel_line,
    perpendicular_line, squared_distance, GeometryError, Point,
};

fn pt(x: i32, y: i32) -> Point {
    Point { x, y }
}

#[test]
fn squared_distance_of_three_four_five() {
    assert_eq!(squared_distance(pt(0, 0), pt(3, 4)), 25);
    assert_eq!(squared_distance(pt(3, 4), pt(0, 0)), 25);
    assert_eq!(squared_distance(pt(-7, 9), pt(-7, 9)), 0);
    assert_ne!(squared_distance(pt(-7, 9), pt(-7, 8)), 0);
}

#[test]
fn squared_distance_at_the_extremes() {
    let far = squared_distance(pt(i32::MIN, i32::MIN), pt(i32::MAX, i32::MAX));
    assert_eq!(far, 2 * (u32::MAX as u128) * (u32::MAX as u128));
}

#[test]
fn angle_terms_swap_sign_of_cross() {
    let (dot, cross) = angle_terms(pt(0, 0), pt(1, 0), pt(0, 0), pt(0, 1));
    assert_eq!((dot, cross), (0, 1));
    let (dot2, cross2) = angle_terms(pt(0, 0), pt(0, 1), pt(0, 0), pt(1, 0));
    assert_eq!((dot2, cross2), (0, -1));
    let (dot3, cross3) = angle_terms(pt(1, 1), pt(4, 5), pt(2, 0), pt(-1, 3));
    assert_eq!((dot3, cross3), (3 * -3 + 4 * 3, 3 * 3 - 4 * -3));
}

#[test]
fn median_line_of_a_segment() {
    assert_eq!(median_line(pt(0, 0), pt(4, 2)), (pt(2, 1), pt(4, -3)));
    // the midpoint is rounded toward zero
    assert_eq!(median_line(pt(-3, 0), pt(0, 1)), (pt(-1, 0), pt(0, -3)));
}

#[test]
fn parallel_line_through_a_point() {
    assert_eq!(parallel_line(pt(0, 5), pt(0, 0), pt(10, 10)), (pt(0, 5), pt(1000, 1005)));
    assert_eq!(parallel_line(pt(10, 20), pt(3, 3), pt(13, 8)), (pt(0, 15), pt(1000, 515)));
}

#[test]
fn parallel_line_rounds_toward_zero() {
    assert_eq!(parallel_line(pt(0, 0), pt(0, 0), pt(3, 1)), (pt(0, 0), pt(1000, 333)));
    assert_eq!(parallel_line(pt(0, 0), pt(0, 0), pt(3, -1)), (pt(0, 0), pt(1000, -333)));
}

#[test]
fn parallel_line_of_a_vertical_line() {
    assert_eq!(parallel_line(pt(7, 42), pt(3, 1), pt(3, 9)), (pt(7, 0), pt(7, 100)));
}

#[test]
fn parallel_line_keeps_the_slope() {
    let (a, b) = parallel_line(pt(12, -4), pt(1, 2), pt(5, 10));
    assert_eq!(a.x, 0);
    assert_eq!(b.x, 1000);
    assert_eq!((b.y - a.y) / (b.x - a.x), 2);
    assert_eq!(a.y, -4 - 2 * 12);
}

#[test]
fn parallel_line_saturates() {
    let (_, b) = parallel_line(pt(0, 0), pt(0, 0), pt(1, i32::MAX));
    assert_eq!(b, pt(1000, i32::MAX));
}

#[test]
fn perpendicular_line_through_a_point() {
    assert_eq!(perpendicular_line(pt(0, 0), pt(0, 0), pt(5, 5)), Ok((pt(0, 0), pt(1000, -1000))));
    assert_eq!(perpendicular_line(pt(2, 3), pt(0, 0), pt(1, 2)), Ok((pt(0, 4), pt(1000, -496))));
}

#[test]
fn perpendicular_line_of_a_vertical_line_is_horizontal() {
    assert_eq!(perpendicular_line(pt(4, 9), pt(1, 0), pt(1, 50)), Ok((pt(0, 9), pt(1000, 9))));
}

#[test]
fn perpendicular_line_of_a_horizontal_line_is_refused() {
    assert_eq!(perpendicular_line(pt(4, 9), pt(0, 3), pt(8, 3)), Err(GeometryError::DegenerateGeometry));
}

#[test]
fn circle_center_of_a_right_triangle() {
    assert_eq!(circle_center_from_three_points(pt(0, 0), pt(3, 0), pt(0, 3)), Ok(pt(1, 1)));
    assert_eq!(circle_center_from_three_points(pt(0, 0), pt(4, 0), pt(0, 6)), Ok(pt(2, 3)));
}

#[test]
fn circle_center_is_equidistant() {
    let (p1, p2, p3) = (pt(1, 7), pt(-5, -1), pt(9, 1));
    let c = circle_center_from_three_points(p1, p2, p3).unwrap();
    assert_eq!(c, pt(2, 0));
    assert_eq!(squared_distance(c, p1), 50);
    assert_eq!(squared_distance(c, p2), 50);
    assert_eq!(squared_distance(c, p3), 50);
}

#[test]
fn circle_center_of_collinear_points_is_refused() {
    assert_eq!(
        circle_center_from_three_points(pt(0, 0), pt(1, 1), pt(5, 5)),
        Err(GeometryError::DegenerateGeometry)
    );
    assert_eq!(
        circle_center_from_three_points(pt(2, 2), pt(2, 2), pt(7, 1)),
        Err(GeometryError::DegenerateGeometry)
    );
}

#[test]
fn extremes_of_a_vertical_line() {
    assert_eq!(find_line_extreme_coordinates(pt(5, 1), pt(5, 3), 0, 10, 0, 20), Ok((pt(5, 0), pt(5, 20))));
}

#[test]
fn extremes_of_a_horizontal_line() {
    assert_eq!(find_line_extreme_coordinates(pt(1, 5), pt(3, 5), 0, 10, 0, 20), Ok((pt(0, 5), pt(10, 5))));
}

#[test]
fn extremes_of_a_sloped_line() {
    assert_eq!(find_line_extreme_coordinates(pt(0, 1), pt(2, 2), 0, 10, 0, 10), Ok((pt(0, 1), pt(10, 6))));
    assert_eq!(find_line_extreme_coordinates(pt(0, 10), pt(10, 20), 0, 100, 0, 100), Ok((pt(90, 100), pt(0, 10))));
    // the top crossing falls between pixels: x = 8 / 3
    assert_eq!(find_line_extreme_coordinates(pt(1, 5), pt(2, 2), 0, 10, 0, 10), Ok((pt(2, 0), pt(0, 8))));
}

#[test]
fn extremes_of_a_line_through_corners_are_refused() {
    assert_eq!(
        find_line_extreme_coordinates(pt(1, 1), pt(3, 3), 0, 10, 0, 10),
        Err(GeometryError::ClipInvariantViolation)
    );
}

#[test]
fn extremes_of_a_line_missing_the_box_are_refused() {
    assert_eq!(
        find_line_extreme_coordinates(pt(0, 20), pt(1, 20), 0, 10, 0, 10),
        Err(GeometryError::ClipInvariantViolation)
    );
    assert_eq!(
        find_line_extreme_coordinates(pt(0, 25), pt(25, 0), 0, 10, 0, 10),
        Err(GeometryError::ClipInvariantViolation)
    );
}

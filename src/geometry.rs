//! Exact plane constructions on integer pixel coordinates.

use vstd::arithmetic::div_mod::{lemma_fundamental_div_mod, lemma_mod_pos_bound};
use vstd::prelude::*;

verus! {

/// A position on the image, in pixels.
#[derive(Clone, Copy, Debug, Default, PartialEq, Eq, Structural)]
pub struct Point {
    pub x: i32,
    pub y: i32,
}

/// Why a construction could not be carried out.
#[derive(Clone, Copy, Debug, PartialEq, Eq, Structural)]
pub enum GeometryError {
    /// The input does not define the requested figure: a horizontal reference
    /// line for a perpendicular, or three collinear points for a circle.
    DegenerateGeometry,
    /// A line did not cross the bounding box in exactly two places.
    ClipInvariantViolation,
}

pub open spec fn abs(v: int) -> int {
    if v < 0 {
        -v
    } else {
        v
    }
}

/// `a / b` rounded toward zero, as integer division in Rust does.
pub open spec fn trunc_div(a: int, b: int) -> int {
    if (a < 0) == (b < 0) {
        abs(a) / abs(b)
    } else {
        -(abs(a) / abs(b))
    }
}

/// `v` saturated to the range of `i32`.
pub open spec fn clamp_i32(v: int) -> int {
    if v < i32::MIN {
        i32::MIN as int
    } else if v > i32::MAX {
        i32::MAX as int
    } else {
        v
    }
}

/// Bound on the intermediate values of the constructions below.
const WIDE: i128 = 0x1000_0000_0000_0000_0000_0000_0000;

pub(crate) proof fn lemma_mul_bound(a: int, b: int, m: int, n: int)
    requires
        -m <= a <= m,
        -n <= b <= n,
    ensures
        -(m * n) <= a * b <= m * n,
{
    assert(-(m * n) <= a * b <= m * n) by (nonlinear_arith)
        requires
            -m <= a <= m,
            -n <= b <= n,
    ;
}

/// Quotient of a non-negative integer by a positive one, bracketed by the
/// products it stands between.
proof fn lemma_floor_div(n: int, d: int)
    requires
        n >= 0,
        d > 0,
    ensures
        (n / d) * d <= n < (n / d + 1) * d,
        0 <= n / d,
{
    lemma_fundamental_div_mod(n, d);
    lemma_mod_pos_bound(n, d);
    assert((n / d) * d <= n < (n / d + 1) * d) by (nonlinear_arith)
        requires
            n == d * (n / d) + n % d,
            0 <= n % d < d,
    ;
    if n / d < 0 {
        assert((n / d + 1) * d <= 0) by (nonlinear_arith)
            requires
                n / d + 1 <= 0,
                d > 0,
        ;
    }
}

/// Exact integer division rounded toward zero.
fn div_toward_zero(a: i128, b: i128) -> (r: i128)
    requires
        b != 0,
        -WIDE < a < WIDE,
        -WIDE < b < WIDE,
    ensures
        r == trunc_div(a as int, b as int),
        abs(r as int) <= abs(a as int),
        abs(r as int) * abs(b as int) <= abs(a as int),
{
    let ua: u128 = if a < 0 {
        (-a) as u128
    } else {
        a as u128
    };
    let ub: u128 = if b < 0 {
        (-b) as u128
    } else {
        b as u128
    };
    let q: u128 = ua / ub;
    proof {
        lemma_floor_div(ua as int, ub as int);
        assert(q <= ua) by (nonlinear_arith)
            requires
                q * ub <= ua,
                ub >= 1,
                q >= 0,
        ;
    }
    if (a < 0) == (b < 0) {
        q as i128
    } else {
        -(q as i128)
    }
}

/// Saturating conversion to `i32`.
fn saturate_i32(v: i128) -> (r: i32)
    ensures
        r == clamp_i32(v as int),
{
    if v < i32::MIN as i128 {
        i32::MIN
    } else if v > i32::MAX as i128 {
        i32::MAX
    } else {
        v as i32
    }
}

/// Whether the exact quotient `num / den` lies in `[lo, hi]`.
pub open spec fn ratio_within(num: int, den: int, lo: int, hi: int) -> bool {
    if den > 0 {
        lo * den <= num && num <= hi * den
    } else {
        hi * den <= num && num <= lo * den
    }
}

proof fn lemma_floor_within(n: int, d: int, lo: int, hi: int)
    requires
        n >= 0,
        d > 0,
        lo * d <= n <= hi * d,
    ensures
        lo <= n / d <= hi,
{
    lemma_floor_div(n, d);
    let q = n / d;
    assert(lo <= q) by (nonlinear_arith)
        requires
            lo * d <= n,
            n < (q + 1) * d,
            d > 0,
    ;
    assert(q <= hi) by (nonlinear_arith)
        requires
            q * d <= n,
            n <= hi * d,
            d > 0,
    ;
}

/// Rounding toward zero keeps a quotient inside any integer range that holds
/// it exactly.
proof fn lemma_trunc_div_within(num: int, den: int, lo: int, hi: int)
    requires
        den != 0,
        ratio_within(num, den, lo, hi),
    ensures
        lo <= trunc_div(num, den) <= hi,
{
    let d = abs(den);
    if den > 0 {
        if num >= 0 {
            lemma_floor_within(num, d, lo, hi);
        } else {
            assert((-hi) * d <= -num <= (-lo) * d) by (nonlinear_arith)
                requires
                    lo * d <= num <= hi * d,
            ;
            lemma_floor_within(-num, d, -hi, -lo);
        }
    } else {
        if num >= 0 {
            assert((-hi) * d <= num <= (-lo) * d) by (nonlinear_arith)
                requires
                    hi * den <= num <= lo * den,
                    d == -den,
            ;
            lemma_floor_within(num, d, -hi, -lo);
        } else {
            assert(lo * d <= -num <= hi * d) by (nonlinear_arith)
                requires
                    hi * den <= num <= lo * den,
                    d == -den,
            ;
            lemma_floor_within(-num, d, lo, hi);
        }
    }
}

/// One point for each side of the box that the line through `p1 p2` meets,
/// in the order top (`y_min`), bottom (`y_max`), left (`x_min`), right
/// (`x_max`). The sides `y = y_min` and `y = y_max` are not tried for a
/// horizontal line. The coordinate along a side is rounded toward zero.
/// Meant for a line that is not vertical.
pub open spec fn boundary_hits(p1: Point, p2: Point, x_min: i32, x_max: i32, y_min: i32, y_max: i32) -> Seq<Point> {
    let dx = p2.x - p1.x;
    let dy = p2.y - p1.y;
    let top = p1.x * dy + (y_min - p1.y) * dx;
    let bottom = p1.x * dy + (y_max - p1.y) * dx;
    let left = p1.y * dx + (x_min - p1.x) * dy;
    let right = p1.y * dx + (x_max - p1.x) * dy;
    hit(dy != 0 && ratio_within(top, dy, x_min as int, x_max as int), Point { x: trunc_div(top, dy) as i32, y: y_min })
        + hit(dy != 0 && ratio_within(bottom, dy, x_min as int, x_max as int), Point { x: trunc_div(bottom, dy) as i32, y: y_max })
        + hit(ratio_within(left, dx, y_min as int, y_max as int), Point { x: x_min, y: trunc_div(left, dx) as i32 })
        + hit(ratio_within(right, dx, y_min as int, y_max as int), Point { x: x_max, y: trunc_div(right, dx) as i32 })
}

pub open spec fn hit(found: bool, p: Point) -> Seq<Point> {
    if found {
        seq![p]
    } else {
        seq![]
    }
}

/// Where the exact quotient `num / den` lies in `[lo, hi]`, that quotient
/// rounded toward zero.
fn quotient_within(num: i128, den: i128, lo: i32, hi: i32) -> (r: Option<i32>)
    requires
        den != 0,
        -WIDE < num < WIDE,
        -0x1_0000_0000 <= den <= 0x1_0000_0000,
    ensures
        r == (if ratio_within(num as int, den as int, lo as int, hi as int) {
            Some(trunc_div(num as int, den as int) as i32)
        } else {
            None::<i32>
        }),
{
    proof {
        lemma_mul_bound(lo as int, den as int, 0x8000_0000, 0x1_0000_0000);
        lemma_mul_bound(hi as int, den as int, 0x8000_0000, 0x1_0000_0000);
    }
    let low = lo as i128 * den;
    let high = hi as i128 * den;
    let inside = if den > 0 {
        low <= num && num <= high
    } else {
        high <= num && num <= low
    };
    if inside {
        let q = div_toward_zero(num, den);
        proof {
            lemma_trunc_div_within(num as int, den as int, lo as int, hi as int);
        }
        Some(q as i32)
    } else {
        None
    }
}

/// The two places where the line through `p1 p2` leaves the box
/// `[x_min, x_max] x [y_min, y_max]`.
///
/// A vertical line gives its points at `y_min` and `y_max` directly. Any other
/// line gives the points of `boundary_hits` when there are exactly two of
/// them, and `ClipInvariantViolation` otherwise (a line that misses the box,
/// touches it at one place, or passes through a corner).
pub open spec fn line_extremes(p1: Point, p2: Point, x_min: i32, x_max: i32, y_min: i32, y_max: i32) -> Result<(Point, Point), GeometryError> {
    let hits = boundary_hits(p1, p2, x_min, x_max, y_min, y_max);
    if p1.x == p2.x {
        Ok((Point { x: p1.x, y: y_min }, Point { x: p1.x, y: y_max }))
    } else if hits.len() == 2 {
        Ok((hits[0], hits[1]))
    } else {
        Err(GeometryError::ClipInvariantViolation)
    }
}

/// The line through `p1 p2` cut to the box (see `line_extremes`).
pub fn find_line_extreme_coordinates(
    p1: Point,
    p2: Point,
    x_min: i32,
    x_max: i32,
    y_min: i32,
    y_max: i32,
) -> (r: Result<(Point, Point), GeometryError>)
    ensures
        r == line_extremes(p1, p2, x_min, x_max, y_min, y_max),
{
    if p1.x == p2.x {
        return Ok((Point { x: p1.x, y: y_min }, Point { x: p1.x, y: y_max }));
    }
    let dx = p2.x as i128 - p1.x as i128;
    let dy = p2.y as i128 - p1.y as i128;
    proof {
        lemma_mul_bound(p1.x as int, dy as int, 0x8000_0000, 0x1_0000_0000);
        lemma_mul_bound(p1.y as int, dx as int, 0x8000_0000, 0x1_0000_0000);
        lemma_mul_bound(y_min - p1.y, dx as int, 0x1_0000_0000, 0x1_0000_0000);
        lemma_mul_bound(y_max - p1.y, dx as int, 0x1_0000_0000, 0x1_0000_0000);
        lemma_mul_bound(x_min - p1.x, dy as int, 0x1_0000_0000, 0x1_0000_0000);
        lemma_mul_bound(x_max - p1.x, dy as int, 0x1_0000_0000, 0x1_0000_0000);
    }
    let top = p1.x as i128 * dy + (y_min as i128 - p1.y as i128) * dx;
    let bottom = p1.x as i128 * dy + (y_max as i128 - p1.y as i128) * dx;
    let left = p1.y as i128 * dx + (x_min as i128 - p1.x as i128) * dy;
    let right = p1.y as i128 * dx + (x_max as i128 - p1.x as i128) * dy;
    let ghost hits = boundary_hits(p1, p2, x_min, x_max, y_min, y_max);

    let mut points: Vec<Point> = Vec::new();
    if dy != 0 {
        if let Some(x) = quotient_within(top, dy, x_min, x_max) {
            points.push(Point { x, y: y_min });
        }
    }
    if dy != 0 {
        if let Some(x) = quotient_within(bottom, dy, x_min, x_max) {
            points.push(Point { x, y: y_max });
        }
    }
    if let Some(y) = quotient_within(left, dx, y_min, y_max) {
        points.push(Point { x: x_min, y });
    }
    if let Some(y) = quotient_within(right, dx, y_min, y_max) {
        points.push(Point { x: x_max, y });
    }
    assert(points@ =~= hits);
    if points.len() != 2 {
        return Err(GeometryError::ClipInvariantViolation);
    }
    Ok((points[0], points[1]))
}

/// Square of the Euclidean distance between two points.
pub open spec fn squared_distance_of(p1: Point, p2: Point) -> int {
    (p1.x - p2.x) * (p1.x - p2.x) + (p1.y - p2.y) * (p1.y - p2.y)
}

/// Square of the Euclidean distance between two points, exactly.
pub fn squared_distance(p1: Point, p2: Point) -> (r: u128)
    ensures
        r == squared_distance_of(p1, p2),
{
    let dx = p1.x as i128 - p2.x as i128;
    let dy = p1.y as i128 - p2.y as i128;
    proof {
        lemma_mul_bound(dx as int, dx as int, 0x1_0000_0000, 0x1_0000_0000);
        lemma_mul_bound(dy as int, dy as int, 0x1_0000_0000, 0x1_0000_0000);
        assert(0 <= dx * dx && 0 <= dy * dy) by (nonlinear_arith);
    }
    (dx * dx + dy * dy) as u128
}

/// Squared distances are symmetric, never negative, and zero only between a
/// point and itself.
pub proof fn lemma_squared_distance_symmetric(p1: Point, p2: Point)
    ensures
        squared_distance_of(p1, p2) == squared_distance_of(p2, p1),
        squared_distance_of(p1, p2) >= 0,
        squared_distance_of(p1, p2) == 0 <==> p1 == p2,
{
    let dx = p1.x - p2.x;
    let dy = p1.y - p2.y;
    assert(dx * dx >= 0 && dy * dy >= 0) by (nonlinear_arith);
    assert((p2.x - p1.x) * (p2.x - p1.x) == dx * dx) by (nonlinear_arith)
        requires
            dx == p1.x - p2.x,
    ;
    assert((p2.y - p1.y) * (p2.y - p1.y) == dy * dy) by (nonlinear_arith)
        requires
            dy == p1.y - p2.y,
    ;
    if dx != 0 {
        assert(dx * dx > 0) by (nonlinear_arith)
            requires
                dx != 0,
        ;
    }
    if dy != 0 {
        assert(dy * dy > 0) by (nonlinear_arith)
            requires
                dy != 0,
        ;
    }
}

/// Dot product of the directions `p2 - p1` and `p4 - p3`.
pub open spec fn dot_of(p1: Point, p2: Point, p3: Point, p4: Point) -> int {
    (p2.x - p1.x) * (p4.x - p3.x) + (p2.y - p1.y) * (p4.y - p3.y)
}

/// Cross product of the directions `p2 - p1` and `p4 - p3`.
pub open spec fn cross_of(p1: Point, p2: Point, p3: Point, p4: Point) -> int {
    (p2.x - p1.x) * (p4.y - p3.y) - (p2.y - p1.y) * (p4.x - p3.x)
}

/// The dot and cross products of the directions of the lines `p1 p2` and
/// `p3 p4`, exactly: the signed angle from the first line to the second is
/// `atan2(cross, dot)`.
pub fn angle_terms(p1: Point, p2: Point, p3: Point, p4: Point) -> (r: (i128, i128))
    ensures
        r.0 == dot_of(p1, p2, p3, p4),
        r.1 == cross_of(p1, p2, p3, p4),
{
    let x1 = p2.x as i128 - p1.x as i128;
    let y1 = p2.y as i128 - p1.y as i128;
    let x2 = p4.x as i128 - p3.x as i128;
    let y2 = p4.y as i128 - p3.y as i128;
    proof {
        let m: int = 0x1_0000_0000;
        lemma_mul_bound(x1 as int, x2 as int, m, m);
        lemma_mul_bound(y1 as int, y2 as int, m, m);
        lemma_mul_bound(x1 as int, y2 as int, m, m);
        lemma_mul_bound(y1 as int, x2 as int, m, m);
    }
    (x1 * x2 + y1 * y2, x1 * y2 - y1 * x2)
}

/// Swapping the two lines keeps the dot product and negates the cross
/// product, so the angle `atan2(cross, dot)` changes sign.
pub proof fn lemma_angle_terms_swap(p1: Point, p2: Point, p3: Point, p4: Point)
    ensures
        dot_of(p3, p4, p1, p2) == dot_of(p1, p2, p3, p4),
        cross_of(p3, p4, p1, p2) == -cross_of(p1, p2, p3, p4),
{
    let (a, b, c, d) = (p2.x - p1.x, p2.y - p1.y, p4.x - p3.x, p4.y - p3.y);
    assert(c * a + d * b == a * c + b * d && c * b - d * a == -(a * d - b * c)) by (nonlinear_arith);
}

/// Abscissa of the first sample point of a constructed line.
pub const SAMPLE_X0: i32 = 0;

/// Abscissa of the second sample point of a constructed line.
pub const SAMPLE_X1: i32 = 1000;

/// Ordinate, at abscissa `at`, of the line through `point` whose slope is
/// `rise / run`, rounded toward zero and saturated to `i32`.
pub open spec fn ordinate_at(point: Point, rise: int, run: int, at: int) -> int {
    clamp_i32(trunc_div(point.y * run + rise * (at - point.x), run))
}

/// The line through `point` with slope `rise / run`, as its points at
/// `SAMPLE_X0` and `SAMPLE_X1`.
pub open spec fn sampled_line(point: Point, rise: int, run: int) -> (Point, Point) {
    (
        Point { x: SAMPLE_X0, y: ordinate_at(point, rise, run, SAMPLE_X0 as int) as i32 },
        Point { x: SAMPLE_X1, y: ordinate_at(point, rise, run, SAMPLE_X1 as int) as i32 },
    )
}

/// `sampled_line` for a slope whose terms are differences of `i32` values.
fn sample_line(point: Point, rise: i64, run: i64) -> (r: (Point, Point))
    requires
        run != 0,
        -0x1_0000_0000 <= rise <= 0x1_0000_0000,
        -0x1_0000_0000 <= run <= 0x1_0000_0000,
    ensures
        r == sampled_line(point, rise as int, run as int),
{
    proof {
        lemma_mul_bound(point.y as int, run as int, 0x8000_0000, 0x1_0000_0000);
        lemma_mul_bound(rise as int, SAMPLE_X0 - point.x, 0x1_0000_0000, 0x1_0000_0000);
        lemma_mul_bound(rise as int, SAMPLE_X1 - point.x, 0x1_0000_0000, 0x1_0000_0000);
    }
    let base = point.y as i128 * run as i128;
    let n0 = base + rise as i128 * (SAMPLE_X0 as i128 - point.x as i128);
    let n1 = base + rise as i128 * (SAMPLE_X1 as i128 - point.x as i128);
    let y0 = saturate_i32(div_toward_zero(n0, run as i128));
    let y1 = saturate_i32(div_toward_zero(n1, run as i128));
    (Point { x: SAMPLE_X0, y: y0 }, Point { x: SAMPLE_X1, y: y1 })
}

/// The line through `point` parallel to the line through `point1 point2`.
///
/// A vertical reference gives the vertical line through `point`, as its points
/// at ordinates 0 and 100. Any other reference gives the points of the
/// parallel at abscissae `SAMPLE_X0` and `SAMPLE_X1`.
pub open spec fn parallel_of(point: Point, point1: Point, point2: Point) -> (Point, Point) {
    if point1.x == point2.x {
        (Point { x: point.x, y: 0 }, Point { x: point.x, y: 100 })
    } else {
        sampled_line(point, point2.y - point1.y, point2.x - point1.x)
    }
}

/// The line through `point` parallel to the line through `point1 point2`
/// (see `parallel_of`).
pub fn parallel_line(point: Point, point1: Point, point2: Point) -> (r: (Point, Point))
    ensures
        r == parallel_of(point, point1, point2),
{
    if point1.x == point2.x {
        return (Point { x: point.x, y: 0 }, Point { x: point.x, y: 100 });
    }
    sample_line(point, point2.y as i64 - point1.y as i64, point2.x as i64 - point1.x as i64)
}

/// Rounding toward zero moves a quotient by less than one.
proof fn lemma_trunc_div_error(a: int, b: int)
    requires
        b != 0,
    ensures
        abs(trunc_div(a, b) * b - a) < abs(b),
{
    let n = abs(a);
    let d = abs(b);
    lemma_floor_div(n, d);
    let q = n / d;
    assert(0 <= n - q * d < d) by (nonlinear_arith)
        requires
            q * d <= n < (q + 1) * d,
    ;
    if (a < 0) == (b < 0) {
        assert(trunc_div(a, b) == q);
        if b > 0 {
            assert(q * b - a == q * d - n);
        } else {
            assert(q * b - a == n - q * d) by (nonlinear_arith)
                requires
                    b == -d,
                    a == -n,
            ;
        }
    } else {
        assert(trunc_div(a, b) == -q);
        if b > 0 {
            assert((-q) * b - a == n - q * d) by (nonlinear_arith)
                requires
                    b == d,
                    a == -n,
            ;
        } else {
            assert((-q) * b - a == q * d - n) by (nonlinear_arith)
                requires
                    b == -d,
                    a == n,
            ;
        }
    }
}

/// Every sample point of a parallel to a line that is not vertical lies on the
/// exact parallel through `point`, up to the rounding of its ordinate: with
/// `rise / run` the slope of the reference, `y * run` differs from
/// `point.y * run + rise * (x - point.x)` by less than `|run|`. So the result
/// has the slope of the reference, up to rounding. A vertical reference gives
/// a vertical line through `point`. An ordinate that is saturated to `i32` is
/// left out.
pub proof fn lemma_parallel_line_keeps_slope(point: Point, point1: Point, point2: Point)
    ensures
        ({
            let (q0, q1) = parallel_of(point, point1, point2);
            let rise = point2.y - point1.y;
            let run = point2.x - point1.x;
            &&& point1.x == point2.x ==> q0.x == point.x && q1.x == point.x
            &&& point1.x != point2.x ==> q0.x == SAMPLE_X0 && q1.x == SAMPLE_X1
            &&& forall|q: Point|
                point1.x != point2.x && (q == q0 || q == q1) && i32::MIN < q.y < i32::MAX ==> abs(
                    q.y * run - (point.y * run + rise * (q.x - point.x)),
                ) < abs(run)
        }),
{
    if point1.x != point2.x {
        let rise = point2.y - point1.y;
        let run = point2.x - point1.x;
        lemma_trunc_div_error(point.y * run + rise * (SAMPLE_X0 - point.x), run);
        lemma_trunc_div_error(point.y * run + rise * (SAMPLE_X1 - point.x), run);
    }
}

/// The line through `point` perpendicular to the line through
/// `point1 point2`, whose slope is `-run / rise` for a reference of slope
/// `rise / run`.
///
/// A vertical reference gives the horizontal line through `point`. A
/// horizontal reference (and only such a one, among the references that are
/// not vertical) has no perpendicular of finite slope: `DegenerateGeometry`.
/// Otherwise the result holds the points at `SAMPLE_X0` and `SAMPLE_X1`.
pub fn perpendicular_line(point: Point, point1: Point, point2: Point) -> (r: Result<(Point, Point), GeometryError>)
    ensures
        point1.x == point2.x ==> r == Ok::<(Point, Point), GeometryError>(
            (Point { x: SAMPLE_X0, y: point.y }, Point { x: SAMPLE_X1, y: point.y }),
        ),
        point1.x != point2.x && point1.y == point2.y ==> r == Err::<(Point, Point), GeometryError>(
            GeometryError::DegenerateGeometry,
        ),
        point1.x != point2.x && point1.y != point2.y ==> r == Ok::<(Point, Point), GeometryError>(
            sampled_line(point, point1.x - point2.x, point2.y - point1.y),
        ),
{
    if point1.x == point2.x {
        return Ok((Point { x: SAMPLE_X0, y: point.y }, Point { x: SAMPLE_X1, y: point.y }));
    }
    if point1.y == point2.y {
        return Err(GeometryError::DegenerateGeometry);
    }
    Ok(sample_line(point, point1.x as i64 - point2.x as i64, point2.y as i64 - point1.y as i64))
}

/// Numerators and denominator of the centre of the circle through three
/// points: the centre is `(xn / den, yn / den)`. The denominator is zero
/// exactly when the points are collinear.
pub open spec fn circumcenter_terms(p1: Point, p2: Point, p3: Point) -> (int, int, int) {
    let a = p2.x - p1.x;
    let b = p2.y - p1.y;
    let c = p3.x - p1.x;
    let d = p3.y - p1.y;
    let e = a * (p1.x + p2.x) + b * (p1.y + p2.y);
    let f = c * (p1.x + p3.x) + d * (p1.y + p3.y);
    let g = 2 * (a * (p3.y - p2.y) - b * (p3.x - p2.x));
    (d * e - b * f, a * f - c * e, g)
}

/// Centre of the circle through `p1`, `p2` and `p3`, each coordinate rounded
/// toward zero and saturated to `i32`; `DegenerateGeometry` when the three
/// points are collinear (the coincident ones included).
pub fn circle_center_from_three_points(p1: Point, p2: Point, p3: Point) -> (r: Result<Point, GeometryError>)
    ensures
        ({
            let (xn, yn, den) = circumcenter_terms(p1, p2, p3);
            &&& den == 0 ==> r == Err::<Point, GeometryError>(GeometryError::DegenerateGeometry)
            &&& den != 0 ==> r == Ok::<Point, GeometryError>(
                Point { x: clamp_i32(trunc_div(xn, den)) as i32, y: clamp_i32(trunc_div(yn, den)) as i32 },
            )
        }),
{
    let x1 = p1.x as i128;
    let y1 = p1.y as i128;
    let x2 = p2.x as i128;
    let y2 = p2.y as i128;
    let x3 = p3.x as i128;
    let y3 = p3.y as i128;
    let a = x2 - x1;
    let b = y2 - y1;
    let c = x3 - x1;
    let d = y3 - y1;
    proof {
        let m: int = 0x1_0000_0000;
        lemma_mul_bound(a as int, x1 + x2, m, m);
        lemma_mul_bound(b as int, y1 + y2, m, m);
        lemma_mul_bound(c as int, x1 + x3, m, m);
        lemma_mul_bound(d as int, y1 + y3, m, m);
        lemma_mul_bound(a as int, y3 - y2, m, m);
        lemma_mul_bound(b as int, x3 - x2, m, m);
    }
    let e = a * (x1 + x2) + b * (y1 + y2);
    let f = c * (x1 + x3) + d * (y1 + y3);
    let g = 2 * (a * (y3 - y2) - b * (x3 - x2));
    if g == 0 {
        return Err(GeometryError::DegenerateGeometry);
    }
    proof {
        let m: int = 0x1_0000_0000;
        let w: int = 0x2_0000_0000_0000_0000;
        lemma_mul_bound(d as int, e as int, m, w);
        lemma_mul_bound(b as int, f as int, m, w);
        lemma_mul_bound(a as int, f as int, m, w);
        lemma_mul_bound(c as int, e as int, m, w);
    }
    let xn = d * e - b * f;
    let yn = a * f - c * e;
    Ok(Point { x: saturate_i32(div_toward_zero(xn, g)), y: saturate_i32(div_toward_zero(yn, g)) })
}

/// The first point of the perpendicular bisector of `p1 p2`: the midpoint,
/// each coordinate rounded toward zero.
pub open spec fn midpoint(p1: Point, p2: Point) -> Point {
    Point { x: trunc_div(p1.x + p2.x, 2) as i32, y: trunc_div(p1.y + p2.y, 2) as i32 }
}

/// Whether both points of the bisector of `p1 p2` have coordinates that fit in
/// an `i32`.
pub open spec fn median_line_fits(p1: Point, p2: Point) -> bool {
    let m = midpoint(p1, p2);
    &&& i32::MIN <= m.x + (p2.y - p1.y) <= i32::MAX
    &&& i32::MIN <= m.y + (p1.x - p2.x) <= i32::MAX
}

/// The perpendicular bisector of `p1 p2`: the midpoint `m` and the point
/// `m + (p2.y - p1.y, p1.x - p2.x)`, a quarter turn of `p1 p2` away.
pub fn median_line(p1: Point, p2: Point) -> (r: (Point, Point))
    requires
        median_line_fits(p1, p2),
    ensures
        r.0 == midpoint(p1, p2),
        r.1 == (Point { x: (r.0.x + (p2.y - p1.y)) as i32, y: (r.0.y + (p1.x - p2.x)) as i32 }),
{
    let x = div_toward_zero(p1.x as i128 + p2.x as i128, 2);
    let y = div_toward_zero(p1.y as i128 + p2.y as i128, 2);
    let mx = x as i32;
    let my = y as i32;
    let m = Point { x: mx, y: my };
    let qx = (mx as i64 + (p2.y as i64 - p1.y as i64)) as i32;
    let qy = (my as i64 + (p1.x as i64 - p2.x as i64)) as i32;
    (m, Point { x: qx, y: qy })
}

} // verus!

verus! {

/// The exact centre of the circle through three points that are not collinear
/// is as far from each of them: scaled by the denominator `den`, the centre is
/// `(xn, yn)` and the three points are `den * p`, and the squared distances
/// agree.
pub proof fn lemma_circumcenter_equidistant(p1: Point, p2: Point, p3: Point)
    requires
        circumcenter_terms(p1, p2, p3).2 != 0,
    ensures
        ({
            let (xn, yn, den) = circumcenter_terms(p1, p2, p3);
            let d1 = (xn - den * p1.x) * (xn - den * p1.x) + (yn - den * p1.y) * (yn - den * p1.y);
            let d2 = (xn - den * p2.x) * (xn - den * p2.x) + (yn - den * p2.y) * (yn - den * p2.y);
            let d3 = (xn - den * p3.x) * (xn - den * p3.x) + (yn - den * p3.y) * (yn - den * p3.y);
            d1 == d2 && d1 == d3
        }),
{
    let (xn, yn, g) = circumcenter_terms(p1, p2, p3);
    let (x1, y1, x2, y2, x3, y3) = (p1.x as int, p1.y as int, p2.x as int, p2.y as int, p3.x as int, p3.y as int);
    let a = x2 - x1;
    let b = y2 - y1;
    let c = x3 - x1;
    let d = y3 - y1;
    let e = a * (x1 + x2) + b * (y1 + y2);
    let f = c * (x1 + x3) + d * (y1 + y3);
    assert(g == 2 * (a * d - b * c)) by (nonlinear_arith)
        requires
            g == 2 * (a * (y3 - y2) - b * (x3 - x2)),
            a == x2 - x1,
            b == y2 - y1,
            c == x3 - x1,
            d == y3 - y1,
    ;
    lemma_bisector_identity(a, b, c, d, e, f, xn, yn, g);
    assert(e == a * (2 * x1 + a) + b * (2 * y1 + b));
    assert(f == c * (2 * x1 + c) + d * (2 * y1 + d));
    lemma_equal_reach(xn, yn, g, x1, y1, a, b, e);
    lemma_equal_reach(xn, yn, g, x1, y1, c, d, f);
    assert(x2 == x1 + a && y2 == y1 + b && x3 == x1 + c && y3 == y1 + d);
}

/// With `xn = d e - b f`, `yn = a f - c e` and `den = 2 (a d - b c)`, the
/// point `(xn, yn) / den` lies on the lines `a x + b y = e / 2` and
/// `c x + d y = f / 2`.
proof fn lemma_bisector_identity(a: int, b: int, c: int, d: int, e: int, f: int, xn: int, yn: int, g: int)
    requires
        xn == d * e - b * f,
        yn == a * f - c * e,
        g == 2 * (a * d - b * c),
    ensures
        2 * (a * xn + b * yn) == g * e,
        2 * (c * xn + d * yn) == g * f,
{
    assert(a * xn == a * d * e - a * b * f) by (nonlinear_arith)
        requires
            xn == d * e - b * f,
    ;
    assert(b * yn == a * b * f - b * c * e) by (nonlinear_arith)
        requires
            yn == a * f - c * e,
    ;
    assert(g * e == 2 * (a * d * e) - 2 * (b * c * e)) by (nonlinear_arith)
        requires
            g == 2 * (a * d - b * c),
    ;
    assert(c * xn == c * d * e - b * c * f) by (nonlinear_arith)
        requires
            xn == d * e - b * f,
    ;
    assert(d * yn == a * d * f - c * d * e) by (nonlinear_arith)
        requires
            yn == a * f - c * e,
    ;
    assert(g * f == 2 * (a * d * f) - 2 * (b * c * f)) by (nonlinear_arith)
        requires
            g == 2 * (a * d - b * c),
    ;
}

/// A point `(xn, yn) / den` on the line `a x + b y = e / 2`, where
/// `e = a (2 x1 + a) + b (2 y1 + b)`, is as far from `(x1, y1)` as from
/// `(x1 + a, y1 + b)`; both distances are scaled by `den`.
proof fn lemma_equal_reach(xn: int, yn: int, g: int, x1: int, y1: int, a: int, b: int, e: int)
    requires
        2 * (a * xn + b * yn) == g * e,
        e == a * (2 * x1 + a) + b * (2 * y1 + b),
    ensures
        (xn - g * x1) * (xn - g * x1) + (yn - g * y1) * (yn - g * y1) == (xn - g * (x1 + a)) * (xn - g * (x1 + a)) + (yn - g * (y1 + b)) * (yn - g * (y1 + b)),
{
    let u = xn - g * x1;
    let v = yn - g * y1;
    let ga = g * a;
    let gb = g * b;
    assert(xn - g * (x1 + a) == u - ga) by (nonlinear_arith)
        requires
            u == xn - g * x1,
            ga == g * a,
    ;
    assert(yn - g * (y1 + b) == v - gb) by (nonlinear_arith)
        requires
            v == yn - g * y1,
            gb == g * b,
    ;
    assert((u - ga) * (u - ga) == u * u - 2 * (u * ga) + ga * ga) by (nonlinear_arith);
    assert((v - gb) * (v - gb) == v * v - 2 * (v * gb) + gb * gb) by (nonlinear_arith);
    let w = a * (2 * u - ga) + b * (2 * v - gb);
    assert(2 * (u * ga) - ga * ga + 2 * (v * gb) - gb * gb == g * w) by (nonlinear_arith)
        requires
            ga == g * a,
            gb == g * b,
            w == a * (2 * u - ga) + b * (2 * v - gb),
    ;
    assert(w == 2 * (a * xn + b * yn) - g * e) by (nonlinear_arith)
        requires
            u == xn - g * x1,
            v == yn - g * y1,
            ga == g * a,
            gb == g * b,
            w == a * (2 * u - ga) + b * (2 * v - gb),
            e == a * (2 * x1 + a) + b * (2 * y1 + b),
    ;
}

} // verus!

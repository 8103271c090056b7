//! Which figure is nearest to a point: a scan over the figures that keeps the
//! first of the nearest, with a measure for each kind of figure. Distances
//! are compared exactly, without square roots.

use crate::geometry::{
    angle_terms, cross_of, lemma_mul_bound, lemma_squared_distance_symmetric, squared_distance, squared_distance_of, Point,
};
use crate::overlay::{well_placed, Drawable, DrawableType};
use crate::wide::{mul_wide, mul_wide3_by, mul_wide_by, mul_wide_wide, wide3_less, wide_less, wide_sub, Wide};
use vstd::prelude::*;

verus! {

/// Position in `s` of the figure that a scan from the first figure to the
/// last keeps: an `eligible` figure replaces the one kept so far only when it
/// is strictly `nearer`, so the first of equally near figures wins. `None`
/// when no figure is eligible.
pub open spec fn first_nearest(
    s: Seq<Drawable>,
    eligible: spec_fn(Drawable) -> bool,
    nearer: spec_fn(Drawable, Drawable) -> bool,
) -> Option<int>
    decreases s.len(),
{
    if s.len() == 0 {
        None
    } else {
        let kept = first_nearest(s.drop_last(), eligible, nearer);
        if eligible(s.last()) && (kept is None || nearer(s.last(), s[kept.unwrap()])) {
            Some(s.len() - 1)
        } else {
            kept
        }
    }
}

/// The figure at the position `first_nearest` gives, if any.
pub open spec fn nearest_figure(
    s: Seq<Drawable>,
    eligible: spec_fn(Drawable) -> bool,
    nearer: spec_fn(Drawable, Drawable) -> bool,
) -> Option<Drawable> {
    match first_nearest(s, eligible, nearer) {
        Some(i) => Some(s[i]),
        None => None,
    }
}

/// Whether `d` is a point figure.
pub open spec fn is_point(d: Drawable) -> bool {
    d.object_type == DrawableType::Point
}

/// Whether the point figure `a` is strictly nearer to `p` than `b`.
pub open spec fn point_nearer(p: Point, a: Drawable, b: Drawable) -> bool {
    squared_distance_of(p, a.point1) < squared_distance_of(p, b.point1)
}

/// Whether `d` is drawn as a straight line: a line, segment or half-line.
pub open spec fn is_straight(d: Drawable) -> bool {
    d.object_type == DrawableType::Line || d.object_type == DrawableType::Segment || d.object_type
        == DrawableType::HalfLine
}

/// The squared distance from `p` to the infinite line through the points of
/// `d` is `line_num(p, d) / line_den(d)`.
pub open spec fn line_num(p: Point, d: Drawable) -> int {
    cross_of(d.point1, d.point2, d.point1, p) * cross_of(d.point1, d.point2, d.point1, p)
}

pub open spec fn line_den(d: Drawable) -> int {
    squared_distance_of(d.point1, d.point2)
}

/// A straight figure whose two points differ, so that it has a line.
pub open spec fn has_line(d: Drawable) -> bool {
    is_straight(d) && line_den(d) != 0
}

/// Whether the line of `a` is strictly nearer to `p` than the line of `b`.
pub open spec fn line_nearer(p: Point, a: Drawable, b: Drawable) -> bool {
    line_num(p, a) * line_den(b) < line_num(p, b) * line_den(a)
}

/// Whether `sqrt(da) - ra < sqrt(db) - rb`, for `da`, `db` not negative,
/// with the square roots cleared: with `k = ra - rb` the comparison reads
/// `sqrt(da) < sqrt(db) + k`, and squaring the sides (when they are not
/// negative) twice gives what follows.
pub open spec fn root_gap_less(da: int, ra: int, db: int, rb: int) -> bool {
    let k = ra - rb;
    if k >= 0 {
        let e = da - db - k * k;
        e < 0 || e * e < 4 * (k * k) * db
    } else {
        let f = db - da - k * k;
        f > 0 && 4 * (k * k) * da < f * f
    }
}

/// For non-negative `x` and `y`, `x < y` exactly when `x * x < y * y`.
proof fn lemma_square_order(x: int, y: int)
    requires
        x >= 0,
        y >= 0,
    ensures
        x < y <==> x * x < y * y,
{
    if x < y {
        assert(x * x < y * y) by (nonlinear_arith)
            requires
                0 <= x < y,
        ;
    } else {
        assert(y * y <= x * x) by (nonlinear_arith)
            requires
                0 <= y <= x,
        ;
    }
}

/// Where the squared distances are perfect squares, `root_gap_less` is the
/// comparison of the distances less the radii.
pub proof fn lemma_root_gap_less_on_squares(sa: int, ra: int, sb: int, rb: int)
    requires
        sa >= 0,
        sb >= 0,
    ensures
        root_gap_less(sa * sa, ra, sb * sb, rb) <==> sa - ra < sb - rb,
{
    let k = ra - rb;
    if k >= 0 {
        let e = sa * sa - sb * sb - k * k;
        lemma_square_order(sa, sb + k);
        assert((sb + k) * (sb + k) == sb * sb + 2 * k * sb + k * k) by (nonlinear_arith);
        assert(2 * k * sb >= 0) by (nonlinear_arith)
            requires
                k >= 0,
                sb >= 0,
        ;
        if e >= 0 {
            lemma_square_order(e, 2 * k * sb);
            assert((2 * k * sb) * (2 * k * sb) == 4 * (k * k) * (sb * sb)) by (nonlinear_arith);
        }
    } else {
        let f = sb * sb - sa * sa - k * k;
        let m = -k;
        lemma_square_order(sa + m, sb);
        assert((sa + m) * (sa + m) == sa * sa + 2 * m * sa + k * k) by (nonlinear_arith)
            requires
                m == -k,
        ;
        assert(2 * m * sa >= 0) by (nonlinear_arith)
            requires
                m > 0,
                sa >= 0,
        ;
        if f > 0 {
            lemma_square_order(2 * m * sa, f);
            assert((2 * m * sa) * (2 * m * sa) == 4 * (k * k) * (sa * sa)) by (nonlinear_arith)
                requires
                    m == -k,
            ;
        }
    }
}

pub open spec fn is_circle(d: Drawable) -> bool {
    d.object_type == DrawableType::Circle
}

/// Whether `p` is strictly nearer to circle `a` than to circle `b`, by
/// distance to the centre less the radius (negative inside the circle).
pub open spec fn circle_nearer(p: Point, a: Drawable, b: Drawable) -> bool {
    root_gap_less(
        squared_distance_of(p, a.point1),
        a.point2.x - a.point1.x,
        squared_distance_of(p, b.point1),
        b.point2.x - b.point1.x,
    )
}

/// `root_gap_less` for values of the sizes a circle query meets.
fn root_gap_is_less(da: u128, ra: i64, db: u128, rb: i64) -> (r: bool)
    requires
        da < 0x2_0000_0000_0000_0000,
        db < 0x2_0000_0000_0000_0000,
        0 <= ra < 0x1_0000_0000,
        0 <= rb < 0x1_0000_0000,
    ensures
        r == root_gap_less(da as int, ra as int, db as int, rb as int),
{
    let k = ra - rb;
    proof {
        lemma_mul_bound(k as int, k as int, 0x1_0000_0000, 0x1_0000_0000);
        assert(k * k >= 0) by (nonlinear_arith);
    }
    let kk = (k as i128 * k as i128) as u128;
    let four_kk = 4 * kk;
    if k >= 0 {
        let e = da as i128 - db as i128 - kk as i128;
        if e < 0 {
            return true;
        }
        proof {
            assert(e * e == (e as u128) * (e as u128));
        }
        wide_less(mul_wide(e as u128, e as u128), mul_wide(four_kk, db))
    } else {
        let f = db as i128 - da as i128 - kk as i128;
        if f <= 0 {
            return false;
        }
        wide_less(mul_wide(four_kk, da), mul_wide(f as u128, f as u128))
    }
}

/// The point figure of `drawables` nearest to `point`, the first one on a
/// tie; `None` when there is no point figure.
pub fn closest_point(point: Point, drawables: &Vec<Drawable>) -> (r: Option<Drawable>)
    ensures
        r == nearest_figure(drawables@, |d: Drawable| is_point(d), |a: Drawable, b: Drawable| point_nearer(point, a, b)),
{
    let ghost s = drawables@;
    let ghost eligible: spec_fn(Drawable) -> bool = |d: Drawable| is_point(d);
    let ghost nearer: spec_fn(Drawable, Drawable) -> bool = |a: Drawable, b: Drawable| point_nearer(point, a, b);
    let mut best: Option<usize> = None;
    let mut best_key: u128 = 0;
    let mut i: usize = 0;
    while i < drawables.len()
        invariant
            s == drawables@,
            eligible == (|d: Drawable| is_point(d)),
            nearer == (|a: Drawable, b: Drawable| point_nearer(point, a, b)),
            0 <= i <= s.len(),
            match best {
                Some(k) => first_nearest(s.subrange(0, i as int), eligible, nearer) == Some(k as int)
                    && k < i && best_key == squared_distance_of(point, s[k as int].point1),
                None => first_nearest(s.subrange(0, i as int), eligible, nearer) is None,
            },
        decreases s.len() - i,
    {
        let d = drawables[i];
        proof {
            assert(s.subrange(0, i + 1).drop_last() =~= s.subrange(0, i as int));
            assert(s.subrange(0, i + 1).last() == d);
            if let Some(k) = best {
                assert(s.subrange(0, i + 1)[k as int] == s[k as int]);
            }
        }
        if d.object_type == DrawableType::Point {
            let key = squared_distance(point, d.point1);
            if best.is_none() || key < best_key {
                best = Some(i);
                best_key = key;
            }
        }
        i = i + 1;
    }
    proof {
        assert(s.subrange(0, s.len() as int) =~= s);
    }
    match best {
        Some(k) => Some(drawables[k]),
        None => None,
    }
}

/// The line, segment or half-line of `drawables` whose infinite line is
/// nearest to `point`, the first one on a tie; `None` when there is none. A figure
/// whose two points coincide has no line and is passed over.
pub fn closest_line(point: Point, drawables: &Vec<Drawable>) -> (r: Option<Drawable>)
    ensures
        r == nearest_figure(drawables@, |d: Drawable| has_line(d), |a: Drawable, b: Drawable| line_nearer(point, a, b)),
{
    let ghost s = drawables@;
    let ghost eligible: spec_fn(Drawable) -> bool = |d: Drawable| has_line(d);
    let ghost nearer: spec_fn(Drawable, Drawable) -> bool = |a: Drawable, b: Drawable| line_nearer(point, a, b);
    let mut best: Option<usize> = None;
    let mut best_cross: u128 = 0;
    let mut best_len: u128 = 0;
    let mut i: usize = 0;
    while i < drawables.len()
        invariant
            s == drawables@,
            eligible == (|d: Drawable| has_line(d)),
            nearer == (|a: Drawable, b: Drawable| line_nearer(point, a, b)),
            0 <= i <= s.len(),
            match best {
                Some(k) => first_nearest(s.subrange(0, i as int), eligible, nearer) == Some(k as int)
                    && k < i && best_cross * best_cross == line_num(point, s[k as int])
                    && best_len == line_den(s[k as int]) && best_cross <= 0x2_0000_0000_0000_0000
                    && best_len <= 0x2_0000_0000_0000_0000,
                None => first_nearest(s.subrange(0, i as int), eligible, nearer) is None,
            },
        decreases s.len() - i,
    {
        let d = drawables[i];
        proof {
            assert(s.subrange(0, i + 1).drop_last() =~= s.subrange(0, i as int));
            assert(s.subrange(0, i + 1).last() == d);
            if let Some(k) = best {
                assert(s.subrange(0, i + 1)[k as int] == s[k as int]);
            }
        }
        if d.object_type == DrawableType::Line || d.object_type == DrawableType::Segment || d.object_type
            == DrawableType::HalfLine {
            let len = squared_distance(d.point1, d.point2);
            if len != 0 {
                let (_, c) = angle_terms(d.point1, d.point2, d.point1, point);
                let ghost m: int = 0x1_0000_0000;
                proof {
                    lemma_mul_bound(d.point2.x - d.point1.x, point.y - d.point1.y, m, m);
                    lemma_mul_bound(d.point2.y - d.point1.y, point.x - d.point1.x, m, m);
                    lemma_mul_bound(d.point1.x - d.point2.x, d.point1.x - d.point2.x, m, m);
                    lemma_mul_bound(d.point1.y - d.point2.y, d.point1.y - d.point2.y, m, m);
                }
                let cross: u128 = if c < 0 {
                    (-c) as u128
                } else {
                    c as u128
                };
                proof {
                    assert(cross * cross == c * c) by (nonlinear_arith)
                        requires
                            cross == c || cross == -c,
                    ;
                }
                let better = match best {
                    None => true,
                    Some(_) => {
                        proof {
                            let (x, y, u, v) = (cross as int, best_len as int, best_cross as int, len as int);
                            let w: int = 0x2_0000_0000_0000_0000;
                            assert(x * x <= w * w && u * u <= w * w) by (nonlinear_arith)
                                requires
                                    0 <= x <= w,
                                    0 <= u <= w,
                            ;
                            assert(x * x * y <= (w * w) * w && u * u * v <= (w * w) * w) by (nonlinear_arith)
                                requires
                                    0 <= x * x <= w * w,
                                    0 <= u * u <= w * w,
                                    0 <= y <= w,
                                    0 <= v <= w,
                            ;
                        }
                        wide_less(
                            mul_wide_by(mul_wide(cross, cross), best_len),
                            mul_wide_by(mul_wide(best_cross, best_cross), len),
                        )
                    },
                };
                if better {
                    best = Some(i);
                    best_cross = cross;
                    best_len = len;
                }
            }
        }
        i = i + 1;
    }
    proof {
        assert(s.subrange(0, s.len() as int) =~= s);
    }
    match best {
        Some(k) => Some(drawables[k]),
        None => None,
    }
}

/// The circle of `drawables` nearest to `point` by distance to the centre
/// less the radius, the first one on a tie; `None` when there is no
/// circle. The measure is negative inside a circle, so a point inside a
/// circle may rank it above a circle whose rim is nearer. Each circle is
/// held as the overlay records it, with its point on the circle right of
/// its centre, so that its radius is whole.
pub fn closest_circle(point: Point, drawables: &Vec<Drawable>) -> (r: Option<Drawable>)
    requires
        forall|i: int| 0 <= i < drawables@.len() ==> well_placed(#[trigger] drawables@[i]),
    ensures
        r == nearest_figure(drawables@, |d: Drawable| is_circle(d), |a: Drawable, b: Drawable| circle_nearer(point, a, b)),
{
    let ghost s = drawables@;
    let ghost eligible: spec_fn(Drawable) -> bool = |d: Drawable| is_circle(d);
    let ghost nearer: spec_fn(Drawable, Drawable) -> bool = |a: Drawable, b: Drawable| circle_nearer(point, a, b);
    let mut best: Option<usize> = None;
    let mut best_dist: u128 = 0;
    let mut best_radius: i64 = 0;
    let mut i: usize = 0;
    while i < drawables.len()
        invariant
            forall|i: int| 0 <= i < drawables@.len() ==> well_placed(#[trigger] drawables@[i]),
            s == drawables@,
            eligible == (|d: Drawable| is_circle(d)),
            nearer == (|a: Drawable, b: Drawable| circle_nearer(point, a, b)),
            0 <= i <= s.len(),
            match best {
                Some(k) => first_nearest(s.subrange(0, i as int), eligible, nearer) == Some(k as int)
                    && k < i && best_dist == squared_distance_of(point, s[k as int].point1)
                    && best_radius == s[k as int].point2.x - s[k as int].point1.x
                    && best_dist < 0x2_0000_0000_0000_0000 && 0 <= best_radius < 0x1_0000_0000,
                None => first_nearest(s.subrange(0, i as int), eligible, nearer) is None,
            },
        decreases s.len() - i,
    {
        let d = drawables[i];
        proof {
            assert(s.subrange(0, i + 1).drop_last() =~= s.subrange(0, i as int));
            assert(s.subrange(0, i + 1).last() == d);
            if let Some(k) = best {
                assert(s.subrange(0, i + 1)[k as int] == s[k as int]);
            }
            assert(well_placed(s[i as int]));
        }
        if d.object_type == DrawableType::Circle {
            let dist = squared_distance(point, d.point1);
            let radius = d.point2.x as i64 - d.point1.x as i64;
            proof {
                let m: int = 0x1_0000_0000;
                lemma_mul_bound(point.x - d.point1.x, point.x - d.point1.x, m - 1, m - 1);
                lemma_mul_bound(point.y - d.point1.y, point.y - d.point1.y, m - 1, m - 1);
            }
            let better = match best {
                None => true,
                Some(_) => root_gap_is_less(dist, radius, best_dist, best_radius),
            };
            if better {
                best = Some(i);
                best_dist = dist;
                best_radius = radius;
            }
        }
        i = i + 1;
    }
    proof {
        assert(s.subrange(0, s.len() as int) =~= s);
    }
    match best {
        Some(k) => Some(drawables[k]),
        None => None,
    }
}

/// `a` or `b`, whichever fraction `n / m` is smaller; `a` on a tie.
pub open spec fn frac_min(a: (int, int), b: (int, int)) -> (int, int) {
    if b.0 * a.1 < a.0 * b.1 {
        b
    } else {
        a
    }
}

/// How far `p` is from the drawn part of `d`, as `(n, m, r)`: the distance
/// is `sqrt(n / m) - r`. For a point, the distance to it; for a circle, the
/// distance to its centre less its radius; for a line, the distance to it.
/// For a segment, the least of the distance to its line and the distances to
/// its two ends, and for a half-line, the lesser of the distance to its line
/// and the distance to its origin: this can be less than the distance to the
/// drawn part, beside an end. A line whose two points coincide has no
/// distance (`None`); a segment or half-line whose two points coincide is
/// measured to its ends.
pub open spec fn reach(p: Point, d: Drawable) -> Option<(int, int, int)> {
    let to1 = (squared_distance_of(p, d.point1), 1int);
    let to2 = (squared_distance_of(p, d.point2), 1int);
    let perp = (line_num(p, d), line_den(d));
    let near = if line_den(d) == 0 {
        to1
    } else {
        frac_min(perp, to1)
    };
    match d.object_type {
        DrawableType::Point => Some((to1.0, 1, 0)),
        DrawableType::Circle => Some((to1.0, 1, d.point2.x - d.point1.x)),
        DrawableType::Line => if line_den(d) == 0 {
            None
        } else {
            Some((perp.0, perp.1, 0))
        },
        DrawableType::Segment => Some((frac_min(near, to2).0, frac_min(near, to2).1, 0)),
        DrawableType::HalfLine => Some((near.0, near.1, 0)),
    }
}

/// Whether `sqrt(na / ma) - ra < sqrt(nb / mb) - rb`, for `n` not negative
/// and `m` positive, with the square roots cleared as in `root_gap_less`.
pub open spec fn gap_less(a: (int, int, int), b: (int, int, int)) -> bool {
    let (na, ma, ra) = a;
    let (nb, mb, rb) = b;
    let k = ra - rb;
    if k >= 0 {
        let e = na * mb - nb * ma - k * k * ma * mb;
        e < 0 || e * e < 4 * (k * k) * (ma * ma) * nb * mb
    } else {
        let f = nb * ma - na * mb - k * k * ma * mb;
        f > 0 && 4 * (k * k) * (mb * mb) * na * ma < f * f
    }
}

/// Between two circles, `gap_less` is `root_gap_less`.
pub proof fn lemma_gap_less_of_circles(da: int, ra: int, db: int, rb: int)
    ensures
        gap_less((da, 1, ra), (db, 1, rb)) == root_gap_less(da, ra, db, rb),
{
    let k = ra - rb;
    assert(k * k * 1 * 1 == k * k && 4 * (k * k) * (1 * 1) * db * 1 == 4 * (k * k) * db && 4 * (k * k) * (1 * 1) * da * 1
        == 4 * (k * k) * da) by (nonlinear_arith);
}

/// Whether `d` can be measured from `p` (see `reach`).
pub open spec fn has_reach(p: Point, d: Drawable) -> bool {
    reach(p, d) is Some
}

/// Whether `a` is strictly nearer to `p` than `b`, each by the measure of
/// its kind (see `reach`).
pub open spec fn object_nearer(p: Point, a: Drawable, b: Drawable) -> bool {
    gap_less(reach(p, a).unwrap(), reach(p, b).unwrap())
}

/// A measure `sqrt(n / m) - r` held in machine integers.
struct Reach {
    n: Wide,
    m: u128,
    r: u64,
}

spec fn reach_view(x: Reach) -> (int, int, int) {
    (x.n.value(), x.m as int, x.r as int)
}

/// The sizes that the measures of figures with `i32` coordinates keep to; a
/// measure with a radius is one of a circle.
spec fn reach_fits(x: Reach) -> bool {
    &&& x.n.value() < 0x4_0000_0000_0000_0000_0000_0000_0000_0000int
    &&& 0 < x.m < 0x2_0000_0000_0000_0000
    &&& x.r < 0x1_0000_0000
    &&& x.r > 0 ==> x.m == 1 && x.n.value() < 0x2_0000_0000_0000_0000
}

/// The smaller of two fractions `n / m` with positive `m`, the first on a tie.
fn smaller_fraction(a: (Wide, u128), b: (Wide, u128)) -> (r: (Wide, u128))
    requires
        a.0.value() < 0x4_0000_0000_0000_0000_0000_0000_0000_0000int,
        b.0.value() < 0x4_0000_0000_0000_0000_0000_0000_0000_0000int,
        a.1 < 0x2_0000_0000_0000_0000,
        b.1 < 0x2_0000_0000_0000_0000,
    ensures
        (r.0.value(), r.1 as int) == frac_min((a.0.value(), a.1 as int), (b.0.value(), b.1 as int)),
        r == a || r == b,
{
    proof {
        let w: int = 0x4_0000_0000_0000_0000_0000_0000_0000_0000int;
        let v: int = 0x2_0000_0000_0000_0000;
        assert(b.0.value() * a.1 < w * v && a.0.value() * b.1 < w * v) by (nonlinear_arith)
            requires
                0 <= b.0.value() < w,
                0 <= a.0.value() < w,
                0 <= a.1 < v,
                0 <= b.1 < v,
        ;
    }
    if wide_less(mul_wide_by(b.0, a.1), mul_wide_by(a.0, b.1)) {
        b
    } else {
        a
    }
}

/// The measure of `d` from `p` (see `reach`).
fn reach_of(p: Point, d: &Drawable) -> (r: Option<Reach>)
    requires
        well_placed(*d),
    ensures
        match r {
            Some(x) => reach(p, *d) == Some(reach_view(x)) && reach_fits(x),
            None => reach(p, *d) is None,
        },
{
    let ghost m: int = 0x1_0000_0000;
    proof {
        lemma_mul_bound(p.x - d.point1.x, p.x - d.point1.x, m - 1, m - 1);
        lemma_mul_bound(p.y - d.point1.y, p.y - d.point1.y, m - 1, m - 1);
        lemma_mul_bound(p.x - d.point2.x, p.x - d.point2.x, m - 1, m - 1);
        lemma_mul_bound(p.y - d.point2.y, p.y - d.point2.y, m - 1, m - 1);
        lemma_mul_bound(d.point1.x - d.point2.x, d.point1.x - d.point2.x, m - 1, m - 1);
        lemma_mul_bound(d.point1.y - d.point2.y, d.point1.y - d.point2.y, m - 1, m - 1);
    }
    let to1 = squared_distance(p, d.point1);
    let one = (Wide { hi: 0, lo: to1 }, 1u128);
    match d.object_type {
        DrawableType::Point => {
            return Some(Reach { n: one.0, m: 1, r: 0 });
        },
        DrawableType::Circle => {
            return Some(Reach { n: one.0, m: 1, r: (d.point2.x as i64 - d.point1.x as i64) as u64 });
        },
        _ => {},
    }
    let len = squared_distance(d.point1, d.point2);
    if len == 0 {
        match d.object_type {
            DrawableType::Line => {
                return None;
            },
            DrawableType::Segment => {
                let to2 = squared_distance(p, d.point2);
                let f = smaller_fraction(one, (Wide { hi: 0, lo: to2 }, 1u128));
                return Some(Reach { n: f.0, m: f.1, r: 0 });
            },
            _ => {
                return Some(Reach { n: one.0, m: 1, r: 0 });
            },
        }
    }
    let (_, c) = angle_terms(d.point1, d.point2, d.point1, p);
    proof {
        lemma_mul_bound(d.point2.x - d.point1.x, p.y - d.point1.y, m - 1, m - 1);
        lemma_mul_bound(d.point2.y - d.point1.y, p.x - d.point1.x, m - 1, m - 1);
    }
    let cross: u128 = if c < 0 {
        (-c) as u128
    } else {
        c as u128
    };
    let num = mul_wide(cross, cross);
    proof {
        assert(cross * cross == c * c) by (nonlinear_arith)
            requires
                cross == c || cross == -c,
        ;
        let w: int = 0x2_0000_0000_0000_0000;
        assert(cross * cross < w * w) by (nonlinear_arith)
            requires
                0 <= cross < w,
        ;
    }
    let perp = (num, len);
    match d.object_type {
        DrawableType::Line => Some(Reach { n: num, m: len, r: 0 }),
        DrawableType::Segment => {
            let near = smaller_fraction(perp, one);
            let to2 = squared_distance(p, d.point2);
            let f = smaller_fraction(near, (Wide { hi: 0, lo: to2 }, 1u128));
            Some(Reach { n: f.0, m: f.1, r: 0 })
        },
        _ => {
            let f = smaller_fraction(perp, one);
            Some(Reach { n: f.0, m: f.1, r: 0 })
        },
    }
}

/// With `g = (d - kk) m - n` and `w = 4 kk n m`: whether `g < 0` or
/// `g * g < w`.
fn gap_below(d: u128, kk: u128, n: Wide, m: u128) -> (r: bool)
    requires
        d < 0x2_0000_0000_0000_0000,
        kk < 0x1_0000_0000_0000_0000,
        n.value() < 0x4_0000_0000_0000_0000_0000_0000_0000_0000int,
        0 < m < 0x2_0000_0000_0000_0000,
    ensures
        ({
            let g = (d - kk) * m - n.value();
            r == (g < 0 || g * g < 4 * kk * n.value() * m)
        }),
{
    let ghost g = (d - kk) * m - n.value();
    if d < kk {
        proof {
            assert((d - kk) * m < 0) by (nonlinear_arith)
                requires
                    d - kk < 0,
                    m > 0,
            ;
        }
        return true;
    }
    let x = mul_wide(d - kk, m);
    if wide_less(x, n) {
        return true;
    }
    let gw = wide_sub(x, n);
    proof {
        let v: int = 0x2_0000_0000_0000_0000;
        assert((d - kk) * m < v * v) by (nonlinear_arith)
            requires
                0 <= d - kk < v,
                0 < m < v,
        ;
        assert(n.value() >= 0) by (nonlinear_arith)
            requires
                n.value() == n.hi * 0x1_0000_0000_0000_0000_0000_0000_0000_0000int + n.lo,
                n.hi >= 0,
                n.lo >= 0,
        ;
        assert(gw.value() * gw.value() < 0x1_0000_0000_0000_0000_0000_0000_0000_0000int * 0x1_0000_0000_0000_0000_0000_0000_0000_0000int * 0x1_0000_0000_0000_0000_0000_0000_0000_0000int) by (nonlinear_arith)
            requires
                0 <= gw.value() < v * v,
                v == 0x2_0000_0000_0000_0000,
        ;
        assert(n.value() * (4 * kk) < 0x1_0000_0000_0000_0000_0000_0000_0000_0000int * 0x1_0000_0000_0000_0000_0000_0000_0000_0000int) by (nonlinear_arith)
            requires
                0 <= n.value() < 0x4_0000_0000_0000_0000_0000_0000_0000_0000int,
                0 <= kk < 0x1_0000_0000_0000_0000,
        ;
    }
    let gg = mul_wide_wide(gw, gw);
    let w = mul_wide3_by(mul_wide_by(n, 4 * kk), m);
    proof {
        assert(n.value() * (4 * kk) * m == 4 * kk * n.value() * m) by (nonlinear_arith);
    }
    wide3_less(gg, w)
}

/// With `g = (d - kk) m - n` and `w = 4 kk n m`: whether `g > 0` and
/// `w < g * g`.
fn gap_above(d: u128, kk: u128, n: Wide, m: u128) -> (r: bool)
    requires
        d < 0x2_0000_0000_0000_0000,
        kk < 0x1_0000_0000_0000_0000,
        n.value() < 0x4_0000_0000_0000_0000_0000_0000_0000_0000int,
        0 < m < 0x2_0000_0000_0000_0000,
    ensures
        ({
            let g = (d - kk) * m - n.value();
            r == (g > 0 && 4 * kk * n.value() * m < g * g)
        }),
{
    if d < kk {
        proof {
            assert((d - kk) * m < 0) by (nonlinear_arith)
                requires
                    d - kk < 0,
                    m > 0,
            ;
        }
        return false;
    }
    let x = mul_wide(d - kk, m);
    if !wide_less(n, x) {
        return false;
    }
    let gw = wide_sub(x, n);
    proof {
        let v: int = 0x2_0000_0000_0000_0000;
        assert((d - kk) * m < v * v) by (nonlinear_arith)
            requires
                0 <= d - kk < v,
                0 < m < v,
        ;
        assert(n.value() >= 0) by (nonlinear_arith)
            requires
                n.value() == n.hi * 0x1_0000_0000_0000_0000_0000_0000_0000_0000int + n.lo,
                n.hi >= 0,
                n.lo >= 0,
        ;
        assert(gw.value() * gw.value() < 0x1_0000_0000_0000_0000_0000_0000_0000_0000int * 0x1_0000_0000_0000_0000_0000_0000_0000_0000int * 0x1_0000_0000_0000_0000_0000_0000_0000_0000int) by (nonlinear_arith)
            requires
                0 <= gw.value() < v * v,
                v == 0x2_0000_0000_0000_0000,
        ;
        assert(n.value() * (4 * kk) < 0x1_0000_0000_0000_0000_0000_0000_0000_0000int * 0x1_0000_0000_0000_0000_0000_0000_0000_0000int) by (nonlinear_arith)
            requires
                0 <= n.value() < 0x4_0000_0000_0000_0000_0000_0000_0000_0000int,
                0 <= kk < 0x1_0000_0000_0000_0000,
        ;
    }
    let gg = mul_wide_wide(gw, gw);
    let w = mul_wide3_by(mul_wide_by(n, 4 * kk), m);
    proof {
        assert(n.value() * (4 * kk) * m == 4 * kk * n.value() * m) by (nonlinear_arith);
    }
    wide3_less(w, gg)
}

/// `gap_less` on two measures.
fn gap_is_less(a: &Reach, b: &Reach) -> (r: bool)
    requires
        reach_fits(*a),
        reach_fits(*b),
    ensures
        r == gap_less(reach_view(*a), reach_view(*b)),
{
    let ghost (na, ma, ra) = reach_view(*a);
    let ghost (nb, mb, rb) = reach_view(*b);
    if a.r == b.r {
        proof {
            let w: int = 0x4_0000_0000_0000_0000_0000_0000_0000_0000int;
            let v: int = 0x2_0000_0000_0000_0000;
            assert(na * mb < w * v && nb * ma < w * v) by (nonlinear_arith)
                requires
                    0 <= na < w,
                    0 <= nb < w,
                    0 <= ma < v,
                    0 <= mb < v,
            ;
            let e = na * mb - nb * ma;
            assert(e * e >= 0) by (nonlinear_arith);
            assert(0 * 0 * ma * mb == 0 && 4 * (0 * 0) * (ma * ma) * nb * mb == 0) by (nonlinear_arith);
        }
        wide_less(mul_wide_by(a.n, b.m), mul_wide_by(b.n, a.m))
    } else if a.r > b.r {
        let k = a.r - b.r;
        proof {
            assert(k * k < 0x1_0000_0000_0000_0000) by (nonlinear_arith)
                requires
                    0 < k < 0x1_0000_0000,
            ;
            assert(k * k * 1 * mb == k * k * mb && 4 * (k * k) * (1 * 1) * nb * mb == 4 * (k * k) * nb * mb) by (nonlinear_arith);
            assert(na * mb - nb * 1 - k * k * mb == (na - k * k) * mb - nb) by (nonlinear_arith);
        }
        gap_below(a.n.lo, (k * k) as u128, b.n, b.m)
    } else {
        let k = b.r - a.r;
        proof {
            assert(k * k < 0x1_0000_0000_0000_0000) by (nonlinear_arith)
                requires
                    0 < k < 0x1_0000_0000,
            ;
            assert((ra - rb) * (ra - rb) == k * k) by (nonlinear_arith)
                requires
                    k == rb - ra,
            ;
            assert((ra - rb) * (ra - rb) * ma * 1 == k * k * ma && 4 * (k * k) * (1 * 1) * na * ma == 4 * (k * k) * na * ma) by (nonlinear_arith)
                requires
                    (ra - rb) * (ra - rb) == k * k,
            ;
            assert(nb * ma - na * 1 - k * k * ma == (nb - k * k) * ma - na) by (nonlinear_arith);
        }
        gap_above(b.n.lo, (k * k) as u128, a.n, a.m)
    }
}

/// The figure of `drawables` nearest to `point`, each by the measure of its
/// kind (see `reach`), the first one on a tie; `None` when no figure can be
/// measured. Each circle is held as the overlay records it, with its point
/// on the circle right of its centre.
pub fn closest_object(point: Point, drawables: &Vec<Drawable>) -> (r: Option<Drawable>)
    requires
        forall|i: int| 0 <= i < drawables@.len() ==> well_placed(#[trigger] drawables@[i]),
    ensures
        r == nearest_figure(drawables@, |d: Drawable| has_reach(point, d), |a: Drawable, b: Drawable| object_nearer(point, a, b)),
{
    let ghost s = drawables@;
    let ghost eligible: spec_fn(Drawable) -> bool = |d: Drawable| has_reach(point, d);
    let ghost nearer: spec_fn(Drawable, Drawable) -> bool = |a: Drawable, b: Drawable| object_nearer(point, a, b);
    let mut best: Option<(usize, Reach)> = None;
    let mut i: usize = 0;
    while i < drawables.len()
        invariant
            forall|i: int| 0 <= i < drawables@.len() ==> well_placed(#[trigger] drawables@[i]),
            s == drawables@,
            eligible == (|d: Drawable| has_reach(point, d)),
            nearer == (|a: Drawable, b: Drawable| object_nearer(point, a, b)),
            0 <= i <= s.len(),
            match best {
                Some((k, x)) => first_nearest(s.subrange(0, i as int), eligible, nearer) == Some(k as int) && k < i
                    && reach(point, s[k as int]) == Some(reach_view(x)) && reach_fits(x),
                None => first_nearest(s.subrange(0, i as int), eligible, nearer) is None,
            },
        decreases s.len() - i,
    {
        let d = drawables[i];
        proof {
            assert(s.subrange(0, i + 1).drop_last() =~= s.subrange(0, i as int));
            assert(s.subrange(0, i + 1).last() == d);
            if let Some((k, _)) = best {
                assert(s.subrange(0, i + 1)[k as int] == s[k as int]);
            }
        }
        if let Some(x) = reach_of(point, &d) {
            let better = match &best {
                None => true,
                Some((_, y)) => gap_is_less(&x, y),
            };
            if better {
                best = Some((i, x));
            }
        }
        i = i + 1;
    }
    proof {
        assert(s.subrange(0, s.len() as int) =~= s);
    }
    match best {
        Some((k, _)) => Some(drawables[k]),
        None => None,
    }
}

/// What the scan keeps when `nearer` ranks the eligible figures as a strict
/// weak order: `None` exactly when no figure is eligible, and otherwise an
/// eligible figure that no eligible figure is strictly nearer than, and that
/// is strictly nearer than every eligible figure before it.
pub open spec fn is_first_least(
    s: Seq<Drawable>,
    eligible: spec_fn(Drawable) -> bool,
    nearer: spec_fn(Drawable, Drawable) -> bool,
    r: Option<int>,
) -> bool {
    match r {
        None => forall|k: int| 0 <= k < s.len() ==> !eligible(#[trigger] s[k]),
        Some(i) => {
            &&& 0 <= i < s.len()
            &&& eligible(s[i])
            &&& forall|k: int| 0 <= k < s.len() && eligible(#[trigger] s[k]) ==> !nearer(s[k], s[i])
            &&& forall|k: int| 0 <= k < i && eligible(#[trigger] s[k]) ==> nearer(s[i], s[k])
        },
    }
}

/// Whether `nearer` is a strict weak order on the eligible figures.
pub open spec fn ranks(eligible: spec_fn(Drawable) -> bool, nearer: spec_fn(Drawable, Drawable) -> bool) -> bool {
    &&& forall|a: Drawable| eligible(a) ==> !#[trigger] nearer(a, a)
    &&& forall|a: Drawable, b: Drawable, c: Drawable|
        eligible(a) && eligible(b) && eligible(c) && #[trigger] nearer(a, b) && !#[trigger] nearer(c, b) ==> nearer(a, c)
    &&& forall|a: Drawable, b: Drawable, c: Drawable|
        eligible(a) && eligible(b) && eligible(c) && #[trigger] nearer(a, b) && #[trigger] nearer(b, c) ==> nearer(a, c)
}

proof fn lemma_first_nearest_is_least(
    s: Seq<Drawable>,
    eligible: spec_fn(Drawable) -> bool,
    nearer: spec_fn(Drawable, Drawable) -> bool,
)
    requires
        ranks(eligible, nearer),
    ensures
        is_first_least(s, eligible, nearer, first_nearest(s, eligible, nearer)),
    decreases s.len(),
{
    if s.len() > 0 {
        let t = s.drop_last();
        lemma_first_nearest_is_least(t, eligible, nearer);
        let x = s.last();
        assert forall|k: int| 0 <= k < t.len() implies #[trigger] s[k] == t[k] by {}
        match first_nearest(t, eligible, nearer) {
            None => {},
            Some(j) => {
                let y = t[j];
                if eligible(x) && nearer(x, y) {
                    assert forall|k: int| 0 <= k < s.len() - 1 && eligible(#[trigger] s[k]) implies nearer(x, s[k])
                        && !nearer(s[k], x) by {
                        assert(!nearer(t[k], y));
                    }
                }
            },
        }
    }
}

/// `closest_point` keeps a point figure that no point figure is strictly
/// nearer to `point` than, and that is strictly nearer than every point
/// figure before it; `None` only when there is no point figure.
pub proof fn lemma_closest_point_is_nearest(point: Point, s: Seq<Drawable>)
    ensures
        is_first_least(
            s,
            |d: Drawable| is_point(d),
            |a: Drawable, b: Drawable| point_nearer(point, a, b),
            first_nearest(s, |d: Drawable| is_point(d), |a: Drawable, b: Drawable| point_nearer(point, a, b)),
        ),
{
    lemma_first_nearest_is_least(s, |d: Drawable| is_point(d), |a: Drawable, b: Drawable| point_nearer(point, a, b));
}

/// `closest_line` keeps a figure with a line that no such figure's line is
/// strictly nearer to `point` than, and that is strictly nearer than every
/// such figure before it; `None` only when no figure has a line.
pub proof fn lemma_closest_line_is_nearest(point: Point, s: Seq<Drawable>)
    ensures
        is_first_least(
            s,
            |d: Drawable| has_line(d),
            |a: Drawable, b: Drawable| line_nearer(point, a, b),
            first_nearest(s, |d: Drawable| has_line(d), |a: Drawable, b: Drawable| line_nearer(point, a, b)),
        ),
{
    let eligible = |d: Drawable| has_line(d);
    let nearer = |a: Drawable, b: Drawable| line_nearer(point, a, b);
    assert forall|a: Drawable, b: Drawable, c: Drawable|
        eligible(a) && eligible(b) && eligible(c) && #[trigger] nearer(a, b) implies (!#[trigger] nearer(c, b) ==> nearer(a, c))
            && (nearer(b, c) ==> nearer(a, c)) by {
        lemma_squared_distance_symmetric(a.point1, a.point2);
        lemma_squared_distance_symmetric(b.point1, b.point2);
        lemma_squared_distance_symmetric(c.point1, c.point2);
        lemma_fractions_order(line_num(point, a), line_den(a), line_num(point, b), line_den(b), line_num(point, c), line_den(c));
    }
    lemma_first_nearest_is_least(s, eligible, nearer);
}

/// Fractions with positive denominators compared by cross products form a
/// strict weak order.
proof fn lemma_fractions_order(na: int, da: int, nb: int, db: int, nc: int, dc: int)
    requires
        da > 0,
        db > 0,
        dc > 0,
        na * db < nb * da,
    ensures
        !(nc * db < nb * dc) ==> na * dc < nc * da,
        nb * dc < nc * db ==> na * dc < nc * da,
{
    if !(nc * db < nb * dc) {
        assert(na * dc < nc * da) by (nonlinear_arith)
            requires
                na * db < nb * da,
                nb * dc <= nc * db,
                da > 0,
                db > 0,
                dc > 0,
        ;
    }
    if nb * dc < nc * db {
        assert(na * dc < nc * da) by (nonlinear_arith)
            requires
                na * db < nb * da,
                nb * dc < nc * db,
                da > 0,
                db > 0,
                dc > 0,
        ;
    }
}

} // verus!

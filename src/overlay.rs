//! The overlay: the figures drawn over the image, one sprite box per figure,
//! and what the next pass over the persistent overlay canvas has to draw.

use crate::geometry::{
    find_line_extreme_coordinates, line_extremes, squared_distance, squared_distance_of, GeometryError, Point,
};
use crate::ids::IdGenerator;
use crate::query::{
    self, circle_nearer, has_line, has_reach, is_circle, is_point, line_nearer, nearest_figure, object_nearer, point_nearer,
};
use vstd::prelude::*;

verus! {

/// The kind of a figure, which says how its two points are read.
#[derive(Clone, Copy, Debug, Default, PartialEq, Eq, Structural)]
pub enum DrawableType {
    /// `point1` is the point; `point2` repeats it.
    #[default]
    Point,
    /// `point1` and `point2` are the ends.
    Segment,
    /// `point1` is the origin; `point2` is where the half-line leaves the image.
    HalfLine,
    /// `point1` and `point2` are where the line crosses the image border.
    Line,
    /// `point1` is the centre; `point2` lies on the circle, right of the centre.
    Circle,
}

/// A colour of 8-bit red, green and blue components.
#[derive(Clone, Copy, Debug, Default, PartialEq, Eq, Structural)]
pub struct Color {
    pub r: u8,
    pub g: u8,
    pub b: u8,
}

/// A figure of the overlay, with the style it was created with.
#[derive(Clone, Copy, Debug, Default, PartialEq, Eq, Structural)]
pub struct Drawable {
    pub id: i32,
    pub object_type: DrawableType,
    pub point1: Point,
    pub point2: Point,
    pub color: Color,
    /// Stroke width in pixels.
    pub width: u32,
    /// Whether the persistent overlay canvas holds this figure.
    pub already_drawn: bool,
    /// Row of the figure in the list of figures shown to the user.
    pub listview_id: i32,
}

/// The box, in image pixels, that the sprite of one figure covers: `x` and `y`
/// are its top left corner.
#[derive(Clone, Copy, Debug, PartialEq, Eq, Structural)]
pub struct OverlaySprite {
    pub id: i32,
    pub x: i64,
    pub y: i64,
    pub width: u64,
    pub height: u64,
}

/// What one pass over the persistent overlay canvas has to do: clear it first
/// or not, then draw these figures in this order.
#[derive(Debug)]
pub struct RenderPass {
    pub clear: bool,
    pub drawables: Vec<Drawable>,
}

/// Stroke width of a new overlay, in pixels.
pub const DEFAULT_STROKE_WIDTH: u32 = 4;

pub open spec fn default_color() -> Color {
    Color { r: 42, g: 0, b: 150 }
}

pub open spec fn min_of(a: int, b: int) -> int {
    if a < b {
        a
    } else {
        b
    }
}

pub open spec fn abs_diff(a: int, b: int) -> int {
    if a < b {
        b - a
    } else {
        a - b
    }
}

/// The box that holds the stroked figure `d` whole.
///
/// A circle of radius `r` and stroke `w` is held by the square of side
/// `2 (r + w)` centred on it; a point, drawn as a disc of radius `w`, by the
/// square of side `2 w`. A segment, line or half-line is held by the box of
/// its two points widened by half the stroke, rounded up, on every side.
pub open spec fn sprite_of(d: Drawable) -> OverlaySprite {
    let w = d.width as int;
    match d.object_type {
        DrawableType::Circle => {
            let reach = (d.point2.x - d.point1.x) + w;
            OverlaySprite {
                id: d.id,
                x: (d.point1.x - reach) as i64,
                y: (d.point1.y - reach) as i64,
                width: (2 * reach) as u64,
                height: (2 * reach) as u64,
            }
        },
        DrawableType::Point => OverlaySprite {
            id: d.id,
            x: (d.point1.x - w) as i64,
            y: (d.point1.y - w) as i64,
            width: (2 * w) as u64,
            height: (2 * w) as u64,
        },
        _ => {
            let pad = (w + 1) / 2;
            OverlaySprite {
                id: d.id,
                x: (min_of(d.point1.x as int, d.point2.x as int) - pad) as i64,
                y: (min_of(d.point1.y as int, d.point2.y as int) - pad) as i64,
                width: (abs_diff(d.point1.x as int, d.point2.x as int) + 2 * pad) as u64,
                height: (abs_diff(d.point1.y as int, d.point2.y as int) + 2 * pad) as u64,
            }
        },
    }
}

/// A circle keeps its point on the circle to the right of its centre.
pub open spec fn well_placed(d: Drawable) -> bool {
    d.object_type == DrawableType::Circle ==> d.point2.y == d.point1.y && d.point2.x >= d.point1.x
}

/// `d` once the persistent canvas holds it.
pub open spec fn drawn(d: Drawable) -> Drawable {
    Drawable { already_drawn: true, ..d }
}

/// `d` shown at row `row` of the list when it is the figure `id`.
pub open spec fn with_row(d: Drawable, id: i32, row: i32) -> Drawable {
    if d.id == id {
        Drawable { listview_id: row, ..d }
    } else {
        d
    }
}

/// Computes the sprite box of a figure (see `sprite_of`).
fn sprite_box(d: &Drawable) -> (r: OverlaySprite)
    requires
        well_placed(*d),
    ensures
        r == sprite_of(*d),
{
    let w = d.width as i64;
    match d.object_type {
        DrawableType::Circle => {
            let reach = (d.point2.x as i64 - d.point1.x as i64) + w;
            OverlaySprite {
                id: d.id,
                x: d.point1.x as i64 - reach,
                y: d.point1.y as i64 - reach,
                width: (2 * reach) as u64,
                height: (2 * reach) as u64,
            }
        },
        DrawableType::Point => OverlaySprite {
            id: d.id,
            x: d.point1.x as i64 - w,
            y: d.point1.y as i64 - w,
            width: (2 * w) as u64,
            height: (2 * w) as u64,
        },
        _ => {
            let pad = (w + 1) / 2;
            let min_x = if d.point1.x < d.point2.x { d.point1.x } else { d.point2.x };
            let min_y = if d.point1.y < d.point2.y { d.point1.y } else { d.point2.y };
            let span_x = if d.point1.x < d.point2.x {
                d.point2.x as i64 - d.point1.x as i64
            } else {
                d.point1.x as i64 - d.point2.x as i64
            };
            let span_y = if d.point1.y < d.point2.y {
                d.point2.y as i64 - d.point1.y as i64
            } else {
                d.point1.y as i64 - d.point2.y as i64
            };
            OverlaySprite {
                id: d.id,
                x: min_x as i64 - pad,
                y: min_y as i64 - pad,
                width: (span_x + 2 * pad) as u64,
                height: (span_y + 2 * pad) as u64,
            }
        },
    }
}

/// The figures over one image, the sprite box of each, and the state of the
/// persistent overlay canvas.
pub struct OverlayRenderer {
    drawables: Vec<Drawable>,
    drawable_images: Vec<OverlaySprite>,
    entity_id_generator: IdGenerator,
    image_height: u32,
    image_width: u32,
    is_overlay_discarded: bool,
    stroke_width: u32,
    color: Color,
}

impl OverlayRenderer {
    /// The figures, oldest first.
    pub closed spec fn figures(&self) -> Seq<Drawable> {
        self.drawables@
    }

    /// The sprite boxes, one for each figure, in the same order.
    pub closed spec fn sprites(&self) -> Seq<OverlaySprite> {
        self.drawable_images@
    }

    /// The identifier given last; 0 before the first figure.
    pub closed spec fn last_id(&self) -> int {
        self.entity_id_generator.last()
    }

    /// Whether the persistent canvas must be cleared and drawn anew.
    pub closed spec fn discarded(&self) -> bool {
        self.is_overlay_discarded
    }

    /// Stroke width given to the next figures.
    pub closed spec fn pen_width(&self) -> u32 {
        self.stroke_width
    }

    /// Colour given to the next figures.
    pub closed spec fn pen_color(&self) -> Color {
        self.color
    }

    /// Width of the image, in pixels.
    pub closed spec fn canvas_width(&self) -> u32 {
        self.image_width
    }

    /// Height of the image, in pixels.
    pub closed spec fn canvas_height(&self) -> u32 {
        self.image_height
    }

    /// The invariant: one sprite box per figure, computed from it;
    /// identifiers that increase along the list and were all given by the
    /// generator; a canvas whose sides fit in an `i32`.
    pub closed spec fn wf(&self) -> bool {
        &&& self.drawables@.len() == self.drawable_images@.len()
        &&& forall|i: int| 0 <= i < self.drawables@.len() ==> #[trigger] self.drawable_images@[i] == sprite_of(self.drawables@[i])
        &&& forall|i: int| 0 <= i < self.drawables@.len() ==> well_placed(#[trigger] self.drawables@[i])
        &&& forall|i: int, j: int| 0 <= i < j < self.drawables@.len() ==> #[trigger] self.drawables@[i].id < #[trigger] self.drawables@[j].id
        &&& forall|i: int| 0 <= i < self.drawables@.len() ==> 0 < #[trigger] self.drawables@[i].id <= self.entity_id_generator.last()
        &&& 0 <= self.entity_id_generator.last()
        &&& self.image_width <= i32::MAX
        &&& self.image_height <= i32::MAX
    }

    /// Whether a pass over the persistent canvas would have nothing to do.
    pub open spec fn up_to_date(&self) -> bool {
        &&& !self.discarded()
        &&& forall|i: int| 0 <= i < self.figures().len() ==> (#[trigger] self.figures()[i]).already_drawn
    }

    /// The figure that an `add_*` call records next.
    pub open spec fn next_figure(&self, kind: DrawableType, p1: Point, p2: Point) -> Drawable {
        Drawable {
            id: (self.last_id() + 1) as i32,
            object_type: kind,
            point1: p1,
            point2: p2,
            color: self.pen_color(),
            width: self.pen_width(),
            already_drawn: false,
            listview_id: 0,
        }
    }

    /// `self` and `other` differ at most in their figures, sprite boxes and
    /// last identifier.
    pub open spec fn same_settings(&self, other: &Self) -> bool {
        &&& self.discarded() == other.discarded()
        &&& self.pen_width() == other.pen_width()
        &&& self.pen_color() == other.pen_color()
        &&& self.canvas_width() == other.canvas_width()
        &&& self.canvas_height() == other.canvas_height()
    }

    /// `after` is `before` with the figure `d` recorded.
    pub open spec fn records(before: &Self, after: &Self, d: Drawable) -> bool {
        &&& after.wf()
        &&& after.figures() == before.figures().push(d)
        &&& after.sprites() == before.sprites().push(sprite_of(d))
        &&& after.last_id() == d.id
        &&& after.same_settings(before)
    }

    /// An empty overlay over an image of `image_width` by `image_height`
    /// pixels, whose canvas is to be drawn anew.
    pub fn new(image_width: u32, image_height: u32) -> (r: OverlayRenderer)
        requires
            image_width <= i32::MAX,
            image_height <= i32::MAX,
        ensures
            r.wf(),
            r.figures().len() == 0,
            r.last_id() == 0,
            r.discarded(),
            r.pen_width() == DEFAULT_STROKE_WIDTH,
            r.pen_color() == default_color(),
            r.canvas_width() == image_width,
            r.canvas_height() == image_height,
    {
        OverlayRenderer {
            drawables: Vec::new(),
            drawable_images: Vec::new(),
            entity_id_generator: IdGenerator::new(),
            image_height,
            image_width,
            is_overlay_discarded: true,
            stroke_width: DEFAULT_STROKE_WIDTH,
            color: Color { r: 42, g: 0, b: 150 },
        }
    }

    /// Drops every figure for a new image; identifiers start again from 1.
    /// The pen is kept.
    pub fn reset(&mut self, image_width: u32, image_height: u32)
        requires
            image_width <= i32::MAX,
            image_height <= i32::MAX,
        ensures
            final(self).wf(),
            final(self).figures().len() == 0,
            final(self).last_id() == 0,
            final(self).discarded(),
            final(self).pen_width() == old(self).pen_width(),
            final(self).pen_color() == old(self).pen_color(),
            final(self).canvas_width() == image_width,
            final(self).canvas_height() == image_height,
    {
        self.image_height = image_height;
        self.image_width = image_width;
        self.drawables = Vec::new();
        self.drawable_images = Vec::new();
        self.entity_id_generator = IdGenerator::new();
        self.is_overlay_discarded = true;
    }

    /// Sets the stroke width of the figures added from now on.
    pub fn set_width(&mut self, width: u32)
        requires
            old(self).wf(),
        ensures
            final(self).wf(),
            final(self).pen_width() == width,
            final(self).pen_color() == old(self).pen_color(),
            final(self).figures() == old(self).figures(),
            final(self).sprites() == old(self).sprites(),
            final(self).last_id() == old(self).last_id(),
            final(self).discarded() == old(self).discarded(),
            final(self).canvas_width() == old(self).canvas_width(),
            final(self).canvas_height() == old(self).canvas_height(),
    {
        self.stroke_width = width;
    }

    /// Sets the colour of the figures added from now on.
    pub fn set_color(&mut self, red: u8, green: u8, blue: u8)
        requires
            old(self).wf(),
        ensures
            final(self).wf(),
            final(self).pen_color() == (Color { r: red, g: green, b: blue }),
            final(self).pen_width() == old(self).pen_width(),
            final(self).figures() == old(self).figures(),
            final(self).sprites() == old(self).sprites(),
            final(self).last_id() == old(self).last_id(),
            final(self).discarded() == old(self).discarded(),
            final(self).canvas_width() == old(self).canvas_width(),
            final(self).canvas_height() == old(self).canvas_height(),
    {
        self.color = Color { r: red, g: green, b: blue };
    }

    /// Asks for the persistent canvas to be cleared and drawn anew at the
    /// next pass.
    pub fn discard_overlay(&mut self)
        requires
            old(self).wf(),
        ensures
            final(self).wf(),
            final(self).discarded(),
            final(self).pen_color() == old(self).pen_color(),
            final(self).pen_width() == old(self).pen_width(),
            final(self).figures() == old(self).figures(),
            final(self).sprites() == old(self).sprites(),
            final(self).last_id() == old(self).last_id(),
            final(self).canvas_width() == old(self).canvas_width(),
            final(self).canvas_height() == old(self).canvas_height(),
    {
        self.is_overlay_discarded = true;
    }

    /// Whether one more figure can be given an identifier.
    pub fn has_free_id(&self) -> (r: bool)
        ensures
            r == (self.last_id() < i32::MAX),
    {
        self.entity_id_generator.has_next()
    }

    /// Adds `drawable`, with its own style, under a new identifier and not
    /// drawn yet, with its sprite box; returns the identifier. A circle must
    /// keep its point on the circle right of its centre.
    pub fn add_drawable(&mut self, drawable: Drawable) -> (id: i32)
        requires
            old(self).wf(),
            old(self).last_id() < i32::MAX,
            well_placed(drawable),
        ensures
            id == old(self).last_id() + 1,
            Self::records(old(self), final(self), Drawable { id, already_drawn: false, ..drawable }),
    {
        let id = self.entity_id_generator.get_id();
        let d = Drawable { id, already_drawn: false, ..drawable };
        let sprite = sprite_box(&d);
        self.drawables.push(d);
        self.drawable_images.push(sprite);
        proof {
            let n = self.drawables@.len();
            assert(self.drawables@ == old(self).drawables@.push(d));
            assert forall|i: int| 0 <= i < n implies 0 < #[trigger] self.drawables@[i].id
                <= self.entity_id_generator.last() && well_placed(self.drawables@[i]) by {
                if i < n - 1 {
                    assert(self.drawables@[i] == old(self).drawables@[i]);
                }
            }
            assert forall|i: int, j: int| 0 <= i < j < n implies #[trigger] self.drawables@[i].id
                < #[trigger] self.drawables@[j].id by {
                if j == n - 1 {
                    assert(self.drawables@[i] == old(self).drawables@[i]);
                }
            }
            assert forall|i: int| 0 <= i < n implies #[trigger] self.drawable_images@[i] == sprite_of(
                self.drawables@[i],
            ) by {
                if i < n - 1 {
                    assert(self.drawable_images@[i] == old(self).drawable_images@[i]);
                    assert(self.drawables@[i] == old(self).drawables@[i]);
                }
            }
        }
        id
    }

    /// Records a figure of the pen's style with a new identifier, and its
    /// sprite box.
    fn record(&mut self, kind: DrawableType, point1: Point, point2: Point) -> (id: i32)
        requires
            old(self).wf(),
            old(self).last_id() < i32::MAX,
            well_placed(old(self).next_figure(kind, point1, point2)),
        ensures
            id == old(self).last_id() + 1,
            Self::records(old(self), final(self), old(self).next_figure(kind, point1, point2)),
    {
        self.add_drawable(
            Drawable {
                id: 0,
                object_type: kind,
                point1,
                point2,
                color: self.color,
                width: self.stroke_width,
                already_drawn: false,
                listview_id: 0,
            },
        )
    }

    /// Adds the segment `point1 point2` and returns its identifier.
    pub fn add_segment(&mut self, point1: Point, point2: Point) -> (id: i32)
        requires
            old(self).wf(),
            old(self).last_id() < i32::MAX,
        ensures
            id == old(self).last_id() + 1,
            Self::records(old(self), final(self), old(self).next_figure(DrawableType::Segment, point1, point2)),
    {
        self.record(DrawableType::Segment, point1, point2)
    }

    /// Adds the point `point` and returns its identifier.
    pub fn add_point(&mut self, point: Point) -> (id: i32)
        requires
            old(self).wf(),
            old(self).last_id() < i32::MAX,
        ensures
            id == old(self).last_id() + 1,
            Self::records(old(self), final(self), old(self).next_figure(DrawableType::Point, point, point)),
    {
        self.record(DrawableType::Point, point, point)
    }

    /// Adds the circle of centre `center` and radius `radius`, kept as its
    /// centre and the point of the circle `radius` pixels right of it, and
    /// returns its identifier.
    pub fn add_circle(&mut self, center: Point, radius: u32) -> (id: i32)
        requires
            old(self).wf(),
            old(self).last_id() < i32::MAX,
            center.x + radius <= i32::MAX,
        ensures
            id == old(self).last_id() + 1,
            Self::records(
                old(self),
                final(self),
                old(self).next_figure(
                    DrawableType::Circle,
                    center,
                    Point { x: (center.x + radius) as i32, y: center.y },
                ),
            ),
    {
        let edge = Point { x: (center.x as i64 + radius as i64) as i32, y: center.y };
        self.record(DrawableType::Circle, center, edge)
    }

    /// The line through `point1 point2` cut to the image.
    pub open spec fn clipped(&self, point1: Point, point2: Point) -> Result<(Point, Point), GeometryError> {
        line_extremes(point1, point2, 0, self.canvas_width() as i32, 0, self.canvas_height() as i32)
    }

    /// Adds the line through `point1 point2`, kept as the two places where it
    /// crosses the image border, and returns its identifier; the error of
    /// `find_line_extreme_coordinates` leaves the overlay as it was.
    pub fn add_line(&mut self, point1: Point, point2: Point) -> (r: Result<i32, GeometryError>)
        requires
            old(self).wf(),
            old(self).last_id() < i32::MAX,
        ensures
            match old(self).clipped(point1, point2) {
                Ok((a, b)) => r == Ok::<i32, GeometryError>((old(self).last_id() + 1) as i32) && Self::records(
                    old(self),
                    final(self),
                    old(self).next_figure(DrawableType::Line, a, b),
                ),
                Err(e) => r == Err::<i32, GeometryError>(e) && *final(self) == *old(self),
            },
    {
        let ends = find_line_extreme_coordinates(
            point1,
            point2,
            0,
            self.image_width as i32,
            0,
            self.image_height as i32,
        );
        match ends {
            Ok((a, b)) => Ok(self.record(DrawableType::Line, a, b)),
            Err(e) => Err(e),
        }
    }

    /// The end that a half-line from `point1` through `point2` is given: of
    /// the two places where its line crosses the image border, the one nearer
    /// to `point2` (the second one on a tie).
    pub open spec fn half_line_end(point2: Point, a: Point, b: Point) -> Point {
        if squared_distance_of(point2, a) < squared_distance_of(point2, b) {
            a
        } else {
            b
        }
    }

    /// Adds the half-line from `point1` through `point2`, kept as `point1`
    /// and its end at the image border (see `half_line_end`), and returns its
    /// identifier; the error of `find_line_extreme_coordinates` leaves the
    /// overlay as it was.
    pub fn add_half_line(&mut self, point1: Point, point2: Point) -> (r: Result<i32, GeometryError>)
        requires
            old(self).wf(),
            old(self).last_id() < i32::MAX,
        ensures
            match old(self).clipped(point1, point2) {
                Ok((a, b)) => r == Ok::<i32, GeometryError>((old(self).last_id() + 1) as i32) && Self::records(
                    old(self),
                    final(self),
                    old(self).next_figure(DrawableType::HalfLine, point1, Self::half_line_end(point2, a, b)),
                ),
                Err(e) => r == Err::<i32, GeometryError>(e) && *final(self) == *old(self),
            },
    {
        let ends = find_line_extreme_coordinates(
            point1,
            point2,
            0,
            self.image_width as i32,
            0,
            self.image_height as i32,
        );
        match ends {
            Ok((a, b)) => {
                let end = if squared_distance(point2, a) < squared_distance(point2, b) {
                    a
                } else {
                    b
                };
                Ok(self.record(DrawableType::HalfLine, point1, end))
            },
            Err(e) => Err(e),
        }
    }

    /// The point figure nearest to `point`, the first one on a tie; `None`
    /// when there is no point figure.
    pub fn closest_point(&self, point: Point) -> (r: Option<Drawable>)
        ensures
            r == nearest_figure(self.figures(), |d: Drawable| is_point(d), |a: Drawable, b: Drawable| point_nearer(point, a, b)),
    {
        query::closest_point(point, &self.drawables)
    }

    /// The line, segment or half-line whose infinite line is nearest to
    /// `point`, the first one on a tie; `None` when there is none. A figure
    /// whose two points coincide has no line and is passed over.
    pub fn closest_line(&self, point: Point) -> (r: Option<Drawable>)
        ensures
            r == nearest_figure(self.figures(), |d: Drawable| has_line(d), |a: Drawable, b: Drawable| line_nearer(point, a, b)),
    {
        query::closest_line(point, &self.drawables)
    }

    /// The circle nearest to `point` by distance to the centre less the
    /// radius, the first one on a tie; `None` when there is no circle.
    pub fn closest_circle(&self, point: Point) -> (r: Option<Drawable>)
        requires
            self.wf(),
        ensures
            r == nearest_figure(self.figures(), |d: Drawable| is_circle(d), |a: Drawable, b: Drawable| circle_nearer(point, a, b)),
    {
        assert forall|i: int| 0 <= i < self.drawables@.len() implies well_placed(#[trigger] self.drawables@[i]) by {}
        query::closest_circle(point, &self.drawables)
    }

    /// The figure nearest to `point`, each by the measure of its kind (see
    /// `query::reach`), the first one on a tie; `None` when no figure can be
    /// measured.
    pub fn closest_object(&self, point: Point) -> (r: Option<Drawable>)
        requires
            self.wf(),
        ensures
            r == nearest_figure(self.figures(), |d: Drawable| has_reach(point, d), |a: Drawable, b: Drawable| object_nearer(point, a, b)),
    {
        assert forall|i: int| 0 <= i < self.drawables@.len() implies well_placed(#[trigger] self.drawables@[i]) by {}
        query::closest_object(point, &self.drawables)
    }

    /// Removes the figure `id` and its sprite box, if there is one, and asks
    /// for the persistent canvas to be drawn anew: a figure cannot be taken
    /// back out of it.
    pub fn remove_drawable(&mut self, id: i32)
        requires
            old(self).wf(),
        ensures
            final(self).wf(),
            final(self).figures() == old(self).figures().filter(|d: Drawable| d.id != id),
            final(self).discarded(),
            final(self).last_id() == old(self).last_id(),
            final(self).pen_color() == old(self).pen_color(),
            final(self).pen_width() == old(self).pen_width(),
            final(self).canvas_width() == old(self).canvas_width(),
            final(self).canvas_height() == old(self).canvas_height(),
    {
        let ghost keep: spec_fn(Drawable) -> bool = |d: Drawable| d.id != id;
        let ghost all = self.drawables@;
        let mut kept: Vec<Drawable> = Vec::new();
        let mut kept_sprites: Vec<OverlaySprite> = Vec::new();
        let n = self.drawables.len();
        let mut i: usize = 0;
        while i < n
            invariant
                self.wf(),
                all == self.drawables@,
                keep == (|d: Drawable| d.id != id),
                n == all.len(),
                0 <= i <= n,
                kept@ == all.subrange(0, i as int).filter(keep),
                kept_sprites@.len() == kept@.len(),
                forall|k: int| 0 <= k < kept@.len() ==> #[trigger] kept_sprites@[k] == sprite_of(kept@[k]),
                forall|k: int| 0 <= k < kept@.len() ==> well_placed(#[trigger] kept@[k]),
                forall|k: int| 0 <= k < kept@.len() ==> 0 < #[trigger] kept@[k].id <= self.entity_id_generator.last(),
                forall|k: int, j: int| 0 <= k < kept@.len() && i <= j < n ==> #[trigger] kept@[k].id < #[trigger] all[j].id,
                forall|k: int, j: int| 0 <= k < j < kept@.len() ==> #[trigger] kept@[k].id < #[trigger] kept@[j].id,
            decreases n - i,
        {
            let d = self.drawables[i];
            proof {
                assert(all.subrange(0, i + 1) =~= all.subrange(0, i as int).push(d));
                all.subrange(0, i as int).lemma_filter_push(d, keep);
            }
            if d.id != id {
                kept.push(d);
                kept_sprites.push(self.drawable_images[i]);
            }
            i = i + 1;
        }
        proof {
            assert(all.subrange(0, n as int) =~= all);
        }
        self.drawables = kept;
        self.drawable_images = kept_sprites;
        self.is_overlay_discarded = true;
    }

    /// The figures, oldest first.
    pub fn get_drawables(&self) -> (r: Vec<Drawable>)
        ensures
            r@ == self.figures(),
    {
        let mut r: Vec<Drawable> = Vec::new();
        let mut i: usize = 0;
        while i < self.drawables.len()
            invariant
                0 <= i <= self.drawables@.len(),
                r@ == self.drawables@.subrange(0, i as int),
            decreases self.drawables@.len() - i,
        {
            r.push(self.drawables[i]);
            i = i + 1;
            proof {
                assert(r@ =~= self.drawables@.subrange(0, i as int));
            }
        }
        proof {
            assert(r@ =~= self.drawables@);
        }
        r
    }

    /// The sprite boxes, one for each figure, in the same order.
    pub fn get_sprites(&self) -> (r: Vec<OverlaySprite>)
        ensures
            r@ == self.sprites(),
    {
        let mut r: Vec<OverlaySprite> = Vec::new();
        let mut i: usize = 0;
        while i < self.drawable_images.len()
            invariant
                0 <= i <= self.drawable_images@.len(),
                r@ == self.drawable_images@.subrange(0, i as int),
            decreases self.drawable_images@.len() - i,
        {
            r.push(self.drawable_images[i]);
            i = i + 1;
            proof {
                assert(r@ =~= self.drawable_images@.subrange(0, i as int));
            }
        }
        proof {
            assert(r@ =~= self.drawable_images@);
        }
        r
    }

    /// Records that the figure `id` is shown at row `listview_id` of the list
    /// of figures. Nothing else changes.
    pub fn set_listview_id(&mut self, id: i32, listview_id: i32)
        requires
            old(self).wf(),
        ensures
            final(self).wf(),
            final(self).figures() == old(self).figures().map_values(|d: Drawable| with_row(d, id, listview_id)),
            final(self).sprites() == old(self).sprites(),
            final(self).discarded() == old(self).discarded(),
            final(self).last_id() == old(self).last_id(),
            final(self).pen_color() == old(self).pen_color(),
            final(self).pen_width() == old(self).pen_width(),
            final(self).canvas_width() == old(self).canvas_width(),
            final(self).canvas_height() == old(self).canvas_height(),
    {
        let ghost before = self.drawables@;
        let n = self.drawables.len();
        let mut i: usize = 0;
        while i < n
            invariant
                n == before.len(),
                self.drawables@.len() == n,
                0 <= i <= n,
                forall|k: int| 0 <= k < i ==> #[trigger] self.drawables@[k] == with_row(before[k], id, listview_id),
                forall|k: int| i <= k < n ==> #[trigger] self.drawables@[k] == before[k],
                self.drawable_images == old(self).drawable_images,
                self.entity_id_generator == old(self).entity_id_generator,
                self.is_overlay_discarded == old(self).is_overlay_discarded,
                self.stroke_width == old(self).stroke_width,
                self.color == old(self).color,
                self.image_width == old(self).image_width,
                self.image_height == old(self).image_height,
            decreases n - i,
        {
            let d = self.drawables[i];
            if d.id == id {
                self.drawables.set(i, Drawable { listview_id, ..d });
            }
            i = i + 1;
        }
        proof {
            assert(self.drawables@ =~= before.map_values(|d: Drawable| with_row(d, id, listview_id)));
        }
    }

    /// The figures that the next pass draws, as they are once drawn: every
    /// figure when the canvas is to be drawn anew, else those not drawn yet.
    pub open spec fn pending(&self) -> Seq<Drawable> {
        self.figures().filter(|d: Drawable| self.discarded() || !d.already_drawn).map_values(|d: Drawable| drawn(d))
    }

    /// Says what the persistent canvas needs: `None` when it is up to date
    /// (see `up_to_date`), otherwise whether to clear it and which figures to
    /// draw on it. Every figure is then marked as drawn and the canvas as
    /// kept; nothing else changes.
    pub fn render_overlay(&mut self) -> (r: Option<RenderPass>)
        requires
            old(self).wf(),
        ensures
            final(self).wf(),
            old(self).up_to_date() ==> r.is_none() && *final(self) == *old(self),
            !old(self).up_to_date() ==> r.is_some() && r.unwrap().clear == old(self).discarded()
                && r.unwrap().drawables@ == old(self).pending(),
            final(self).figures() == old(self).figures().map_values(|d: Drawable| drawn(d)),
            final(self).sprites() == old(self).sprites(),
            !final(self).discarded(),
            final(self).last_id() == old(self).last_id(),
            final(self).pen_color() == old(self).pen_color(),
            final(self).pen_width() == old(self).pen_width(),
            final(self).canvas_width() == old(self).canvas_width(),
            final(self).canvas_height() == old(self).canvas_height(),
    {
        let ghost before = self.drawables@;
        let clear = self.is_overlay_discarded;
        let ghost due: spec_fn(Drawable) -> bool = |d: Drawable| clear || !d.already_drawn;
        let n = self.drawables.len();
        if !clear {
            let mut all_drawn = true;
            let mut i: usize = 0;
            while i < n
                invariant
                    n == self.drawables@.len(),
                    0 <= i <= n,
                    all_drawn == forall|k: int| 0 <= k < i ==> (#[trigger] self.drawables@[k]).already_drawn,
                decreases n - i,
            {
                all_drawn = all_drawn && self.drawables[i].already_drawn;
                i = i + 1;
            }
            if all_drawn {
                proof {
                    assert(before.map_values(|d: Drawable| drawn(d)) =~= before);
                }
                return None;
            }
        }
        let mut pass: Vec<Drawable> = Vec::new();
        let mut i: usize = 0;
        while i < n
            invariant
                n == before.len(),
                self.drawables@.len() == n,
                0 <= i <= n,
                forall|k: int| 0 <= k < i ==> #[trigger] self.drawables@[k] == drawn(before[k]),
                forall|k: int| i <= k < n ==> #[trigger] self.drawables@[k] == before[k],
                due == (|d: Drawable| clear || !d.already_drawn),
                pass@ == before.subrange(0, i as int).filter(due).map_values(|d: Drawable| drawn(d)),
                clear == old(self).is_overlay_discarded,
                self.drawable_images == old(self).drawable_images,
                self.entity_id_generator == old(self).entity_id_generator,
                self.is_overlay_discarded == old(self).is_overlay_discarded,
                self.stroke_width == old(self).stroke_width,
                self.color == old(self).color,
                self.image_width == old(self).image_width,
                self.image_height == old(self).image_height,
            decreases n - i,
        {
            let d = self.drawables[i];
            proof {
                assert(before.subrange(0, i + 1) =~= before.subrange(0, i as int).push(d));
                before.subrange(0, i as int).lemma_filter_push(d, due);
            }
            let marked = Drawable { already_drawn: true, ..d };
            if clear || !d.already_drawn {
                pass.push(marked);
                proof {
                    let f = before.subrange(0, i as int).filter(due);
                    assert(f.push(d).map_values(|d: Drawable| drawn(d)) =~= f.map_values(|d: Drawable| drawn(d)).push(drawn(d)));
                }
            }
            self.drawables.set(i, marked);
            i = i + 1;
        }
        self.is_overlay_discarded = false;
        proof {
            assert(before.subrange(0, n as int) =~= before);
            assert(self.drawables@ =~= before.map_values(|d: Drawable| drawn(d)));
        }
        Some(RenderPass { clear, drawables: pass })
    }
}

} // verus!

verus! {

/// Whether `sprite` holds the whole stroked figure `d`: the circle of radius
/// `r` widened by half the stroke `w` on each side, the disc of radius `w` of
/// a point, or the box of the two points of a segment, line or half-line
/// widened by `w / 2` on every side. Coordinates are doubled, so that halves
/// stay whole.
pub open spec fn contains_stroke(sprite: OverlaySprite, d: Drawable) -> bool {
    let w = d.width as int;
    let (lo_x, hi_x, lo_y, hi_y) = match d.object_type {
        DrawableType::Circle => {
            let r = (d.point2.x - d.point1.x) as int;
            (2 * (d.point1.x - r) - w, 2 * (d.point1.x + r) + w, 2 * (d.point1.y - r) - w, 2 * (d.point1.y + r) + w)
        },
        DrawableType::Point => (2 * (d.point1.x - w), 2 * (d.point1.x + w), 2 * (d.point1.y - w), 2 * (d.point1.y + w)),
        _ => (
            2 * min_of(d.point1.x as int, d.point2.x as int) - w,
            2 * (min_of(d.point1.x as int, d.point2.x as int) + abs_diff(d.point1.x as int, d.point2.x as int)) + w,
            2 * min_of(d.point1.y as int, d.point2.y as int) - w,
            2 * (min_of(d.point1.y as int, d.point2.y as int) + abs_diff(d.point1.y as int, d.point2.y as int)) + w,
        ),
    };
    &&& 2 * sprite.x <= lo_x
    &&& hi_x <= 2 * (sprite.x + sprite.width)
    &&& 2 * sprite.y <= lo_y
    &&& hi_y <= 2 * (sprite.y + sprite.height)
}

/// What the invariant of an overlay promises: one sprite box per figure, in
/// the same order and computed from it; identifiers that increase along the
/// figures, so that no two figures share one, and that the generator has
/// given, so that a new figure never takes the identifier of a live or of a
/// removed one.
pub proof fn lemma_figures_are_well_kept(s: &OverlayRenderer)
    requires
        s.wf(),
    ensures
        s.sprites().len() == s.figures().len(),
        forall|i: int| 0 <= i < s.figures().len() ==> #[trigger] s.sprites()[i] == sprite_of(s.figures()[i]),
        forall|i: int, j: int| 0 <= i < j < s.figures().len() ==> #[trigger] s.figures()[i].id < #[trigger] s.figures()[j].id,
        forall|i: int| 0 <= i < s.figures().len() ==> 0 < #[trigger] s.figures()[i].id <= s.last_id(),
        forall|i: int| 0 <= i < s.figures().len() ==> well_placed(#[trigger] s.figures()[i]),
{
}

/// Every sprite box holds its stroked figure whole: no stroke is cut off.
pub proof fn lemma_sprites_contain_strokes(s: &OverlayRenderer)
    requires
        s.wf(),
    ensures
        s.sprites().len() == s.figures().len(),
        forall|i: int| 0 <= i < s.figures().len() ==> contains_stroke(#[trigger] s.sprites()[i], s.figures()[i]),
{
    assert forall|i: int| 0 <= i < s.figures().len() implies contains_stroke(#[trigger] s.sprites()[i], s.figures()[i]) by {
        assert(s.drawable_images@[i] == sprite_of(s.drawables@[i]));
        assert(well_placed(s.drawables@[i]));
    }
}

/// After `add_circle(center, radius)` with stroke width `w`, the new sprite
/// box is a square of side `2 (radius + w)` centred on `center`, and it holds
/// the stroked circle whole.
pub proof fn lemma_circle_sprite_size(before: &OverlayRenderer, after: &OverlayRenderer, center: Point, radius: u32)
    requires
        OverlayRenderer::records(
            before,
            after,
            before.next_figure(DrawableType::Circle, center, Point { x: (center.x + radius) as i32, y: center.y }),
        ),
        center.x + radius <= i32::MAX,
    ensures
        ({
            let sprite = after.sprites().last();
            let w = before.pen_width() as int;
            &&& sprite.width == 2 * (radius + w)
            &&& sprite.height == 2 * (radius + w)
            &&& sprite.x == center.x - (radius + w)
            &&& sprite.y == center.y - (radius + w)
            &&& contains_stroke(sprite, after.figures().last())
        }),
{
    lemma_sprites_contain_strokes(after);
    assert(after.sprites().last() == after.sprites()[after.figures().len() - 1]);
}

/// Once the figure `id` is removed, no figure has that identifier, and the
/// next pass clears the canvas and draws every remaining figure: the removed
/// one is not among them.
pub proof fn lemma_removed_figure_is_gone(before: &OverlayRenderer, after: &OverlayRenderer, id: i32)
    requires
        after.figures() == before.figures().filter(|d: Drawable| d.id != id),
        after.discarded(),
    ensures
        forall|k: int| 0 <= k < after.figures().len() ==> (#[trigger] after.figures()[k]).id != id,
        !after.up_to_date(),
        after.pending() == after.figures().map_values(|d: Drawable| drawn(d)),
        forall|k: int| 0 <= k < after.pending().len() ==> (#[trigger] after.pending()[k]).id != id,
{
    let keep = |d: Drawable| d.id != id;
    let figures = after.figures();
    assert forall|k: int| 0 <= k < figures.len() implies (#[trigger] figures[k]).id != id by {
        before.figures().lemma_filter_pred(keep, k);
    }
    let due = |d: Drawable| after.discarded() || !d.already_drawn;
    figures.lemma_filter_len(due);
    assert(figures.filter(due) == figures) by {
        assert forall|k: int| 0 <= k < figures.len() implies due(#[trigger] figures[k]) by {}
        lemma_filter_all(figures, due);
    }
}

/// A filter that keeps every element keeps the sequence.
proof fn lemma_filter_all(s: Seq<Drawable>, pred: spec_fn(Drawable) -> bool)
    requires
        forall|k: int| 0 <= k < s.len() ==> pred(#[trigger] s[k]),
    ensures
        s.filter(pred) == s,
    decreases s.len(),
{
    reveal(Seq::filter);
    if s.len() > 0 {
        lemma_filter_all(s.drop_last(), pred);
        assert(s.drop_last().push(s.last()) =~= s);
    }
}

/// After a pass, the overlay is up to date: a second pass with nothing
/// changed in between has nothing to do, and `render_overlay` returns `None`.
pub proof fn lemma_second_pass_is_empty(before: &OverlayRenderer, after: &OverlayRenderer)
    requires
        after.figures() == before.figures().map_values(|d: Drawable| drawn(d)),
        !after.discarded(),
    ensures
        after.up_to_date(),
{
}

} // verus!

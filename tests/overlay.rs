use mapannot::geometry::{GeometryError, Point};
use mapannot::overlay::{Color, Drawable, DrawableType, OverlayRenderer, OverlaySprite};

fn pt(x: i32, y: i32) -> Point {
    Point { x, y }
}

fn ids(r: &OverlayRenderer) -> Vec<i32> {
    r.get_drawables().iter().map(|d| d.id).collect()
}

#[test]
fn new_overlay_is_empty_and_drawn_once() {
    let mut r = OverlayRenderer::new(100, 100);
    assert!(r.get_drawables().is_empty());
    assert!(r.get_sprites().is_empty());
    assert!(r.has_free_id());
    let pass = r.render_overlay().expect("a new canvas is drawn once");
    assert!(pass.clear);
    assert!(pass.drawables.is_empty());
    assert!(r.render_overlay().is_none());
}

#[test]
fn identifiers_increase() {
    let mut r = OverlayRenderer::new(100, 100);
    assert_eq!(r.add_point(pt(1, 1)), 1);
    assert_eq!(r.add_segment(pt(1, 1), pt(2, 2)), 2);
    assert_eq!(r.add_circle(pt(5, 5), 3), 3);
    assert_eq!(ids(&r), vec![1, 2, 3]);
}

#[test]
fn segment_record_and_sprite() {
    let mut r = OverlayRenderer::new(100, 100);
    r.set_color(1, 2, 3);
    let id = r.add_segment(pt(20, 15), pt(10, 10));
    let d = r.get_drawables()[0];
    assert_eq!(
        d,
        Drawable {
            id,
            object_type: DrawableType::Segment,
            point1: pt(20, 15),
            point2: pt(10, 10),
            color: Color { r: 1, g: 2, b: 3 },
            width: 4,
            already_drawn: false,
            listview_id: 0,
        }
    );
    assert_eq!(r.get_sprites(), vec![OverlaySprite { id, x: 8, y: 8, width: 14, height: 9 }]);
}

#[test]
fn odd_stroke_is_padded_up() {
    let mut r = OverlayRenderer::new(100, 100);
    r.set_width(3);
    let id = r.add_segment(pt(10, 10), pt(10, 30));
    assert_eq!(r.get_sprites(), vec![OverlaySprite { id, x: 8, y: 8, width: 4, height: 24 }]);
}

#[test]
fn circle_sprite_side_is_twice_radius_and_stroke() {
    let mut r = OverlayRenderer::new(100, 100);
    let id = r.add_circle(pt(50, 50), 10);
    let d = r.get_drawables()[0];
    assert_eq!(d.object_type, DrawableType::Circle);
    assert_eq!(d.point1, pt(50, 50));
    assert_eq!(d.point2, pt(60, 50));
    assert_eq!(r.get_sprites(), vec![OverlaySprite { id, x: 36, y: 36, width: 28, height: 28 }]);
    r.set_width(7);
    let id2 = r.add_circle(pt(0, 0), 5);
    assert_eq!(r.get_sprites()[1], OverlaySprite { id: id2, x: -12, y: -12, width: 24, height: 24 });
}

#[test]
fn point_sprite_holds_its_disc() {
    let mut r = OverlayRenderer::new(100, 100);
    let id = r.add_point(pt(5, 5));
    let d = r.get_drawables()[0];
    assert_eq!(d.object_type, DrawableType::Point);
    assert_eq!((d.point1, d.point2), (pt(5, 5), pt(5, 5)));
    assert_eq!(r.get_sprites(), vec![OverlaySprite { id, x: 1, y: 1, width: 8, height: 8 }]);
}

#[test]
fn line_is_cut_to_the_image() {
    let mut r = OverlayRenderer::new(100, 100);
    assert_eq!(r.add_line(pt(0, 10), pt(10, 20)), Ok(1));
    let d = r.get_drawables()[0];
    assert_eq!(d.object_type, DrawableType::Line);
    assert_eq!((d.point1, d.point2), (pt(90, 100), pt(0, 10)));
    assert_eq!(r.get_sprites(), vec![OverlaySprite { id: 1, x: -2, y: 8, width: 94, height: 94 }]);
}

#[test]
fn line_through_corners_is_refused() {
    let mut r = OverlayRenderer::new(100, 100);
    assert_eq!(r.add_line(pt(10, 10), pt(20, 20)), Err(GeometryError::ClipInvariantViolation));
    assert!(r.get_drawables().is_empty());
    assert!(r.get_sprites().is_empty());
    assert_eq!(r.add_point(pt(0, 0)), 1);
}

#[test]
fn half_line_ends_on_the_side_of_its_second_point() {
    let mut r = OverlayRenderer::new(100, 100);
    assert_eq!(r.add_half_line(pt(50, 50), pt(60, 50)), Ok(1));
    assert_eq!(r.add_half_line(pt(50, 50), pt(40, 50)), Ok(2));
    let ds = r.get_drawables();
    assert_eq!(ds[0].object_type, DrawableType::HalfLine);
    assert_eq!((ds[0].point1, ds[0].point2), (pt(50, 50), pt(100, 50)));
    assert_eq!((ds[1].point1, ds[1].point2), (pt(50, 50), pt(0, 50)));
}

#[test]
fn half_line_through_corners_is_refused() {
    let mut r = OverlayRenderer::new(100, 100);
    assert_eq!(r.add_half_line(pt(50, 50), pt(60, 60)), Err(GeometryError::ClipInvariantViolation));
    assert!(r.get_drawables().is_empty());
}

#[test]
fn pen_applies_to_later_figures_only() {
    let mut r = OverlayRenderer::new(100, 100);
    r.add_point(pt(1, 1));
    r.set_color(9, 8, 7);
    r.set_width(11);
    r.add_point(pt(2, 2));
    let ds = r.get_drawables();
    assert_eq!((ds[0].color, ds[0].width), (Color { r: 42, g: 0, b: 150 }, 4));
    assert_eq!((ds[1].color, ds[1].width), (Color { r: 9, g: 8, b: 7 }, 11));
}

#[test]
fn remove_drawable_drops_figure_and_sprite() {
    let mut r = OverlayRenderer::new(100, 100);
    r.add_point(pt(1, 1));
    r.add_point(pt(2, 2));
    r.add_point(pt(3, 3));
    r.render_overlay();
    r.remove_drawable(2);
    assert_eq!(ids(&r), vec![1, 3]);
    let sprites: Vec<i32> = r.get_sprites().iter().map(|s| s.id).collect();
    assert_eq!(sprites, vec![1, 3]);
    let pass = r.render_overlay().expect("a removal redraws the canvas");
    assert!(pass.clear);
    let drawn: Vec<i32> = pass.drawables.iter().map(|d| d.id).collect();
    assert_eq!(drawn, vec![1, 3]);
    assert!(pass.drawables.iter().all(|d| d.already_drawn));
    assert!(r.render_overlay().is_none());
}

#[test]
fn remove_unknown_id_keeps_figures() {
    let mut r = OverlayRenderer::new(100, 100);
    r.add_point(pt(1, 1));
    r.render_overlay();
    r.remove_drawable(42);
    assert_eq!(ids(&r), vec![1]);
    assert!(r.render_overlay().unwrap().clear);
}

#[test]
fn identifiers_are_not_reused_after_removal() {
    let mut r = OverlayRenderer::new(100, 100);
    r.add_point(pt(1, 1));
    r.add_point(pt(2, 2));
    r.remove_drawable(2);
    assert_eq!(r.add_point(pt(3, 3)), 3);
}

#[test]
fn render_draws_only_new_figures() {
    let mut r = OverlayRenderer::new(100, 100);
    r.add_point(pt(1, 1));
    let first = r.render_overlay().unwrap();
    assert!(first.clear);
    assert_eq!(first.drawables.len(), 1);
    assert!(r.render_overlay().is_none());
    r.add_segment(pt(0, 0), pt(5, 5));
    let second = r.render_overlay().unwrap();
    assert!(!second.clear);
    assert_eq!(second.drawables.len(), 1);
    assert_eq!(second.drawables[0].id, 2);
    assert!(r.get_drawables().iter().all(|d| d.already_drawn));
    assert!(r.render_overlay().is_none());
}

#[test]
fn discard_overlay_redraws_everything() {
    let mut r = OverlayRenderer::new(100, 100);
    r.add_point(pt(1, 1));
    r.add_point(pt(2, 2));
    r.render_overlay();
    r.discard_overlay();
    let pass = r.render_overlay().unwrap();
    assert!(pass.clear);
    assert_eq!(pass.drawables.len(), 2);
}

#[test]
fn set_listview_id_touches_one_figure() {
    let mut r = OverlayRenderer::new(100, 100);
    r.add_point(pt(1, 1));
    r.add_point(pt(2, 2));
    r.render_overlay();
    r.set_listview_id(2, 7);
    let ds = r.get_drawables();
    assert_eq!((ds[0].listview_id, ds[1].listview_id), (0, 7));
    assert!(r.render_overlay().is_none());
}

#[test]
fn reset_starts_a_new_session() {
    let mut r = OverlayRenderer::new(100, 100);
    r.set_width(9);
    r.add_point(pt(1, 1));
    r.render_overlay();
    r.reset(50, 40);
    assert!(r.get_drawables().is_empty());
    assert!(r.get_sprites().is_empty());
    assert!(r.render_overlay().unwrap().clear);
    assert_eq!(r.add_point(pt(1, 1)), 1);
    assert_eq!(r.get_drawables()[0].width, 9);
    assert_eq!(r.add_line(pt(0, 5), pt(10, 5)), Ok(2));
    assert_eq!(r.get_drawables()[1].point2, pt(50, 5));
}

#[test]
fn closest_point_prefers_the_first_of_equals() {
    let mut r = OverlayRenderer::new(100, 100);
    assert!(r.closest_point(pt(0, 0)).is_none());
    r.add_segment(pt(0, 0), pt(1, 1));
    assert!(r.closest_point(pt(0, 0)).is_none());
    r.add_point(pt(10, 0));
    r.add_point(pt(0, 10));
    r.add_point(pt(3, 4));
    assert_eq!(r.closest_point(pt(0, 0)).unwrap().id, 4);
    assert_eq!(r.closest_point(pt(5, 5)).unwrap().id, 4);
    assert_eq!(r.closest_point(pt(20, 20)).unwrap().id, 2);
}

#[test]
fn add_drawable_gives_a_new_identifier() {
    let mut r = OverlayRenderer::new(100, 100);
    r.add_point(pt(1, 1));
    let saved = Drawable {
        id: 40,
        object_type: DrawableType::Circle,
        point1: pt(10, 10),
        point2: pt(13, 10),
        color: Color { r: 5, g: 6, b: 7 },
        width: 2,
        already_drawn: true,
        listview_id: 3,
    };
    assert_eq!(r.add_drawable(saved), 2);
    let d = r.get_drawables()[1];
    assert_eq!(d, Drawable { id: 2, already_drawn: false, ..saved });
    assert_eq!(r.get_sprites()[1], OverlaySprite { id: 2, x: 5, y: 5, width: 10, height: 10 });
}

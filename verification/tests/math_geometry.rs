use verdant::fixed::{fx, Fx};
use verdant::geometry::{ray_vs_rect, sweep_rect_vs_rect, Circle, Rect};
use verdant::vec2::Vec2;

trait ToF64 {
    fn to_f64(self) -> f64;
}

impl ToF64 for Fx {
    fn to_f64(self) -> f64 {
        self.to_raw() as f64 / 4294967296.0
    }
}

#[test]
fn contains_point_uses_half_open_bounds() {
    let rect = Rect::from_ints(0, 0, 10, 10);
    assert!(rect.contains_point(Vec2::from_ints(0, 0)), "min corner is inside");
    assert!(rect.contains_point(Vec2::from_ints(9, 9)));
    assert!(!rect.contains_point(Vec2::from_ints(10, 5)), "max edge is outside");
    assert!(!rect.contains_point(Vec2::from_ints(5, 10)));
    assert!(!rect.contains_point(Vec2::from_ints(-1, 5)));
}

#[test]
fn touching_rectangles_do_not_count_as_intersecting() {
    let floor = Rect::from_ints(0, 10, 10, 2);
    let resting = Rect::from_ints(0, 0, 10, 10);
    assert!(!floor.intersects(resting), "a body resting exactly on a floor is not colliding");
    let sunk = Rect::from_ints(0, 1, 10, 10);
    assert!(floor.intersects(sunk));
}

#[test]
fn intersection_returns_the_overlapping_region() {
    let a = Rect::from_ints(0, 0, 10, 10);
    let b = Rect::from_ints(5, 5, 10, 10);
    let overlap = a.intersection(b).expect("rectangles overlap");
    assert_eq!(overlap, Rect::from_ints(5, 5, 5, 5));
    assert_eq!(a.intersection(Rect::from_ints(100, 100, 1, 1)), None);
}

#[test]
fn union_covers_both_inputs() {
    let a = Rect::from_ints(0, 0, 4, 4);
    let b = Rect::from_ints(8, 8, 2, 2);
    let union = a.union(b);
    assert!(union.contains_rect(a));
    assert!(union.contains_rect(b));
    assert_eq!(union, Rect::from_ints(0, 0, 10, 10));
}

#[test]
fn penetration_resolves_along_the_shallow_axis() {
    let wall = Rect::from_ints(0, 0, 100, 10);
    // Overlaps 2 units vertically but 50 horizontally: must push vertically.
    let body = Rect::from_ints(25, 8, 50, 10);
    let push = wall.penetration_vector(body).expect("bodies overlap");
    assert_eq!(push.x, Fx::zero());
    assert_eq!(push.y, fx(2), "pushed down and out by the overlap depth");
}

#[test]
fn circle_rect_test_handles_corners_and_containment() {
    let rect = Rect::from_ints(0, 0, 10, 10);
    assert!(Circle::new(Vec2::from_ints(5, 5), fx(1)).intersects_rect(rect), "inside");
    assert!(Circle::new(Vec2::from_ints(-1, 5), fx(2)).intersects_rect(rect), "through an edge");
    assert!(Circle::new(Vec2::from_ints(-1, -1), fx(2)).intersects_rect(rect), "past a corner");
    assert!(
        !Circle::new(Vec2::from_ints(-5, -5), fx(2)).intersects_rect(rect),
        "clear of the corner"
    );
}

#[test]
fn ray_hits_the_near_face_with_the_correct_normal() {
    let rect = Rect::from_ints(10, 0, 10, 10);
    let hit = ray_vs_rect(Vec2::from_ints(0, 5), Vec2::from_ints(20, 0), rect)
        .expect("ray travels into the box");
    assert_eq!(hit.time, Fx::half(), "contact halfway along the 20-unit ray");
    assert_eq!(hit.point.x, fx(10));
    assert_eq!(hit.normal, Vec2::left(), "struck the left face");
}

#[test]
fn ray_misses_return_none() {
    let rect = Rect::from_ints(10, 0, 10, 10);
    assert!(ray_vs_rect(Vec2::from_ints(0, 50), Vec2::from_ints(20, 0), rect).is_none());
    assert!(
        ray_vs_rect(Vec2::from_ints(0, 5), Vec2::from_ints(-20, 0), rect).is_none(),
        "pointing away"
    );
    assert!(
        ray_vs_rect(Vec2::from_ints(0, 5), Vec2::from_ints(5, 0), rect).is_none(),
        "stops short"
    );
}

#[test]
fn ray_parallel_to_a_slab_still_hits_when_it_is_inside_it() {
    let rect = Rect::from_ints(10, 0, 10, 10);
    // Exactly horizontal, y inside the box's vertical slab.
    let hit = ray_vs_rect(Vec2::from_ints(0, 0), Vec2::from_ints(20, 0), rect);
    assert!(hit.is_some());
}

#[test]
fn swept_box_stops_at_contact_rather_than_tunnelling() {
    // A 2x2 body moving 100 units right at a wall it would otherwise skip.
    let body = Rect::from_ints(0, 0, 2, 2);
    let wall = Rect::from_ints(50, 0, 10, 2);
    let hit = sweep_rect_vs_rect(body, Vec2::from_ints(100, 0), wall)
        .expect("the sweep must catch the wall");
    assert_eq!(hit.normal, Vec2::left());
    // Contact when the body's right edge reaches the wall's left edge: the
    // centre travels from 1 to 49, i.e. 48 of the 100 units.
    assert!((hit.time.to_f64() - 0.48).abs() < 1e-6, "time was {}", hit.time.to_f64());
}

#[test]
fn swept_box_with_no_displacement_reports_no_hit() {
    let body = Rect::from_ints(0, 0, 2, 2);
    let wall = Rect::from_ints(1, 0, 10, 2);
    assert!(sweep_rect_vs_rect(body, Vec2::zero(), wall).is_none());
}


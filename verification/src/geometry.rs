//! Axis-aligned rectangles, circles, ray casts and swept-box tests.
//!
//! Rectangles are half-open: a point on the max edge is outside, and two
//! rectangles that merely touch do not intersect, so a body resting exactly on
//! a floor is not colliding with it.
use crate::fixed::{
    fx_add, fx_clamp, fx_div, fx_int, fx_max, fx_min, fx_mul, fx_sub, Fx,
};
use crate::vec2::{v2, v2_add, v2_length_squared, v2_scale, v2_sub, Vec2};
use vstd::prelude::*;

verus! {

/// An axis-aligned rectangle given by its top-left corner and its size.
#[derive(Clone, Copy, PartialEq, Eq, Structural, Debug, Default)]
pub struct Rect {
    pub min: Vec2,
    pub size: Vec2,
}

/// The x coordinate of the right edge.
pub open spec fn rect_right(r: Rect) -> Fx {
    fx_add(r.min.x, r.size.x)
}

/// The y coordinate of the bottom edge.
pub open spec fn rect_bottom(r: Rect) -> Fx {
    fx_add(r.min.y, r.size.y)
}

/// The bottom-right corner.
pub open spec fn rect_max(r: Rect) -> Vec2 {
    v2_add(r.min, r.size)
}

/// The centre point.
pub open spec fn rect_centre(r: Rect) -> Vec2 {
    v2_add(r.min, v2_scale(r.size, Fx(2147483648)))
}

/// The rectangle of the given centre and size.
pub open spec fn rect_from_centre(centre: Vec2, size: Vec2) -> Rect {
    Rect { min: v2_sub(centre, v2_scale(size, Fx(2147483648))), size }
}

/// Half-open point containment.
pub open spec fn rect_contains_point(r: Rect, p: Vec2) -> bool {
    &&& p.x.0 >= r.min.x.0
    &&& p.x.0 < rect_right(r).0
    &&& p.y.0 >= r.min.y.0
    &&& p.y.0 < rect_bottom(r).0
}

/// `other` lies entirely within `r`.
pub open spec fn rect_contains_rect(r: Rect, other: Rect) -> bool {
    &&& other.min.x.0 >= r.min.x.0
    &&& other.min.y.0 >= r.min.y.0
    &&& rect_right(other).0 <= rect_right(r).0
    &&& rect_bottom(other).0 <= rect_bottom(r).0
}

/// The rectangles overlap with positive area.
pub open spec fn rect_intersects(a: Rect, b: Rect) -> bool {
    &&& a.min.x.0 < rect_right(b).0
    &&& rect_right(a).0 > b.min.x.0
    &&& a.min.y.0 < rect_bottom(b).0
    &&& rect_bottom(a).0 > b.min.y.0
}

/// The overlapping region, if it has positive area.
pub open spec fn rect_intersection(a: Rect, b: Rect) -> Option<Rect> {
    let lo = v2(fx_max(a.min.x, b.min.x), fx_max(a.min.y, b.min.y));
    let hi = v2(fx_min(rect_max(a).x, rect_max(b).x), fx_min(rect_max(a).y, rect_max(b).y));
    if lo.x.0 < hi.x.0 && lo.y.0 < hi.y.0 {
        Some(Rect { min: lo, size: v2_sub(hi, lo) })
    } else {
        None
    }
}

/// The smallest rectangle containing both.
pub open spec fn rect_union(a: Rect, b: Rect) -> Rect {
    let lo = v2(fx_min(a.min.x, b.min.x), fx_min(a.min.y, b.min.y));
    let hi = v2(fx_max(rect_max(a).x, rect_max(b).x), fx_max(rect_max(a).y, rect_max(b).y));
    Rect { min: lo, size: v2_sub(hi, lo) }
}

/// The point inside `r` nearest to `p`.
pub open spec fn rect_clamp_point(r: Rect, p: Vec2) -> Vec2 {
    v2(fx_clamp(p.x, r.min.x, rect_right(r)), fx_clamp(p.y, r.min.y, rect_bottom(r)))
}

/// The right and bottom edges are not left of or above the top-left corner,
/// which is what clamping a point into the rectangle needs.
pub open spec fn rect_is_ordered(r: Rect) -> bool {
    r.min.x.0 <= rect_right(r).0 && r.min.y.0 <= rect_bottom(r).0
}

impl Rect {
    /// The empty rectangle at the origin.
    pub fn zero() -> (r: Rect)
        ensures
            r == (Rect { min: v2(Fx(0), Fx(0)), size: v2(Fx(0), Fx(0)) }),
    {
        Rect { min: Vec2::zero(), size: Vec2::zero() }
    }

    /// Builds a rectangle from its top-left corner and size.
    pub fn new(min: Vec2, size: Vec2) -> (r: Rect)
        ensures
            r == (Rect { min, size }),
    {
        Rect { min, size }
    }

    /// The rectangle spanning two opposite corners, in either order.
    pub fn from_corners(a: Vec2, b: Vec2) -> (r: Rect)
        ensures
            r.min == v2(fx_min(a.x, b.x), fx_min(a.y, b.y)),
            r.size == v2_sub(v2(fx_max(a.x, b.x), fx_max(a.y, b.y)), r.min),
    {
        let min = a.min(b);
        Rect { min, size: a.max(b) - min }
    }

    /// The rectangle of the given size centred on a point.
    pub fn from_centre(centre: Vec2, size: Vec2) -> (r: Rect)
        ensures
            r == rect_from_centre(centre, size),
    {
        Rect { min: centre - size * Fx::half(), size }
    }

    /// A rectangle from whole-number coordinates.
    pub fn from_ints(x: i32, y: i32, width: i32, height: i32) -> (r: Rect)
        ensures
            r == (Rect {
                min: v2(fx_int(x as int), fx_int(y as int)),
                size: v2(fx_int(width as int), fx_int(height as int)),
            }),
    {
        Rect { min: Vec2::from_ints(x, y), size: Vec2::from_ints(width, height) }
    }

    /// The bottom-right corner.
    pub fn max(self) -> (r: Vec2)
        ensures
            r == rect_max(self),
    {
        self.min + self.size
    }

    /// The centre point.
    pub fn centre(self) -> (r: Vec2)
        ensures
            r == rect_centre(self),
    {
        self.min + self.size * Fx::half()
    }

    /// The x coordinate of the left edge.
    pub fn left(self) -> (r: Fx)
        ensures
            r == self.min.x,
    {
        self.min.x
    }

    /// The x coordinate of the right edge.
    pub fn right(self) -> (r: Fx)
        ensures
            r == rect_right(self),
    {
        self.min.x + self.size.x
    }

    /// The y coordinate of the top edge.
    pub fn top(self) -> (r: Fx)
        ensures
            r == self.min.y,
    {
        self.min.y
    }

    /// The y coordinate of the bottom edge.
    pub fn bottom(self) -> (r: Fx)
        ensures
            r == rect_bottom(self),
    {
        self.min.y + self.size.y
    }

    /// Width times height.
    pub fn area(self) -> (r: Fx)
        ensures
            r == fx_mul(self.size.x, self.size.y),
    {
        self.size.x * self.size.y
    }

    /// True when the rectangle has no positive area.
    pub fn is_empty(self) -> (r: bool)
        ensures
            r == (self.size.x.0 <= 0 || self.size.y.0 <= 0),
    {
        !self.size.x.is_positive() || !self.size.y.is_positive()
    }

    /// Half-open point containment: the min edges are inside, the max edges
    /// are not.
    pub fn contains_point(self, point: Vec2) -> (r: bool)
        ensures
            r == rect_contains_point(self, point),
    {
        point.x.0 >= self.min.x.0 && point.x.0 < self.right().0 && point.y.0 >= self.min.y.0
            && point.y.0 < self.bottom().0
    }

    /// True when `other` lies entirely within this rectangle.
    pub fn contains_rect(self, other: Rect) -> (r: bool)
        ensures
            r == rect_contains_rect(self, other),
    {
        other.min.x.0 >= self.min.x.0 && other.min.y.0 >= self.min.y.0 && other.right().0
            <= self.right().0 && other.bottom().0 <= self.bottom().0
    }

    /// True when the rectangles overlap with positive area; touching edges do
    /// not count.
    pub fn intersects(self, other: Rect) -> (r: bool)
        ensures
            r == rect_intersects(self, other),
    {
        self.min.x.0 < other.right().0 && self.right().0 > other.min.x.0 && self.min.y.0
            < other.bottom().0 && self.bottom().0 > other.min.y.0
    }

    /// The overlapping region, or `None` when they do not overlap.
    pub fn intersection(self, other: Rect) -> (r: Option<Rect>)
        ensures
            r == rect_intersection(self, other),
    {
        let min = self.min.max(other.min);
        let max = self.max().min(other.max());
        if min.x.0 < max.x.0 && min.y.0 < max.y.0 {
            Some(Rect { min, size: max - min })
        } else {
            None
        }
    }

    /// The smallest rectangle containing both.
    pub fn union(self, other: Rect) -> (r: Rect)
        ensures
            r == rect_union(self, other),
    {
        let min = self.min.min(other.min);
        let max = self.max().max(other.max());
        Rect { min, size: max - min }
    }

    /// Grown by `amount` on every side (shrunk if negative).
    pub fn expand(self, amount: Fx) -> (r: Rect)
        ensures
            r == (Rect {
                min: v2_sub(self.min, v2(amount, amount)),
                size: v2_add(self.size, v2(fx_mul(amount, fx_int(2)), fx_mul(amount, fx_int(2)))),
            }),
    {
        Rect {
            min: self.min - Vec2::splat(amount),
            size: self.size + Vec2::splat(amount * Fx::two()),
        }
    }

    /// Moved by `offset`.
    pub fn translate(self, offset: Vec2) -> (r: Rect)
        ensures
            r == (Rect { min: v2_add(self.min, offset), size: self.size }),
    {
        Rect { min: self.min + offset, size: self.size }
    }

    /// The point inside the rectangle nearest to `point`. The right and
    /// bottom edges must not lie before the left and top edges.
    pub fn clamp_point(self, point: Vec2) -> (r: Vec2)
        requires
            rect_is_ordered(self),
        ensures
            r == rect_clamp_point(self, point),
    {
        Vec2::new(
            point.x.clamp(self.min.x, self.right()),
            point.y.clamp(self.min.y, self.bottom()),
        )
    }

    /// The minimum translation that pushes `other` out of this rectangle,
    /// along the axis of least overlap, or `None` when they do not overlap.
    pub fn penetration_vector(self, other: Rect) -> (r: Option<Vec2>)
        ensures
            r == (match rect_intersection(self, other) {
                None => None::<Vec2>,
                Some(overlap) => Some(
                    if overlap.size.x.0 < overlap.size.y.0 {
                        v2(
                            fx_mul(
                                overlap.size.x,
                                if rect_centre(other).x.0 < rect_centre(self).x.0 {
                                    fx_int(-1)
                                } else {
                                    fx_int(1)
                                },
                            ),
                            Fx(0),
                        )
                    } else {
                        v2(
                            Fx(0),
                            fx_mul(
                                overlap.size.y,
                                if rect_centre(other).y.0 < rect_centre(self).y.0 {
                                    fx_int(-1)
                                } else {
                                    fx_int(1)
                                },
                            ),
                        )
                    },
                ),
            }),
    {
        let overlap = match self.intersection(other) {
            Some(overlap) => overlap,
            None => return None,
        };
        if overlap.size.x.0 < overlap.size.y.0 {
            let sign = if other.centre().x.0 < self.centre().x.0 {
                Fx::neg_one()
            } else {
                Fx::one()
            };
            Some(Vec2::new(overlap.size.x * sign, Fx::zero()))
        } else {
            let sign = if other.centre().y.0 < self.centre().y.0 {
                Fx::neg_one()
            } else {
                Fx::one()
            };
            Some(Vec2::new(Fx::zero(), overlap.size.y * sign))
        }
    }
}

/// A circle, for proximity triggers and round obstacles.
#[derive(Clone, Copy, PartialEq, Eq, Structural, Debug, Default)]
pub struct Circle {
    pub centre: Vec2,
    pub radius: Fx,
}

impl Circle {
    /// Builds a circle.
    pub fn new(centre: Vec2, radius: Fx) -> (r: Circle)
        ensures
            r == (Circle { centre, radius }),
    {
        Circle { centre, radius }
    }

    /// True when `point` lies inside or on the circle.
    pub fn contains_point(self, point: Vec2) -> (r: bool)
        ensures
            r == (v2_length_squared(v2_sub(point, self.centre)).0 <= fx_mul(
                self.radius,
                self.radius,
            ).0),
    {
        self.centre.distance_squared(point).0 <= (self.radius * self.radius).0
    }

    /// True when the circles overlap or touch.
    pub fn intersects(self, other: Circle) -> (r: bool)
        ensures
            r == (v2_length_squared(v2_sub(other.centre, self.centre)).0 <= fx_mul(
                fx_add(self.radius, other.radius),
                fx_add(self.radius, other.radius),
            ).0),
    {
        let sum = self.radius + other.radius;
        self.centre.distance_squared(other.centre).0 <= (sum * sum).0
    }

    /// True when the circle overlaps the rectangle, by the distance from the
    /// centre to the nearest point of the rectangle. The rectangle's
    /// far edges must not lie before its near ones.
    pub fn intersects_rect(self, rect: Rect) -> (r: bool)
        requires
            rect_is_ordered(rect),
        ensures
            r == (v2_length_squared(v2_sub(rect_clamp_point(rect, self.centre), self.centre)).0
                <= fx_mul(self.radius, self.radius).0),
    {
        let closest = rect.clamp_point(self.centre);
        self.centre.distance_squared(closest).0 <= (self.radius * self.radius).0
    }

    /// The axis-aligned bounding box.
    pub fn bounds(self) -> (r: Rect)
        ensures
            r == rect_from_centre(
                self.centre,
                v2(fx_mul(self.radius, fx_int(2)), fx_mul(self.radius, fx_int(2))),
            ),
    {
        Rect::from_centre(self.centre, Vec2::splat(self.radius * Fx::two()))
    }
}

/// Where a ray or swept shape first touched something.
#[derive(Clone, Copy, PartialEq, Eq, Structural, Debug)]
pub struct RayHit {
    /// Fraction of the cast's length at which contact occurred, in `[0, 1]`.
    pub time: Fx,
    /// The contact point.
    pub point: Vec2,
    /// The outward normal of the face that was hit.
    pub normal: Vec2,
}

/// The entry and exit parameters of a ray along one axis of a slab, or `None`
/// when the ray is parallel to the slab and outside it.
pub open spec fn slab(origin: Fx, direction: Fx, lo: Fx, hi: Fx) -> Option<(Fx, Fx)> {
    if direction.0 == 0 {
        if origin.0 < lo.0 || origin.0 > hi.0 {
            None
        } else {
            Some((Fx(i64::MIN), Fx(i64::MAX)))
        }
    } else {
        let t1 = fx_div(fx_sub(lo, origin), direction);
        let t2 = fx_div(fx_sub(hi, origin), direction);
        Some((fx_min(t1, t2), fx_max(t1, t2)))
    }
}

/// The slab-method ray cast: where the segment `origin + direction * t` for
/// `t` in `[0, 1]` first enters `rect`, with the face normal.
pub open spec fn ray_cast(origin: Vec2, direction: Vec2, rect: Rect) -> Option<RayHit> {
    match (
        slab(origin.x, direction.x, rect.min.x, rect_right(rect)),
        slab(origin.y, direction.y, rect.min.y, rect_bottom(rect)),
    ) {
        (Some((near_x, far_x)), Some((near_y, far_y))) => {
            let entry = fx_max(near_x, near_y);
            let exit = fx_min(far_x, far_y);
            if entry.0 > exit.0 || exit.0 < 0 || entry.0 > 4294967296 {
                None
            } else {
                let time = fx_max(entry, Fx(0));
                let normal = if near_x.0 > near_y.0 {
                    if direction.x.0 < 0 {
                        v2(fx_int(1), Fx(0))
                    } else {
                        v2(fx_int(-1), Fx(0))
                    }
                } else if direction.y.0 < 0 {
                    v2(Fx(0), fx_int(1))
                } else {
                    v2(Fx(0), fx_int(-1))
                };
                Some(RayHit { time, point: v2_add(origin, v2_scale(direction, time)), normal })
            }
        },
        _ => None,
    }
}

/// A contact normal faces back against the motion: it is a unit vector
/// along one axis, never points the way the ray travels, and on the struck
/// axis points against the ray whenever the ray moves along that axis (a ray
/// moving down meets a top face, whose normal points up).
pub proof fn lemma_ray_normal_opposes_motion(origin: Vec2, direction: Vec2, rect: Rect)
    ensures
        ray_cast(origin, direction, rect) matches Some(hit) ==> {
            &&& (hit.normal.x.0 == 0 && (hit.normal.y.0 == 4294967296 || hit.normal.y.0
                == -4294967296)) || (hit.normal.y.0 == 0 && (hit.normal.x.0 == 4294967296
                || hit.normal.x.0 == -4294967296))
            &&& hit.normal.x.0 != 0 ==> hit.normal.x.0 * direction.x.0 < 0
            &&& hit.normal.y.0 * direction.y.0 <= 0
            &&& hit.normal.y.0 != 0 && direction.y.0 != 0 ==> hit.normal.y.0 * direction.y.0 < 0
        },
{
    if let Some(hit) = ray_cast(origin, direction, rect) {
        let sx = slab(origin.x, direction.x, rect.min.x, rect_right(rect));
        let sy = slab(origin.y, direction.y, rect.min.y, rect_bottom(rect));
        assert(sx is Some && sy is Some);
        let near_x = sx.unwrap().0;
        let near_y = sy.unwrap().0;
        let nx = hit.normal.x.0 as int;
        let ny = hit.normal.y.0 as int;
        let dx = direction.x.0 as int;
        let dy = direction.y.0 as int;
        if near_x.0 > near_y.0 {
            if dx == 0 {
                assert(near_x.0 == i64::MIN);
            }
            assert(ny == 0 && (nx == 4294967296 && dx < 0 || nx == -4294967296 && dx > 0));
            assert(nx * dx < 0) by (nonlinear_arith)
                requires
                    nx == 4294967296 && dx < 0 || nx == -4294967296 && dx > 0,
            ;
            assert(ny * dy == 0) by (nonlinear_arith)
                requires
                    ny == 0,
            ;
        } else {
            assert(nx == 0 && (ny == 4294967296 && dy < 0 || ny == -4294967296 && dy >= 0));
            assert(ny * dy <= 0 && (dy != 0 ==> ny * dy < 0)) by (nonlinear_arith)
                requires
                    ny == 4294967296 && dy < 0 || ny == -4294967296 && dy >= 0,
            ;
        }
    }
}

/// One slab of the ray cast.
fn slab_exec(origin: Fx, direction: Fx, lo: Fx, hi: Fx) -> (r: Option<(Fx, Fx)>)
    ensures
        r == slab(origin, direction, lo, hi),
{
    if direction.is_zero() {
        if origin.0 < lo.0 || origin.0 > hi.0 {
            return None;
        }
        Some((Fx::min_value(), Fx::max_value()))
    } else {
        let t1 = (lo - origin) / direction;
        let t2 = (hi - origin) / direction;
        Some((t1.min(t2), t1.max(t2)))
    }
}

/// Casts the segment from `origin` to `origin + direction` against `rect`
/// with the slab method. Returns the first contact with `time` in `[0, 1]`,
/// or `None` when the segment misses or stops short.
pub fn ray_vs_rect(origin: Vec2, direction: Vec2, rect: Rect) -> (r: Option<RayHit>)
    ensures
        r == ray_cast(origin, direction, rect),
        r matches Some(hit) ==> 0 <= hit.time.0 <= 4294967296,
{
    let (near_x, far_x) = match slab_exec(origin.x, direction.x, rect.left(), rect.right()) {
        Some(pair) => pair,
        None => return None,
    };
    let (near_y, far_y) = match slab_exec(origin.y, direction.y, rect.top(), rect.bottom()) {
        Some(pair) => pair,
        None => return None,
    };
    let entry = near_x.max(near_y);
    let exit = far_x.min(far_y);
    if entry.0 > exit.0 || exit.is_negative() || entry.0 > Fx::one().0 {
        return None;
    }
    let time = entry.max(Fx::zero());
    let normal = if near_x.0 > near_y.0 {
        if direction.x.is_negative() {
            Vec2::right()
        } else {
            Vec2::left()
        }
    } else if direction.y.is_negative() {
        Vec2::down()
    } else {
        Vec2::up()
    };
    Some(RayHit { time, point: origin + direction * time, normal })
}

/// Sweeps `moving` by `displacement` against a static `obstacle`: the box is
/// shrunk to its centre point and the obstacle grown by the box's size, and
/// the centre's path is ray-cast. A zero displacement reports no hit.
pub fn sweep_rect_vs_rect(moving: Rect, displacement: Vec2, obstacle: Rect) -> (r: Option<
    RayHit,
>)
    ensures
        r == (if displacement.x.0 == 0 && displacement.y.0 == 0 {
            None::<RayHit>
        } else {
            ray_cast(
                rect_centre(moving),
                displacement,
                Rect {
                    min: v2_sub(obstacle.min, v2_scale(moving.size, Fx(2147483648))),
                    size: v2_add(obstacle.size, moving.size),
                },
            )
        }),
{
    if displacement.is_zero() {
        return None;
    }
    let expanded = Rect::new(obstacle.min - moving.size * Fx::half(), obstacle.size + moving.size);
    ray_vs_rect(moving.centre(), displacement, expanded)
}

/// Whether a rectangle's edges lie well inside the raw range, so that no
/// corner or difference of corners saturates.
pub open spec fn rect_in_range(r: Rect) -> bool {
    &&& -0x4000_0000_0000_0000 <= r.min.x.0 <= 0x4000_0000_0000_0000
    &&& -0x4000_0000_0000_0000 <= r.min.y.0 <= 0x4000_0000_0000_0000
    &&& -0x4000_0000_0000_0000 <= r.min.x.0 + r.size.x.0 <= 0x4000_0000_0000_0000
    &&& -0x4000_0000_0000_0000 <= r.min.y.0 + r.size.y.0 <= 0x4000_0000_0000_0000
}

/// Two rectangles of positive size have an intersection exactly when they
/// intersect, and then it spans from the larger of the near edges to the
/// smaller of the far edges and lies inside both.
pub proof fn lemma_intersection_agrees_with_intersects(a: Rect, b: Rect)
    requires
        a.size.x.0 > 0,
        a.size.y.0 > 0,
        b.size.x.0 > 0,
        b.size.y.0 > 0,
        rect_in_range(a),
        rect_in_range(b),
    ensures
        rect_intersection(a, b) is Some <==> rect_intersects(a, b),
        rect_intersection(a, b) matches Some(r) ==> {
            &&& r.min == v2(fx_max(a.min.x, b.min.x), fx_max(a.min.y, b.min.y))
            &&& rect_right(r) == fx_min(rect_right(a), rect_right(b))
            &&& rect_bottom(r) == fx_min(rect_bottom(a), rect_bottom(b))
            &&& r.size.x.0 > 0 && r.size.y.0 > 0
            &&& rect_contains_rect(a, r)
            &&& rect_contains_rect(b, r)
        },
{
}

} // verus!

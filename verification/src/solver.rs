//! The movement solver.
//!
//! Movement is resolved one axis at a time: apply the horizontal component,
//! push out of anything it entered, then the vertical one. Axis separation is
//! what makes a body slide along a wall instead of stopping dead. Each axis
//! step is split into sub-steps small enough that a body cannot cross a solid
//! tile in one go, so fast bodies do not tunnel through walls.
use crate::collision::{merged, no_flags, world_box, Collider, CollisionFlags};
use crate::fixed::{fx_add, fx_div, fx_floor_int, fx_int, fx_max, fx_min, fx_mul, fx_sub, scale, Fx};
use crate::geometry::{rect_bottom, rect_intersects, rect_right, Rect};
use crate::grid::SolidGrid;
use crate::vec2::{v2, v2_div, v2_length, v2_sub, IVec2, Vec2};
use vstd::prelude::*;

verus! {

/// The outcome of moving a body.
#[derive(Clone, Copy, Debug, PartialEq, Eq, Structural)]
pub struct MoveResult {
    /// Where the body ended up.
    pub position: Vec2,
    /// Which sides were blocked along the way.
    pub flags: CollisionFlags,
    /// The motion that was actually applied.
    pub applied: Vec2,
}

/// The raw value of the gap left between a body and whatever stopped it:
/// 2^-12 world units, invisible but enough to keep contact classification
/// stable from tick to tick.
pub const SKIN_RAW: i64 = 1048576;

/// Upper bound on sub-steps per call.
pub const MAX_SUBSTEPS: i32 = 128;

/// The skin gap.
pub open spec fn skin() -> Fx {
    Fx(SKIN_RAW)
}

/// The world bounds of tile `cell`.
pub open spec fn tile_rect(cell: IVec2, tile_size: Fx) -> Rect {
    Rect {
        min: v2(fx_mul(fx_int(cell.x as int), tile_size), fx_mul(fx_int(cell.y as int), tile_size)),
        size: v2(tile_size, tile_size),
    }
}

/// The first solid cell of row `y` from column `x` to `max_x`.
pub open spec fn first_solid_in_row<G: SolidGrid>(g: &G, y: int, x: int, max_x: int) -> Option<
    IVec2,
>
    decreases max_x + 1 - x,
{
    if x > max_x {
        None
    } else if g.solid_spec(IVec2 { x: x as i32, y: y as i32 }) {
        Some(IVec2 { x: x as i32, y: y as i32 })
    } else {
        first_solid_in_row(g, y, x + 1, max_x)
    }
}

/// The first solid cell, scanning rows `y..=max_y` top to bottom and each
/// row left to right.
pub open spec fn first_solid<G: SolidGrid>(g: &G, y: int, max_y: int, min_x: int, max_x: int) -> Option<
    IVec2,
>
    decreases max_y + 1 - y,
{
    if y > max_y {
        None
    } else {
        match first_solid_in_row(g, y, min_x, max_x) {
            Some(c) => Some(c),
            None => first_solid(g, y + 1, max_y, min_x, max_x),
        }
    }
}

/// The bounds of the first solid tile that `bounds` covers; a box ending
/// exactly on a tile boundary does not cover the next tile. None when the
/// tile size is not positive.
pub open spec fn solid_tile_in<G: SolidGrid>(g: &G, bounds: Rect) -> Option<Rect> {
    let ts = g.tile_size_spec();
    if ts.0 <= 0 {
        None
    } else {
        let min_x = fx_floor_int(fx_div(bounds.min.x, ts));
        let min_y = fx_floor_int(fx_div(bounds.min.y, ts));
        let max_x = fx_floor_int(fx_div(fx_sub(rect_right(bounds), skin()), ts));
        let max_y = fx_floor_int(fx_div(fx_sub(rect_bottom(bounds), skin()), ts));
        match first_solid(g, min_y, max_y, min_x, max_x) {
            Some(c) => Some(tile_rect(c, ts)),
            None => None,
        }
    }
}

/// The first blocker from index `k` on that `bounds` intersects.
pub open spec fn first_blocker(blockers: Seq<Rect>, bounds: Rect, k: int) -> Option<Rect>
    decreases blockers.len() - k,
{
    if k < 0 || k >= blockers.len() {
        None
    } else if rect_intersects(bounds, blockers[k]) {
        Some(blockers[k])
    } else {
        first_blocker(blockers, bounds, k + 1)
    }
}

/// The first thing `bounds` overlaps: a solid tile, else a blocker.
pub open spec fn obstruction<G: SolidGrid>(g: &G, bounds: Rect, blockers: Seq<Rect>) -> Option<
    Rect,
> {
    match solid_tile_in(g, bounds) {
        Some(t) => Some(t),
        None => first_blocker(blockers, bounds, 0),
    }
}

/// One horizontal step of `delta` from `pos`: taken whole when nothing is
/// entered, otherwise snapped against the near face of the obstruction less
/// the skin, never backwards past the start and never past the target.
pub open spec fn slide_x<G: SolidGrid>(
    c: Collider,
    pos: Vec2,
    delta: Fx,
    g: &G,
    blockers: Seq<Rect>,
) -> (Vec2, CollisionFlags) {
    if delta.0 == 0 {
        (pos, no_flags())
    } else {
        let candidate = v2(fx_add(pos.x, delta), pos.y);
        match obstruction(g, world_box(c, candidate), blockers) {
            None => (candidate, no_flags()),
            Some(o) => if delta.0 > 0 {
                let rx = fx_sub(fx_sub(o.min.x, rect_right(c.bounds)), skin());
                (
                    v2(fx_max(fx_min(rx, candidate.x), pos.x), pos.y),
                    CollisionFlags { right: true, ..no_flags() },
                )
            } else {
                let rx = fx_add(fx_sub(rect_right(o), c.bounds.min.x), skin());
                (
                    v2(fx_min(fx_max(rx, candidate.x), pos.x), pos.y),
                    CollisionFlags { left: true, ..no_flags() },
                )
            },
        }
    }
}

/// One vertical step, as [`slide_x`] but along y; moving towards larger y
/// is moving down.
pub open spec fn slide_y<G: SolidGrid>(
    c: Collider,
    pos: Vec2,
    delta: Fx,
    g: &G,
    blockers: Seq<Rect>,
) -> (Vec2, CollisionFlags) {
    if delta.0 == 0 {
        (pos, no_flags())
    } else {
        let candidate = v2(pos.x, fx_add(pos.y, delta));
        match obstruction(g, world_box(c, candidate), blockers) {
            None => (candidate, no_flags()),
            Some(o) => if delta.0 > 0 {
                let ry = fx_sub(fx_sub(o.min.y, rect_bottom(c.bounds)), skin());
                (
                    v2(pos.x, fx_max(fx_min(ry, candidate.y), pos.y)),
                    CollisionFlags { down: true, ..no_flags() },
                )
            } else {
                let ry = fx_add(fx_sub(rect_bottom(o), c.bounds.min.y), skin());
                (
                    v2(pos.x, fx_min(fx_max(ry, candidate.y), pos.y)),
                    CollisionFlags { up: true, ..no_flags() },
                )
            },
        }
    }
}

/// The remaining `steps_left` sub-steps: each takes an equal share of what
/// remains (the last takes all of it), first along x and then along y.
pub open spec fn substeps<G: SolidGrid>(
    c: Collider,
    pos: Vec2,
    remaining: Vec2,
    steps_left: int,
    g: &G,
    blockers: Seq<Rect>,
    flags: CollisionFlags,
) -> (Vec2, CollisionFlags)
    decreases steps_left,
{
    if steps_left <= 0 {
        (pos, flags)
    } else {
        let step = if steps_left == 1 {
            remaining
        } else {
            v2_div(remaining, fx_int(steps_left))
        };
        let rest = v2_sub(remaining, step);
        let (px, fx) = slide_x(c, pos, step.x, g, blockers);
        let (py, fy) = slide_y(c, px, step.y, g, blockers);
        substeps(c, py, rest, steps_left - 1, g, blockers, merged(merged(flags, fx), fy))
    }
}

/// The largest distance one sub-step may cover: half the smaller of the
/// body's smallest dimension (at least the skin) and the tile size.
pub open spec fn step_limit(c: Collider, tile_size: Fx) -> Fx {
    let extent = fx_max(fx_min(c.bounds.size.x, c.bounds.size.y), skin());
    fx_mul(fx_min(extent, tile_size), Fx(0x8000_0000))
}

/// The number of sub-steps: enough that none exceeds the step limit, at
/// least one, at most [`MAX_SUBSTEPS`].
pub open spec fn substep_count(c: Collider, displacement: Vec2, tile_size: Fx) -> int {
    let limit = step_limit(c, tile_size);
    let steps = if limit.0 > 0 {
        let q = fx_div(v2_length(displacement), limit);
        let ceiling = (q.0 + 4294967295) / scale();
        if ceiling < 1 {
            1
        } else {
            ceiling
        }
    } else {
        1
    };
    if steps < MAX_SUBSTEPS {
        steps
    } else {
        MAX_SUBSTEPS as int
    }
}

/// Where a body ends up moving along `d` from `pos`.
pub open spec fn slide<G: SolidGrid>(
    c: Collider,
    pos: Vec2,
    d: Vec2,
    g: &G,
    blockers: Seq<Rect>,
) -> MoveResult {
    if d.x.0 == 0 && d.y.0 == 0 {
        MoveResult { position: pos, flags: no_flags(), applied: v2(Fx(0), Fx(0)) }
    } else {
        let (p, f) = substeps(
            c,
            pos,
            d,
            substep_count(c, d, g.tile_size_spec()),
            g,
            blockers,
            no_flags(),
        );
        MoveResult { position: p, flags: f, applied: v2_sub(p, pos) }
    }
}

fn first_solid_exec<G: SolidGrid>(g: &G, min_y: i32, max_y: i32, min_x: i32, max_x: i32) -> (r:
    Option<IVec2>)
    ensures
        r == first_solid(g, min_y as int, max_y as int, min_x as int, max_x as int),
{
    let mut y: i64 = min_y as i64;
    while y <= max_y as i64
        invariant
            min_y <= y,
            y <= max_y as i64 + 1 || y == min_y as i64,
            first_solid(g, min_y as int, max_y as int, min_x as int, max_x as int) == first_solid(
                g,
                y as int,
                max_y as int,
                min_x as int,
                max_x as int,
            ),
        decreases max_y as i64 + 1 - y,
    {
        let mut x: i64 = min_x as i64;
        while x <= max_x as i64
            invariant
                min_y <= y <= max_y,
                min_x <= x,
                x <= max_x as i64 + 1 || x == min_x as i64,
                first_solid_in_row(g, y as int, min_x as int, max_x as int) == first_solid_in_row(
                    g,
                    y as int,
                    x as int,
                    max_x as int,
                ),
                first_solid(g, min_y as int, max_y as int, min_x as int, max_x as int) == first_solid(
                    g,
                    y as int,
                    max_y as int,
                    min_x as int,
                    max_x as int,
                ),
            decreases max_x as i64 + 1 - x,
        {
            let cell = IVec2::new(x as i32, y as i32);
            if g.is_solid(cell) {
                assert(first_solid_in_row(g, y as int, x as int, max_x as int) == Some(cell));
                return Some(cell);
            }
            x = x + 1;
        }
        assert(first_solid_in_row(g, y as int, x as int, max_x as int) is None);
        y = y + 1;
    }
    None
}

fn solid_tile_exec<G: SolidGrid>(g: &G, bounds: Rect) -> (r: Option<Rect>)
    ensures
        r == solid_tile_in(g, bounds),
{
    let ts = g.tile_size();
    if !ts.is_positive() {
        return None;
    }
    let skin = Fx(SKIN_RAW);
    let min_x = (bounds.left() / ts).floor_int();
    let min_y = (bounds.top() / ts).floor_int();
    let max_x = ((bounds.right() - skin) / ts).floor_int();
    let max_y = ((bounds.bottom() - skin) / ts).floor_int();
    match first_solid_exec(g, min_y, max_y, min_x, max_x) {
        Some(cell) => Some(Rect::new(cell.to_world(ts), Vec2::splat(ts))),
        None => None,
    }
}

fn first_blocker_exec(blockers: &[Rect], bounds: Rect) -> (r: Option<Rect>)
    ensures
        r == first_blocker(blockers@, bounds, 0),
{
    let mut k: usize = 0;
    while k < blockers.len()
        invariant
            k <= blockers@.len(),
            first_blocker(blockers@, bounds, 0) == first_blocker(blockers@, bounds, k as int),
        decreases blockers@.len() - k,
    {
        if bounds.intersects(blockers[k]) {
            return Some(blockers[k]);
        }
        k = k + 1;
    }
    None
}

fn obstruction_exec<G: SolidGrid>(g: &G, bounds: Rect, blockers: &[Rect]) -> (r: Option<Rect>)
    ensures
        r == obstruction(g, bounds, blockers@),
{
    match solid_tile_exec(g, bounds) {
        Some(tile) => Some(tile),
        None => first_blocker_exec(blockers, bounds),
    }
}

fn resolve_axis_x<G: SolidGrid>(
    collider: &Collider,
    position: Vec2,
    delta: Fx,
    g: &G,
    blockers: &[Rect],
) -> (r: (Vec2, CollisionFlags))
    ensures
        r == slide_x(*collider, position, delta, g, blockers@),
{
    let mut flags = CollisionFlags::default();
    if delta.is_zero() {
        return (position, flags);
    }
    let candidate = Vec2::new(position.x + delta, position.y);
    let box_at = collider.world_bounds(candidate);
    let obstruction = match obstruction_exec(g, box_at, blockers) {
        Some(o) => o,
        None => {
            return (candidate, flags);
        },
    };
    let skin = Fx(SKIN_RAW);
    if delta.is_positive() {
        flags.right = true;
        let resolved_x = obstruction.left() - collider.bounds.right() - skin;
        (Vec2::new(resolved_x.min(candidate.x).max(position.x), position.y), flags)
    } else {
        flags.left = true;
        let resolved_x = obstruction.right() - collider.bounds.left() + skin;
        (Vec2::new(resolved_x.max(candidate.x).min(position.x), position.y), flags)
    }
}

fn resolve_axis_y<G: SolidGrid>(
    collider: &Collider,
    position: Vec2,
    delta: Fx,
    g: &G,
    blockers: &[Rect],
) -> (r: (Vec2, CollisionFlags))
    ensures
        r == slide_y(*collider, position, delta, g, blockers@),
{
    let mut flags = CollisionFlags::default();
    if delta.is_zero() {
        return (position, flags);
    }
    let candidate = Vec2::new(position.x, position.y + delta);
    let box_at = collider.world_bounds(candidate);
    let obstruction = match obstruction_exec(g, box_at, blockers) {
        Some(o) => o,
        None => {
            return (candidate, flags);
        },
    };
    let skin = Fx(SKIN_RAW);
    if delta.is_positive() {
        flags.down = true;
        let resolved_y = obstruction.top() - collider.bounds.bottom() - skin;
        (Vec2::new(position.x, resolved_y.min(candidate.y).max(position.y)), flags)
    } else {
        flags.up = true;
        let resolved_y = obstruction.bottom() - collider.bounds.top() + skin;
        (Vec2::new(position.x, resolved_y.max(candidate.y).min(position.y)), flags)
    }
}

/// Moves a body along `displacement`, stopping at solid tiles of `solids`
/// and at `blockers` (other entities' boxes), and sliding along them. A
/// displacement too large to count in sub-steps takes the most sub-steps.
pub fn move_and_slide<G: SolidGrid>(
    collider: &Collider,
    position: Vec2,
    displacement: Vec2,
    solids: &G,
    blockers: &[Rect],
) -> (r: MoveResult)
    ensures
        r == slide(*collider, position, displacement, solids, blockers@),
{
    if displacement.is_zero() {
        return MoveResult {
            position,
            flags: CollisionFlags::default(),
            applied: Vec2::zero(),
        };
    }
    let skin = Fx(SKIN_RAW);
    let extent = collider.bounds.size.x.min(collider.bounds.size.y).max(skin);
    let step_limit = extent.min(solids.tile_size()) * Fx::half();
    let distance = displacement.length();
    let mut steps: i32 = if step_limit.is_positive() {
        let ceiling = (distance / step_limit).ceil_int();
        if ceiling < 1 {
            1
        } else {
            ceiling
        }
    } else {
        1
    };
    if steps > MAX_SUBSTEPS {
        steps = MAX_SUBSTEPS;
    }
    assert(steps == substep_count(*collider, displacement, solids.tile_size_spec()));
    let mut current = position;
    let mut flags = CollisionFlags::default();
    let mut remaining = displacement;
    let mut step_index: i32 = 0;
    while step_index < steps
        invariant
            1 <= steps <= MAX_SUBSTEPS,
            0 <= step_index <= steps,
            steps == substep_count(*collider, displacement, solids.tile_size_spec()),
            substeps(
                *collider,
                position,
                displacement,
                steps as int,
                solids,
                blockers@,
                no_flags(),
            ) == substeps(
                *collider,
                current,
                remaining,
                (steps - step_index) as int,
                solids,
                blockers@,
                flags,
            ),
        decreases steps - step_index,
    {
        let steps_left = steps - step_index;
        let step = if steps_left == 1 {
            remaining
        } else {
            remaining / Fx::from_num(steps_left)
        };
        remaining = remaining - step;
        let (moved, step_flags) = resolve_axis_x(collider, current, step.x, solids, blockers);
        current = moved;
        flags = flags.merge(step_flags);
        let (moved, step_flags) = resolve_axis_y(collider, current, step.y, solids, blockers);
        current = moved;
        flags = flags.merge(step_flags);
        step_index = step_index + 1;
    }
    MoveResult { position: current, flags, applied: current - position }
}

/// True when a body of this shape could stand at `position` without
/// overlapping a solid tile or a blocker.
pub fn is_position_clear<G: SolidGrid>(
    collider: &Collider,
    position: Vec2,
    solids: &G,
    blockers: &[Rect],
) -> (r: bool)
    ensures
        r == (obstruction(solids, world_box(*collider, position), blockers@) is None),
{
    obstruction_exec(solids, collider.world_bounds(position), blockers).is_none()
}

/// A horizontal step never moves the body backwards past its start nor past
/// where it was asked to go, keeps its y, and reports a blocked side only in
/// the direction of travel.
pub proof fn lemma_slide_x_bounded<G: SolidGrid>(
    c: Collider,
    pos: Vec2,
    delta: Fx,
    g: &G,
    blockers: Seq<Rect>,
)
    ensures
        ({
            let (p, f) = slide_x(c, pos, delta, g, blockers);
            &&& p.y == pos.y
            &&& delta.0 >= 0 ==> pos.x.0 <= p.x.0 <= fx_add(pos.x, delta).0
            &&& delta.0 <= 0 ==> fx_add(pos.x, delta).0 <= p.x.0 <= pos.x.0
            &&& f.right ==> delta.0 > 0
            &&& f.left ==> delta.0 < 0
            &&& !f.up && !f.down
            &&& obstruction(g, world_box(c, v2(fx_add(pos.x, delta), pos.y)), blockers) is None
                ==> p == v2(fx_add(pos.x, delta), pos.y)
        }),
{
}

/// A vertical step never moves the body backwards past its start nor past
/// where it was asked to go, keeps its x, and reports a blocked side only in
/// the direction of travel.
pub proof fn lemma_slide_y_bounded<G: SolidGrid>(
    c: Collider,
    pos: Vec2,
    delta: Fx,
    g: &G,
    blockers: Seq<Rect>,
)
    ensures
        ({
            let (p, f) = slide_y(c, pos, delta, g, blockers);
            &&& p.x == pos.x
            &&& delta.0 >= 0 ==> pos.y.0 <= p.y.0 <= fx_add(pos.y, delta).0
            &&& delta.0 <= 0 ==> fx_add(pos.y, delta).0 <= p.y.0 <= pos.y.0
            &&& f.down ==> delta.0 > 0
            &&& f.up ==> delta.0 < 0
            &&& !f.left && !f.right
            &&& obstruction(g, world_box(c, v2(pos.x, fx_add(pos.y, delta))), blockers) is None
                ==> p == v2(pos.x, fx_add(pos.y, delta))
        }),
{
}

/// A zero displacement leaves the body where it is, with nothing blocked.
pub proof fn lemma_zero_displacement_is_a_no_op<G: SolidGrid>(
    c: Collider,
    pos: Vec2,
    g: &G,
    blockers: Seq<Rect>,
)
    ensures
        slide(c, pos, v2(Fx(0), Fx(0)), g, blockers) == (MoveResult {
            position: pos,
            flags: no_flags(),
            applied: v2(Fx(0), Fx(0)),
        }),
{
}

} // verus!

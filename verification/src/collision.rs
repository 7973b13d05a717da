//! Physics components: where a body is, how it moves, its collision box, and
//! which of its sides were blocked.
use crate::component::{Component, StorageKind};
use crate::fixed::{fx_int, fx_mul, fx_neg, Fx};
use std::ops::Neg;
use crate::geometry::{rect_from_centre, Rect};
use crate::layers;
use crate::vec2::{v2, v2_add, Vec2};
use vstd::prelude::*;

verus! {

/// Where an entity is: its ground point (the bottom-centre of its collider),
/// a rotation in radians, and a per-axis scale.
#[derive(Clone, Copy, Debug, Default, PartialEq, Eq, Structural)]
pub struct Transform {
    pub position: Vec2,
    pub rotation: Fx,
    pub scale: Vec2,
}

impl Transform {
    /// A transform at the origin with unit scale.
    pub fn identity() -> (r: Transform)
        ensures
            r == (Transform {
                position: v2(Fx(0), Fx(0)),
                rotation: Fx(0),
                scale: v2(Fx(0x1_0000_0000), Fx(0x1_0000_0000)),
            }),
    {
        Transform::at(Vec2::zero())
    }

    /// A transform at `position` with unit scale and no rotation.
    pub fn at(position: Vec2) -> (r: Transform)
        ensures
            r == (Transform {
                position,
                rotation: Fx(0),
                scale: v2(Fx(0x1_0000_0000), Fx(0x1_0000_0000)),
            }),
    {
        Transform { position, rotation: Fx::zero(), scale: Vec2::one() }
    }

    /// A transform at integer world coordinates.
    pub fn at_ints(x: i32, y: i32) -> (r: Transform)
        ensures
            r == (Transform {
                position: v2(fx_int(x as int), fx_int(y as int)),
                rotation: Fx(0),
                scale: v2(Fx(0x1_0000_0000), Fx(0x1_0000_0000)),
            }),
    {
        Transform::at(Vec2::from_ints(x, y))
    }
}

impl Component for Transform {
    const NAME: &'static str = "Transform";
}

/// An entity's linear velocity, in world units per second.
#[derive(Clone, Copy, Debug, Default, PartialEq, Eq, Structural)]
pub struct Velocity(pub Vec2);

impl Velocity {
    /// A stationary velocity.
    pub fn zero() -> (r: Velocity)
        ensures
            r == Velocity(v2(Fx(0), Fx(0))),
    {
        Velocity(Vec2::zero())
    }

    /// Builds a velocity from components.
    pub fn new(x: Fx, y: Fx) -> (r: Velocity)
        ensures
            r == Velocity(v2(x, y)),
    {
        Velocity(Vec2::new(x, y))
    }
}

impl Component for Velocity {
    const NAME: &'static str = "Velocity";
}

/// How the solver treats a body.
#[derive(Clone, Copy, Debug, PartialEq, Eq, Structural)]
pub enum BodyKind {
    /// Never moves: walls, fences, buildings.
    Static,
    /// Moves under direct control and is stopped by static geometry.
    Kinematic,
    /// Moves and is stopped by geometry, but stops nothing itself.
    Projectile,
}

impl Default for BodyKind {
    fn default() -> (r: BodyKind)
        ensures
            r == BodyKind::Static,
    {
        BodyKind::Static
    }
}

/// An axis-aligned collision box, relative to the entity's position.
#[derive(Clone, Copy, Debug, PartialEq, Eq, Structural)]
pub struct Collider {
    /// Bounds relative to the entity's position.
    pub bounds: Rect,
    /// The layers this body belongs to, as a bitmask.
    pub layer: u32,
    /// The layers this body collides with, as a bitmask.
    pub mask: u32,
    /// How the solver treats this body.
    pub kind: BodyKind,
    /// Overlaps are reported but never resolved.
    pub sensor: bool,
}

/// The world-space box of `collider` at `position`.
pub open spec fn world_box(collider: Collider, position: Vec2) -> Rect {
    Rect { min: v2_add(collider.bounds.min, position), size: collider.bounds.size }
}

impl Collider {
    /// A collider centred horizontally on the entity and rising from its
    /// feet: the shape almost every character wants.
    pub fn feet_anchored(width: Fx, height: Fx) -> (r: Collider)
        ensures
            r == (Collider {
                bounds: Rect {
                    min: v2(fx_mul(fx_neg(width), Fx(0x8000_0000)), fx_neg(height)),
                    size: v2(width, height),
                },
                layer: layers::TERRAIN,
                mask: layers::ALL,
                kind: BodyKind::Static,
                sensor: false,
            }),
    {
        Collider {
            bounds: Rect::new(
                Vec2::new(width.neg() * Fx::half(), height.neg()),
                Vec2::new(width, height),
            ),
            layer: layers::TERRAIN,
            mask: layers::ALL,
            kind: BodyKind::Static,
            sensor: false,
        }
    }

    /// A collider centred on the entity's position.
    pub fn centred(width: Fx, height: Fx) -> (r: Collider)
        ensures
            r == (Collider {
                bounds: rect_from_centre(v2(Fx(0), Fx(0)), v2(width, height)),
                layer: layers::TERRAIN,
                mask: layers::ALL,
                kind: BodyKind::Static,
                sensor: false,
            }),
    {
        Collider {
            bounds: Rect::from_centre(Vec2::zero(), Vec2::new(width, height)),
            layer: layers::TERRAIN,
            mask: layers::ALL,
            kind: BodyKind::Static,
            sensor: false,
        }
    }

    /// This collider with the given body kind.
    pub fn with_kind(self, kind: BodyKind) -> (r: Collider)
        ensures
            r == (Collider { kind, ..self }),
    {
        Collider { kind, ..self }
    }

    /// This collider on `layer`, colliding with `mask`.
    pub fn with_layers(self, layer: u32, mask: u32) -> (r: Collider)
        ensures
            r == (Collider { layer, mask, ..self }),
    {
        Collider { layer, mask, ..self }
    }

    /// This collider as a non-blocking sensor.
    pub fn as_sensor(self) -> (r: Collider)
        ensures
            r == (Collider { sensor: true, ..self }),
    {
        Collider { sensor: true, ..self }
    }

    /// The world-space bounds when the entity is at `position`.
    pub fn world_bounds(&self, position: Vec2) -> (r: Rect)
        ensures
            r == world_box(*self, position),
    {
        self.bounds.translate(position)
    }

    /// True when each collider's mask accepts the other's layer.
    pub fn interacts_with(&self, other: &Collider) -> (r: bool)
        ensures
            r == ((self.mask & other.layer) != 0 && (other.mask & self.layer) != 0),
    {
        (self.mask & other.layer) != 0 && (other.mask & self.layer) != 0
    }
}

impl Component for Collider {
    const NAME: &'static str = "Collider";
}

/// Which sides of a body were blocked during the last solver step.
#[derive(Clone, Copy, Debug, PartialEq, Eq, Structural)]
pub struct CollisionFlags {
    /// Blocked while moving left.
    pub left: bool,
    /// Blocked while moving right.
    pub right: bool,
    /// Blocked while moving up.
    pub up: bool,
    /// Blocked while moving down.
    pub down: bool,
}

/// No side blocked.
pub open spec fn no_flags() -> CollisionFlags {
    CollisionFlags { left: false, right: false, up: false, down: false }
}

/// Every side blocked in either set.
pub open spec fn merged(a: CollisionFlags, b: CollisionFlags) -> CollisionFlags {
    CollisionFlags {
        left: a.left || b.left,
        right: a.right || b.right,
        up: a.up || b.up,
        down: a.down || b.down,
    }
}

impl Default for CollisionFlags {
    fn default() -> (r: CollisionFlags)
        ensures
            r == no_flags(),
    {
        CollisionFlags { left: false, right: false, up: false, down: false }
    }
}

impl CollisionFlags {
    /// True when any side is blocked.
    pub fn any(self) -> (r: bool)
        ensures
            r == (self.left || self.right || self.up || self.down),
    {
        self.left || self.right || self.up || self.down
    }

    /// True when movement was blocked horizontally.
    pub fn horizontal(self) -> (r: bool)
        ensures
            r == (self.left || self.right),
    {
        self.left || self.right
    }

    /// True when movement was blocked vertically.
    pub fn vertical(self) -> (r: bool)
        ensures
            r == (self.up || self.down),
    {
        self.up || self.down
    }

    /// Both sets of flags, keeping every blocked side.
    pub fn merge(self, other: CollisionFlags) -> (r: CollisionFlags)
        ensures
            r == merged(self, other),
    {
        CollisionFlags {
            left: self.left || other.left,
            right: self.right || other.right,
            up: self.up || other.up,
            down: self.down || other.down,
        }
    }
}

impl Component for CollisionFlags {
    const STORAGE: StorageKind = StorageKind::Sparse;

    const NAME: &'static str = "CollisionFlags";
}

} // verus!

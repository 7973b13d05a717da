//! Collision layer bits. A body may belong to several layers at once.
use vstd::prelude::*;

verus! {

/// The player character.
pub const PLAYER: u32 = 1;

/// Non-player characters.
pub const NPC: u32 = 2;

/// Hostile creatures.
pub const ENEMY: u32 = 4;

/// Solid world geometry that is not tile-based.
pub const TERRAIN: u32 = 8;

/// Items lying on the ground.
pub const ITEM: u32 = 16;

/// Things that respond to the interact button.
pub const INTERACTABLE: u32 = 32;

/// Damage-dealing volumes.
pub const HITBOX: u32 = 64;

/// Every layer.
pub const ALL: u32 = 0xffff_ffff;

} // verus!

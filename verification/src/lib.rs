//! # Verdant
//!
//! The deterministic core of a 2D game engine: Q32.32 fixed-point numbers and
//! the geometry, randomness and noise built on them; the entity-component
//! world's structure and its system schedule; tile physics; input and touch
//! controls; the bookkeeping of audio voices and generated music; and the
//! Android packaging tool's decisions.
//!
//! Everything here is a pure function of its inputs and produces
//! bit-identical results on every platform, which is what makes replays,
//! rollback and desync detection possible.
pub mod action_table;
pub mod actions;
pub mod android;
pub mod archetype;
pub mod audio;
pub mod cli;
pub mod broadphase;
pub mod collision;
pub mod component;
pub mod easing;
pub mod entity;
pub mod sparse_filter;
pub mod fixed;
pub mod geometry;
pub mod grid;
pub mod hasher;
pub mod input;
pub mod layers;
pub mod music;
pub mod noise;
pub mod physics;
pub mod rng;
pub mod schedule;
pub mod sine_bounds;
pub mod solver;
pub mod sparse;
pub mod templates;
pub mod text;
pub mod touch;
pub mod vec2;
pub mod world;

pub use easing::Easing;
pub use fixed::{fx, Fx, FRACTIONAL_BITS};
pub use geometry::{ray_vs_rect, sweep_rect_vs_rect, Circle, RayHit, Rect};
pub use hasher::StateHasher;
pub use noise::{fbm, ridged, FbmSettings, ValueNoise};
pub use rng::Rng;
pub use vec2::{IVec2, Vec2};

//! Verified core of a per-tick movement, broad-phase collision, and
//! damage-resolution pipeline for a top-down action simulation.
//!
//! Every tick the pipeline clears and re-accumulates per-entity velocity
//! intents, projects next positions, buckets moving entities into a fixed
//! grid for broad-phase pair finding, classifies overlapping pairs
//! (ignore / block / pass-through), emits directional collision events,
//! holds blocked entities in place, maps collisions to damage, and drives
//! a health state machine that reports each death exactly once.
//!
//! Positions, extents and velocities are integer world units (velocities
//! in units per second, ticks in milliseconds), so every step of the
//! pipeline is exact and fully specified.

pub mod bullet;
pub mod collision;
pub mod common;
pub mod enemy;
pub mod game;
pub mod geom;
pub mod health_system;
pub mod hitbox;
pub mod map;
pub mod move_system;
pub mod parser;
pub mod player;
pub mod tick;
pub mod world;

pub use geom::Vec2i;
pub use hitbox::Hitbox;

//! Core of a 2-D side-scrolling platform engine: a chunked spatial index with
//! an active-region tracker, an AABB collision-avoidance physics resolver with
//! a small jump state machine, and the action dispatcher that feeds them.
//!
//! Every coordinate is an integer number of world units, ten of which make
//! one display unit: a grid cell (`CHUNK_SIZE`) spans 500 display units and
//! the physics granularity (`PHYSICS_EPSILON`) is a fifth of one.
//! Fixed-point arithmetic keeps every contract exact.

pub mod actions;
pub mod chunk;
pub mod editor;
pub mod grid;
pub mod math;
pub mod physics;
pub mod rect;
pub mod world;

use vstd::prelude::*;

verus! {

/// Side length of one grid cell, in world units.
pub const CHUNK_SIZE: i64 = 5000;

/// Minimum movement granularity of the physics resolver: collision probes and
/// the recursive avoidance search both bottom out at this step.
pub const PHYSICS_EPSILON: i64 = 2;

/// All rectangle edges live in `[-COORD_LIMIT, COORD_LIMIT]`; keeping
/// positions inside this range lets every edge computation stay in `i64`.
pub const COORD_LIMIT: i64 = 0x1000_0000_0000;

} // verus!

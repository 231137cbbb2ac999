//! Fixed-point 2D physics for arcade games: a region quadtree for broad-phase
//! queries, narrow-phase box tests with mass-weighted contact resolution, and
//! flocking steering for autonomous agents.
//!
//! Every quantity is an integer in thousandths of a world unit, so each result
//! is exact and reproducible on every machine.

pub mod boids;
pub mod collision;
pub mod flock;
pub mod math;
pub mod obb;
pub mod physics;
pub mod quadtree;
pub mod quadtree_laws;
pub mod random;

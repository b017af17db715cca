//! Barnes–Hut space decomposition on an integer grid.
//!
//! Positions are grid points, masses are whole units, and every aggregate the
//! tree keeps (total mass and mass-weighted position sums) is exact. The
//! library builds the tree, keeps its invariants, and selects for each body
//! the sources whose pull makes up the force on it; the host turns sources
//! into forces and integrates motion.
pub mod barnes_hut;
pub mod body;
pub mod cube;
pub mod octree;
pub mod quadtree;
pub mod rectangle;
pub mod simulation;
pub mod vector;
pub mod wide;

//! Procedural dungeon generation by binary space partition.
//!
//! A root rectangle is split into leaves, each leaf becomes a room with a
//! carved interior, consecutive rooms are joined by L-shaped corridors, and
//! the walls are the cells that touch the floor without being floor.

pub mod geometry;
pub mod bsp;
mod random;
pub mod cells;
pub mod floor;
pub mod walls;
pub mod paths;
pub mod dungeon;
pub mod play;

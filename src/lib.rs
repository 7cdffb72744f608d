//! Seeded dungeon floor-plan generation by binary space partitioning.

pub mod room;
pub mod level;
pub mod random;
pub mod bsp;
pub mod roomscorridors;
pub mod seed;

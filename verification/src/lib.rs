//! A small world of scout and collector robots exploring a terrain map,
//! discovering crystal and energy deposits and carrying them back to base.

pub mod assignment;
pub mod collections;
pub mod laws;
pub mod pathfinding;
pub mod random;
pub mod render;
pub mod robot;
pub mod setup;
pub mod simulation;
pub mod world;

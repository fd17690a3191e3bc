//! Procedural hydrology: keyboard state tracking, continent generation,
//! shore and river distance fields, and rendering of distance maps.

pub mod events;
pub mod grid;
mod random;
pub mod landmass;
pub mod flood;
pub mod wave;
pub mod shore;
pub mod rivers;
pub mod render;

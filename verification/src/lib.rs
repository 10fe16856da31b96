//! Spatial core of a top-down arena game, over exact integer arithmetic:
//! a geometry kernel with swept collision, a per-room navigation field,
//! a dungeon generator and the per-tick collision resolver.
//!
//! World coordinates are fixed-point integers. Times of impact are exact
//! fractions, so that ordering and first-contact claims hold without rounding.

pub mod behavior;
pub mod dungeon;
pub mod entities;
pub mod geometry;
pub mod grid;
pub mod items;
pub mod layout;
pub mod navigation;
pub mod plan;
pub mod random;
pub mod resolver;
pub mod room;

//! A spatial index for a graph editor, with the rules by which the editor
//! answers to the pointer.
//!
//! The index is a two-dimensional tree over points of an integer grid. It
//! takes new entries, finds the entry nearest to a point or the `n` nearest,
//! and hands out the lines along which it divides the plane. Distances are
//! handed out as squares, which are exact.
//!
//! `shape` holds the mathematical model that the contracts speak of, `tree`
//! the index itself, and `laws` what holds of the index as a whole.

pub mod components;
pub mod distance_item;
pub mod geometry;
pub mod input;
pub mod laws;
pub mod mesh;
pub mod nearest_set;
mod node;
pub mod partition;
pub mod resources;
pub mod search;
pub mod shape;
pub mod tree;

//! A wave function collapse tile-map generator.
//!
//! The core solver lives in [`wfc`]: a catalog of square tiles, each with four
//! edge sockets, is collapsed onto a rectangular grid so that every pair of
//! adjacent cells agrees on their shared edge. The supporting grid containers
//! and the alternative, transform-carrying tile model live in the remaining
//! modules.

pub mod array_grid;
pub mod bitfield;
pub mod fixed_grid;
pub mod generation;
pub mod grid;
pub mod registry;
mod rng;
pub mod sized_grid;
pub mod vec_grid;
pub mod wfc;

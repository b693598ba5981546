//! # Solver library for the "flood it" puzzle
//!
//! A puzzle instance is a rectangular grid of colored cells.  Starting from
//! the cell in the upper left corner, a move picks a color and recolors the
//! whole already-flooded region with it, which merges every neighbouring
//! region of that color into the flooded region.  The goal is to make the
//! whole grid one color in as few moves as possible.
//!
//! The library decomposes the grid into maximal 4-connected same-colored
//! clusters and their adjacency graph ([`cluster`]), encodes the flood
//! dynamics over a horizon of `T` moves as assertions over color-choice
//! and flooded-state variables ([`model`]), drives an external
//! satisfiability engine over one or several horizons ([`search`],
//! [`solver`]), and decodes a satisfying assignment back into a color
//! sequence ([`model::decode`]).  [`replay`] proves the encoding sound:
//! replaying a color sequence on the grid makes it one color exactly when
//! the cluster-level dynamics pinned down by the model flood every
//! cluster.

pub mod cluster;
pub mod model;
pub mod problem;
pub mod reach;
pub mod replay;
pub mod search;
pub mod solution;
pub mod solver;
pub mod util;

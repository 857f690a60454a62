//! Arranges tiles into a mosaic grid so that tiles of similar colour end up
//! next to each other.
//!
//! The pipeline runs one way: each tile's pixels give it a dominant colour
//! ([`colors`]); the pairwise colour distances form a complete weighted graph
//! whose minimum spanning tree is computed ([`graph`]) and linearised into a
//! build order ([`traversal`]); the build order is laid out on a grid
//! ([`tile_grid`]) by one of the placement strategies ([`arrangement`]).
use vstd::prelude::*;

pub mod arrangement;
pub mod cli;
pub mod colors;
pub mod graph;
pub mod tile_grid;
pub mod traversal;

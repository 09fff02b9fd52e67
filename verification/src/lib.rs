//! Perfect-maze generation on a rectangular grid.
//!
//! A grid starts as a lattice of rooms (cells whose column and row are both
//! even) separated by walls. A carving strategy then opens walls until every
//! room can be reached from every other room along exactly one route.

pub mod carving;
pub mod cell;
pub mod grid;
pub mod maze;
mod random;
pub mod render;
pub mod routes;
pub mod spanning;
pub mod traversal;

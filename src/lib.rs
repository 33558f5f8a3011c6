//! Conway's Game of Life on an unbounded integer plane, stored sparsely.
//!
//! A `World` keeps two cell mappings: the current generation, which is read,
//! and the next one, which is written. Only live cells and the cells next to
//! them are tracked; an absent cell is dead.

pub mod loc;
pub mod rule;
pub mod world;
pub mod config;
pub mod laws;

//! Conway's Game of Life on an unbounded integer lattice.
//!
//! The live population is a sparse set of coordinates; one `tick` advances
//! the automaton by a single generation, and a bounding box of the live
//! cells drives the centering of a fixed-size viewport.

pub mod rules;
pub mod parse;
pub mod sim;

//! A cellular automaton over a fixed, finite set of integer coordinates.
//!
//! [`cell::Cell`] holds the two-state transition rule; [`world::World`] owns
//! the coordinate mapping and steps it one generation at a time, producing a
//! fresh value for every generation.

pub mod cell;
pub mod world;

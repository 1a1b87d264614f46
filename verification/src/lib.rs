//! Verified solutions to puzzles of a voyage through the solar system: the
//! Intcode machine that runs the ship's programs, the crossing of two wires,
//! the map of orbits, and the search for a password.

pub mod text;
pub mod intcode;
pub mod wires;
pub mod orbits;
pub mod passwords;

//! Verified solutions to a collection of small daily text puzzles.
//!
//! Each module solves one puzzle: parsing a plain-text input and running a
//! small algorithm over it. The centrepiece is the elevation grid model
//! (`heightmap`) together with an A* shortest-path search (`pathfinder`).

pub mod calories;
pub mod cpu;
pub mod directory;
pub mod heightmap;
pub mod parser;
pub mod pathfinder;
pub mod ranges;
pub mod rope;
pub mod rps;
pub mod rucksack;
pub mod signal;
pub mod supply;
pub mod text;

//! Word ladders: shortest chains of words in which neighbouring words
//! differ in exactly one position.
//!
//! [`solver`] holds the solver: a breadth-first search that grows from
//! both ends of the ladder in turn, and a search in two sweeps for a
//! ladder that is close to the longest of the shortest. [`gui`] holds the
//! state of an interactive session around a solver.
//!
//! Every function carries a contract over the mathematical model in
//! [`ladder`] and [`record`]; [`layers`] holds the reasons why the
//! searches are right, and [`words`] the handling of byte strings.

pub mod words;
pub mod ladder;
pub mod record;
pub mod layers;
pub mod solver;
pub mod gui;

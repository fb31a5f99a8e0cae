//! A Monte Carlo tree search engine for a generalized Connect-Four variant:
//! an arbitrary `rows x cols` grid with one permanently forbidden cell, a
//! four-in-a-row win condition, and a wall-clock budget per decision.
//!
//! `game` holds the engine itself; `model` holds the mathematical model of the
//! board that its contracts are stated over; `arena`, `rng` and `clock` wrap
//! the outside crates and the system clock behind trusted declarations;
//! `fixed` holds the fixed-point arithmetic used for selection scores; `parse`
//! reads whitespace-separated board descriptions.

pub mod arena;
pub mod clock;
pub mod fixed;
pub mod game;
pub mod model;
pub mod parse;
pub mod rng;

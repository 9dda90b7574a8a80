//! Conway's Game of Life on a plane without a boundary of its own.
//!
//! A `Board` is the set of live cells, `step` computes the next generation,
//! and an `Engine` holds a board, counts its generations and takes the
//! commands of a driver. Patterns are read from and written to text, one
//! cell to a line. The `components` module holds what a terminal driver has
//! to decide.

pub mod board;
pub mod components;
pub mod driver;
pub mod engine;
pub mod models;
pub mod pattern;
pub mod rules;

pub use crate::board::Board;
pub use crate::components::{GoLEvent, Key, MenuItem, Pointer};
pub use crate::driver::{Command, Outcome};
pub use crate::engine::Engine;
pub use crate::models::{Coordinate, Error};
pub use crate::rules::{is_stable, step};

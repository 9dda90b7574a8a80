//! The values that the whole library speaks of.

use vstd::prelude::*;

verus! {

/// A position on the unbounded plane of cells.
#[derive(Clone, Copy, Debug, PartialEq, Eq, PartialOrd, Ord, Structural, Hash)]
pub struct Coordinate {
    pub x: i64,
    pub y: i64,
}

impl View for Coordinate {
    type V = (int, int);

    open spec fn view(&self) -> (int, int) {
        (self.x as int, self.y as int)
    }
}

impl Coordinate {
    /// The coordinate with the given components.
    pub fn new(x: i64, y: i64) -> (c: Coordinate)
        ensures
            c.x == x,
            c.y == y,
            c@ == (x as int, y as int),
    {
        Coordinate { x, y }
    }
}

/// What can go wrong in this library.
#[derive(Debug, PartialEq, Eq)]
pub enum Error {
    /// A pattern text has a line that is neither empty nor a cell.
    MalformedPattern {
        /// The number of the first such line, counted from 1.
        line: usize,
        /// That line, without the line feed that ends it.
        token: Vec<u8>,
    },
}

} // verus!

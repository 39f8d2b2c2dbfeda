pub mod aggregate;
pub mod completion;
pub mod doc;
pub mod edit;
pub mod hover;
pub mod line;
pub mod scope;
pub mod semantic_model;
pub mod semantic_pass;
pub mod symtable;
pub mod syntree;
pub mod text;
pub mod tokens;
pub mod treap;

use vstd::prelude::*;

verus! {

/// A document position: row and column, the column counted in
/// character (Unicode scalar) units.
#[derive(Clone, Copy, Debug, PartialEq, Eq, Structural)]
pub struct Point {
    pub row: usize,
    pub column: usize,
}

impl Point {
    /// Lexicographic order on (row, column).
    pub open spec fn spec_le(self, other: Point) -> bool {
        self.row < other.row || (self.row == other.row && self.column <= other.column)
    }

    /// Decides the lexicographic order on (row, column).
    pub fn le(&self, other: &Point) -> (r: bool)
        ensures
            r == self.spec_le(*other),
    {
        self.row < other.row || (self.row == other.row && self.column <= other.column)
    }
}

/// A range of document positions: where something starts and ends.
#[derive(Clone, Copy, Debug, PartialEq, Eq, Structural)]
pub struct PointRange {
    pub start: Point,
    pub end: Point,
}

} // verus!

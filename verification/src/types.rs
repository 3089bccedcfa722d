//! Plain data shared by the solver and the parsers: placements and errors.

use vstd::prelude::*;
use crate::mask::Mask;
use crate::topology::{col, col_of, field, field_of, row, row_of};

verus! {

/// The constraints have become unsatisfiable: a cell has no candidate left,
/// or a zone cannot hold all nine digits any more.
#[derive(Clone, Copy, Debug, PartialEq, Eq, Structural)]
pub struct Unsolvable;

/// A placement: `num` goes into `cell`.
#[derive(Clone, Copy, Debug, PartialEq, Eq, Structural)]
pub struct Entry {
    pub cell: u8,
    pub num: u8,
}

impl Entry {
    /// The cell lies on the board and the digit is one of 1..=9.
    pub open spec fn wf(self) -> bool {
        self.cell < 81 && 1 <= self.num <= 9
    }

    /// The cell as an index.
    pub fn cell(self) -> (r: usize)
        ensures
            r == self.cell,
    {
        self.cell as usize
    }

    /// Row of the cell.
    pub fn row(self) -> (r: u8)
        requires
            self.cell < 81,
        ensures
            r == row_of(self.cell as int),
            r < 9,
    {
        row(self.cell)
    }

    /// Column of the cell.
    pub fn col(self) -> (r: u8)
        requires
            self.cell < 81,
        ensures
            r == col_of(self.cell as int),
            r < 9,
    {
        col(self.cell)
    }

    /// Box of the cell.
    pub fn field(self) -> (r: u8)
        requires
            self.cell < 81,
        ensures
            r == field_of(self.cell as int),
            r < 9,
    {
        field(self.cell)
    }

    /// The digit.
    pub fn num(self) -> (r: u8)
        ensures
            r == self.num,
    {
        self.num
    }

    /// The mask that holds the digit alone.
    pub fn mask(self) -> (r: Mask)
        requires
            1 <= self.num <= 9,
        ensures
            r@ == set![self.num as int],
    {
        Mask::from_num(self.num)
    }
}

/// A character found where a cell was expected.
#[derive(Clone, Copy, Debug, PartialEq, Eq, Structural)]
pub struct PubEntry {
    pub cell: u8,
    pub ch: char,
}

impl PubEntry {
    /// Row of the cell.
    pub fn row(self) -> (r: u8)
        ensures
            r == self.cell / 9,
    {
        self.cell / 9
    }

    /// Column of the cell.
    pub fn col(self) -> (r: u8)
        ensures
            r == self.cell % 9,
    {
        self.cell % 9
    }

    /// Box of the cell.
    pub fn field(self) -> (r: u8)
        ensures
            r == (self.cell / 27) * 3 + (self.cell % 9) / 3,
    {
        (self.cell / 27) * 3 + (self.cell % 9) / 3
    }
}

/// Why a text in line format was rejected.
#[derive(Clone, Copy, Debug, PartialEq, Eq, Structural)]
pub enum LineFormatParseError {
    /// A character that is neither a cell nor a blank, with its position.
    InvalidEntry(PubEntry),
    /// The text ended, or a blank came, after this many cells.
    NotEnoughCells(u8),
    /// A cell character follows the 81st cell.
    TooManyCells,
    /// Something other than a blank or a cell follows the 81st cell.
    MissingCommentDelimiter,
}

/// Why a text in block format was rejected.
#[derive(Clone, Copy, Debug, PartialEq, Eq, Structural)]
pub enum BlockFormatParseError {
    /// A character that cannot stand for a cell, with its position.
    InvalidEntry(PubEntry),
    /// This row holds fewer or more than nine cells.
    InvalidLineLength(u8),
    /// The text ended while this row (counted from 1) was expected.
    NotEnoughRows(u8),
    /// A delimiter between boxes is missing or of the wrong kind.
    IncorrectFieldDelimiter,
    /// A tenth row follows without a blank line before it.
    TooManyRows,
    /// A comment follows this row without a blank before it.
    MissingCommentDelimiter(u8),
}

/// Fewer than nine rows of nine cells were found; holds how many were.
#[derive(Clone, Copy, Debug, PartialEq, Eq, Structural)]
pub struct NotEnoughRows(pub u8);

} // verus!

use vstd::prelude::*;

verus! {

/// The kind of unit in which a contradiction was found.
#[derive(Clone, Copy, Debug, PartialEq, Eq, Structural)]
pub enum Sector {
    Row,
    Column,
    Quadrant,
}

/// Why a board could not be built or solved.
#[derive(Clone, Copy, Debug, PartialEq, Eq, Structural)]
pub enum BoardError {
    /// The input has the wrong length or holds a character outside the
    /// alphabet.
    InvalidFormat,
    /// The input holds fewer givens than a uniquely solvable puzzle needs.
    NotEnoughEntries,
    /// Propagation from the cell at `row`, `col` met a contradiction in the
    /// unit `from`.
    InvalidCell { row: usize, col: usize, from: Sector },
    /// `value` is not a candidate of the cell at `row`, `col`.
    InvalidAssignment { row: usize, col: usize, value: u8 },
    /// Every candidate of the chosen cell was tried without success.
    NoSolutionFound,
    /// Every cell is solved but some unit does not add up to the checksum.
    InvalidBoard,
}

} // verus!

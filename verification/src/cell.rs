use vstd::prelude::*;

verus! {

/// One position of the grid: nothing yet, a clue of the puzzle, or a value
/// placed while solving or editing.
#[derive(Debug, Clone, Copy, PartialEq, Eq, Structural)]
pub enum Cell {
    Empty,
    Given(u8),
    Filled(u8),
}

impl Cell {
    /// The value a cell holds, whichever way it got there.
    pub open spec fn spec_value(&self) -> Option<u8> {
        match *self {
            Cell::Empty => None,
            Cell::Given(v) => Some(v),
            Cell::Filled(v) => Some(v),
        }
    }

    /// A cell fits a board of side `size` when it is empty or holds a value
    /// between 1 and `size`.
    pub open spec fn fits(&self, size: nat) -> bool {
        match *self {
            Cell::Empty => true,
            Cell::Given(v) => 1 <= v <= size,
            Cell::Filled(v) => 1 <= v <= size,
        }
    }

    /// Two cells clash when both hold the same value.
    pub open spec fn clashes(&self, other: Cell) -> bool {
        self.spec_value() is Some && self.spec_value() == other.spec_value()
    }

    /// The value that the cell holds, if it holds one.
    #[verifier::when_used_as_spec(spec_value)]
    pub fn value(&self) -> (res: Option<u8>)
        ensures
            res == self.spec_value(),
    {
        match self {
            Cell::Empty => None,
            Cell::Given(v) => Some(*v),
            Cell::Filled(v) => Some(*v),
        }
    }

    /// Whether the cell holds nothing.
    pub fn is_empty(&self) -> (res: bool)
        ensures
            res == (*self is Empty),
    {
        match self {
            Cell::Empty => true,
            _ => false,
        }
    }

    /// Whether the cell is a clue of the puzzle.
    pub fn is_given(&self) -> (res: bool)
        ensures
            res == (*self is Given),
    {
        match self {
            Cell::Given(_) => true,
            _ => false,
        }
    }
}

} // verus!

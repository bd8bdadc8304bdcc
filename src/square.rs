use vstd::prelude::*;

verus! {

/// What a square holds: a mine, or a safe field carrying the number of mines
/// among its neighbours.
#[derive(Clone, Copy, Debug, PartialEq, Eq, Structural)]
pub enum SquareType {
    Mine,
    Field(u8),
}

/// One cell of the grid.
#[derive(Clone, Copy, Debug, PartialEq, Eq, Structural)]
pub struct Square {
    pub flagged: bool,
    pub revealed: bool,
    pub square_type: SquareType,
}

impl Square {
    /// A hidden, unflagged square of the given type.
    pub open spec fn hidden(t: SquareType) -> Square {
        Square { flagged: false, revealed: false, square_type: t }
    }

    pub open spec fn spec_is_mine(self) -> bool {
        self.square_type is Mine
    }

    pub open spec fn spec_is_flagged(self) -> bool {
        !self.revealed && self.flagged
    }

    pub open spec fn spec_number(self) -> Option<u8> {
        match self.square_type {
            SquareType::Field(n) => Some(n),
            SquareType::Mine => None,
        }
    }

    pub fn is_revealed(&self) -> (r: bool)
        ensures
            r == self.revealed,
    {
        self.revealed
    }

    /// A square counts as flagged only while it is still hidden.
    pub fn is_flagged(&self) -> (r: bool)
        ensures
            r == self.spec_is_flagged(),
    {
        !self.revealed && self.flagged
    }

    pub fn is_mine(&self) -> (r: bool)
        ensures
            r == self.spec_is_mine(),
    {
        match self.square_type {
            SquareType::Mine => true,
            _ => false,
        }
    }

    /// The adjacency number of a safe square; `None` for a mine.
    pub fn get_number(&self) -> (r: Option<u8>)
        ensures
            r == self.spec_number(),
    {
        match self.square_type {
            SquareType::Field(n) => Some(n),
            _ => None,
        }
    }
}

} // verus!

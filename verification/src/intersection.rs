//! Stone colours and the content of a board point.

use vstd::prelude::*;

verus! {

/// A stone colour, also used for the side to move.
#[derive(Clone, Copy, PartialEq, Eq, Hash, Debug, Structural)]
pub enum Color {
    White,
    Black,
}

impl Color {
    /// The other colour.
    pub open spec fn spec_opponent(&self) -> Color {
        match *self {
            Color::White => Color::Black,
            Color::Black => Color::White,
        }
    }

    /// Numeric code of the colour: White is 0, Black is 1.
    pub open spec fn spec_to_usize(&self) -> usize {
        match *self {
            Color::White => 0,
            Color::Black => 1,
        }
    }

    #[verifier::when_used_as_spec(spec_opponent)]
    pub fn opponent(&self) -> (r: Color)
        ensures
            r == self.spec_opponent(),
    {
        match *self {
            Color::White => Color::Black,
            Color::Black => Color::White,
        }
    }

    #[verifier::when_used_as_spec(spec_to_usize)]
    pub fn to_usize(&self) -> (r: usize)
        ensures
            r == self.spec_to_usize(),
            r < 2,
    {
        match *self {
            Color::White => 0,
            Color::Black => 1,
        }
    }
}

/// What a point of the bordered board holds.
#[derive(Clone, Copy, PartialEq, Eq, Hash, Debug, Structural)]
pub enum Intersection {
    Stone(Color),
    Empty,
    /// Off the playable board.
    Exterior,
}

impl Intersection {
    /// Numeric code: a stone has its colour's code, an empty point 2, the
    /// border 3.
    pub open spec fn spec_to_usize(&self) -> usize {
        match *self {
            Intersection::Stone(c) => c.spec_to_usize(),
            Intersection::Empty => 2,
            Intersection::Exterior => 3,
        }
    }

    #[verifier::when_used_as_spec(spec_to_usize)]
    pub fn to_usize(&self) -> (r: usize)
        ensures
            r == self.spec_to_usize(),
            r < 4,
    {
        match *self {
            Intersection::Stone(c) => c.to_usize(),
            Intersection::Empty => 2,
            Intersection::Exterior => 3,
        }
    }
}

} // verus!

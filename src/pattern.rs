use vstd::prelude::*;

verus! {

/// The state of one cell: a black stone, a white stone, or empty.
#[derive(Copy, Clone, PartialEq, Eq, Structural, Debug)]
pub enum Pattern {
    Black,
    White,
    Empty,
}

/// The other player's color; an empty cell stays empty.
pub open spec fn opp(p: Pattern) -> Pattern {
    match p {
        Pattern::Black => Pattern::White,
        Pattern::White => Pattern::Black,
        Pattern::Empty => Pattern::Empty,
    }
}

impl Default for Pattern {
    fn default() -> (r: Pattern)
        ensures
            r == Pattern::Empty,
    {
        Pattern::Empty
    }
}

impl Pattern {
    /// The opposing color.
    pub fn fliped(&self) -> (r: Pattern)
        ensures
            r == opp(*self),
    {
        match self {
            Pattern::White => Pattern::Black,
            Pattern::Black => Pattern::White,
            Pattern::Empty => Pattern::Empty,
        }
    }

    /// The color's name, for display.
    pub fn name(&self) -> (r: &'static str)
        ensures
            *self == Pattern::Black ==> r@ == "Black"@,
            *self == Pattern::White ==> r@ == "White"@,
            *self == Pattern::Empty ==> r@ == "Empty"@,
    {
        match self {
            Pattern::Black => "Black",
            Pattern::White => "White",
            Pattern::Empty => "Empty",
        }
    }
}

} // verus!

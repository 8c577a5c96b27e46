use vstd::prelude::*;

verus! {

/// What a square of the board holds.
#[derive(Clone, Copy, Debug, PartialEq, Eq, Structural)]
pub enum CellState {
    EMPTY,
    WHITE,
    BLACK,
}

/// The glyph a state is drawn with.
pub open spec fn glyph(s: CellState) -> char {
    match s {
        CellState::EMPTY => ' ',
        CellState::WHITE => 'o',
        CellState::BLACK => 'x',
    }
}

/// A stone of the other color: `s` is not empty and differs from `color`.
pub open spec fn is_opposite(color: CellState, s: CellState) -> bool {
    s != CellState::EMPTY && s != color
}

/// The player who moves after `s`; the empty state stays empty.
pub open spec fn opponent(s: CellState) -> CellState {
    match s {
        CellState::EMPTY => CellState::EMPTY,
        CellState::WHITE => CellState::BLACK,
        CellState::BLACK => CellState::WHITE,
    }
}

impl CellState {
    pub fn glyph(&self) -> (r: char)
        ensures
            r == glyph(*self),
    {
        match self {
            CellState::EMPTY => ' ',
            CellState::WHITE => 'o',
            CellState::BLACK => 'x',
        }
    }

    pub fn to_string(&self) -> (r: String)
        ensures
            r@ == seq![glyph(*self)],
    {
        let s = match self {
            CellState::EMPTY => " ",
            CellState::WHITE => "o",
            CellState::BLACK => "x",
        };
        proof {
            reveal_strlit(" ");
            reveal_strlit("o");
            reveal_strlit("x");
        }
        String::from_str(s)
    }

    pub fn have_same_state(&self, other: &Cell) -> (r: bool)
        ensures
            r == (*self == other@),
    {
        *self == other.state
    }

    pub fn have_another_color(&self, other: &Cell) -> (r: bool)
        ensures
            r == is_opposite(*self, other@),
    {
        !other.is_empty() && *self != other.state
    }
}

/// One square of the board.
#[derive(Clone, Copy, Debug, PartialEq, Eq, Structural)]
pub struct Cell {
    state: CellState,
}

impl View for Cell {
    type V = CellState;

    closed spec fn view(&self) -> CellState {
        self.state
    }
}

impl Cell {
    pub fn new() -> (r: Cell)
        ensures
            r@ == CellState::EMPTY,
    {
        Cell { state: CellState::EMPTY }
    }

    pub fn state(&self) -> (r: CellState)
        ensures
            r == self@,
    {
        self.state
    }

    pub fn set_state(&mut self, state: &CellState)
        ensures
            final(self)@ == *state,
    {
        self.state = *state;
    }

    pub fn is_empty(&self) -> (r: bool)
        ensures
            r == (self@ == CellState::EMPTY),
    {
        self.state == CellState::EMPTY
    }

    pub fn to_string(&self) -> (r: String)
        ensures
            r@ == seq![glyph(self@)],
    {
        self.state.to_string()
    }
}

} // verus!

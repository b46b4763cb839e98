use vstd::prelude::*;

verus! {

/// What a player sees of one cell.
#[derive(Clone, Copy, Debug, PartialEq, Eq, Structural)]
pub enum CellState {
    /// Not yet opened; `flags` is the flag level placed on it (0 means unflagged).
    Hidden { flags: u8 },
    /// Opened for good.
    Revealed,
}

impl Default for CellState {
    fn default() -> (r: Self)
        ensures
            r == (CellState::Hidden { flags: 0 }),
    {
        CellState::Hidden { flags: 0 }
    }
}

/// Where a round stands.
#[derive(Clone, Copy, Debug, PartialEq, Eq, Structural)]
pub enum GridState {
    Play,
    Win,
    Lose,
}

/// One grid position.
#[derive(Clone, Copy, Debug)]
pub struct Cell {
    x: u32,
    y: u32,
    mines: u8,
    state: CellState,
    surrounding_mines: u8,
}

/// The mathematical content of a [`Cell`].
pub struct CellView {
    pub x: int,
    pub y: int,
    /// 1 for a mine, 0 otherwise.
    pub mines: int,
    pub state: CellState,
    /// Number of mines among the (up to eight) neighbours.
    pub surrounding_mines: int,
}

impl View for Cell {
    type V = CellView;

    closed spec fn view(&self) -> CellView {
        CellView {
            x: self.x as int,
            y: self.y as int,
            mines: self.mines as int,
            state: self.state,
            surrounding_mines: self.surrounding_mines as int,
        }
    }
}

impl Cell {
    pub(crate) fn new_hidden(x: u32, y: u32) -> (r: Cell)
        ensures
            r@ == (CellView {
                x: x as int,
                y: y as int,
                mines: 0,
                state: CellState::Hidden { flags: 0 },
                surrounding_mines: 0,
            }),
    {
        Cell { x, y, mines: 0, state: CellState::Hidden { flags: 0 }, surrounding_mines: 0 }
    }

    pub(crate) fn x(&self) -> (r: u32)
        ensures
            r as int == self@.x,
    {
        self.x
    }

    pub(crate) fn y(&self) -> (r: u32)
        ensures
            r as int == self@.y,
    {
        self.y
    }

    pub fn mines(&self) -> (r: u8)
        ensures
            r as int == self@.mines,
    {
        self.mines
    }

    pub fn state(&self) -> (r: CellState)
        ensures
            r == self@.state,
    {
        self.state
    }

    pub fn surrounding_mines(&self) -> (r: u8)
        ensures
            r as int == self@.surrounding_mines,
    {
        self.surrounding_mines
    }

    pub(crate) fn set_mine(&mut self)
        ensures
            final(self)@ == (CellView { mines: 1, ..old(self)@ }),
    {
        self.mines = 1;
    }

    pub(crate) fn set_state(&mut self, state: CellState)
        ensures
            final(self)@ == (CellView { state, ..old(self)@ }),
    {
        self.state = state;
    }

    pub(crate) fn set_surrounding_mines(&mut self, n: u8)
        ensures
            final(self)@ == (CellView { surrounding_mines: n as int, ..old(self)@ }),
    {
        self.surrounding_mines = n;
    }
}

} // verus!

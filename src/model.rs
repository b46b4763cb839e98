use vstd::prelude::*;

use crate::cell::{CellState, CellView, GridState};
use crate::count::{flagged_count, has_mine, hidden_safe_count, lemma_count_same, mine_count};

verus! {

/// The mathematical content of a [`crate::MineGrid`]: its dimensions, counters,
/// state, and its cells in row-major order (the cell at `(x, y)` stands at
/// `y * width + x`).
pub struct GridView {
    pub width: int,
    pub height: int,
    pub mines: int,
    /// Highest flag level a cell can carry.
    pub max_flags: int,
    /// Number of hidden cells that carry a flag.
    pub flags_placed: int,
    /// Number of cells without a mine that are still hidden.
    pub spaces_left: int,
    pub state: GridState,
    pub cells: Seq<CellView>,
}

/// The eight neighbour offsets in scan order: the row above from left to
/// right, the two cells beside, then the row below.
pub open spec fn offset(k: int) -> (int, int) {
    if k == 0 {
        (-1, -1)
    } else if k == 1 {
        (0, -1)
    } else if k == 2 {
        (1, -1)
    } else if k == 3 {
        (-1, 0)
    } else if k == 4 {
        (1, 0)
    } else if k == 5 {
        (-1, 1)
    } else if k == 6 {
        (0, 1)
    } else {
        (1, 1)
    }
}

/// The same cell, opened.
pub open spec fn opened(c: CellView) -> CellView {
    CellView { state: CellState::Revealed, ..c }
}

impl GridView {
    pub open spec fn in_bounds(self, x: int, y: int) -> bool {
        0 <= x < self.width && 0 <= y < self.height
    }

    pub open spec fn index(self, x: int, y: int) -> int {
        y * self.width + x
    }

    pub open spec fn cell(self, x: int, y: int) -> CellView {
        self.cells[self.index(x, y)]
    }

    /// `(nx, ny)` lies on the board and touches `(x, y)` by a side or a corner.
    pub open spec fn is_neighbor(self, x: int, y: int, nx: int, ny: int) -> bool {
        &&& self.in_bounds(nx, ny)
        &&& x - 1 <= nx <= x + 1
        &&& y - 1 <= ny <= y + 1
        &&& (nx != x || ny != y)
    }

    /// 1 where `(x, y)` is on the board and holds a mine, else 0.
    pub open spec fn mine_bit(self, x: int, y: int) -> int {
        if self.in_bounds(x, y) && self.cell(x, y).mines != 0 {
            1
        } else {
            0
        }
    }

    /// Mines among the first `k` neighbour offsets of `(x, y)`.
    pub open spec fn mines_around_upto(self, x: int, y: int, k: int) -> int
        decreases k,
    {
        if k <= 0 {
            0
        } else {
            self.mines_around_upto(x, y, k - 1) + self.mine_bit(
                x + offset(k - 1).0,
                y + offset(k - 1).1,
            )
        }
    }

    /// Mines among the neighbours of `(x, y)`.
    pub open spec fn mines_around(self, x: int, y: int) -> int {
        self.mines_around_upto(x, y, 8)
    }

    /// Flag level of `(x, y)` where it is on the board and hidden, else 0.
    pub open spec fn flag_level(self, x: int, y: int) -> int {
        if self.in_bounds(x, y) {
            match self.cell(x, y).state {
                CellState::Hidden { flags } => flags as int,
                CellState::Revealed => 0,
            }
        } else {
            0
        }
    }

    /// Flag levels summed over the first `k` neighbour offsets of `(x, y)`.
    pub open spec fn flags_around_upto(self, x: int, y: int, k: int) -> int
        decreases k,
    {
        if k <= 0 {
            0
        } else {
            self.flags_around_upto(x, y, k - 1) + self.flag_level(
                x + offset(k - 1).0,
                y + offset(k - 1).1,
            )
        }
    }

    /// Flag levels summed over the hidden neighbours of `(x, y)`.
    pub open spec fn flags_around(self, x: int, y: int) -> int {
        self.flags_around_upto(x, y, 8)
    }

    /// The neighbours of `(x, y)` among the first `k` offsets, in scan order.
    pub open spec fn neighbors_upto(self, x: int, y: int, k: int) -> Seq<CellView>
        decreases k,
    {
        if k <= 0 {
            Seq::empty()
        } else {
            let prev = self.neighbors_upto(x, y, k - 1);
            let (nx, ny) = (x + offset(k - 1).0, y + offset(k - 1).1);
            if self.in_bounds(nx, ny) {
                prev.push(self.cell(nx, ny))
            } else {
                prev
            }
        }
    }

    /// The neighbours of `(x, y)`, in scan order.
    pub open spec fn neighbors(self, x: int, y: int) -> Seq<CellView> {
        self.neighbors_upto(x, y, 8)
    }

    /// The dimensions and the place of each cell: the cell at index `i`
    /// knows its coordinates, and those lead back to `i`.
    pub open spec fn shape_wf(self) -> bool {
        &&& 0 <= self.width
        &&& 0 <= self.height
        &&& self.width * self.height <= u32::MAX
        &&& self.cells.len() == self.width * self.height
        &&& 1 <= self.max_flags < 255
        &&& forall|i: int|
            0 <= i < self.cells.len() ==> {
                &&& self.in_bounds(#[trigger] self.cells[i].x, self.cells[i].y)
                &&& self.index(self.cells[i].x, self.cells[i].y) == i
                &&& (self.cells[i].mines == 0 || self.cells[i].mines == 1)
            }
        &&& forall|x: int, y: int|
            #![trigger self.index(x, y)]
            self.in_bounds(x, y) ==> {
                &&& 0 <= self.index(x, y) < self.cells.len()
                &&& self.cell(x, y).x == x
                &&& self.cell(x, y).y == y
            }
    }

    /// What stays fixed for the whole life of a grid: its shape, the mines
    /// and the neighbour counts cached in the cells.
    pub open spec fn layout_wf(self) -> bool {
        &&& self.shape_wf()
        &&& forall|x: int, y: int|
            #![trigger self.index(x, y)]
            self.in_bounds(x, y) ==> self.cell(x, y).surrounding_mines == self.mines_around(x, y)
    }

    /// Where the mines lie, cell by cell in row-major order.
    pub open spec fn mine_layout(self) -> Seq<bool> {
        Seq::new(self.cells.len(), |i: int| self.cells[i].mines != 0)
    }

    /// The invariant of a grid: its layout, counters that agree with its
    /// cells, flag levels within bounds, no mine open while in play, and a
    /// win only once every safe cell is open.
    pub open spec fn wf(self) -> bool {
        &&& self.layout_wf()
        &&& forall|i: int|
            #![trigger self.cells[i]]
            0 <= i < self.cells.len() ==> (self.cells[i].state matches CellState::Hidden { flags }
                ==> flags <= self.max_flags)
        &&& mine_count(self.cells) == self.mines
        &&& hidden_safe_count(self.cells) == self.spaces_left
        &&& flagged_count(self.cells) == self.flags_placed
        &&& self.state is Play ==> forall|i: int|
            #![trigger self.cells[i]]
            0 <= i < self.cells.len() && self.cells[i].mines != 0 ==> self.cells[i].state is Hidden
        &&& self.state is Win ==> self.spaces_left == 0
    }

    /// The same grid with new cells and state, and counters taken from the cells.
    pub open spec fn with_cells(self, cells: Seq<CellView>, state: GridState) -> GridView {
        GridView {
            cells,
            state,
            spaces_left: hidden_safe_count(cells) as int,
            flags_placed: flagged_count(cells) as int,
            ..self
        }
    }

    /// Opening spreads from `a` to `b`: `a` has no mine around it and its
    /// neighbour `b` is hidden without a flag.
    pub open spec fn spreads(self, a: (int, int), b: (int, int)) -> bool {
        &&& self.is_neighbor(a.0, a.1, b.0, b.1)
        &&& self.cell(a.0, a.1).surrounding_mines == 0
        &&& self.cell(b.0, b.1).state == (CellState::Hidden { flags: 0 })
    }

    pub open spec fn is_flood_path(self, path: Seq<(int, int)>) -> bool {
        &&& path.len() >= 1
        &&& forall|i: int| 0 <= i < path.len() - 1 ==> #[trigger] self.spreads(path[i], path[i + 1])
    }

    /// Opening `(sx, sy)` spreads, step by step, to `(px, py)`.
    pub open spec fn reaches(self, sx: int, sy: int, px: int, py: int) -> bool {
        exists|path: Seq<(int, int)>|
            #[trigger] self.is_flood_path(path) && path[0] == (sx, sy) && path.last() == (px, py)
    }

    /// Opening the safe cell `(x, y)`: every cell that it reaches opens, and
    /// the round is won once no safe cell is left hidden.
    pub open spec fn flood(self, x: int, y: int) -> GridView {
        let cells = Seq::new(
            self.cells.len(),
            |i: int|
                if self.reaches(x, y, self.cells[i].x, self.cells[i].y) {
                    opened(self.cells[i])
                } else {
                    self.cells[i]
                },
        );
        self.with_cells(
            cells,
            if hidden_safe_count(cells) == 0 {
                GridState::Win
            } else {
                GridState::Play
            },
        )
    }

    /// Opening the hidden cell `(x, y)`, flagged or not: a mine loses the
    /// round, a safe cell floods.
    pub open spec fn open_cell(self, x: int, y: int) -> GridView {
        if self.cell(x, y).mines != 0 {
            self.with_cells(
                self.cells.update(self.index(x, y), opened(self.cell(x, y))),
                GridState::Lose,
            )
        } else {
            self.flood(x, y)
        }
    }

    /// One step of a chord on `(x, y)`: while in play, open the neighbour at
    /// offset `k` if it is hidden.
    pub open spec fn chord_step(self, x: int, y: int, k: int) -> GridView {
        let (nx, ny) = (x + offset(k).0, y + offset(k).1);
        if self.state is Play && self.in_bounds(nx, ny) && self.cell(nx, ny).state is Hidden {
            self.open_cell(nx, ny)
        } else {
            self
        }
    }

    /// A chord on `(x, y)` over the first `k` neighbour offsets.
    pub open spec fn chord_upto(self, x: int, y: int, k: int) -> GridView
        decreases k,
    {
        if k <= 0 {
            self
        } else {
            self.chord_upto(x, y, k - 1).chord_step(x, y, k - 1)
        }
    }

    /// The grid after a reveal at `(x, y)`.
    pub open spec fn after_reveal(self, x: int, y: int) -> GridView {
        if !self.in_bounds(x, y) || !(self.state is Play) {
            self
        } else {
            match self.cell(x, y).state {
                CellState::Hidden { flags } => if flags == 0 {
                    self.open_cell(x, y)
                } else {
                    self
                },
                CellState::Revealed => {
                    let k = self.cell(x, y).surrounding_mines;
                    if k == 0 || self.flags_around(x, y) != k {
                        self
                    } else {
                        self.chord_upto(x, y, 8)
                    }
                },
            }
        }
    }

    /// The grid after a flag toggle at `(x, y)`: a hidden cell moves to the
    /// next flag level, wrapping to 0 after `max_flags`.
    pub open spec fn after_toggle(self, x: int, y: int) -> GridView {
        if !self.in_bounds(x, y) || !(self.state is Play) {
            self
        } else {
            match self.cell(x, y).state {
                CellState::Hidden { flags } => self.with_cells(
                    self.cells.update(
                        self.index(x, y),
                        CellView {
                            state: CellState::Hidden {
                                flags: ((flags + 1) % (self.max_flags + 1)) as u8,
                            },
                            ..self.cell(x, y)
                        },
                    ),
                    self.state,
                ),
                CellState::Revealed => self,
            }
        }
    }
}

/// The partial neighbour sums never go below 0 and never shrink.
pub proof fn lemma_mines_upto_mono(g: GridView, x: int, y: int, j: int, k: int)
    requires
        0 <= j <= k,
    ensures
        0 <= g.mines_around_upto(x, y, j) <= g.mines_around_upto(x, y, k),
    decreases k,
{
    if j < k {
        lemma_mines_upto_mono(g, x, y, j, k - 1);
    } else if k > 0 {
        lemma_mines_upto_mono(g, x, y, k - 1, k - 1);
    }
}

/// No neighbour of a cell without mines around it holds a mine.
pub proof fn lemma_blank_neighbor_safe(g: GridView, x: int, y: int, k: int)
    requires
        g.mines_around(x, y) == 0,
        0 <= k < 8,
    ensures
        g.mine_bit(x + offset(k).0, y + offset(k).1) == 0,
{
    lemma_mines_upto_mono(g, x, y, k, k);
    lemma_mines_upto_mono(g, x, y, k + 1, 8);
}

/// Every neighbour sits at one of the eight offsets.
pub proof fn lemma_neighbor_offset(g: GridView, x: int, y: int, nx: int, ny: int) -> (k: int)
    requires
        g.is_neighbor(x, y, nx, ny),
    ensures
        0 <= k < 8,
        nx == x + offset(k).0,
        ny == y + offset(k).1,
{
    let dx = nx - x;
    let dy = ny - y;
    if dy == -1 {
        dx + 1
    } else if dy == 0 {
        if dx == -1 {
            3
        } else {
            4
        }
    } else {
        dx + 6
    }
}

/// A cell reaches itself.
pub proof fn lemma_reaches_start(g: GridView, x: int, y: int)
    ensures
        g.reaches(x, y, x, y),
{
    let path = seq![(x, y)];
    assert(g.is_flood_path(path));
}

/// What a cell reaches, spreads further.
pub proof fn lemma_reaches_extend(g: GridView, sx: int, sy: int, a: (int, int), b: (int, int))
    requires
        g.reaches(sx, sy, a.0, a.1),
        g.spreads(a, b),
    ensures
        g.reaches(sx, sy, b.0, b.1),
{
    let path = choose|path: Seq<(int, int)>|
        #[trigger] g.is_flood_path(path) && path[0] == (sx, sy) && path.last() == (a.0, a.1);
    let longer = path.push(b);
    assert forall|i: int| 0 <= i < longer.len() - 1 implies #[trigger] g.spreads(
        longer[i],
        longer[i + 1],
    ) by {
        if i < path.len() - 1 {
            assert(g.spreads(path[i], path[i + 1]));
        }
    }
    assert(g.is_flood_path(longer));
    assert(longer[0] == (sx, sy));
}

/// `b` differs from `a` in the states of its cells at most.
pub open spec fn same_layout(a: GridView, b: GridView) -> bool {
    &&& a.width == b.width
    &&& a.height == b.height
    &&& a.mines == b.mines
    &&& a.max_flags == b.max_flags
    &&& a.cells.len() == b.cells.len()
    &&& forall|i: int|
        #![trigger b.cells[i]]
        0 <= i < b.cells.len() ==> b.cells[i] == (CellView { state: b.cells[i].state, ..a.cells[i] })
}

/// `b` has the shape and the mines of `a`.
pub open spec fn same_mines(a: GridView, b: GridView) -> bool {
    &&& a.width == b.width
    &&& a.height == b.height
    &&& a.max_flags == b.max_flags
    &&& a.cells.len() == b.cells.len()
    &&& forall|i: int|
        #![trigger b.cells[i]]
        0 <= i < b.cells.len() ==> b.cells[i].mines == a.cells[i].mines && b.cells[i].x
            == a.cells[i].x && b.cells[i].y == a.cells[i].y
}

proof fn lemma_mines_around_same(a: GridView, b: GridView, x: int, y: int, k: int)
    requires
        a.shape_wf(),
        same_mines(a, b),
    ensures
        b.mines_around_upto(x, y, k) == a.mines_around_upto(x, y, k),
    decreases k,
{
    if k > 0 {
        lemma_mines_around_same(a, b, x, y, k - 1);
        let (nx, ny) = (x + offset(k - 1).0, y + offset(k - 1).1);
        if a.in_bounds(nx, ny) {
            assert(0 <= a.index(nx, ny) < a.cells.len());
            assert(b.cells[b.index(nx, ny)].mines == a.cells[a.index(nx, ny)].mines);
        }
    }
}

/// A grid with the shape and mines of a well-shaped one is well shaped.
pub proof fn lemma_same_shape(a: GridView, b: GridView)
    requires
        a.shape_wf(),
        same_mines(a, b),
    ensures
        b.shape_wf(),
        forall|x: int, y: int| b.mines_around(x, y) == a.mines_around(x, y),
{
    assert forall|i: int| 0 <= i < b.cells.len() implies {
        &&& b.in_bounds(#[trigger] b.cells[i].x, b.cells[i].y)
        &&& b.index(b.cells[i].x, b.cells[i].y) == i
        &&& (b.cells[i].mines == 0 || b.cells[i].mines == 1)
    } by {
        assert(a.in_bounds(a.cells[i].x, a.cells[i].y));
    }
    assert forall|x: int, y: int| #[trigger] b.in_bounds(x, y) implies {
        &&& 0 <= b.index(x, y) < b.cells.len()
        &&& b.cell(x, y).x == x
        &&& b.cell(x, y).y == y
    } by {
        assert(0 <= a.index(x, y) < a.cells.len());
    }
    assert forall|x: int, y: int| b.mines_around(x, y) == a.mines_around(x, y) by {
        lemma_mines_around_same(a, b, x, y, 8);
    }
}

/// A grid whose cells changed state only keeps a well-formed layout.
pub proof fn lemma_same_layout(a: GridView, b: GridView)
    requires
        a.layout_wf(),
        same_layout(a, b),
    ensures
        b.layout_wf(),
        mine_count(b.cells) == mine_count(a.cells),
{
    assert forall|i: int| #![trigger b.cells[i]] 0 <= i < b.cells.len() implies b.cells[i].mines
        == a.cells[i].mines && b.cells[i].x == a.cells[i].x && b.cells[i].y == a.cells[i].y by {
        assert(b.cells[i] == (CellView { state: b.cells[i].state, ..a.cells[i] }));
    }
    lemma_same_shape(a, b);
    assert forall|x: int, y: int| #[trigger] b.in_bounds(x, y) implies b.cell(x, y).surrounding_mines
        == b.mines_around(x, y) by {
        assert(0 <= a.index(x, y) < a.cells.len());
    }
    lemma_count_same(a.cells, b.cells, has_mine());
}

/// Distinct places on the board have distinct indices.
pub proof fn lemma_index_injective(g: GridView, a: (int, int), b: (int, int))
    requires
        g.shape_wf(),
        g.in_bounds(a.0, a.1),
        g.in_bounds(b.0, b.1),
        a != b,
    ensures
        g.index(a.0, a.1) != g.index(b.0, b.1),
{
    assert(0 <= g.index(a.0, a.1) < g.cells.len());
    assert(0 <= g.index(b.0, b.1) < g.cells.len());
}

} // verus!

use vstd::prelude::*;

use crate::cell::{Cell, CellState, CellView, GridState};
use crate::count::{
    flagged_count, has_mine, hidden_safe_count, is_flagged, is_hidden_safe, lemma_count_all,
    lemma_count_bounded, lemma_count_none, lemma_count_same, lemma_count_update, mine_count,
};
use crate::placement::{
    free_count, is_nth_free, lemma_free_count_all_free, lemma_free_count_full,
    lemma_free_count_take, lemma_free_count_update, lemma_nth_free_unique, picks_layout,
    place_pick, random_below, valid_picks,
};
use crate::model::{
    lemma_blank_neighbor_safe, lemma_index_injective, lemma_neighbor_offset, lemma_reaches_extend,
    lemma_reaches_start, lemma_same_layout, lemma_same_shape, offset, opened, same_layout,
    same_mines, GridView,
};

verus! {

/// The board of one round: a dense row-major array of cells, its counters
/// and its state.
pub struct MineGrid {
    cells: Vec<Cell>,
    width: u32,
    height: u32,
    mines: u32,
    max_mines: u8,
    mines_flagged: u32,
    spaces_left: u32,
    state: GridState,
}

impl View for MineGrid {
    type V = GridView;

    closed spec fn view(&self) -> GridView {
        GridView {
            width: self.width as int,
            height: self.height as int,
            mines: self.mines as int,
            max_flags: self.max_mines as int,
            flags_placed: self.mines_flagged as int,
            spaces_left: self.spaces_left as int,
            state: self.state,
            cells: self.cells@.map_values(|c: Cell| c@),
        }
    }
}

/// The cell at `p` was hidden in `g0` and is open in `g`.
spec fn flood_changed(g0: GridView, g: GridView, p: (int, int)) -> bool {
    g0.cell(p.0, p.1).state is Hidden && g.cell(p.0, p.1).state is Revealed
}

/// Every cell that `p` spreads to in `g0` is open in `g`.
spec fn flood_done(g0: GridView, g: GridView, p: (int, int)) -> bool {
    forall|q: (int, int)| #[trigger] g0.spreads(p, q) ==> flood_changed(g0, g, q)
}

spec fn in_work(work: Seq<(u32, u32)>, p: (int, int)) -> bool {
    exists|j: int| 0 <= j < work.len() && #[trigger] work[j] == (p.0 as u32, p.1 as u32)
}

/// Along a flood path from an open cell, in a grid closed under spreading,
/// every cell is open.
proof fn lemma_path_opened(g0: GridView, g: GridView, path: Seq<(int, int)>, i: int)
    requires
        g0.is_flood_path(path),
        g0.in_bounds(path[0].0, path[0].1),
        flood_changed(g0, g, path[0]),
        0 <= i < path.len(),
        forall|p: (int, int)|
            g0.in_bounds(p.0, p.1) && #[trigger] flood_changed(g0, g, p) && g0.cell(p.0, p.1).surrounding_mines == 0
                ==> flood_done(g0, g, p),
    ensures
        flood_changed(g0, g, path[i]),
        g0.in_bounds(path[i].0, path[i].1),
    decreases i,
{
    if i > 0 {
        let j = i - 1;
        lemma_path_opened(g0, g, path, j);
        assert(g0.spreads(path[j], path[j + 1]));
    }
}

/// The row-major index of an in-bounds place lies within the board.
proof fn lemma_index_in_board(w: int, h: int, x: int, y: int)
    requires
        0 <= x < w,
        0 <= y < h,
    ensures
        0 <= y * w + x < w * h,
{
    assert(y * w + x < w * h) by (nonlinear_arith)
        requires
            0 <= x < w,
            0 <= y < h,
    {
        assert(y * w + w == (y + 1) * w);
        assert((y + 1) * w <= h * w);
    }
    assert(0 <= y * w) by (nonlinear_arith)
        requires
            0 <= y,
            0 <= x < w,
    ;
}

/// Two in-bounds places with the same row-major index are the same place.
proof fn lemma_index_unique(w: int, x1: int, y1: int, x2: int, y2: int)
    requires
        0 <= x1 < w,
        0 <= x2 < w,
        0 <= y1,
        0 <= y2,
        y1 * w + x1 == y2 * w + x2,
    ensures
        x1 == x2,
        y1 == y2,
{
    if y1 < y2 {
        assert(y2 * w >= (y1 + 1) * w) by (nonlinear_arith)
            requires
                y1 < y2,
                0 <= w,
        ;
        assert((y1 + 1) * w == y1 * w + w) by (nonlinear_arith);
    } else if y2 < y1 {
        assert(y1 * w >= (y2 + 1) * w) by (nonlinear_arith)
            requires
                y2 < y1,
                0 <= w,
        ;
        assert((y2 + 1) * w == y2 * w + w) by (nonlinear_arith);
    }
}

/// The offset of scan position `k` as machine integers.
fn neighbor_offset(k: usize) -> (r: (i64, i64))
    requires
        k < 8,
    ensures
        r.0 as int == offset(k as int).0,
        r.1 as int == offset(k as int).1,
{
    if k == 0 {
        (-1, -1)
    } else if k == 1 {
        (0, -1)
    } else if k == 2 {
        (1, -1)
    } else if k == 3 {
        (-1, 0)
    } else if k == 4 {
        (1, 0)
    } else if k == 5 {
        (-1, 1)
    } else if k == 6 {
        (0, 1)
    } else {
        (1, 1)
    }
}

impl MineGrid {
    /// The grid invariant, see [`GridView::wf`].
    pub open spec fn wf(&self) -> bool {
        self@.wf()
    }

    proof fn lemma_view_cell(&self, i: int)
        requires
            0 <= i < self.cells.len(),
        ensures
            self@.cells[i] == self.cells@[i]@,
            self@.cells.len() == self.cells.len(),
    {
    }

    pub fn width(&self) -> (r: u32)
        ensures
            r as int == self@.width,
    {
        self.width
    }

    pub fn height(&self) -> (r: u32)
        ensures
            r as int == self@.height,
    {
        self.height
    }

    pub fn state(&self) -> (r: GridState)
        ensures
            r == self@.state,
    {
        self.state
    }

    pub fn mines(&self) -> (r: u32)
        ensures
            r as int == self@.mines,
    {
        self.mines
    }

    /// Mines not yet matched by a flag: the mine count less the flagged
    /// cells, and 0 once there are more flags than mines.
    pub fn mines_left(&self) -> (r: u32)
        ensures
            r as int == if self@.flags_placed <= self@.mines {
                self@.mines - self@.flags_placed
            } else {
                0
            },
    {
        self.mines.saturating_sub(self.mines_flagged)
    }

    /// Whether `(x, y)` lies on the board.
    pub fn check_point(&self, x: u32, y: u32) -> (r: bool)
        ensures
            r == self@.in_bounds(x as int, y as int),
    {
        x < self.width && y < self.height
    }

    fn index_of(&self, x: u32, y: u32) -> (r: usize)
        requires
            self@.shape_wf(),
            self@.in_bounds(x as int, y as int),
        ensures
            r as int == self@.index(x as int, y as int),
            r < self.cells.len(),
            self.cells@[r as int]@ == self@.cell(x as int, y as int),
    {
        assert(0 <= self@.index(x as int, y as int) < self@.cells.len());
        (y as usize) * (self.width as usize) + (x as usize)
    }

    /// The coordinates at offset `k` of `(x, y)`, where they are on the board.
    fn neighbor_at(&self, x: u32, y: u32, k: usize) -> (r: Option<(u32, u32)>)
        requires
            k < 8,
        ensures
            match r {
                Some((nx, ny)) => {
                    &&& nx as int == x + offset(k as int).0
                    &&& ny as int == y + offset(k as int).1
                    &&& self@.in_bounds(nx as int, ny as int)
                },
                None => !self@.in_bounds(x + offset(k as int).0, y + offset(k as int).1),
            },
    {
        let (dx, dy) = neighbor_offset(k);
        let nx: i64 = x as i64 + dx;
        let ny: i64 = y as i64 + dy;
        if 0 <= nx && nx < self.width as i64 && 0 <= ny && ny < self.height as i64 {
            Some((nx as u32, ny as u32))
        } else {
            None
        }
    }

    /// A copy of the cell at `(x, y)`; `None` off the board.
    pub fn get_cell(&self, x: u32, y: u32) -> (r: Option<Cell>)
        requires
            self.wf(),
        ensures
            match r {
                Some(c) => self@.in_bounds(x as int, y as int) && c@ == self@.cell(x as int, y as int),
                None => !self@.in_bounds(x as int, y as int),
            },
    {
        if self.check_point(x, y) {
            let i = self.index_of(x, y);
            Some(self.cells[i])
        } else {
            None
        }
    }

    /// Copies of the cells around `(x, y)` that lie on the board, in scan
    /// order; none when `(x, y)` itself is off the board.
    pub fn get_neighbors(&self, x: u32, y: u32) -> (r: Vec<Cell>)
        requires
            self.wf(),
        ensures
            !self@.in_bounds(x as int, y as int) ==> r@.len() == 0,
            self@.in_bounds(x as int, y as int) ==> r@.map_values(|c: Cell| c@) == self@.neighbors(
                x as int,
                y as int,
            ),
    {
        if !self.check_point(x, y) {
            return Vec::new();
        }
        let mut neighbors: Vec<Cell> = Vec::with_capacity(8);
        for k in 0..8usize
            invariant
                self.wf(),
                neighbors@.map_values(|c: Cell| c@) == self@.neighbors_upto(x as int, y as int, k as int),
        {
            if let Some((nx, ny)) = self.neighbor_at(x, y, k) {
                let i = self.index_of(nx, ny);
                neighbors.push(self.cells[i]);
                assert(neighbors@.map_values(|c: Cell| c@) =~= self@.neighbors_upto(x as int, y as int, k as int).push(self@.cell(nx as int, ny as int)));
            }
        }
        neighbors
    }

    /// Sets the state of cell `i`, leaving everything else as it was.
    fn replace_state(&mut self, i: usize, state: CellState)
        requires
            i < old(self).cells.len(),
        ensures
            final(self)@ == (GridView {
                cells: old(self)@.cells.update(i as int, CellView { state, ..old(self)@.cells[i as int] }),
                ..old(self)@
            }),
    {
        let mut c = self.cells[i];
        c.set_state(state);
        self.cells.set(i, c);
        assert(self@.cells =~= old(self)@.cells.update(i as int, CellView { state, ..old(self)@.cells[i as int] }));
    }

    /// Advances the flag level of the hidden cell at `(x, y)`; no effect off
    /// the board, on an open cell, or once the round is over.
    pub fn toggle_flag(&mut self, x: u32, y: u32)
        requires
            old(self).wf(),
        ensures
            final(self).wf(),
            same_layout(old(self)@, final(self)@),
            final(self)@.spaces_left <= old(self)@.spaces_left,
            final(self)@ == old(self)@.after_toggle(x as int, y as int),
    {
        if !self.check_point(x, y) || self.state != GridState::Play {
            return;
        }
        let i = self.index_of(x, y);
        let c = self.cells[i];
        if let CellState::Hidden { flags } = c.state() {
            let ghost g0 = self@;
            let max = self.max_mines;
            proof {
                self.lemma_view_cell(i as int);
            }
            let next = CellState::Hidden { flags: (flags + 1) % (max + 1) };
            self.replace_state(i, next);
            let ghost nc = CellView { state: next, ..g0.cells[i as int] };
            proof {
                lemma_count_update(g0.cells, i as int, nc, has_mine());
                lemma_count_update(g0.cells, i as int, nc, is_hidden_safe());
                lemma_count_update(g0.cells, i as int, nc, is_flagged());
                lemma_count_bounded(self@.cells, is_flagged());
            }
            if flags == 0 && (flags + 1) % (max + 1) != 0 {
                self.mines_flagged = self.mines_flagged + 1;
            } else if flags != 0 && (flags + 1) % (max + 1) == 0 {
                self.mines_flagged = self.mines_flagged - 1;
            }
            proof {
                lemma_same_layout(g0, self@);
            }
            assert(self@ =~= g0.after_toggle(x as int, y as int));
            assert forall|j: int|
                #![trigger self@.cells[j]]
                0 <= j < self@.cells.len() ==> (self@.cells[j].state matches CellState::Hidden { flags }
                    ==> flags <= self@.max_flags) by {
                if j == i {
                    assert(((flags + 1) % (max + 1)) as int <= max as int);
                }
            }
        }
    }

    /// Opens the hidden cell at `(x, y)` alone, flagged or not; a mine loses the round.
    fn open_one(&mut self, x: u32, y: u32)
        requires
            old(self).wf(),
            old(self)@.in_bounds(x as int, y as int),
            old(self)@.state is Play,
            old(self)@.cell(x as int, y as int).state is Hidden,
        ensures
            final(self).wf(),
            same_layout(old(self)@, final(self)@),
            final(self)@.spaces_left <= old(self)@.spaces_left,
            final(self)@ == old(self)@.with_cells(
                old(self)@.cells.update(
                    old(self)@.index(x as int, y as int),
                    opened(old(self)@.cell(x as int, y as int)),
                ),
                if old(self)@.cell(x as int, y as int).mines != 0 {
                    GridState::Lose
                } else {
                    GridState::Play
                },
            ),
            old(self)@.cell(x as int, y as int).mines == 0 ==> final(self)@.spaces_left
                == old(self)@.spaces_left - 1,
    {
        let ghost g0 = self@;
        let i = self.index_of(x, y);
        let c = self.cells[i];
        proof {
            self.lemma_view_cell(i as int);
            let nc = opened(g0.cells[i as int]);
            lemma_count_update(g0.cells, i as int, nc, has_mine());
            lemma_count_update(g0.cells, i as int, nc, is_hidden_safe());
            lemma_count_update(g0.cells, i as int, nc, is_flagged());
        }
        self.replace_state(i, CellState::Revealed);
        if let CellState::Hidden { flags } = c.state() {
            if flags > 0 {
                self.mines_flagged = self.mines_flagged - 1;
            }
        }
        if c.mines() != 0 {
            self.state = GridState::Lose;
        } else {
            self.spaces_left = self.spaces_left - 1;
        }
        proof {
            lemma_same_layout(g0, self@);
        }
        assert(self@ =~= g0.with_cells(
            g0.cells.update(i as int, opened(g0.cells[i as int])),
            self.state,
        ));
    }

    /// Opens the safe hidden cell at `(x, y)` and every cell that it reaches,
    /// keeping a stack of open cells without mines around them whose
    /// neighbours are still to be visited.
    fn flood(&mut self, x: u32, y: u32)
        requires
            old(self).wf(),
            old(self)@.in_bounds(x as int, y as int),
            old(self)@.state is Play,
            old(self)@.cell(x as int, y as int).state is Hidden,
            old(self)@.cell(x as int, y as int).mines == 0,
        ensures
            final(self).wf(),
            same_layout(old(self)@, final(self)@),
            final(self)@.spaces_left <= old(self)@.spaces_left,
            final(self)@ == old(self)@.flood(x as int, y as int),
    {
        let ghost g0 = self@;
        let ghost start = (x as int, y as int);
        self.open_one(x, y);
        proof {
            lemma_reaches_start(g0, x as int, y as int);
            lemma_same_layout(g0, self@);
        }
        let mut work: Vec<(u32, u32)> = Vec::new();
        let i0 = self.index_of(x, y);
        if self.cells[i0].surrounding_mines() == 0 {
            work.push((x, y));
            assert(work@[0] == (start.0 as u32, start.1 as u32));
        }
        while work.len() > 0
            invariant
                self.wf(),
                g0.wf(),
                same_layout(g0, self@),
                self@.spaces_left <= g0.spaces_left,
                self@.state is Play,
                g0.in_bounds(x as int, y as int),
                start == (x as int, y as int),
                flood_changed(g0, self@, start),
                forall|px: int, py: int|
                    #![trigger self@.cell(px, py)]
                    g0.in_bounds(px, py) ==> self@.cell(px, py) == g0.cell(px, py) || (self@.cell(
                        px,
                        py,
                    ) == opened(g0.cell(px, py)) && g0.cell(px, py).state is Hidden && g0.reaches(
                        x as int,
                        y as int,
                        px,
                        py,
                    )),
                forall|j: int|
                    #![trigger work@[j]]
                    0 <= j < work.len() ==> {
                        &&& g0.in_bounds(work@[j].0 as int, work@[j].1 as int)
                        &&& flood_changed(g0, self@, (work@[j].0 as int, work@[j].1 as int))
                        &&& g0.cell(work@[j].0 as int, work@[j].1 as int).surrounding_mines == 0
                    },
                forall|p: (int, int)|
                    g0.in_bounds(p.0, p.1) && #[trigger] flood_changed(g0, self@, p)
                        && g0.cell(p.0, p.1).surrounding_mines == 0 ==> in_work(work@, p)
                        || flood_done(g0, self@, p),
            decreases self@.spaces_left + work.len(),
        {
            let ghost m0 = self@.spaces_left + work.len();
            let ghost work0 = work@;
            let (cx, cy) = work.pop().unwrap();
            let ghost c = (cx as int, cy as int);
            assert(work0[work0.len() - 1] == (cx, cy));
            assert(work@ =~= work0.drop_last());
            assert(g0.in_bounds(cx as int, cy as int));
            assert(g0.cell(cx as int, cy as int).surrounding_mines == 0);
            assert(self@.cell(cx as int, cy as int) == opened(g0.cell(cx as int, cy as int)));
            assert forall|p: (int, int)|
                g0.in_bounds(p.0, p.1) && #[trigger] flood_changed(g0, self@, p)
                    && g0.cell(p.0, p.1).surrounding_mines == 0 && p != c implies in_work(work@, p)
                || flood_done(g0, self@, p) by {
                if in_work(work0, p) {
                    let j = choose|j: int|
                        0 <= j < work0.len() && #[trigger] work0[j] == (p.0 as u32, p.1 as u32);
                    assert(g0.in_bounds(work0[j].0 as int, work0[j].1 as int));
                    if j == work0.len() - 1 {
                        assert(p == c);
                    } else {
                        assert(work@[j] == work0[j]);
                    }
                }
            }
            for k in 0..8usize
                invariant
                    self.wf(),
                    g0.wf(),
                    same_layout(g0, self@),
                    self@.spaces_left <= g0.spaces_left,
                    self@.state is Play,
                    g0.in_bounds(x as int, y as int),
                    start == (x as int, y as int),
                    g0.in_bounds(cx as int, cy as int),
                    c == (cx as int, cy as int),
                    g0.cell(cx as int, cy as int).surrounding_mines == 0,
                    self@.spaces_left + work.len() < m0,
                    flood_changed(g0, self@, start),
                    flood_changed(g0, self@, c),
                    g0.reaches(x as int, y as int, cx as int, cy as int),
                    forall|px: int, py: int|
                        #![trigger self@.cell(px, py)]
                        g0.in_bounds(px, py) ==> self@.cell(px, py) == g0.cell(px, py) || (
                        self@.cell(px, py) == opened(g0.cell(px, py)) && g0.cell(px, py).state is Hidden
                            && g0.reaches(x as int, y as int, px, py)),
                    forall|j: int|
                        #![trigger work@[j]]
                        0 <= j < work.len() ==> {
                            &&& g0.in_bounds(work@[j].0 as int, work@[j].1 as int)
                            &&& flood_changed(g0, self@, (work@[j].0 as int, work@[j].1 as int))
                            &&& g0.cell(work@[j].0 as int, work@[j].1 as int).surrounding_mines
                                == 0
                        },
                    forall|p: (int, int)|
                        g0.in_bounds(p.0, p.1) && #[trigger] flood_changed(g0, self@, p)
                            && g0.cell(p.0, p.1).surrounding_mines == 0 && p != c ==> in_work(
                            work@,
                            p,
                        ) || flood_done(g0, self@, p),
                    forall|q: (int, int)|
                        #[trigger] g0.spreads(c, q) && (exists|kk: int|
                            0 <= kk < k && q == (cx + offset(kk).0, cy + offset(kk).1))
                            ==> flood_changed(g0, self@, q),
            {
                let ghost g1 = self@;
                let ghost work1 = work@;
                if let Some((nx, ny)) = self.neighbor_at(cx, cy, k) {
                    let ghost n = (nx as int, ny as int);
                    let ni = self.index_of(nx, ny);
                    let nc = self.cells[ni];
                    if nc.state() == (CellState::Hidden { flags: 0 }) {
                        proof {
                            self.lemma_view_cell(ni as int);
                            assert(self@.cell(nx as int, ny as int) == g0.cell(nx as int, ny as int));
                            assert(0 <= g0.index(cx as int, cy as int) < g0.cells.len());
                            lemma_blank_neighbor_safe(g0, cx as int, cy as int, k as int);
                            assert(g0.spreads(c, n));
                            lemma_reaches_extend(g0, x as int, y as int, c, n);
                        }
                        self.open_one(nx, ny);
                        proof {
                            lemma_same_layout(g0, self@);
                            lemma_index_injective(g0, start, n);
                            lemma_index_injective(g0, c, n);
                            assert forall|px: int, py: int|
                                #![trigger self@.cell(px, py)]
                                g0.in_bounds(px, py) implies self@.cell(px, py) == g0.cell(px, py) || (
                                self@.cell(px, py) == opened(g0.cell(px, py)) && g0.cell(
                                    px,
                                    py,
                                ).state is Hidden && g0.reaches(x as int, y as int, px, py)) by {
                                assert(g1.cell(px, py) == g1.cell(px, py));
                                if (px, py) != n {
                                    assert(g0.index(px, py) != g0.index(nx as int, ny as int));
                                }
                            }
                        }
                        if nc.surrounding_mines() == 0 {
                            work.push((nx, ny));
                            proof {
                                assert(work@[work@.len() - 1] == (n.0 as u32, n.1 as u32));
                            }
                        }
                    }
                }
                proof {
                    assert forall|j: int|
                        #![trigger work@[j]]
                        0 <= j < work.len() implies {
                            &&& g0.in_bounds(work@[j].0 as int, work@[j].1 as int)
                            &&& flood_changed(g0, self@, (work@[j].0 as int, work@[j].1 as int))
                            &&& g0.cell(work@[j].0 as int, work@[j].1 as int).surrounding_mines
                                == 0
                        } by {
                        if j < work1.len() {
                            assert(work1[j] == work@[j]);
                            assert(g1.cell(work@[j].0 as int, work@[j].1 as int) == g1.cell(work@[j].0 as int, work@[j].1 as int));
                        }
                    }
                    assert forall|p: (int, int)|
                        g0.in_bounds(p.0, p.1) && #[trigger] flood_changed(g0, self@, p)
                            && g0.cell(p.0, p.1).surrounding_mines == 0 && p != c implies in_work(
                            work@,
                            p,
                        ) || flood_done(g0, self@, p) by {
                        assert(g1.cell(p.0, p.1) == g1.cell(p.0, p.1));
                        if flood_changed(g0, g1, p) {
                            if in_work(work1, p) {
                                let j = choose|j: int|
                                    0 <= j < work1.len() && #[trigger] work1[j] == (p.0 as u32, p.1 as u32);
                                assert(work@[j] == work1[j]);
                            } else {
                                assert forall|q: (int, int)| #[trigger] g0.spreads(p, q) implies flood_changed(g0, self@, q) by {
                                    assert(flood_changed(g0, g1, q));
                                    assert(g1.cell(q.0, q.1) == g1.cell(q.0, q.1));
                                }
                            }
                        } else {
                            assert(work@[work@.len() - 1] == (p.0 as u32, p.1 as u32));
                        }
                    }
                    assert forall|q: (int, int)|
                        #[trigger] g0.spreads(c, q) && (exists|kk: int|
                            0 <= kk < k + 1 && q == (cx + offset(kk).0, cy + offset(kk).1))
                            implies flood_changed(g0, self@, q) by {
                        assert(g1.cell(q.0, q.1) == g1.cell(q.0, q.1));
                        assert(self@.cell(q.0, q.1) == self@.cell(q.0, q.1));
                    }
                    assert(self@.cell(x as int, y as int) == self@.cell(x as int, y as int));
                    assert(self@.cell(cx as int, cy as int) == self@.cell(cx as int, cy as int));
                    assert(g1.cell(x as int, y as int) == g1.cell(x as int, y as int));
                    assert(g1.cell(cx as int, cy as int) == g1.cell(cx as int, cy as int));
                }
            }
            proof {
                assert forall|q: (int, int)| #[trigger] g0.spreads(c, q) implies flood_changed(g0, self@, q) by {
                    let kk = lemma_neighbor_offset(g0, cx as int, cy as int, q.0, q.1);
                }
            }
        }
        proof {
            assert forall|px: int, py: int| g0.reaches(x as int, y as int, px, py) implies flood_changed(g0, self@, (px, py)) by {
                let path = choose|path: Seq<(int, int)>|
                    #[trigger] g0.is_flood_path(path) && path[0] == start && path.last() == (px, py);
                lemma_path_opened(g0, self@, path, path.len() - 1);
            }
        }
        proof {
            let cells = g0.flood(x as int, y as int).cells;
            assert forall|i: int| 0 <= i < cells.len() implies self@.cells[i] == cells[i] by {
                let p = (g0.cells[i].x, g0.cells[i].y);
                assert(g0.in_bounds(p.0, p.1));
                assert(g0.index(p.0, p.1) == i);
                assert(self@.index(p.0, p.1) == i);
                assert(self@.cell(p.0, p.1) == self@.cells[i]);
                assert(g0.cell(p.0, p.1) == g0.cells[i]);
                if g0.reaches(x as int, y as int, p.0, p.1) {
                    assert(flood_changed(g0, self@, p));
                    assert(self@.cells[i] == opened(g0.cells[i]));
                } else {
                    assert(self@.cells[i] == g0.cells[i]);
                }
            }
            assert(self@.cells =~= cells);
        }
        let ghost before = self@;
        if self.spaces_left == 0 {
            self.state = GridState::Win;
        }
        proof {
            assert(self@.cells == before.cells);
            lemma_same_layout(g0, self@);
        }
        assert(self@ =~= g0.flood(x as int, y as int));
    }

    /// Opens the hidden cell at `(x, y)`, flagged or not.
    fn open_cell(&mut self, x: u32, y: u32)
        requires
            old(self).wf(),
            old(self)@.in_bounds(x as int, y as int),
            old(self)@.state is Play,
            old(self)@.cell(x as int, y as int).state is Hidden,
        ensures
            final(self).wf(),
            same_layout(old(self)@, final(self)@),
            final(self)@.spaces_left <= old(self)@.spaces_left,
            final(self)@ == old(self)@.open_cell(x as int, y as int),
    {
        let i = self.index_of(x, y);
        if self.cells[i].mines() != 0 {
            self.open_one(x, y);
        } else {
            self.flood(x, y);
        }
    }

    /// Sum of the flag levels of the hidden neighbours of `(x, y)`.
    fn count_surrounding_flags(&self, x: u32, y: u32) -> (r: u32)
        requires
            self.wf(),
        ensures
            r as int == self@.flags_around(x as int, y as int),
    {
        let mut total: u32 = 0;
        for k in 0..8usize
            invariant
                self.wf(),
                total as int == self@.flags_around_upto(x as int, y as int, k as int),
                total <= 255 * k,
        {
            if let Some((nx, ny)) = self.neighbor_at(x, y, k) {
                let i = self.index_of(nx, ny);
                if let CellState::Hidden { flags } = self.cells[i].state() {
                    total = total + flags as u32;
                }
            }
        }
        total
    }

    /// Opens, in scan order and while the round lasts, every hidden
    /// neighbour of `(x, y)`.
    fn chord(&mut self, x: u32, y: u32)
        requires
            old(self).wf(),
        ensures
            final(self).wf(),
            same_layout(old(self)@, final(self)@),
            final(self)@.spaces_left <= old(self)@.spaces_left,
            final(self)@ == old(self)@.chord_upto(x as int, y as int, 8),
    {
        let ghost g0 = self@;
        for k in 0..8usize
            invariant
                self.wf(),
                self@ == g0.chord_upto(x as int, y as int, k as int),
                same_layout(g0, self@),
                self@.spaces_left <= g0.spaces_left,
        {
            if self.state == GridState::Play {
                if let Some((nx, ny)) = self.neighbor_at(x, y, k) {
                    let i = self.index_of(nx, ny);
                    if let CellState::Hidden { .. } = self.cells[i].state() {
                        self.open_cell(nx, ny);
                    }
                }
            }
        }
    }

    /// Reveals `(x, y)`. A hidden unflagged cell opens: a mine loses the
    /// round, a safe cell opens every cell it reaches, and the round is won
    /// once no safe cell is hidden. A flagged cell is left alone. On an open
    /// cell with `k > 0` mines around it whose hidden neighbours carry
    /// exactly `k` flags, every hidden neighbour opens. Off the board, or
    /// once the round is over, nothing happens.
    pub fn reveal_cell(&mut self, x: u32, y: u32)
        requires
            old(self).wf(),
        ensures
            final(self).wf(),
            same_layout(old(self)@, final(self)@),
            final(self)@.spaces_left <= old(self)@.spaces_left,
            final(self)@ == old(self)@.after_reveal(x as int, y as int),
    {
        if !self.check_point(x, y) || self.state != GridState::Play {
            return;
        }
        let i = self.index_of(x, y);
        let c = self.cells[i];
        match c.state() {
            CellState::Hidden { flags } => {
                if flags == 0 {
                    self.open_cell(x, y);
                }
            },
            CellState::Revealed => {
                let k = c.surrounding_mines();
                if k == 0 {
                    return;
                }
                if self.count_surrounding_flags(x, y) != k as u32 {
                    return;
                }
                self.chord(x, y);
            },
        }
    }

    /// Number of mines among the neighbours of `(x, y)`.
    fn count_surrounding_mines(&self, x: u32, y: u32) -> (r: u8)
        requires
            self@.shape_wf(),
        ensures
            r as int == self@.mines_around(x as int, y as int),
    {
        let mut total: u8 = 0;
        for k in 0..8usize
            invariant
                self@.shape_wf(),
                total as int == self@.mines_around_upto(x as int, y as int, k as int),
                total <= k,
        {
            if let Some((nx, ny)) = self.neighbor_at(x, y, k) {
                let i = self.index_of(nx, ny);
                proof {
                    self.lemma_view_cell(i as int);
                }
                if self.cells[i].mines() != 0 {
                    total = total + 1;
                }
            }
        }
        total
    }

    /// The index of the `r`-th cell, in row-major order, that holds no mine.
    fn nth_free(&self, r: u32) -> (i: usize)
        requires
            (r as int) < free_count(self@.mine_layout()),
        ensures
            is_nth_free(self@.mine_layout(), r as int, i as int),
    {
        let ghost lay = self@.mine_layout();
        let mut i: usize = 0;
        let mut seen: u32 = 0;
        while i < self.cells.len()
            invariant
                lay == self@.mine_layout(),
                lay.len() == self.cells.len(),
                i <= self.cells.len(),
                seen as int == free_count(lay.take(i as int)),
                seen <= r,
                (r as int) < free_count(lay),
            decreases self.cells.len() - i,
        {
            proof {
                self.lemma_view_cell(i as int);
                lemma_free_count_take(lay, i as int);
            }
            if self.cells[i].mines() == 0 {
                if seen == r {
                    return i;
                }
                seen = seen + 1;
            }
            i = i + 1;
        }
        proof {
            lemma_free_count_full(lay);
        }
        0
    }

    /// A grid of `width` by `height` cells, all hidden and unflagged, with
    /// one mine per pick: the `j`-th pick puts its mine on the `picks[j]`-th
    /// cell, in row-major order, that holds no mine yet.
    pub fn from_picks(width: u32, height: u32, picks: &Vec<u32>) -> (r: MineGrid)
        requires
            width as int * height as int <= u32::MAX,
            valid_picks(width as int * height as int, picks@),
        ensures
            r.wf(),
            r@.width == width as int,
            r@.height == height as int,
            r@.mines == picks.len(),
            r@.state == GridState::Play,
            r@.max_flags == 1,
            r@.mine_layout() == picks_layout((width as int * height as int) as nat, picks@),
            forall|i: int|
                0 <= i < r@.cells.len() ==> #[trigger] r@.cells[i].state == (CellState::Hidden {
                    flags: 0,
                }),
    {
        let ghost w = width as int;
        let ghost h = height as int;
        let n: u32 = width * height;
        let mut cells: Vec<Cell> = Vec::new();
        assert(0 * w == 0);
        for j in 0..height
            invariant
                n as int == w * h,
                w == width as int,
                h == height as int,
                cells.len() == j * w,
                forall|k: int|
                    #![trigger cells@[k]]
                    0 <= k < cells.len() ==> {
                        &&& 0 <= cells@[k]@.x < w
                        &&& 0 <= cells@[k]@.y < h
                        &&& cells@[k]@.y * w + cells@[k]@.x == k
                        &&& cells@[k]@.mines == 0
                        &&& cells@[k]@.state == (CellState::Hidden { flags: 0 })
                        &&& cells@[k]@.surrounding_mines == 0
                    },
        {
            for i in 0..width
                invariant
                    n as int == w * h,
                    w == width as int,
                    h == height as int,
                    j < height,
                    cells.len() == j * w + i,
                    forall|k: int|
                        #![trigger cells@[k]]
                        0 <= k < cells.len() ==> {
                            &&& 0 <= cells@[k]@.x < w
                            &&& 0 <= cells@[k]@.y < h
                            &&& cells@[k]@.y * w + cells@[k]@.x == k
                            &&& cells@[k]@.mines == 0
                            &&& cells@[k]@.state == (CellState::Hidden { flags: 0 })
                            &&& cells@[k]@.surrounding_mines == 0
                        },
            {
                cells.push(Cell::new_hidden(i, j));
            }
            assert(j * w + w == (j + 1) * w) by (nonlinear_arith);
        }
        assert(h * w == w * h) by (nonlinear_arith);
        let mut grid = MineGrid {
            cells,
            width,
            height,
            mines: picks.len() as u32,
            max_mines: 1,
            mines_flagged: 0,
            spaces_left: n - picks.len() as u32,
            state: GridState::Play,
        };
        proof {
            let g = grid@;
            assert forall|i: int| 0 <= i < g.cells.len() implies {
                &&& g.in_bounds(#[trigger] g.cells[i].x, g.cells[i].y)
                &&& g.index(g.cells[i].x, g.cells[i].y) == i
                &&& (g.cells[i].mines == 0 || g.cells[i].mines == 1)
            } by {
                grid.lemma_view_cell(i);
            }
            assert forall|x: int, y: int| #![trigger g.index(x, y)] g.in_bounds(x, y) implies {
                &&& 0 <= g.index(x, y) < g.cells.len()
                &&& g.cell(x, y).x == x
                &&& g.cell(x, y).y == y
            } by {
                lemma_index_in_board(w, h, x, y);
                let i = g.index(x, y);
                grid.lemma_view_cell(i);
                lemma_index_unique(w, x, y, g.cells[i].x, g.cells[i].y);
            }
            assert(g.shape_wf());
            assert(g.mine_layout() =~= picks_layout(n as nat, picks@.take(0)));
            lemma_free_count_all_free(n as nat);
            assert forall|i: int| 0 <= i < g.cells.len() implies (#[trigger] g.cells[i]).mines == 0 && g.cells[i].state == (CellState::Hidden { flags: 0 }) by {
                grid.lemma_view_cell(i);
            }
            lemma_count_none(g.cells, has_mine());
            lemma_count_all(g.cells, is_hidden_safe());
            lemma_count_none(g.cells, is_flagged());
        }
        for m in 0..picks.len()
            invariant
                n as int == w * h,
                w == width as int,
                h == height as int,
                valid_picks(w * h, picks@),
                grid@.shape_wf(),
                grid@.width == w,
                grid@.height == h,
                grid@.max_flags == 1,
                grid@.mines == picks.len(),
                grid@.spaces_left == n - picks.len(),
                grid@.flags_placed == 0,
                grid@.state == GridState::Play,
                grid@.mine_layout() == picks_layout(n as nat, picks@.take(m as int)),
                free_count(grid@.mine_layout()) == n - m,
                mine_count(grid@.cells) == m,
                hidden_safe_count(grid@.cells) == n - m,
                flagged_count(grid@.cells) == 0,
                forall|i: int|
                    #![trigger grid@.cells[i]]
                    0 <= i < grid@.cells.len() ==> grid@.cells[i].state == (CellState::Hidden {
                        flags: 0,
                    }) && grid@.cells[i].surrounding_mines == 0,
        {
            let ghost g0 = grid@;
            let ghost lay = g0.mine_layout();
            let i = grid.nth_free(picks[m]);
            proof {
                grid.lemma_view_cell(i as int);
            }
            let mut c = grid.cells[i];
            c.set_mine();
            grid.cells.set(i, c);
            proof {
                let g = grid@;
                let nc = CellView { mines: 1, ..g0.cells[i as int] };
                assert(g.cells =~= g0.cells.update(i as int, nc));
                assert forall|k: int| 0 <= k < g.cells.len() implies {
                    &&& g.in_bounds(#[trigger] g.cells[k].x, g.cells[k].y)
                    &&& g.index(g.cells[k].x, g.cells[k].y) == k
                    &&& (g.cells[k].mines == 0 || g.cells[k].mines == 1)
                } by {
                    assert(g0.in_bounds(g0.cells[k].x, g0.cells[k].y));
                }
                assert forall|x: int, y: int| #![trigger g.index(x, y)] g.in_bounds(x, y) implies {
                    &&& 0 <= g.index(x, y) < g.cells.len()
                    &&& g.cell(x, y).x == x
                    &&& g.cell(x, y).y == y
                } by {
                    assert(0 <= g0.index(x, y) < g0.cells.len());
                }
                assert(g.mine_layout() =~= lay.update(i as int, true));
                lemma_free_count_update(lay, i as int);
                let chosen = choose|j: int| is_nth_free(lay, picks@[m as int] as int, j);
                lemma_nth_free_unique(lay, picks@[m as int] as int, i as int, chosen);
                assert(picks@.take(m as int + 1).drop_last() =~= picks@.take(m as int));
                assert(g.mine_layout() =~= place_pick(lay, picks@[m as int] as int));
                lemma_count_update(g0.cells, i as int, nc, has_mine());
                lemma_count_update(g0.cells, i as int, nc, is_hidden_safe());
                lemma_count_update(g0.cells, i as int, nc, is_flagged());
            }
        }
        let ghost gm = grid@;
        proof {
            assert(picks@.take(picks.len() as int) =~= picks@);
        }
        let len = grid.cells.len();
        for k in 0..len
            invariant
                len == grid.cells.len(),
                gm.shape_wf(),
                same_mines(gm, grid@),
                grid@.mines == gm.mines,
                grid@.spaces_left == gm.spaces_left,
                grid@.flags_placed == gm.flags_placed,
                grid@.state == gm.state,
                forall|i: int|
                    #![trigger grid@.cells[i]]
                    0 <= i < grid@.cells.len() ==> grid@.cells[i].state == gm.cells[i].state && (
                    i < k ==> grid@.cells[i].surrounding_mines == gm.mines_around(
                        gm.cells[i].x,
                        gm.cells[i].y,
                    )),
        {
            proof {
                lemma_same_shape(gm, grid@);
                grid.lemma_view_cell(k as int);
            }
            let c = grid.cells[k];
            let s = grid.count_surrounding_mines(c.x(), c.y());
            let ghost g0 = grid@;
            let mut c2 = c;
            c2.set_surrounding_mines(s);
            grid.cells.set(k, c2);
            proof {
                assert(grid@.cells =~= g0.cells.update(k as int, CellView { surrounding_mines: s as int, ..g0.cells[k as int] }));
            }
        }
        proof {
            let g = grid@;
            lemma_same_shape(gm, g);
            assert forall|x: int, y: int| #![trigger g.index(x, y)] g.in_bounds(x, y) implies g.cell(x, y).surrounding_mines == g.mines_around(x, y) by {
                assert(0 <= g.index(x, y) < g.cells.len());
                assert(0 <= gm.index(x, y) < gm.cells.len());
            }
            assert forall|i: int| #![trigger g.cells[i]] 0 <= i < g.cells.len() implies has_mine()(g.cells[i]) == has_mine()(gm.cells[i]) && is_hidden_safe()(g.cells[i]) == is_hidden_safe()(gm.cells[i]) && is_flagged()(g.cells[i]) == is_flagged()(gm.cells[i]) by {
            }
            lemma_count_same(gm.cells, g.cells, has_mine());
            lemma_count_same(gm.cells, g.cells, is_hidden_safe());
            lemma_count_same(gm.cells, g.cells, is_flagged());
            assert(g.mine_layout() =~= gm.mine_layout());
        }
        grid
    }

    /// A new round: `width` by `height` hidden cells with `mines` mines on
    /// distinct cells drawn uniformly at random.
    pub fn new(width: u32, height: u32, mines: u32) -> (r: MineGrid)
        requires
            width as int * height as int <= u32::MAX,
            mines as int <= width as int * height as int,
        ensures
            r.wf(),
            mine_count(r@.cells) == mines,
            forall|x: int, y: int|
                r@.in_bounds(x, y) ==> #[trigger] r@.cell(x, y).surrounding_mines == r@.mines_around(
                    x,
                    y,
                ),
            r@.width == width as int,
            r@.height == height as int,
            r@.mines == mines as int,
            r@.state == GridState::Play,
            r@.max_flags == 1,
            forall|i: int|
                0 <= i < r@.cells.len() ==> #[trigger] r@.cells[i].state == (CellState::Hidden {
                    flags: 0,
                }),
    {
        let n: u32 = width * height;
        let mut picks: Vec<u32> = Vec::new();
        for m in 0..mines
            invariant
                n as int == width as int * height as int,
                mines <= n,
                picks.len() == m,
                forall|j: int| 0 <= j < picks.len() ==> #[trigger] picks@[j] < n - j,
        {
            let p = random_below(n - m);
            picks.push(p);
        }
        Self::from_picks(width, height, &picks)
    }
}

} // verus!

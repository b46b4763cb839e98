use vstd::prelude::*;

use crate::cell::{CellState, GridState};
use crate::count::{has_mine, is_hidden_safe, lemma_count_none, lemma_count_zero};
use crate::model::{
    lemma_index_injective, lemma_reaches_extend, lemma_reaches_start, lemma_same_shape, offset,
    opened, GridView,
};

verus! {

/// On a board at least two cells wide and high, a corner cell has three
/// neighbours, a cell on an edge five, and any other cell eight.
pub proof fn lemma_neighbor_counts(g: GridView, x: int, y: int)
    requires
        g.width >= 2,
        g.height >= 2,
        g.in_bounds(x, y),
    ensures
        g.neighbors(x, y).len() == if (x == 0 || x == g.width - 1) && (y == 0 || y == g.height
            - 1) {
            3int
        } else if x == 0 || x == g.width - 1 || y == 0 || y == g.height - 1 {
            5int
        } else {
            8int
        },
{
    reveal_with_fuel(GridView::neighbors_upto, 9);
}

/// With one flag level, toggling an unflagged hidden cell flags it, and
/// toggling it again gives back the grid as it was.
pub proof fn lemma_flag_cycle(g: GridView, x: int, y: int)
    requires
        g.wf(),
        g.max_flags == 1,
        g.state is Play,
        g.in_bounds(x, y),
        g.cell(x, y).state == (CellState::Hidden { flags: 0 }),
    ensures
        g.after_toggle(x, y).cell(x, y).state == (CellState::Hidden { flags: 1 }),
        g.after_toggle(x, y).after_toggle(x, y) == g,
{
    let i = g.index(x, y);
    assert(0 <= i < g.cells.len());
    let g1 = g.after_toggle(x, y);
    let g2 = g1.after_toggle(x, y);
    assert(g1.cells[i].state == (CellState::Hidden { flags: 1 }));
    assert(g1.index(x, y) == i);
    assert(g1.state is Play);
    assert(((1int + 1) % (1int + 1)) as u8 == 0u8);
    assert(g2.cells[i] == g.cells[i]);
    assert(g2.cells =~= g.cells);
}

/// Off the board, reveal and flag toggle change nothing.
pub proof fn lemma_out_of_bounds(g: GridView, x: int, y: int)
    requires
        !g.in_bounds(x, y),
    ensures
        g.after_reveal(x, y) == g,
        g.after_toggle(x, y) == g,
{
}

/// Once a round is won or lost, reveal and flag toggle change nothing.
pub proof fn lemma_terminal_is_final(g: GridView, x: int, y: int)
    requires
        !(g.state is Play),
    ensures
        g.after_reveal(x, y) == g,
        g.after_toggle(x, y) == g,
{
}

/// Revealing an unflagged hidden mine loses the round: that cell opens and
/// every other cell stays as it was.
pub proof fn lemma_reveal_mine_loses(g: GridView, x: int, y: int)
    requires
        g.wf(),
        g.state is Play,
        g.in_bounds(x, y),
        g.cell(x, y).state == (CellState::Hidden { flags: 0 }),
        g.cell(x, y).mines != 0,
    ensures
        g.after_reveal(x, y).state == GridState::Lose,
        g.after_reveal(x, y).cell(x, y) == opened(g.cell(x, y)),
        forall|px: int, py: int|
            g.in_bounds(px, py) && (px != x || py != y) ==> #[trigger] g.after_reveal(x, y).cell(
                px,
                py,
            ) == g.cell(px, py),
{
    assert forall|px: int, py: int| g.in_bounds(px, py) && (px != x || py != y) implies #[trigger] g.after_reveal(
        x,
        y,
    ).cell(px, py) == g.cell(px, py) by {
        lemma_index_injective(g, (x, y), (px, py));
        assert(0 <= g.index(px, py) < g.cells.len());
    }
    assert(0 <= g.index(x, y) < g.cells.len());
}

/// Revealing an open cell with no mine around it changes nothing.
pub proof fn lemma_reveal_open_blank_noop(g: GridView, x: int, y: int)
    requires
        g.in_bounds(x, y),
        g.cell(x, y).state is Revealed,
        g.cell(x, y).surrounding_mines == 0,
    ensures
        g.after_reveal(x, y) == g,
{
}

/// Revealing a cell with no mine around it a second time changes nothing
/// more than the first time did.
pub proof fn lemma_reveal_blank_twice(g: GridView, x: int, y: int)
    requires
        g.wf(),
        g.in_bounds(x, y),
        g.cell(x, y).surrounding_mines == 0,
    ensures
        g.after_reveal(x, y).after_reveal(x, y) == g.after_reveal(x, y),
{
    let i = g.index(x, y);
    assert(0 <= i < g.cells.len());
    if g.state is Play && g.cell(x, y).state == (CellState::Hidden { flags: 0 }) && g.cell(
        x,
        y,
    ).mines == 0 {
        lemma_reaches_start(g, x, y);
        let g1 = g.after_reveal(x, y);
        assert(g1.cells[i] == opened(g.cells[i]));
    }
}

/// A chord on an open cell with `k > 0` mines around it does nothing unless
/// the flags on its hidden neighbours add up to exactly `k`.
pub proof fn lemma_chord_needs_exact_flags(g: GridView, x: int, y: int)
    requires
        g.in_bounds(x, y),
        g.cell(x, y).state is Revealed,
        g.cell(x, y).surrounding_mines > 0,
        g.flags_around(x, y) != g.cell(x, y).surrounding_mines,
    ensures
        g.after_reveal(x, y) == g,
{
}

/// On a board where every cell is hidden, unflagged and without a mine
/// around it, opening spreads from any cell to any other.
proof fn lemma_reaches_everywhere(g: GridView, sx: int, sy: int, px: int, py: int, d: int)
    requires
        g.in_bounds(sx, sy),
        g.in_bounds(px, py),
        forall|qx: int, qy: int|
            #![trigger g.cell(qx, qy)]
            g.in_bounds(qx, qy) ==> g.cell(qx, qy).surrounding_mines == 0 && g.cell(qx, qy).state
                == (CellState::Hidden { flags: 0 }),
        d == if px - sx >= 0 {
            px - sx
        } else {
            sx - px
        } + if py - sy >= 0 {
            py - sy
        } else {
            sy - py
        },
    ensures
        g.reaches(sx, sy, px, py),
    decreases d,
{
    if d == 0 {
        lemma_reaches_start(g, sx, sy);
    } else {
        let qx = if px > sx {
            px - 1
        } else if px < sx {
            px + 1
        } else {
            px
        };
        let qy = if qx == px {
            if py > sy {
                py - 1
            } else {
                py + 1
            }
        } else {
            py
        };
        lemma_reaches_everywhere(g, sx, sy, qx, qy, d - 1);
        assert(g.cell(qx, qy).surrounding_mines == 0);
        assert(g.cell(px, py).state == (CellState::Hidden { flags: 0 }));
        assert(g.spreads((qx, qy), (px, py)));
        lemma_reaches_extend(g, sx, sy, (qx, qy), (px, py));
    }
}

/// On a grid without mines whose cells are all hidden and unflagged,
/// revealing any cell opens every cell and wins the round.
pub proof fn lemma_reveal_clears_mine_free(g: GridView, x: int, y: int)
    requires
        g.wf(),
        g.mines == 0,
        g.state is Play,
        g.in_bounds(x, y),
        forall|i: int|
            0 <= i < g.cells.len() ==> #[trigger] g.cells[i].state == (CellState::Hidden {
                flags: 0,
            }),
    ensures
        forall|i: int|
            0 <= i < g.cells.len() ==> #[trigger] g.after_reveal(x, y).cells[i].state
                == CellState::Revealed,
        g.after_reveal(x, y).state == GridState::Win,
{
    assert forall|i: int| 0 <= i < g.cells.len() implies #[trigger] g.cells[i].mines == 0 by {
        lemma_count_zero(g.cells, has_mine(), i);
    }
    assert forall|qx: int, qy: int| #![trigger g.cell(qx, qy)] g.in_bounds(qx, qy) implies g.cell(
        qx,
        qy,
    ).surrounding_mines == 0 && g.cell(qx, qy).state == (CellState::Hidden { flags: 0 }) by {
        assert(0 <= g.index(qx, qy) < g.cells.len());
        reveal_with_fuel(GridView::mines_around_upto, 9);
        assert(g.mines_around(qx, qy) == 0);
    }
    assert(0 <= g.index(x, y) < g.cells.len());
    let g1 = g.after_reveal(x, y);
    assert(g1 == g.flood(x, y));
    assert forall|i: int| 0 <= i < g.cells.len() implies #[trigger] g1.cells[i].state
        == CellState::Revealed by {
        let c = g.cells[i];
        assert(g.in_bounds(c.x, c.y));
        lemma_reaches_everywhere(
            g,
            x,
            y,
            c.x,
            c.y,
            (if c.x - x >= 0 {
                c.x - x
            } else {
                x - c.x
            }) + (if c.y - y >= 0 {
                c.y - y
            } else {
                y - c.y
            }),
        );
    }
    lemma_count_none(g1.cells, is_hidden_safe());
}

/// Opening a hidden cell opens it.
proof fn lemma_open_cell_opens(g: GridView, a: int, b: int, i: int)
    requires
        g.shape_wf(),
        g.in_bounds(a, b),
        0 <= i < g.cells.len(),
    ensures
        g.open_cell(a, b).cells.len() == g.cells.len(),
        g.open_cell(a, b).width == g.width,
        g.open_cell(a, b).height == g.height,
        g.open_cell(a, b).cells[g.index(a, b)].state is Revealed,
{
    assert(0 <= g.index(a, b) < g.cells.len());
    if g.cell(a, b).mines == 0 {
        lemma_reaches_start(g, a, b);
    }
}

/// Opening a cell never closes an open one.
proof fn lemma_open_cell_keeps_open(g: GridView, a: int, b: int, i: int)
    requires
        g.shape_wf(),
        g.in_bounds(a, b),
        0 <= i < g.cells.len(),
    ensures
        g.open_cell(a, b).shape_wf(),
        g.open_cell(a, b).cells.len() == g.cells.len(),
        g.open_cell(a, b).width == g.width,
        g.open_cell(a, b).height == g.height,
        g.cells[i].state is Revealed ==> g.open_cell(a, b).cells[i].state is Revealed,
{
    assert(0 <= g.index(a, b) < g.cells.len());
    lemma_same_shape(g, g.open_cell(a, b));
}

/// A chord step never closes an open cell.
proof fn lemma_chord_step_keeps_open(h: GridView, x: int, y: int, k: int, i: int)
    requires
        h.shape_wf(),
        0 <= i < h.cells.len(),
        h.cells[i].state is Revealed,
    ensures
        h.chord_step(x, y, k).shape_wf(),
        h.chord_step(x, y, k).cells.len() == h.cells.len(),
        h.chord_step(x, y, k).width == h.width,
        h.chord_step(x, y, k).height == h.height,
        h.chord_step(x, y, k).cells[i].state is Revealed,
{
    let (nx, ny) = (x + offset(k).0, y + offset(k).1);
    if h.state is Play && h.in_bounds(nx, ny) && h.cell(nx, ny).state is Hidden {
        lemma_open_cell_keeps_open(h, nx, ny, i);
    }
}

/// When a chord's flags match, the first hidden neighbour in scan order is
/// open afterwards.
pub proof fn lemma_chord_opens_first_hidden(g: GridView, x: int, y: int, k0: int)
    requires
        g.wf(),
        g.state is Play,
        g.in_bounds(x, y),
        g.cell(x, y).state is Revealed,
        g.cell(x, y).surrounding_mines > 0,
        g.flags_around(x, y) == g.cell(x, y).surrounding_mines,
        0 <= k0 < 8,
        g.in_bounds(x + offset(k0).0, y + offset(k0).1),
        g.cell(x + offset(k0).0, y + offset(k0).1).state is Hidden,
        forall|k: int|
            0 <= k < k0 ==> !(g.in_bounds(x + offset(k).0, y + offset(k).1) && g.cell(
                x + offset(k).0,
                y + offset(k).1,
            ).state is Hidden),
    ensures
        g.after_reveal(x, y).cell(x + offset(k0).0, y + offset(k0).1).state is Revealed,
{
    let (nx, ny) = (x + offset(k0).0, y + offset(k0).1);
    let i = g.index(nx, ny);
    assert(0 <= i < g.cells.len());
    lemma_chord_prefix_unchanged(g, x, y, k0, k0);
    lemma_open_cell_opens(g, nx, ny, i);
    lemma_open_cell_keeps_open(g, nx, ny, i);
    lemma_chord_rest_keeps_open(g, x, y, k0 + 1, 8, i);
}

proof fn lemma_chord_prefix_unchanged(g: GridView, x: int, y: int, k0: int, j: int)
    requires
        0 <= j <= k0,
        forall|k: int|
            0 <= k < k0 ==> !(g.in_bounds(x + offset(k).0, y + offset(k).1) && g.cell(
                x + offset(k).0,
                y + offset(k).1,
            ).state is Hidden),
    ensures
        g.chord_upto(x, y, j) == g,
    decreases j,
{
    if j > 0 {
        lemma_chord_prefix_unchanged(g, x, y, k0, j - 1);
    }
}

proof fn lemma_chord_rest_keeps_open(g: GridView, x: int, y: int, from: int, j: int, i: int)
    requires
        g.chord_upto(x, y, from).shape_wf(),
        1 <= from <= j,
        0 <= i < g.cells.len(),
        g.chord_upto(x, y, from).cells.len() == g.cells.len(),
        g.chord_upto(x, y, from).width == g.width,
        g.chord_upto(x, y, from).height == g.height,
        g.chord_upto(x, y, from).cells[i].state is Revealed,
    ensures
        g.chord_upto(x, y, j).shape_wf(),
        g.chord_upto(x, y, j).cells.len() == g.cells.len(),
        g.chord_upto(x, y, j).width == g.width,
        g.chord_upto(x, y, j).height == g.height,
        g.chord_upto(x, y, j).cells[i].state is Revealed,
    decreases j,
{
    if j > from {
        lemma_chord_rest_keeps_open(g, x, y, from, j - 1, i);
        let h = g.chord_upto(x, y, j - 1);
        lemma_chord_step_keeps_open(h, x, y, j - 1, i);
    }
}

} // verus!

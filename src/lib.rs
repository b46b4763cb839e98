//! Rule engine of a grid-based mine-detection puzzle: mine placement,
//! neighbour counts, flagging, flood-fill reveal and win/lose detection.
//!
//! [`MineGrid`] is the executable board. Its contracts speak of its view,
//! a [`GridView`], whose spec functions ([`GridView::after_reveal`],
//! [`GridView::after_toggle`], [`GridView::flood`], ...) state what each
//! operation does. The `lemma_*` proof functions state the general rules of
//! the game over that view.

mod cell;
mod count;
mod grid;
mod laws;
mod model;
mod placement;

pub use cell::{Cell, CellState, CellView, GridState};
pub use count::{count_cells, flagged_count, hidden_safe_count, mine_count};
pub use grid::MineGrid;
pub use laws::{
    lemma_chord_needs_exact_flags, lemma_chord_opens_first_hidden, lemma_flag_cycle,
    lemma_neighbor_counts, lemma_out_of_bounds, lemma_reveal_blank_twice,
    lemma_reveal_clears_mine_free, lemma_reveal_mine_loses, lemma_reveal_open_blank_noop,
    lemma_terminal_is_final,
};
pub use model::{offset, opened, GridView};
pub use placement::{free_count, is_nth_free, picks_layout, place_pick, valid_picks};

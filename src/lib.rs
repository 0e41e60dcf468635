//! A Minesweeper game-state engine: mine layout, revealed and flagged
//! cells, adjacency counts and the win condition.

mod grid;

pub use grid::{
    board_cells, cells_in_bounds, in_bounds, lemma_all_safe_revealed_wins, lemma_exact_flags_win,
    lemma_far_off_board_no_adjacent, lemma_flag_twice, lemma_hidden_safe_cell_not_won,
    lemma_reveal_twice, toggled, CellState, Difficulty, Grid, GridView,
};

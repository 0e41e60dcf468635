use minesweeper::{CellState, Difficulty, Grid};

fn board(height: i32, width: i32, mines: &[(i32, i32)]) -> Grid {
    Grid::from_mines(height, width, mines.to_vec()).expect("valid layout")
}

fn count_cells(g: &mut Grid, want: fn(CellState) -> bool) -> usize {
    let (h, w) = (g.get_height(), g.get_width());
    let mut n = 0;
    for x in 1..=w {
        for y in 1..=h {
            if want(g.cell_state(x, y)) {
                n += 1;
            }
        }
    }
    n
}

fn is_mine(s: CellState) -> bool {
    s == CellState::Mine
}

fn is_revealed(s: CellState) -> bool {
    matches!(s, CellState::Revealed(_))
}

fn check_new(height: i32, width: i32, d: Difficulty, expected: i32) {
    let mut g = Grid::new(height, width, d);
    assert_eq!(g.get_height(), height);
    assert_eq!(g.get_width(), width);
    assert_eq!(g.get_mines(), expected);
    assert_eq!(g.get_flags(), 0);
    assert_eq!(count_cells(&mut g, is_mine), expected as usize);
    assert_eq!(count_cells(&mut g, is_revealed), 0);
    assert!(!g.check_win());
}

#[test]
fn new_easy_places_ten_mines() {
    check_new(10, 30, Difficulty::Easy, 10);
}

#[test]
fn new_medium_places_thirty_five_mines() {
    check_new(20, 60, Difficulty::Medium, 35);
}

#[test]
fn new_hard_places_one_hundred_ten_mines() {
    check_new(30, 90, Difficulty::Hard, 110);
}

#[test]
fn new_on_nearly_full_board_leaves_one_free_cell() {
    for _ in 0..50 {
        check_new(1, 11, Difficulty::Easy, 10);
    }
}

#[test]
fn reveal_all_safe_cells_wins_without_flags() {
    let mut g = board(3, 3, &[(2, 2)]);
    for x in 1..=3 {
        for y in 1..=3 {
            if (x, y) != (2, 2) {
                assert!(!g.check_win());
                assert!(g.add_to_seen(x, y));
            }
        }
    }
    assert_eq!(g.get_flags(), 0);
    assert!(g.check_win());
}

#[test]
fn flagging_only_the_mine_wins() {
    let mut g = board(3, 3, &[(2, 2)]);
    g.flag(2, 2);
    assert_eq!(g.get_flags(), 1);
    assert!(g.check_win());
}

#[test]
fn reveal_mine_on_first_move() {
    let mut g = board(3, 3, &[(2, 2)]);
    assert!(!g.add_to_seen(2, 2));
    assert_eq!(count_cells(&mut g, is_revealed), 0);
    assert!(!g.check_win());
}

#[test]
fn reveal_is_idempotent() {
    let mut g = board(3, 3, &[(2, 2)]);
    assert!(g.add_to_seen(1, 1));
    assert!(g.add_to_seen(1, 1));
    assert_eq!(count_cells(&mut g, is_revealed), 1);
    assert_eq!(g.cell_state(1, 1), CellState::Revealed(1));
}

#[test]
fn flag_twice_restores() {
    let mut g = board(3, 3, &[(2, 2)]);
    g.flag(1, 3);
    assert_eq!(g.get_flags(), 1);
    assert_eq!(g.cell_state(1, 3), CellState::Flagged);
    g.flag(1, 3);
    assert_eq!(g.get_flags(), 0);
    assert_eq!(g.cell_state(1, 3), CellState::Hidden);
}

#[test]
fn wrong_flags_do_not_win() {
    let mut g = board(3, 3, &[(2, 2)]);
    g.flag(1, 1);
    assert!(!g.check_win());
    g.flag(2, 2);
    assert_eq!(g.get_flags(), 2);
    assert!(!g.check_win());
    g.flag(1, 1);
    assert!(g.check_win());
}

#[test]
fn flagged_revealed_cell_still_counts_as_revealed() {
    let mut g = board(2, 2, &[(1, 1)]);
    g.flag(2, 2);
    assert!(g.add_to_seen(2, 2));
    assert!(g.add_to_seen(1, 2));
    assert!(!g.check_win());
    assert!(g.add_to_seen(2, 1));
    assert!(g.check_win());
}

#[test]
fn adjacent_counts_around_single_mine() {
    let mut g = board(3, 3, &[(2, 2)]);
    for x in 1..=3 {
        for y in 1..=3 {
            let expected = if (x, y) == (2, 2) { 0 } else { 1 };
            assert_eq!(g.get_surr_mines(x, y), expected);
        }
    }
    assert_eq!(g.get_surr_mines(4, 4), 0);
    assert_eq!(g.get_surr_mines(0, 0), 0);
    assert_eq!(g.get_surr_mines(10, 10), 0);
    assert_eq!(g.get_surr_mines(i32::MIN, i32::MAX), 0);
    assert_eq!(g.get_surr_mines(i32::MAX, i32::MIN), 0);
}

#[test]
fn adjacent_count_reaches_eight() {
    let ring = [(1, 1), (2, 1), (3, 1), (1, 2), (3, 2), (1, 3), (2, 3), (3, 3)];
    let mut g = board(4, 4, &ring);
    assert_eq!(g.get_surr_mines(2, 2), 8);
    assert_eq!(g.get_surr_mines(4, 4), 1);
    assert_eq!(g.get_surr_mines(4, 2), 3);
    assert_eq!(g.get_surr_mines(2, 4), 3);
    assert!(g.add_to_seen(2, 2));
    assert_eq!(g.cell_state(2, 2), CellState::Revealed(8));
}

#[test]
fn cell_state_order() {
    let mut g = board(2, 3, &[(3, 2)]);
    assert_eq!(g.cell_state(3, 2), CellState::Mine);
    assert_eq!(g.cell_state(1, 1), CellState::Hidden);
    assert!(g.add_to_seen(1, 1));
    assert_eq!(g.cell_state(1, 1), CellState::Revealed(0));
    g.flag(3, 2);
    assert_eq!(g.cell_state(3, 2), CellState::Flagged);
    g.flag(1, 1);
    assert_eq!(g.cell_state(1, 1), CellState::Flagged);
}

#[test]
fn from_mines_rejects_bad_layouts() {
    assert!(Grid::from_mines(0, 3, vec![(1, 1)]).is_none());
    assert!(Grid::from_mines(3, -1, vec![(1, 1)]).is_none());
    assert!(Grid::from_mines(3, 3, vec![]).is_none());
    assert!(Grid::from_mines(3, 3, vec![(1, 1), (1, 1)]).is_none());
    assert!(Grid::from_mines(3, 3, vec![(0, 1)]).is_none());
    assert!(Grid::from_mines(3, 3, vec![(4, 1)]).is_none());
    assert!(Grid::from_mines(3, 3, vec![(1, 4)]).is_none());
    assert!(Grid::from_mines(65536, 65536, vec![(1, 1)]).is_none());
    assert!(Grid::from_mines(1, 2, vec![(1, 1), (2, 1)]).is_none());
    assert!(Grid::from_mines(1, 2, vec![(2, 1)]).is_some());
}

#[test]
fn from_mines_keeps_layout() {
    let mut g = board(2, 5, &[(5, 2), (1, 1), (3, 1)]);
    assert_eq!(g.get_height(), 2);
    assert_eq!(g.get_width(), 5);
    assert_eq!(g.get_mines(), 3);
    assert_eq!(count_cells(&mut g, is_mine), 3);
    assert_eq!(g.cell_state(5, 2), CellState::Mine);
    assert_eq!(g.cell_state(3, 1), CellState::Mine);
}

use minegrid::{CellState, GridState, MineGrid};

fn states(grid: &MineGrid) -> Vec<CellState> {
    let mut out = Vec::new();
    for j in 0..grid.height() {
        for i in 0..grid.width() {
            out.push(grid.get_cell(i, j).unwrap().state());
        }
    }
    out
}

fn brute_force_mines_around(grid: &MineGrid, x: u32, y: u32) -> u8 {
    let mut n = 0;
    for dy in -1i64..=1 {
        for dx in -1i64..=1 {
            if dx == 0 && dy == 0 {
                continue;
            }
            let (nx, ny) = (x as i64 + dx, y as i64 + dy);
            if nx < 0 || ny < 0 || nx >= grid.width() as i64 || ny >= grid.height() as i64 {
                continue;
            }
            n += grid.get_cell(nx as u32, ny as u32).unwrap().mines();
        }
    }
    n
}

#[test]
fn new_grid_caches_true_neighbour_counts() {
    for &(w, h, m) in &[(10u32, 10u32, 10u32), (7, 3, 20), (1, 1, 0), (1, 1, 1), (5, 1, 2)] {
        let grid = MineGrid::new(w, h, m);
        let mut total = 0u32;
        for j in 0..h {
            for i in 0..w {
                let c = grid.get_cell(i, j).unwrap();
                assert!(c.mines() <= 1);
                assert_eq!(CellState::Hidden { flags: 0 }, c.state());
                assert_eq!(brute_force_mines_around(&grid, i, j), c.surrounding_mines());
                total += c.mines() as u32;
            }
        }
        assert_eq!(m, total);
        assert_eq!(m, grid.mines_left());
        assert_eq!(GridState::Play, grid.state());
    }
}

#[test]
fn empty_board_has_no_cells() {
    let grid = MineGrid::new(0, 0, 0);
    assert!(grid.get_cell(0, 0).is_none());
    assert!(grid.get_neighbors(0, 0).is_empty());
    assert_eq!(GridState::Play, grid.state());
}

#[test]
fn picks_place_mines_on_free_cells_in_order() {
    // 3 by 3: the first pick takes cell 0, the second the first free cell after it.
    let grid = MineGrid::from_picks(3, 3, &vec![0, 0]);
    assert_eq!(1, grid.get_cell(0, 0).unwrap().mines());
    assert_eq!(1, grid.get_cell(1, 0).unwrap().mines());
    assert_eq!(0, grid.get_cell(2, 0).unwrap().mines());
    assert_eq!(2, grid.mines());
    assert_eq!(2, grid.get_cell(0, 1).unwrap().surrounding_mines());
    assert_eq!(2, grid.get_cell(1, 1).unwrap().surrounding_mines());
    assert_eq!(1, grid.get_cell(2, 1).unwrap().surrounding_mines());
    assert_eq!(0, grid.get_cell(2, 2).unwrap().surrounding_mines());
    assert_eq!(1, grid.get_cell(0, 0).unwrap().surrounding_mines());

    // The last cell, then the first free one.
    let grid = MineGrid::from_picks(3, 3, &vec![8, 0]);
    assert_eq!(1, grid.get_cell(2, 2).unwrap().mines());
    assert_eq!(1, grid.get_cell(0, 0).unwrap().mines());
    assert_eq!(2, grid.get_cell(1, 1).unwrap().surrounding_mines());

    // Later picks skip the cells already taken.
    let grid = MineGrid::from_picks(2, 2, &vec![1, 1, 1]);
    assert_eq!(0, grid.get_cell(0, 0).unwrap().mines());
    assert_eq!(1, grid.get_cell(1, 0).unwrap().mines());
    assert_eq!(1, grid.get_cell(0, 1).unwrap().mines());
    assert_eq!(1, grid.get_cell(1, 1).unwrap().mines());
    assert_eq!(3, grid.get_cell(0, 0).unwrap().surrounding_mines());
}

#[test]
fn neighbour_counts_by_position() {
    let grid = MineGrid::new(4, 3, 0);
    assert_eq!(3, grid.get_neighbors(0, 0).len());
    assert_eq!(3, grid.get_neighbors(3, 0).len());
    assert_eq!(3, grid.get_neighbors(0, 2).len());
    assert_eq!(3, grid.get_neighbors(3, 2).len());
    assert_eq!(5, grid.get_neighbors(2, 0).len());
    assert_eq!(5, grid.get_neighbors(0, 1).len());
    assert_eq!(5, grid.get_neighbors(3, 1).len());
    assert_eq!(5, grid.get_neighbors(1, 2).len());
    assert_eq!(8, grid.get_neighbors(1, 1).len());
    assert_eq!(8, grid.get_neighbors(2, 1).len());
    // Off the board there are no neighbours, even next to the board.
    assert!(grid.get_neighbors(4, 0).is_empty());
    assert!(grid.get_neighbors(0, 3).is_empty());
    assert!(grid.get_neighbors(4, 3).is_empty());
    assert!(grid.get_neighbors(u32::MAX, 1).is_empty());
    // A single row.
    let row = MineGrid::new(3, 1, 0);
    assert_eq!(1, row.get_neighbors(0, 0).len());
    assert_eq!(2, row.get_neighbors(1, 0).len());
}

#[test]
fn neighbours_come_in_scan_order() {
    let grid = MineGrid::from_picks(3, 3, &vec![2]);
    // Around the centre, the third neighbour in scan order is the top right corner.
    let around = grid.get_neighbors(1, 1);
    let mines: Vec<u8> = around.iter().map(|c| c.mines()).collect();
    assert_eq!(vec![0, 0, 1, 0, 0, 0, 0, 0], mines);
    // On the left edge, five neighbours lie on the board.
    let edge = grid.get_neighbors(0, 1);
    assert_eq!(5, edge.len());
}

#[test]
fn flag_cycles_and_counts() {
    let mut grid = MineGrid::from_picks(3, 1, &vec![2]);
    assert_eq!(1, grid.mines_left());
    grid.toggle_flag(0, 0);
    assert_eq!(CellState::Hidden { flags: 1 }, grid.get_cell(0, 0).unwrap().state());
    assert_eq!(0, grid.mines_left());
    grid.toggle_flag(1, 0);
    // More flags than mines: nothing is left to find.
    assert_eq!(0, grid.mines_left());
    grid.toggle_flag(0, 0);
    grid.toggle_flag(1, 0);
    assert_eq!(CellState::Hidden { flags: 0 }, grid.get_cell(0, 0).unwrap().state());
    assert_eq!(1, grid.mines_left());
}

#[test]
fn flagged_cell_is_protected_and_open_cell_takes_no_flag() {
    let mut grid = MineGrid::from_picks(3, 1, &vec![2]);
    grid.toggle_flag(0, 0);
    let before = states(&grid);
    grid.reveal_cell(0, 0);
    assert_eq!(before, states(&grid));
    assert_eq!(GridState::Play, grid.state());

    grid.reveal_cell(1, 0);
    assert_eq!(CellState::Revealed, grid.get_cell(1, 0).unwrap().state());
    grid.toggle_flag(1, 0);
    assert_eq!(CellState::Revealed, grid.get_cell(1, 0).unwrap().state());
}

#[test]
fn mine_free_board_clears_from_any_cell() {
    let mut grid = MineGrid::new(10, 10, 0);
    grid.reveal_cell(7, 3);
    assert!(states(&grid).iter().all(|s| *s == CellState::Revealed));
    assert_eq!(GridState::Win, grid.state());
}

#[test]
fn flood_stops_at_numbers_and_flags() {
    // 5 by 1: a mine at x = 4; x = 3 shows 1.
    let mut grid = MineGrid::from_picks(5, 1, &vec![4]);
    grid.toggle_flag(1, 0);
    grid.reveal_cell(3, 0);
    // A numbered cell opens alone.
    assert_eq!(CellState::Revealed, grid.get_cell(3, 0).unwrap().state());
    assert_eq!(CellState::Hidden { flags: 0 }, grid.get_cell(2, 0).unwrap().state());
    grid.reveal_cell(2, 0);
    // The flood from x = 2 stops at the flag on x = 1.
    assert_eq!(CellState::Revealed, grid.get_cell(2, 0).unwrap().state());
    assert_eq!(CellState::Hidden { flags: 1 }, grid.get_cell(1, 0).unwrap().state());
    assert_eq!(CellState::Hidden { flags: 0 }, grid.get_cell(0, 0).unwrap().state());
    assert_eq!(CellState::Hidden { flags: 0 }, grid.get_cell(4, 0).unwrap().state());
    assert_eq!(GridState::Play, grid.state());
}

#[test]
fn revealing_a_mine_loses_and_opens_only_it() {
    let mut grid = MineGrid::from_picks(3, 3, &vec![4]);
    grid.reveal_cell(1, 1);
    assert_eq!(GridState::Lose, grid.state());
    let s = states(&grid);
    for (i, st) in s.iter().enumerate() {
        if i == 4 {
            assert_eq!(CellState::Revealed, *st);
        } else {
            assert_eq!(CellState::Hidden { flags: 0 }, *st);
        }
    }
    // The round is over: nothing changes any more.
    grid.reveal_cell(0, 0);
    grid.toggle_flag(2, 2);
    assert_eq!(s, states(&grid));
}

#[test]
fn second_reveal_of_open_blank_cell_changes_nothing() {
    // 6 by 1 with a mine at x = 5 and a flag at x = 3: the flood opens x = 0 to 2.
    let mut grid = MineGrid::from_picks(6, 1, &vec![5]);
    grid.toggle_flag(3, 0);
    grid.reveal_cell(0, 0);
    assert_eq!(CellState::Revealed, grid.get_cell(2, 0).unwrap().state());
    assert_eq!(GridState::Play, grid.state());
    let once = states(&grid);
    grid.reveal_cell(0, 0);
    assert_eq!(once, states(&grid));
    assert_eq!(GridState::Play, grid.state());
}

#[test]
fn chord_waits_for_exact_flags() {
    // 4 by 1 with a mine at x = 3: x = 2 shows 1.
    let mut grid = MineGrid::from_picks(4, 1, &vec![3]);
    grid.reveal_cell(2, 0);
    let opened = states(&grid);
    assert_eq!(CellState::Revealed, opened[2]);
    assert_eq!(CellState::Hidden { flags: 0 }, opened[1]);

    // No flag: nothing.
    grid.reveal_cell(2, 0);
    assert_eq!(opened, states(&grid));

    // Two flags for one mine: nothing.
    grid.toggle_flag(1, 0);
    grid.toggle_flag(3, 0);
    let two = states(&grid);
    grid.reveal_cell(2, 0);
    assert_eq!(two, states(&grid));
    assert_eq!(GridState::Play, grid.state());

    // One flag, on the mine: the chord opens x = 1, which floods to x = 0 and wins.
    grid.toggle_flag(1, 0);
    grid.reveal_cell(2, 0);
    assert_eq!(CellState::Revealed, grid.get_cell(1, 0).unwrap().state());
    assert_eq!(CellState::Revealed, grid.get_cell(0, 0).unwrap().state());
    assert_eq!(CellState::Hidden { flags: 1 }, grid.get_cell(3, 0).unwrap().state());
    assert_eq!(GridState::Win, grid.state());
}

#[test]
fn chord_opens_flagged_neighbours_too() {
    // 4 by 1 with a mine at x = 0: x = 1 shows 1.
    let mut grid = MineGrid::from_picks(4, 1, &vec![0]);
    grid.reveal_cell(1, 0);
    assert_eq!(GridState::Play, grid.state());
    grid.toggle_flag(0, 0);
    grid.reveal_cell(1, 0);
    // The flagged mine comes first in scan order and is opened.
    assert_eq!(CellState::Revealed, grid.get_cell(0, 0).unwrap().state());
    assert_eq!(GridState::Lose, grid.state());
    assert_eq!(CellState::Hidden { flags: 0 }, grid.get_cell(2, 0).unwrap().state());
}

#[test]
fn off_board_coordinates_do_nothing() {
    let mut grid = MineGrid::from_picks(4, 3, &vec![5]);
    let before = states(&grid);
    for &(x, y) in &[(4u32, 0u32), (0, 3), (u32::MAX, u32::MAX)] {
        assert!(grid.get_cell(x, y).is_none());
        assert!(!grid.check_point(x, y));
        grid.reveal_cell(x, y);
        grid.toggle_flag(x, y);
        assert_eq!(before, states(&grid));
        assert_eq!(GridState::Play, grid.state());
    }
    assert_eq!(1, grid.mines_left());
}

#[test]
fn default_cell_state_is_unflagged_hidden() {
    assert_eq!(CellState::Hidden { flags: 0 }, CellState::default());
}

#[test]
fn full_board_of_mines_loses_on_first_reveal() {
    let mut grid = MineGrid::new(3, 2, 6);
    for j in 0..2 {
        for i in 0..3 {
            assert_eq!(1, grid.get_cell(i, j).unwrap().mines());
        }
    }
    grid.reveal_cell(2, 1);
    assert_eq!(GridState::Lose, grid.state());
    assert_eq!(CellState::Revealed, grid.get_cell(2, 1).unwrap().state());
    assert_eq!(CellState::Hidden { flags: 0 }, grid.get_cell(0, 0).unwrap().state());
}

use minegrid::{CellState, GridState, MineGrid};

#[test]
fn lib_test_new() {
    let (width, height, mines) = (10, 10, 10);

    let grid = MineGrid::new(width, height, mines);

    let mut mine_count = 0;
    for j in 0..height {
        for i in 0..width {
            mine_count += grid.get_cell(i, j).unwrap().mines() as u32;
        }
    }
    assert_eq!(mines, mine_count);

    assert_eq!(width, grid.width());
    assert_eq!(height, grid.height());
    assert_eq!(mines, grid.mines());
    assert_eq!(GridState::Play, grid.state());
}

#[test]
fn lib_test_check_point() {
    let (width, height, mines) = (10, 10, 10);

    let grid = MineGrid::new(width, height, mines);

    assert_eq!(true, grid.check_point(0, 0));
    assert_eq!(true, grid.check_point(1, 0));
    assert_eq!(true, grid.check_point(9, 9));
    assert_eq!(false, grid.check_point(10, 0));
}

#[test]
fn lib_test_get_neighbors() {
    let (width, height, mines) = (10, 10, 10);

    let grid = MineGrid::new(width, height, mines);

    assert_eq!(3, grid.get_neighbors(0, 0).len());
    assert_eq!(5, grid.get_neighbors(1, 0).len());
    assert_eq!(8, grid.get_neighbors(1, 1).len());
}

#[test]
fn lib_test_toggle_flag() {
    let (width, height, mines) = (10, 10, 10);
    let mut grid = MineGrid::new(width, height, mines);

    assert_eq!(CellState::Hidden { flags: 0 }, grid.get_cell(0, 0).unwrap().state());
    grid.toggle_flag(0, 0);
    assert_eq!(CellState::Hidden { flags: 1 }, grid.get_cell(0, 0).unwrap().state());
    grid.toggle_flag(0, 0);
    assert_eq!(CellState::Hidden { flags: 0 }, grid.get_cell(0, 0).unwrap().state());
}

#[test]
fn lib_test_reveal_empty_grid() {
    let (width, height, mines) = (10, 10, 0);
    let mut grid = MineGrid::new(width, height, mines);

    assert_eq!(CellState::Hidden { flags: 0 }, grid.get_cell(0, 0).unwrap().state());
    assert_eq!(GridState::Play, grid.state());
    grid.reveal_cell(0, 0);
    for j in 0..height {
        for i in 0..width {
            assert_eq!(CellState::Revealed, grid.get_cell(i, j).unwrap().state());
        }
    }
    assert_eq!(GridState::Win, grid.state());
}

#[test]
fn lib_test_reveal_mine() {
    let (width, height, mines) = (10, 10, 100);
    let mut grid = MineGrid::new(width, height, mines);

    assert_eq!(CellState::Hidden { flags: 0 }, grid.get_cell(0, 0).unwrap().state());
    assert_eq!(GridState::Play, grid.state());
    grid.reveal_cell(0, 0);
    assert_eq!(CellState::Revealed, grid.get_cell(0, 0).unwrap().state());
    assert_eq!(GridState::Lose, grid.state());
}

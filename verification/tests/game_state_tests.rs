use game_of_life::error::Error;
use game_of_life::game_state::{Cell, GameState, Location};

/// Builds a well-formed grid from a rectangular aliveness pattern.
fn grid_from_pattern(pattern: &[&[bool]]) -> GameState {
    let height = pattern.len() as u32;
    let width = if pattern.is_empty() {
        0
    } else {
        pattern[0].len() as u32
    };
    let mut state = GameState::new_blank(width, height);
    let mut cells: Vec<Vec<Cell>> = Vec::new();
    for (y, row) in pattern.iter().enumerate() {
        assert_eq!(row.len() as u32, width);
        let mut cell_row: Vec<Cell> = Vec::new();
        for (x, alive) in row.iter().enumerate() {
            cell_row.push(Cell::new(*alive, Location::new(x as i32, y as i32)));
        }
        cells.push(cell_row);
    }
    state.set_cells(cells);
    state
}

fn pattern_of(state: &GameState) -> Vec<Vec<bool>> {
    state
        .get_cells()
        .iter()
        .map(|row| row.iter().map(|c| c.is_alive).collect())
        .collect()
}

#[test]
fn get_surrounding_cell_locations_test() {
    let location = Location::new(20, 55);
    let negative_location = Location::new(-88, -1);

    let expected_cell: [Option<Location>; 8] = [
        Some(Location::new(19, 54)),
        Some(Location::new(19, 55)),
        Some(Location::new(19, 56)),
        Some(Location::new(20, 54)),
        Some(Location::new(20, 56)),
        Some(Location::new(21, 54)),
        Some(Location::new(21, 55)),
        Some(Location::new(21, 56)),
    ];

    let expected_cell_negative_pos: [Option<Location>; 8] = [
        Some(Location::new(-89, -2)),
        Some(Location::new(-89, -1)),
        Some(Location::new(-89, 0)),
        Some(Location::new(-88, -2)),
        Some(Location::new(-88, 0)),
        Some(Location::new(-87, -2)),
        Some(Location::new(-87, -1)),
        Some(Location::new(-87, 0)),
    ];

    let cell_res = GameState::get_surrounding_locations(&location);
    let cell_negative_pos_res = GameState::get_surrounding_locations(&negative_location);

    assert_eq!(cell_res, expected_cell);
    assert_eq!(cell_negative_pos_res, expected_cell_negative_pos);
}

#[test]
fn new_blank_is_all_dead() {
    let state = GameState::new_blank(4, 3);
    assert_eq!(state.width(), 4);
    assert_eq!(state.height(), 3);
    for row in state.get_cells() {
        for cell in row {
            assert!(!cell.is_alive);
        }
    }
}

#[test]
fn set_then_get_returns_written_cell() {
    let mut state = GameState::new_blank(3, 3);
    let location = Location::new(1, 2);
    let cell = Cell::new(true, location);
    assert_eq!(state.set_cell_by_location(&location, cell.clone()), Ok(()));
    let read = state.get_cell_by_location(&location).expect("in-bounds cell");
    assert_eq!(*read, cell);
    assert_eq!(read.location, location);
}

#[test]
fn out_of_bounds_get_is_absent_and_set_fails() {
    let mut state = GameState::new_blank(3, 3);
    let outside = [
        Location::new(-1, 0),
        Location::new(0, -1),
        Location::new(3, 0),
        Location::new(0, 3),
        Location::new(7, 7),
    ];
    for location in outside.iter() {
        assert!(state.get_cell_by_location(location).is_none());
        let cell = Cell::new(true, *location);
        assert_eq!(
            state.set_cell_by_location(location, cell),
            Err(Error::OutOfBounds)
        );
    }
    // the failed writes left every cell untouched
    for row in state.get_cells() {
        for cell in row {
            assert!(!cell.is_alive);
        }
    }
}

#[test]
fn neighbor_count_all_alive_grid() {
    let state = grid_from_pattern(&[
        &[true, true, true],
        &[true, true, true],
        &[true, true, true],
    ]);
    // interior cell: all eight neighbors are in bounds and alive
    assert_eq!(
        state.get_surrounding_living_cells(&Location::new(1, 1)),
        8
    );
    // corner cell: only the three in-bounds neighbors count, the five
    // off-grid ones are dead
    assert_eq!(
        state.get_surrounding_living_cells(&Location::new(0, 0)),
        3
    );
}

#[test]
fn update_keeps_dead_grid_dead() {
    let mut state = GameState::new_blank(4, 4);
    state.update();
    assert_eq!(state.width(), 4);
    assert_eq!(state.height(), 4);
    for row in state.get_cells() {
        for cell in row {
            assert!(!cell.is_alive);
        }
    }
}

#[test]
fn update_blinker_bar_against_wall() {
    // a horizontal bar on the top edge of a 3x3 grid
    let mut state = grid_from_pattern(&[
        &[true, true, true],
        &[false, false, false],
        &[false, false, false],
    ]);
    state.update();
    // the corners die with one neighbor each; the middle cell keeps its two
    // neighbors and survives; the cell below the middle sees three live
    // neighbors and is born
    let expected = vec![
        vec![false, true, false],
        vec![false, true, false],
        vec![false, false, false],
    ];
    assert_eq!(pattern_of(&state), expected);
    // the locations still match the positional indices
    for (y, row) in state.get_cells().iter().enumerate() {
        for (x, cell) in row.iter().enumerate() {
            assert_eq!(cell.location, Location::new(x as i32, y as i32));
        }
    }
}

#[test]
fn random_fill_boundary_ratios_are_exact() {
    let dead = GameState::new_rand_filled(5, 4, 0, 1).expect("a zero ratio is legal");
    for row in dead.get_cells() {
        for cell in row {
            assert!(!cell.is_alive);
        }
    }
    let alive = GameState::new_rand_filled(5, 4, 1, 1).expect("a ratio of one is legal");
    for row in alive.get_cells() {
        for cell in row {
            assert!(cell.is_alive);
        }
    }
    let half = GameState::new_rand_filled(6, 6, 1, 2).expect("a ratio of one half is legal");
    assert_eq!(half.width(), 6);
    assert_eq!(half.height(), 6);
}

#[test]
fn random_fill_rejects_ratios_outside_unit_interval() {
    assert_eq!(
        GameState::new_rand_filled(3, 3, 2, 1).err(),
        Some(Error::InvalidArgument)
    );
    assert_eq!(
        GameState::new_rand_filled(3, 3, 0, 0).err(),
        Some(Error::InvalidArgument)
    );
}

#[test]
fn cell_from_char_reads_markers_only() {
    let location = Location::new(2, 5);
    assert_eq!(
        Cell::from_char('O', location),
        Some(Cell::new(true, location))
    );
    assert_eq!(
        Cell::from_char('.', location),
        Some(Cell::new(false, location))
    );
    assert_eq!(Cell::from_char('x', location), None);
    assert_eq!(Cell::from_char(',', location), None);
}

#[test]
fn error_messages_name_the_failure() {
    assert!(Error::OutOfBounds.message().contains("outside"));
    assert!(Error::InvalidArgument.message().contains("chance"));
    assert!(Error::InvalidFormat(3).message().contains("width"));
    assert!(Error::UnsupportedFormat.message().contains("RGB"));
}

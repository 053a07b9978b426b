use game_of_life::error::Error;
use game_of_life::game_state::{Cell, GameState, Location};
use game_of_life::image_codec::{
    generate_blank_state_image, load_state_from_image, state_from_pixels, state_image_bytes,
    state_to_pixels,
};

fn grid_from_pattern(pattern: &[&[bool]]) -> GameState {
    let height = pattern.len() as u32;
    let width = if pattern.is_empty() {
        0
    } else {
        pattern[0].len() as u32
    };
    let mut state = GameState::new_blank(width, height);
    let mut cells: Vec<Vec<Cell>> = Vec::new();
    for (y, row) in pattern.iter().enumerate() {
        assert_eq!(row.len() as u32, width);
        let mut cell_row: Vec<Cell> = Vec::new();
        for (x, alive) in row.iter().enumerate() {
            cell_row.push(Cell::new(*alive, Location::new(x as i32, y as i32)));
        }
        cells.push(cell_row);
    }
    state.set_cells(cells);
    state
}

#[test]
fn from_state_string_test() {
    let state_string = r#"['O', '.', '.']
['O', 'O', 'O']
['O', '.', 'O']
"#;

    let expected_cells = vec![
        vec![ // row 1
            Cell::new(true, Location::new(0, 0)),
            Cell::new(false, Location::new(1, 0)),
            Cell::new(false, Location::new(2, 0)),
        ],
        vec![ // row 2
            Cell::new(true, Location::new(0, 1)),
            Cell::new(true, Location::new(1, 1)),
            Cell::new(true, Location::new(2, 1)),
        ],
        vec![ // row 3
            Cell::new(true, Location::new(0, 2)),
            Cell::new(false, Location::new(1, 2)),
            Cell::new(true, Location::new(2, 2)),
        ],
    ];
    let mut expected_state = GameState::new_blank(3, 3);
    expected_state.set_cells(expected_cells);

    let result_state = GameState::from_state_string(state_string.to_string()).unwrap();

    assert_eq!(result_state.get_cells(), expected_state.get_cells());
}

#[test]
fn to_state_string_test() {
    let expected_state_string = r#"['O', '.', '.']
['O', 'O', 'O']
['O', '.', 'O']
"#;

    let cells = vec![
        vec![ // row 1
            Cell::new(true, Location::new(0, 0)),
            Cell::new(false, Location::new(1, 0)),
            Cell::new(false, Location::new(2, 0)),
        ],
        vec![ // row 2
            Cell::new(true, Location::new(0, 1)),
            Cell::new(true, Location::new(1, 1)),
            Cell::new(true, Location::new(2, 1)),
        ],
        vec![ // row 3
            Cell::new(true, Location::new(0, 2)),
            Cell::new(false, Location::new(1, 2)),
            Cell::new(true, Location::new(2, 2)),
        ],
    ];
    let mut state = GameState::new_blank(3, 3);
    state.set_cells(cells);

    let result_state_string = state.to_state_string();

    assert_eq!(result_state_string, expected_state_string);
}

#[test]
fn text_round_trip_restores_grid() {
    let state = grid_from_pattern(&[
        &[false, true, false, true],
        &[true, false, false, false],
        &[true, true, true, true],
    ]);
    let encoded = state.to_state_string();
    let decoded = GameState::from_state_string(encoded).unwrap();
    assert_eq!(decoded.width(), state.width());
    assert_eq!(decoded.height(), state.height());
    assert_eq!(decoded.get_cells(), state.get_cells());
}

#[test]
fn text_decode_rejects_ragged_rows() {
    let ragged = "['O', '.']\n['O']\n".to_string();
    assert_eq!(
        GameState::from_state_string(ragged).err(),
        Some(Error::InvalidFormat(1))
    );
}

#[test]
fn text_decode_of_empty_text_has_no_rows() {
    // no rows at all: height zero, width inferred from the first (empty)
    // line as its comma count plus one
    let state = GameState::from_state_string(String::new()).unwrap();
    assert_eq!(state.width(), 1);
    assert_eq!(state.height(), 0);

    let newlines_only = GameState::from_state_string("\n\n".to_string()).unwrap();
    assert_eq!(newlines_only.width(), 1);
    assert_eq!(newlines_only.height(), 0);
}

#[test]
fn text_decode_rejects_interior_empty_line() {
    // only trailing empty lines are dropped; an empty line between rows is
    // a row with no cells and cannot match the width
    let interior = "['O']\n\n['O']\n".to_string();
    assert_eq!(
        GameState::from_state_string(interior).err(),
        Some(Error::InvalidFormat(1))
    );
    // a leading empty line is the offending row zero, even though the
    // width comes from the first non-empty line
    let leading = "\n['O']\n".to_string();
    assert_eq!(
        GameState::from_state_string(leading).err(),
        Some(Error::InvalidFormat(0))
    );
}

#[test]
fn text_decode_skips_noise_and_infers_width() {
    // only the marker characters count; the width comes from the commas of
    // the first non-empty line
    let state = GameState::from_state_string("['O', '.']\n['.', 'O']\n".to_string()).unwrap();
    assert_eq!(state.width(), 2);
    assert_eq!(state.height(), 2);
    let cells = state.get_cells();
    assert!(cells[0][0].is_alive);
    assert!(!cells[0][1].is_alive);
    assert!(!cells[1][0].is_alive);
    assert!(cells[1][1].is_alive);
}

#[test]
fn pixel_buffer_round_trip_restores_grid() {
    let state = grid_from_pattern(&[
        &[false, true, false],
        &[true, false, true],
    ]);
    let pixels = state_to_pixels(&state);
    // three channel bytes per cell: black for alive, white for dead
    assert_eq!(pixels.len(), 3 * 3 * 2);
    assert_eq!(pixels[0..6].to_vec(), vec![255u8, 255, 255, 0, 0, 0]);
    let decoded = state_from_pixels(3, 2, &pixels).unwrap();
    assert_eq!(decoded.get_cells(), state.get_cells());
}

#[test]
fn pixel_decode_rejects_short_buffer() {
    let pixels = vec![0u8; 5];
    assert_eq!(
        state_from_pixels(2, 2, &pixels).err(),
        Some(Error::UnsupportedFormat)
    );
}

#[test]
fn pixel_decode_treats_other_colors_as_dead() {
    // one black pixel, one gray, one white: only the exact black is alive
    let pixels = vec![0, 0, 0, 120, 120, 120, 255, 255, 255];
    let state = state_from_pixels(3, 1, &pixels).unwrap();
    let cells = state.get_cells();
    assert!(cells[0][0].is_alive);
    assert!(!cells[0][1].is_alive);
    assert!(!cells[0][2].is_alive);
}

#[test]
fn image_round_trip_restores_grid() {
    // width 3, height 2, alive at (1, 0) only
    let state = grid_from_pattern(&[
        &[false, true, false],
        &[false, false, false],
    ]);
    let bytes = state_image_bytes(&state).expect("a non-empty grid encodes");
    let decoded = load_state_from_image(&bytes).expect("its own encoding decodes");
    assert_eq!(decoded.width(), 3);
    assert_eq!(decoded.height(), 2);
    assert_eq!(decoded.get_cells(), state.get_cells());
}

#[test]
fn blank_image_is_all_dead() {
    let bytes = generate_blank_state_image(3, 2).expect("a non-empty grid encodes");
    let decoded = load_state_from_image(&bytes).unwrap();
    assert_eq!(decoded.width(), 3);
    assert_eq!(decoded.height(), 2);
    for row in decoded.get_cells() {
        for cell in row {
            assert!(!cell.is_alive);
        }
    }
}

#[test]
fn image_decode_rejects_junk_bytes() {
    let junk = vec![1u8, 2, 3, 4, 5, 6, 7, 8];
    assert!(matches!(
        load_state_from_image(&junk),
        Err(Error::UnsupportedFormat)
    ));
}

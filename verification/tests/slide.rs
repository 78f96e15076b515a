use wasm_2048::game_board::{Direction, GameBoard};

fn predicted(size: usize, cells: Vec<u8>, dir: Direction) -> Vec<u8> {
    let board = GameBoard::from_cells(size, cells).unwrap();
    board.merge_prediction(dir).clone()
}

fn row_in_grid(size: usize, row: &[u8]) -> Vec<u8> {
    let mut cells: Vec<u8> = vec![0; size * size];
    for (col, rank) in row.iter().enumerate() {
        cells[col] = *rank;
    }
    cells
}

fn column_in_grid(size: usize, column: &[u8]) -> Vec<u8> {
    let mut cells: Vec<u8> = vec![0; size * size];
    for (row, rank) in column.iter().enumerate() {
        cells[row * size] = *rank;
    }
    cells
}

#[test]
fn four_equal_tiles_merge_in_pairs_without_chaining() {
    let cells = row_in_grid(4, &[1, 1, 1, 1]);
    assert_eq!(predicted(4, cells.clone(), Direction::Left), row_in_grid(4, &[2, 2, 0, 0]));
    assert_eq!(predicted(4, cells, Direction::Right), row_in_grid(4, &[0, 0, 2, 2]));
    let column = column_in_grid(4, &[1, 1, 1, 1]);
    assert_eq!(predicted(4, column.clone(), Direction::Up), column_in_grid(4, &[2, 2, 0, 0]));
    assert_eq!(predicted(4, column, Direction::Down), column_in_grid(4, &[0, 0, 2, 2]));
}

#[test]
fn left_and_right_are_mirror_images() {
    assert_eq!(
        predicted(3, row_in_grid(3, &[1, 1, 2]), Direction::Left),
        row_in_grid(3, &[2, 2, 0])
    );
    assert_eq!(
        predicted(3, row_in_grid(3, &[2, 1, 1]), Direction::Right),
        row_in_grid(3, &[0, 2, 2])
    );
}

#[test]
fn up_and_down_are_mirror_images() {
    assert_eq!(
        predicted(3, column_in_grid(3, &[1, 1, 2]), Direction::Up),
        column_in_grid(3, &[2, 2, 0])
    );
    assert_eq!(
        predicted(3, column_in_grid(3, &[2, 1, 1]), Direction::Down),
        column_in_grid(3, &[0, 2, 2])
    );
}

#[test]
fn merges_start_at_the_edge_the_tiles_slide_toward() {
    // three equal tiles: the pair nearest the target edge merges
    assert_eq!(
        predicted(3, row_in_grid(3, &[1, 1, 1]), Direction::Left),
        row_in_grid(3, &[2, 1, 0])
    );
    assert_eq!(
        predicted(3, row_in_grid(3, &[1, 1, 1]), Direction::Right),
        row_in_grid(3, &[0, 1, 2])
    );
    assert_eq!(
        predicted(3, column_in_grid(3, &[1, 1, 1]), Direction::Up),
        column_in_grid(3, &[2, 1, 0])
    );
    assert_eq!(
        predicted(3, column_in_grid(3, &[1, 1, 1]), Direction::Down),
        column_in_grid(3, &[0, 1, 2])
    );
}

#[test]
fn a_merged_tile_does_not_merge_with_its_neighbour() {
    assert_eq!(
        predicted(4, row_in_grid(4, &[1, 1, 2, 0]), Direction::Left),
        row_in_grid(4, &[2, 2, 0, 0])
    );
    assert_eq!(
        predicted(4, row_in_grid(4, &[2, 1, 1, 0]), Direction::Left),
        row_in_grid(4, &[2, 2, 0, 0])
    );
    assert_eq!(
        predicted(4, row_in_grid(4, &[2, 2, 3, 3]), Direction::Right),
        row_in_grid(4, &[0, 0, 3, 4])
    );
}

#[test]
fn tiles_jump_over_empty_cells_to_merge() {
    assert_eq!(
        predicted(4, row_in_grid(4, &[3, 0, 0, 3]), Direction::Left),
        row_in_grid(4, &[4, 0, 0, 0])
    );
    assert_eq!(
        predicted(4, row_in_grid(4, &[0, 5, 0, 6]), Direction::Right),
        row_in_grid(4, &[0, 0, 5, 6])
    );
}

#[test]
fn a_single_tile_goes_to_the_edge_of_its_own_line() {
    // the tile stands in row 1, column 2 of a grid of side 3
    let mut cells: Vec<u8> = vec![0; 9];
    cells[5] = 7;
    let mut up: Vec<u8> = vec![0; 9];
    up[2] = 7;
    let mut down: Vec<u8> = vec![0; 9];
    down[8] = 7;
    let mut left: Vec<u8> = vec![0; 9];
    left[3] = 7;
    assert_eq!(predicted(3, cells.clone(), Direction::Up), up);
    assert_eq!(predicted(3, cells.clone(), Direction::Down), down);
    assert_eq!(predicted(3, cells.clone(), Direction::Left), left);
    assert_eq!(predicted(3, cells.clone(), Direction::Right), cells);
}

#[test]
fn every_line_slides_by_itself() {
    let cells: Vec<u8> = vec![
        1, 1, 0, 2, //
        0, 3, 3, 3, //
        4, 0, 4, 0, //
        5, 6, 5, 6,
    ];
    let left: Vec<u8> = vec![
        2, 2, 0, 0, //
        4, 3, 0, 0, //
        5, 0, 0, 0, //
        5, 6, 5, 6,
    ];
    let right: Vec<u8> = vec![
        0, 0, 2, 2, //
        0, 0, 3, 4, //
        0, 0, 0, 5, //
        5, 6, 5, 6,
    ];
    let up: Vec<u8> = vec![
        1, 1, 3, 2, //
        4, 3, 4, 3, //
        5, 6, 5, 6, //
        0, 0, 0, 0,
    ];
    let down: Vec<u8> = vec![
        0, 0, 0, 0, //
        1, 1, 3, 2, //
        4, 3, 4, 3, //
        5, 6, 5, 6,
    ];
    assert_eq!(predicted(4, cells.clone(), Direction::Left), left);
    assert_eq!(predicted(4, cells.clone(), Direction::Right), right);
    assert_eq!(predicted(4, cells.clone(), Direction::Up), up);
    assert_eq!(predicted(4, cells, Direction::Down), down);
}

#[test]
fn a_slide_of_the_mirrored_grid_is_the_mirrored_slide() {
    let cells: Vec<u8> = vec![
        1, 1, 0, 2, //
        0, 3, 3, 3, //
        4, 0, 4, 0, //
        5, 6, 5, 6,
    ];
    let flipped: Vec<u8> = vec![
        2, 0, 1, 1, //
        3, 3, 3, 0, //
        0, 4, 0, 4, //
        6, 5, 6, 5,
    ];
    let slid = predicted(4, cells, Direction::Right);
    let slid_flipped = predicted(4, flipped, Direction::Left);
    for row in 0..4 {
        for col in 0..4 {
            assert_eq!(slid_flipped[row * 4 + col], slid[row * 4 + (3 - col)]);
        }
    }
}

#[test]
fn a_board_of_one_cell_never_moves() {
    assert_eq!(predicted(1, vec![0], Direction::Up), vec![0u8]);
    assert_eq!(predicted(1, vec![9], Direction::Left), vec![9u8]);
    assert_eq!(predicted(1, vec![9], Direction::Down), vec![9u8]);
}

use wasm_2048::game_board::{BoardError, Direction, GameBoard};

fn board_of(size: usize, cells: Vec<u8>) -> GameBoard {
    GameBoard::from_cells(size, cells).unwrap()
}

#[test]
fn gameboard_generation() {
    for i in 3..10 {
        let gameboard = GameBoard::new(i).unwrap();
        let cell_qty = i * i;
        let empty_vec: Vec<u8> = vec![0; cell_qty];

        assert_eq!(gameboard.size(), i);
        assert_eq!(gameboard.cells(), &empty_vec);
        assert_eq!(gameboard.empty_cells().len(), cell_qty);
        assert!(!gameboard.is_game_over());
        assert!(!gameboard.is_game_win());
    }
}

#[test]
fn new_accepts_the_smallest_and_the_largest_side() {
    let small = GameBoard::new(1).unwrap();
    assert_eq!(small.cells(), &vec![0u8]);
    let large = GameBoard::new(15).unwrap();
    assert_eq!(large.cells().len(), 225);
    assert!(large.cells().iter().all(|cell| *cell == 0));
}

#[test]
fn new_rejects_a_side_of_zero() {
    assert_eq!(GameBoard::new(0).unwrap_err(), BoardError::InvalidSize);
}

#[test]
fn new_rejects_a_side_above_the_limit() {
    assert_eq!(GameBoard::new(16).unwrap_err(), BoardError::InvalidSize);
    assert_eq!(GameBoard::new(usize::MAX).unwrap_err(), BoardError::InvalidSize);
}

#[test]
fn new_board_predicts_no_change() {
    let board = GameBoard::new(4).unwrap();
    for dir in [Direction::Up, Direction::Down, Direction::Left, Direction::Right] {
        assert_eq!(board.merge_prediction(dir), &vec![0u8; 16]);
    }
}

#[test]
fn from_cells_keeps_the_cells_row_by_row() {
    let cells: Vec<u8> = vec![0, 1, 2, 3, 4, 5, 6, 7, 8];
    let board = board_of(3, cells.clone());
    assert_eq!(board.size(), 3);
    assert_eq!(board.cells(), &cells);
    assert!(!board.is_game_over());
    assert_eq!(board.empty_cells(), vec![0usize]);
}

#[test]
fn from_cells_rejects_a_bad_side() {
    assert_eq!(GameBoard::from_cells(0, vec![]).unwrap_err(), BoardError::InvalidSize);
    assert_eq!(GameBoard::from_cells(16, vec![0; 256]).unwrap_err(), BoardError::InvalidSize);
}

#[test]
fn from_cells_rejects_a_wrong_number_of_cells() {
    assert_eq!(GameBoard::from_cells(3, vec![0; 8]).unwrap_err(), BoardError::InvalidCells);
    assert_eq!(GameBoard::from_cells(3, vec![0; 10]).unwrap_err(), BoardError::InvalidCells);
    assert_eq!(GameBoard::from_cells(2, vec![]).unwrap_err(), BoardError::InvalidCells);
}

#[test]
fn from_cells_rejects_ranks_without_room() {
    let mut cells: Vec<u8> = vec![0; 9];
    cells[4] = 255;
    assert_eq!(GameBoard::from_cells(3, cells).unwrap_err(), BoardError::InvalidCells);

    // two tiles of rank 254 could merge to rank 255
    let mut pair: Vec<u8> = vec![0; 9];
    pair[0] = 254;
    pair[8] = 254;
    assert_eq!(GameBoard::from_cells(3, pair).unwrap_err(), BoardError::InvalidCells);

    // three tiles at or above rank 253
    let mut three: Vec<u8> = vec![0; 9];
    three[0] = 253;
    three[1] = 253;
    three[2] = 254;
    assert_eq!(GameBoard::from_cells(3, three).unwrap_err(), BoardError::InvalidCells);
}

#[test]
fn from_cells_accepts_ranks_with_just_enough_room() {
    let mut one: Vec<u8> = vec![0; 9];
    one[4] = 254;
    assert!(GameBoard::from_cells(3, one).is_ok());

    let mut two: Vec<u8> = vec![0; 9];
    two[0] = 253;
    two[1] = 253;
    let board = board_of(3, two);
    assert_eq!(board.merge_prediction(Direction::Left), &vec![254u8, 0, 0, 0, 0, 0, 0, 0, 0]);

    // a full board of the largest side, every tile of the lowest rank
    assert!(GameBoard::from_cells(15, vec![1; 225]).is_ok());
    // the same with every tile at the highest rank that 225 tiles leave room for
    assert!(GameBoard::from_cells(15, vec![30; 225]).is_ok());
    assert_eq!(
        GameBoard::from_cells(15, vec![31; 225]).unwrap_err(),
        BoardError::InvalidCells
    );
}

#[test]
fn empty_cells_are_listed_in_ascending_order() {
    let board = board_of(3, vec![1, 0, 2, 0, 0, 3, 4, 5, 0]);
    assert_eq!(board.empty_cells(), vec![1usize, 3, 4, 8]);
    let full = board_of(2, vec![1, 2, 3, 4]);
    assert_eq!(full.empty_cells(), Vec::<usize>::new());
}

#[test]
fn win_is_reported_for_the_winning_rank_only() {
    let mut cells: Vec<u8> = vec![0; 16];
    cells[5] = 10;
    cells[6] = 12;
    assert!(!board_of(4, cells.clone()).is_game_win());
    cells[15] = 11;
    assert!(board_of(4, cells).is_game_win());
}

#[test]
fn the_main_items_are_reachable_from_the_crate_root() {
    let mut board = wasm_2048::GameBoard::new(2).unwrap();
    assert_eq!(board.place_tile(0, 1), Ok(()));
    board.move_cells(wasm_2048::Direction::Right);
    assert_eq!(board.cells()[1], 1);
    assert_eq!(
        wasm_2048::GameBoard::new(0).unwrap_err(),
        wasm_2048::BoardError::InvalidSize
    );
    assert_ne!(wasm_2048::Axis::Vertical, wasm_2048::Axis::Horizontal);
}

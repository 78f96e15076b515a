use wasm_2048::game_board::{BoardError, GameBoard};

fn count_of(board: &GameBoard, rank: u8) -> usize {
    board.cells().iter().filter(|cell| **cell == rank).count()
}

#[test]
fn cell_generation() {
    for i in 3..10 {
        let mut gameboard = GameBoard::new(i).unwrap();

        assert_eq!(gameboard.generate(), Ok(()));

        assert_eq!(gameboard.empty_cells().len(), i * i - 2);
        assert!(
            gameboard
                .cells()
                .iter()
                .filter(|cell| **cell == 1 || **cell == 2)
                .collect::<Vec<&u8>>()
                .len()
                == 2
        )
    }
}

#[test]
fn generate_on_a_board_of_two_by_two_places_two_tiles() {
    let mut board = GameBoard::new(2).unwrap();
    assert_eq!(board.generate(), Ok(()));
    assert_eq!(board.empty_cells().len(), 2);
    assert_eq!(count_of(&board, 1) + count_of(&board, 2), 2);
}

#[test]
fn generate_on_a_board_with_a_tile_places_one_tile() {
    let mut cells: Vec<u8> = vec![0; 16];
    cells[6] = 5;
    let mut board = GameBoard::from_cells(4, cells).unwrap();
    assert_eq!(board.generate(), Ok(()));
    assert_eq!(board.empty_cells().len(), 14);
    assert_eq!(board.cells()[6], 5);
    assert_eq!(count_of(&board, 1) + count_of(&board, 2), 1);
    assert_eq!(board.generate(), Ok(()));
    assert_eq!(board.empty_cells().len(), 13);
    assert_eq!(board.cells()[6], 5);
}

#[test]
fn generate_on_a_board_of_one_cell_fills_it_and_then_fails() {
    let mut board = GameBoard::new(1).unwrap();
    assert_eq!(board.generate(), Ok(()));
    assert!(board.cells()[0] == 1 || board.cells()[0] == 2);
    let filled = board.cells().clone();
    assert_eq!(board.generate(), Err(BoardError::BoardFull));
    assert_eq!(board.cells(), &filled);
}

#[test]
fn generate_fills_the_board_to_the_last_cell() {
    let mut board = GameBoard::new(5).unwrap();
    assert_eq!(board.generate(), Ok(()));
    let mut empty = 23;
    while empty > 0 {
        assert_eq!(board.empty_cells().len(), empty);
        assert_eq!(board.generate(), Ok(()));
        empty -= 1;
    }
    assert!(board.cells().iter().all(|cell| *cell == 1 || *cell == 2));
    assert_eq!(board.generate(), Err(BoardError::BoardFull));
}

#[test]
fn generate_fills_the_one_empty_cell_that_is_left() {
    for _ in 0..50 {
        let mut board = GameBoard::from_cells(2, vec![3, 0, 4, 5]).unwrap();
        assert_eq!(board.generate(), Ok(()));
        let cells = board.cells();
        assert_eq!((cells[0], cells[2], cells[3]), (3, 4, 5));
        assert!(cells[1] == 1 || cells[1] == 2);
    }
}

#[test]
fn generate_keeps_the_predictions_up_to_date() {
    let mut board = GameBoard::new(4).unwrap();
    board.generate().unwrap();
    let again = GameBoard::from_cells(4, board.cells().clone()).unwrap();
    for dir in [
        wasm_2048::game_board::Direction::Up,
        wasm_2048::game_board::Direction::Down,
        wasm_2048::game_board::Direction::Left,
        wasm_2048::game_board::Direction::Right,
    ] {
        assert_eq!(board.merge_prediction(dir), again.merge_prediction(dir));
    }
}

#[test]
fn place_tile_fills_the_picked_empty_cell() {
    let mut board = GameBoard::from_cells(3, vec![1, 0, 2, 0, 0, 3, 4, 5, 0]).unwrap();
    assert_eq!(board.place_tile(2, 7), Ok(()));
    assert_eq!(board.cells(), &vec![1u8, 0, 2, 0, 1, 3, 4, 5, 0]);
    assert_eq!(board.place_tile(0, 0), Ok(()));
    assert_eq!(board.cells(), &vec![1u8, 2, 2, 0, 1, 3, 4, 5, 0]);
    assert_eq!(board.place_tile(1, 63), Ok(()));
    assert_eq!(board.cells(), &vec![1u8, 2, 2, 0, 1, 3, 4, 5, 1]);
    assert_eq!(board.place_tile(0, 1), Ok(()));
    assert_eq!(board.cells(), &vec![1u8, 2, 2, 1, 1, 3, 4, 5, 1]);
}

#[test]
fn place_tile_gives_the_higher_rank_for_a_roll_of_zero_only() {
    for roll in 0..64 {
        let mut board = GameBoard::new(2).unwrap();
        assert_eq!(board.place_tile(3, roll), Ok(()));
        let rank = if roll == 0 { 2 } else { 1 };
        assert_eq!(board.cells(), &vec![0u8, 0, 0, rank]);
    }
}

#[test]
fn place_tile_places_one_tile_even_on_an_empty_board() {
    let mut board = GameBoard::new(3).unwrap();
    assert_eq!(board.place_tile(4, 1), Ok(()));
    assert_eq!(board.cells(), &vec![0u8, 0, 0, 0, 1, 0, 0, 0, 0]);
}

#[test]
fn place_tile_rejects_a_pick_beyond_the_empty_cells() {
    let mut board = GameBoard::from_cells(2, vec![1, 0, 0, 2]).unwrap();
    assert_eq!(board.place_tile(2, 0), Err(BoardError::InvalidPick));
    assert_eq!(board.place_tile(usize::MAX, 0), Err(BoardError::InvalidPick));
    assert_eq!(board.cells(), &vec![1u8, 0, 0, 2]);
}

#[test]
fn place_tile_fails_on_a_full_board() {
    let mut board = GameBoard::from_cells(2, vec![1, 2, 3, 4]).unwrap();
    assert_eq!(board.place_tile(0, 0), Err(BoardError::BoardFull));
    assert_eq!(board.cells(), &vec![1u8, 2, 3, 4]);
}

#[test]
fn place_tile_brings_the_predictions_up_to_date() {
    let mut board = GameBoard::new(2).unwrap();
    board.place_tile(0, 1).unwrap();
    board.place_tile(0, 1).unwrap();
    assert_eq!(board.cells(), &vec![1u8, 1, 0, 0]);
    assert_eq!(
        board.merge_prediction(wasm_2048::game_board::Direction::Left),
        &vec![2u8, 0, 0, 0]
    );
    assert_eq!(
        board.merge_prediction(wasm_2048::game_board::Direction::Down),
        &vec![0u8, 0, 1, 1]
    );
}

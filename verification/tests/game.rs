use wasm_2048::game_board::{Direction, GameBoard};

const ALL_DIRECTIONS: [Direction; 4] =
    [Direction::Up, Direction::Down, Direction::Left, Direction::Right];

fn differing_cells(a: &Vec<u8>, b: &Vec<u8>) -> Vec<usize> {
    assert_eq!(a.len(), b.len());
    (0..a.len()).filter(|idx| a[*idx] != b[*idx]).collect()
}

#[test]
fn merge_prediction() {
    for i in 3..10 {
        let mut gameboard = GameBoard::new(i).unwrap();
        gameboard.generate().unwrap();
        let cells = gameboard.cells().clone();

        for dir in ALL_DIRECTIONS {
            let mut moving = GameBoard::from_cells(i, cells.clone()).unwrap();
            let predicted = moving.merge_prediction(dir).clone();
            assert_eq!(&predicted, gameboard.merge_prediction(dir));
            moving.move_cells(dir);
            if predicted == cells {
                assert_eq!(moving.cells(), &cells);
            } else {
                let changed = differing_cells(&predicted, moving.cells());
                assert_eq!(changed.len(), 1);
                assert_eq!(predicted[changed[0]], 0);
                let rank = moving.cells()[changed[0]];
                assert!(rank == 1 || rank == 2);
            }
        }
    }
}

#[test]
fn victory() {
    for i in 3..10 {
        let gameboard = GameBoard::new(i).unwrap();

        assert!(!gameboard.is_game_win());

        let mut mock_cells = gameboard.cells().clone();
        mock_cells[0] = 10;
        mock_cells[1] = 10;
        for dir in [Direction::Left, Direction::Right] {
            let mut gameboard = GameBoard::from_cells(i, mock_cells.clone()).unwrap();
            assert!(!gameboard.is_game_win());
            gameboard.move_cells(dir);
            assert!(gameboard.is_game_win());
        }
    }
}

#[test]
fn a_lone_winning_tile_stays_through_further_moves() {
    let mut cells: Vec<u8> = vec![0; 16];
    cells[0] = 10;
    cells[1] = 10;
    let mut board = GameBoard::from_cells(4, cells).unwrap();
    board.move_cells(Direction::Left);
    assert!(board.is_game_win());
    for round in 0..40 {
        board.move_cells(ALL_DIRECTIONS[round % 4]);
        assert!(board.is_game_win());
    }
}

#[test]
fn two_winning_tiles_that_merge_are_no_win_any_more() {
    let mut cells: Vec<u8> = vec![0; 16];
    cells[0] = 11;
    cells[1] = 11;
    let mut board = GameBoard::from_cells(4, cells).unwrap();
    assert!(board.is_game_win());
    board.move_cells(Direction::Left);
    assert_eq!(board.cells()[0], 12);
    assert!(!board.is_game_win());
}

#[test]
fn game_over() {
    for i in 3..10 {
        let n = i as u8;
        let mock_cells: Vec<u8> = (1u8..=(n * n)).collect();
        for dir in ALL_DIRECTIONS {
            let mut gameboard = GameBoard::from_cells(i, mock_cells.clone()).unwrap();
            assert!(!gameboard.is_game_over());
            gameboard.move_cells(dir);
            assert!(gameboard.is_game_over());
            assert_eq!(gameboard.cells(), &mock_cells);
            for next in ALL_DIRECTIONS {
                gameboard.move_cells(next);
                assert!(gameboard.is_game_over());
                assert_eq!(gameboard.cells(), &mock_cells);
            }
        }
    }
}

#[test]
fn a_full_board_with_a_pair_to_merge_is_not_over() {
    let cells: Vec<u8> = vec![1, 2, 3, 4, 5, 6, 7, 8, 8];
    let mut board = GameBoard::from_cells(3, cells.clone()).unwrap();
    board.move_cells(Direction::Up);
    assert!(!board.is_game_over());
    assert_eq!(board.cells(), &cells);
    board.move_cells(Direction::Left);
    assert_eq!(&board.cells()[0..8], &[1u8, 2, 3, 4, 5, 6, 7, 9][..]);
    assert!(board.cells()[8] == 1 || board.cells()[8] == 2);
    assert!(board.is_game_over());
}

#[test]
fn a_move_against_the_wall_spawns_nothing() {
    let mut cells: Vec<u8> = vec![0; 9];
    cells[0] = 3;
    let mut board = GameBoard::from_cells(3, cells.clone()).unwrap();
    board.move_cells(Direction::Up);
    assert_eq!(board.cells(), &cells);
    board.move_cells(Direction::Left);
    assert_eq!(board.cells(), &cells);
    assert!(!board.is_game_over());
    board.move_cells(Direction::Right);
    assert_eq!(board.cells()[2], 3);
    assert_eq!(board.empty_cells().len(), 7);
}

#[test]
fn a_move_on_an_empty_board_ends_the_game() {
    let mut board = GameBoard::new(3).unwrap();
    board.move_cells(Direction::Down);
    assert!(board.is_game_over());
    assert_eq!(board.cells(), &vec![0u8; 9]);
}

#[test]
fn a_move_after_the_end_changes_nothing() {
    let mut board = GameBoard::new(2).unwrap();
    board.move_cells(Direction::Up);
    assert!(board.is_game_over());
    board.place_tile(1, 0).unwrap();
    assert_eq!(board.cells(), &vec![0u8, 2, 0, 0]);
    assert!(board.is_game_over());
    board.move_cells(Direction::Left);
    board.move_cells(Direction::Down);
    assert_eq!(board.cells(), &vec![0u8, 2, 0, 0]);
    assert!(board.is_game_over());
}

#[test]
fn a_move_slides_merges_and_spawns_one_tile() {
    let cells: Vec<u8> = vec![
        1, 1, 0, 0, //
        0, 0, 0, 0, //
        2, 0, 2, 3, //
        0, 0, 0, 0,
    ];
    let slid: Vec<u8> = vec![
        2, 0, 0, 0, //
        0, 0, 0, 0, //
        3, 3, 0, 0, //
        0, 0, 0, 0,
    ];
    for _ in 0..20 {
        let mut board = GameBoard::from_cells(4, cells.clone()).unwrap();
        board.move_cells(Direction::Left);
        let changed = differing_cells(&slid, board.cells());
        assert_eq!(changed.len(), 1);
        assert_eq!(slid[changed[0]], 0);
        assert!(board.cells()[changed[0]] == 1 || board.cells()[changed[0]] == 2);
        assert!(!board.is_game_over());
        let again = GameBoard::from_cells(4, board.cells().clone()).unwrap();
        for dir in ALL_DIRECTIONS {
            assert_eq!(board.merge_prediction(dir), again.merge_prediction(dir));
        }
    }
}

#[test]
fn a_long_game_keeps_the_board_in_order() {
    let mut board = GameBoard::new(4).unwrap();
    board.generate().unwrap();
    let mut round = 0;
    while !board.is_game_over() && round < 5000 {
        let before = board.cells().clone();
        let dir = ALL_DIRECTIONS[(round * 7 + round / 3) % 4];
        let predicted = board.merge_prediction(dir).clone();
        board.move_cells(dir);
        assert_eq!(board.cells().len(), 16);
        assert!(board.cells().iter().all(|rank| *rank <= 17));
        if predicted == before {
            assert_eq!(board.cells(), &before);
        } else {
            assert_eq!(differing_cells(&predicted, board.cells()).len(), 1);
        }
        round += 1;
    }
    if board.is_game_over() {
        for dir in ALL_DIRECTIONS {
            assert_eq!(board.merge_prediction(dir), board.cells());
        }
    }
}

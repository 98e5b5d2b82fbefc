use hardy::board::{Board, BoardError, GameResult, Move};
use hardy::player::Player::{O, X};
use hardy::server::game_query::GameQuery;
use hardy::size::Size;
use uuid::Uuid;

#[test]
fn test_boards_creation() {
    let board1 = Board::new(Size::from_usize(3));
    let board2 = Board::new(Size::from_usize(5));
    let board3 = Board::new(Size::from_usize(7));

    assert_eq!(board1.size, 3usize);
    assert_eq!(board2.size, 5usize);
    assert_eq!(board3.size, 7usize);
}

#[test]
fn test_if_empty() {
    let mut board1 = Board::new(Size::from_usize(3));
    assert_eq!(board1.is_empty(), true);

    board1.add_move(X, (1, 1)).unwrap();
    assert_eq!(board1.is_empty(), false);
}

#[test]
fn test_display() {
    let mut board1 = Board::new(Size::from_usize(3));
    board1.add_move(X, (0, 0)).unwrap();
    board1.add_move(O, (1, 1)).unwrap();
    board1.add_move(X, (0, 1)).unwrap();
    board1.add_move(O, (0, 2)).unwrap();
    board1
        .add_a_move(Move {
            player: X,
            position: (2, 0),
        })
        .unwrap();
}

#[test]
fn test_from_game_query() {
    let query_1 = GameQuery {
        gid: Uuid::new_v4(),
        size: 3,
        playing: O,
        moves: vec![
            Move {
                player: X,
                position: (1, 1),
            },
            Move {
                player: O,
                position: (0, 1),
            },
            Move {
                player: X,
                position: (2, 1),
            },
        ],
    };

    let board = Board::try_from(query_1).unwrap();
    assert_eq!(board.result(), GameResult::Pending)
}

#[test]
fn test_game_result_pending() {
    let mut board1 = Board::new(Size::from_usize(3));
    board1.add_move(X, (0, 0)).unwrap();
    board1.add_move(O, (1, 1)).unwrap();
    board1.add_move(X, (0, 1)).unwrap();
    board1.add_move(O, (0, 2)).unwrap();
    board1.add_move(X, (2, 2)).unwrap();
    assert_eq!(board1.result(), GameResult::Pending);
}

#[test]
fn test_game_result_winner() {
    let mut board1 = Board::new(Size::from_usize(3));
    board1.add_move(X, (0, 0)).unwrap();
    board1.add_move(O, (1, 1)).unwrap();
    board1.add_move(X, (0, 1)).unwrap();
    board1.add_move(O, (0, 2)).unwrap();
    board1.add_move(X, (2, 2)).unwrap();
    board1.add_move(O, (2, 0)).unwrap();
    assert_eq!(board1.result(), GameResult::Won(O));
}

#[test]
fn test_game_result_tie() {
    let mut board1 = Board::new(Size::from_usize(3));
    board1.add_move(X, (0, 0)).unwrap();
    board1.add_move(O, (0, 1)).unwrap();
    board1.add_move(X, (0, 2)).unwrap();
    board1.add_move(O, (1, 0)).unwrap();
    board1.add_move(X, (1, 2)).unwrap();
    board1.add_move(O, (1, 1)).unwrap();
    board1.add_move(X, (2, 0)).unwrap();
    board1.add_move(O, (2, 2)).unwrap();
    board1.add_move(X, (2, 1)).unwrap();
    assert_eq!(board1.result(), GameResult::Tie);
}

#[test]
fn fresh_boards_are_empty_and_pending() {
    for (raw, n) in [(3, 3usize), (5, 5), (7, 7)] {
        let board = Board::new(Size::from_usize(raw));
        let positions = board.empty_positions();
        assert_eq!(positions.len(), n * n);
        assert_eq!(positions[0], (0, 0));
        assert_eq!(positions[n + 1], (1, 1));
        assert_eq!(positions[n * n - 1], (n - 1, n - 1));
        assert_eq!(board.result(), GameResult::Pending);
        assert_eq!(board.number_of_moves(), 0);
        assert!(board.is_empty());
    }
}

#[test]
fn move_out_of_bounds_is_refused_without_change() {
    let mut board = Board::new(Size::Size3);
    board.add_move(X, (0, 0)).unwrap();
    let before = board.cells.clone();
    assert_eq!(board.add_move(O, (3, 0)), Err(BoardError::OutOfBounds));
    assert_eq!(board.add_move(O, (0, 3)), Err(BoardError::OutOfBounds));
    assert_eq!(board.add_move(O, (9, 9)), Err(BoardError::OutOfBounds));
    assert_eq!(board.cells, before);
    assert_eq!(board.number_of_moves(), 1);
}

#[test]
fn move_on_taken_cell_is_refused_without_change() {
    let mut board = Board::new(Size::Size5);
    board.add_move(X, (2, 3)).unwrap();
    let before = board.cells.clone();
    assert_eq!(board.add_move(O, (2, 3)), Err(BoardError::CellOccupied));
    assert_eq!(board.add_move(X, (2, 3)), Err(BoardError::CellOccupied));
    assert_eq!(board.cells, before);
    assert_eq!(board.cells[2 * 5 + 3], Some(X));
}

#[test]
fn result_is_the_same_when_asked_again() {
    let mut board = Board::new(Size::Size3);
    board.add_move(X, (0, 0)).unwrap();
    board.add_move(O, (1, 1)).unwrap();
    let first = board.result();
    let _ = board.empty_positions();
    let _ = board.number_of_moves();
    assert_eq!(board.result(), first);
    assert_eq!(board.result(), GameResult::Pending);
}

#[test]
fn counts_moves_and_lists_empty_positions_in_row_major_order() {
    let mut board = Board::new(Size::Size3);
    board.add_move(X, (0, 1)).unwrap();
    board.add_move(O, (2, 2)).unwrap();
    board.add_move(X, (1, 0)).unwrap();
    assert_eq!(board.number_of_moves(), 3);
    assert_eq!(
        board.empty_positions(),
        vec![(0, 0), (0, 2), (1, 1), (1, 2), (2, 0), (2, 1)]
    );
}

#[test]
fn row_column_and_diagonal_wins_on_larger_boards() {
    let mut row = Board::new(Size::Size5);
    for c in 1..5 {
        row.add_move(O, (4, c)).unwrap();
    }
    assert_eq!(row.result(), GameResult::Won(O));

    let mut three = Board::new(Size::Size5);
    for c in 0..3 {
        three.add_move(X, (0, c)).unwrap();
    }
    assert_eq!(three.result(), GameResult::Pending);

    let mut column = Board::new(Size::Size7);
    for r in 3..7 {
        column.add_move(X, (r, 6)).unwrap();
    }
    assert_eq!(column.result(), GameResult::Won(X));

    let mut diagonal = Board::new(Size::Size7);
    for i in 0..4 {
        diagonal.add_move(X, (2 + i, 1 + i)).unwrap();
    }
    assert_eq!(diagonal.result(), GameResult::Won(X));

    let mut anti = Board::new(Size::Size5);
    for i in 0..4 {
        anti.add_move(O, (1 + i, 3 - i)).unwrap();
    }
    assert_eq!(anti.result(), GameResult::Won(O));
}

#[test]
fn broken_run_does_not_win() {
    let mut board = Board::new(Size::Size5);
    board.add_move(X, (0, 0)).unwrap();
    board.add_move(X, (0, 1)).unwrap();
    board.add_move(O, (0, 2)).unwrap();
    board.add_move(X, (0, 3)).unwrap();
    board.add_move(X, (0, 4)).unwrap();
    assert_eq!(board.result(), GameResult::Pending);
}

#[test]
fn render_draws_rows_of_glyphs() {
    let mut board = Board::new(Size::Size3);
    board.add_move(X, (0, 0)).unwrap();
    board.add_move(O, (1, 1)).unwrap();
    board.add_move(X, (2, 0)).unwrap();
    assert_eq!(board.render(), "X..\n.O.\nX..\n");
}

#[test]
fn replay_refuses_bad_moves_and_sizes() {
    let occupied = GameQuery {
        gid: Uuid::new_v4(),
        size: 3,
        playing: X,
        moves: vec![
            Move { player: X, position: (1, 1) },
            Move { player: O, position: (1, 1) },
        ],
    };
    assert_eq!(Board::try_from(occupied).unwrap_err(), BoardError::CellOccupied);

    let off_board = GameQuery {
        gid: Uuid::new_v4(),
        size: 3,
        playing: X,
        moves: vec![Move { player: X, position: (3, 4) }],
    };
    assert_eq!(Board::try_from(off_board).unwrap_err(), BoardError::OutOfBounds);

    let bad_size = GameQuery {
        gid: Uuid::new_v4(),
        size: 4,
        playing: X,
        moves: vec![],
    };
    assert_eq!(Board::try_from(bad_size).unwrap_err(), BoardError::UnsupportedSize);
}

#[test]
fn replay_uses_the_query_size() {
    let query = GameQuery {
        gid: Uuid::new_v4(),
        size: 7,
        playing: O,
        moves: vec![Move { player: X, position: (6, 6) }],
    };
    let board = Board::try_from(query).unwrap();
    assert_eq!(board.size, 7);
    assert_eq!(board.number_of_moves(), 1);
    assert_eq!(board.cells[48], Some(X));
}

#[test]
fn malformed_board_is_recognised() {
    assert!(Board::new(Size::Size5).is_well_formed());
    let broken = Board { cells: vec![None; 4], size: 3 };
    assert!(!broken.is_well_formed());
}

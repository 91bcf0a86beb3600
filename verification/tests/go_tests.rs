use puzzle_engine::go::{Board, Game, GameResult, Point, Stone};

#[test]
fn test_board_creation() {
    let board = Board::new(19);
    assert_eq!(board.size, 19);
}

#[test]
fn test_place_and_get_stone() {
    let mut board = Board::new(9);
    let p = Point::new(0, 0);
    let _ = board.place_stone(p, Stone::Black);
    assert_eq!(board.get(p), Some(Stone::Black));
}

#[test]
fn test_place_stone_twice_should_error() {
    let mut board = Board::new(9);
    let p = Point::new(2, 2);
    board.place_stone(p, Stone::White).unwrap();
    let result = board.place_stone(p, Stone::Black);
    assert_eq!(result, Err("Point already occupied"));
}

#[test]
fn test_game_initial_state() {
    let game = Game::new(13);
    assert_eq!(game.board.size, 13);
    assert_eq!(game.to_move, Stone::Black);
    assert_eq!(game.result, GameResult::Ongoing);
}

#[test]
fn test_play_alternates_turns() {
    let mut game = Game::new(9);
    assert_eq!(game.to_move, Stone::Black);
    game.play(Point::new(1, 1)).unwrap();
    assert_eq!(game.to_move, Stone::White);
}

#[test]
fn test_resign_ends_game() {
    let mut game = Game::new(9);
    game.resign();
    assert_eq!(game.result, GameResult::Resigned(Stone::Black));
}

#[test]
fn test_cannot_play_after_resign() {
    let mut game = Game::new(9);
    game.resign();
    let result = game.play(Point::new(2, 2));
    assert_eq!(result, Err("Game is already over"));
}

#[test]
fn go_occupied_point_keeps_first_stone() {
    let mut game = Game::new(9);
    game.play(Point::new(3, 3)).unwrap();
    // White tries the same point: rejected, and the turn stays White's
    assert_eq!(game.play(Point::new(3, 3)), Err("Point already occupied"));
    assert_eq!(game.to_move, Stone::White);
    assert_eq!(game.board.get(Point::new(3, 3)), Some(Stone::Black));
}

#[test]
fn go_get_empty_point_is_none() {
    let board = Board::new(9);
    assert_eq!(board.get(Point::new(4, 4)), None);
}

use puzzle_engine::chess::{Board, Color, GameState, PieceType, Position};

#[test]
fn test_try_move_successful_normal_move() {
    let mut board = Board::new();
    let result = board.try_move(
        Position::new('e', 2).unwrap(),
        Position::new('e', 4).unwrap(),
        None,
    );
    assert!(result.is_ok(), "Expected pawn move from e2 to e4 to succeed.");
    assert_eq!(board.turn, Color::Black, "Turn should switch to Black after move.");
    assert_eq!(
        board.game_state,
        GameState::Ongoing,
        "Game should continue after normal move."
    );
}

#[test]
fn test_try_move_no_piece_at_start() {
    let mut board = Board::new();
    let result = board.try_move(
        Position::new('e', 3).unwrap(),
        Position::new('e', 4).unwrap(),
        None,
    );
    assert!(result.is_err(), "Expected error when no piece at starting position.");
}

#[test]
fn test_try_move_illegal_move_attempt() {
    let mut board = Board::new();
    let result = board.try_move(
        Position::new('e', 2).unwrap(),
        Position::new('e', 5).unwrap(),
        None,
    ); // Illegal: pawn can't jump to e5 directly
    assert!(result.is_err(), "Expected illegal move error for pawn jumping 3 spaces.");
}

#[test]
fn test_try_move_not_players_turn() {
    let mut board = Board::new();
    board.turn = Color::Black;
    let result = board.try_move(
        Position::new('e', 2).unwrap(),
        Position::new('e', 4).unwrap(),
        None,
    );
    assert!(result.is_err(), "Expected error when moving out of turn.");
}

#[test]
fn test_try_move_into_check_disallowed() {
    let pieces = vec![
        ('a', 1, Color::White, PieceType::King),
        ('b', 2, Color::Black, PieceType::Rook),
    ];
    let turn = Color::White;
    let game_state = GameState::Ongoing;
    let mut board = Board::new();
    board.initialize_custom(pieces, turn, game_state);
    let result = board.try_move(
        Position::new('a', 1).unwrap(),
        Position::new('b', 1).unwrap(),
        None,
    );
    assert!(result.is_err(), "Expected error when moving into check.");
}

#[test]
fn test_try_move_checkmate_after_move() {
    let pieces = vec![
        ('a', 1, Color::White, PieceType::King),
        ('d', 8, Color::Black, PieceType::Queen),
        ('b', 3, Color::Black, PieceType::King),
    ];
    let turn = Color::White;
    let game_state = GameState::Ongoing;
    let mut board = Board::new();
    board.initialize_custom(pieces, turn, game_state);
    board.turn = Color::Black;
    let result = board.try_move(
        Position::new('d', 8).unwrap(),
        Position::new('d', 1).unwrap(),
        None,
    );
    assert!(result.is_ok(), "Expected queen move to e5 to succeed.");

    match board.game_state {
        GameState::Checkmate(Color::White) => {},
        other => panic!("Expected White to be checkmated after move, found {:?}", other),
    }
}

#[test]
fn test_try_move_no_checkmate_if_king_can_escape() {
    let pieces = vec![
        ('e', 1, Color::White, PieceType::King),
        ('f', 3, Color::Black, PieceType::Queen),
    ];
    let turn = Color::Black;
    let game_state = GameState::Ongoing;
    let mut board = Board::new();
    board.initialize_custom(pieces, turn, game_state);
    let result = board.try_move(
        Position::new('f', 3).unwrap(),
        Position::new('f', 2).unwrap(),
        None,
    );
    assert!(result.is_ok(), "Expected move to succeed.");
    assert_eq!(
        board.game_state,
        GameState::Ongoing,
        "Game should remain ongoing (king can escape)."
    );
}

#[test]
fn test_try_move_stalemate_placeholder() {
    let board = Board::new();

    assert_eq!(
        board.game_state,
        GameState::Ongoing,
        "Empty board should be ongoing (no stalemate yet)."
    );
}

#[test]
fn test_try_move_fools_mate_checkmate() {
    let mut board = Board::new();

    // Fool's Mate (quickest checkmate in chess)
    board
        .try_move(
            Position::new('f', 2).unwrap(),
            Position::new('f', 3).unwrap(),
            None,
        )
        .unwrap();
    board
        .try_move(
            Position::new('e', 7).unwrap(),
            Position::new('e', 5).unwrap(),
            None,
        )
        .unwrap();
    board
        .try_move(
            Position::new('g', 2).unwrap(),
            Position::new('g', 4).unwrap(),
            None,
        )
        .unwrap();
    board
        .try_move(
            Position::new('d', 8).unwrap(),
            Position::new('h', 4).unwrap(),
            None,
        )
        .unwrap();

    match board.game_state {
        GameState::Checkmate(Color::White) => {},
        other => panic!("Expected White to be checkmated in Fool's Mate, found {:?}", other),
    }
}

#[test]
fn test_pawn_promotion_to_queen() {
    let mut board = Board::new();
    board.initialize_custom(
        vec![('a', 7, Color::White, PieceType::Pawn)],
        Color::White,
        GameState::Ongoing,
    );

    // Move to 8th rank with promotion
    let from = Position::new('a', 7).unwrap();
    let to = Position::new('a', 8).unwrap();
    board.try_move(from, to, Some(PieceType::Queen)).unwrap();

    let piece = board.piece_at(to).unwrap();
    assert_eq!(piece.kind, PieceType::Queen);
    assert_eq!(piece.color, Color::White);
}

#[test]
fn test_pawn_promotion_checkmate() {
    let pieces = vec![
        ('h', 8, Color::Black, PieceType::Rook),
        ('h', 7, Color::Black, PieceType::King),
        ('g', 7, Color::Black, PieceType::Pawn),
        ('g', 8, Color::Black, PieceType::Bishop),
        ('g', 8, Color::Black, PieceType::Bishop),
        ('h', 6, Color::Black, PieceType::Rook),
        ('f', 7, Color::White, PieceType::Pawn),
    ];
    let turn = Color::White;
    let game_state = GameState::Ongoing;
    let mut board = Board::new();
    board.initialize_custom(pieces, turn, game_state);
    let from = Position { file: ('f'), rank: (7) };
    let to = Position { file: ('f'), rank: (8) };
    board.try_move(from, to, Some(PieceType::Knight)).unwrap();

    assert_eq!(GameState::Checkmate(Color::Black), board.game_state);
}

#[test]
fn test_white_kingside_castling() {
    let pieces = vec![
        ('e', 1, Color::White, PieceType::King),
        ('h', 1, Color::White, PieceType::Rook),
    ];
    let turn = Color::White;
    let game_state = GameState::Ongoing;
    let mut board = Board::new();
    board.initialize_custom(pieces, turn, game_state);

    assert!(board
        .try_move(
            Position::new('e', 1).unwrap(),
            Position::new('g', 1).unwrap(),
            None
        )
        .is_ok());

    assert_eq!(
        board.piece_at(Position::new('g', 1).unwrap()).unwrap().kind,
        PieceType::King,
        "King not at g1"
    );
    assert_eq!(
        board.piece_at(Position::new('f', 1).unwrap()).unwrap().kind,
        PieceType::Rook,
        "Rook not at f1"
    );
}

#[test]
fn test_white_kingside_castling_with_piece_blocking() {
    let pieces = vec![
        ('e', 1, Color::White, PieceType::King),
        ('h', 1, Color::White, PieceType::Rook),
        ('g', 1, Color::White, PieceType::Queen),
    ];
    let turn = Color::White;
    let game_state = GameState::Ongoing;
    let mut board = Board::new();
    board.initialize_custom(pieces, turn, game_state);

    assert!(board
        .try_move(
            Position::new('e', 1).unwrap(),
            Position::new('g', 1).unwrap(),
            None
        )
        .is_err());
}

#[test]
fn test_white_kingside_castling_with_check_blocking() {
    let pieces = vec![
        ('e', 1, Color::White, PieceType::King),
        ('h', 1, Color::White, PieceType::Rook),
        ('g', 5, Color::Black, PieceType::Queen),
    ];
    let turn = Color::White;
    let game_state = GameState::Ongoing;
    let mut board = Board::new();
    board.initialize_custom(pieces, turn, game_state);

    assert!(board
        .try_move(
            Position::new('e', 1).unwrap(),
            Position::new('g', 1).unwrap(),
            None
        )
        .is_err());
}

#[test]
fn test_black_queenside_castling() {
    let pieces = vec![
        ('e', 8, Color::Black, PieceType::King),
        ('a', 8, Color::Black, PieceType::Rook),
    ];
    let turn = Color::Black;
    let game_state = GameState::Ongoing;
    let mut board = Board::new();
    board.initialize_custom(pieces, turn, game_state);

    assert!(board
        .try_move(
            Position::new('e', 8).unwrap(),
            Position::new('c', 8).unwrap(),
            None
        )
        .is_ok());

    assert_eq!(
        board.piece_at(Position::new('c', 8).unwrap()).unwrap().kind,
        PieceType::King
    );
    assert_eq!(
        board.piece_at(Position::new('d', 8).unwrap()).unwrap().kind,
        PieceType::Rook
    );
}

use puzzle_engine::chess::{Board, CastleError, Color, GameState, MoveError, PieceType, Position};

fn boards_equal_in_content(a: &Board, b: &Board) -> bool {
    for file in 'a'..='h' {
        for rank in 1..=8u8 {
            let pos = Position::new(file, rank).unwrap();
            if a.piece_at(pos) != b.piece_at(pos) {
                return false;
            }
        }
    }
    a.turn == b.turn
        && a.game_state == b.game_state
        && a.white_can_castle_kingside == b.white_can_castle_kingside
        && a.white_can_castle_queenside == b.white_can_castle_queenside
        && a.black_can_castle_kingside == b.black_can_castle_kingside
        && a.black_can_castle_queenside == b.black_can_castle_queenside
}

#[test]
fn square_construction_and_text_round_trip() {
    // every file/rank pair on the board constructs, and its text form is
    // exactly `<file><rank>`
    for file in 'a'..='h' {
        for rank in 1..=8u8 {
            let pos = Position::new(file, rank).expect("valid square must construct");
            assert_eq!(pos.file, file);
            assert_eq!(pos.rank, rank);
            assert_eq!(pos.to_text(), format!("{}{}", file, rank));
        }
    }
    // pairs off the board all fail construction
    assert!(Position::new('i', 1).is_none());
    assert!(Position::new('`', 5).is_none());
    assert!(Position::new('A', 4).is_none());
    assert!(Position::new('a', 0).is_none());
    assert!(Position::new('h', 9).is_none());
    assert!(Position::new('z', 200).is_none());
}

#[test]
fn pawn_e2_moves_exactly_e3_e4() {
    let board = Board::new();
    let moves = board.get_legal_moves(Position::new('e', 2).unwrap());
    assert_eq!(moves.len(), 2);
    assert!(moves.contains(&Position::new('e', 3).unwrap()));
    assert!(moves.contains(&Position::new('e', 4).unwrap()));
}

#[test]
fn lone_rook_d4_has_fourteen_destinations() {
    let mut board = Board::new();
    board.initialize_custom(
        vec![('d', 4, Color::White, PieceType::Rook)],
        Color::White,
        GameState::Ongoing,
    );
    let moves = board.get_legal_moves(Position::new('d', 4).unwrap());
    assert_eq!(moves.len(), 14);
    let expected = [
        ('a', 4),
        ('b', 4),
        ('c', 4),
        ('e', 4),
        ('f', 4),
        ('g', 4),
        ('h', 4),
        ('d', 1),
        ('d', 2),
        ('d', 3),
        ('d', 5),
        ('d', 6),
        ('d', 7),
        ('d', 8),
    ];
    for (file, rank) in expected.iter() {
        assert!(
            moves.contains(&Position::new(*file, *rank).unwrap()),
            "missing destination {}{}",
            file,
            rank
        );
    }
}

#[test]
fn cornered_king_under_two_rooks_is_checkmated() {
    let mut board = Board::new();
    board.initialize_custom(
        vec![
            ('a', 1, Color::White, PieceType::King),
            ('a', 2, Color::Black, PieceType::Rook),
            ('b', 2, Color::Black, PieceType::Rook),
        ],
        Color::White,
        GameState::Ongoing,
    );
    assert!(board.is_in_check(Color::White));
    assert!(board.is_checkmate(Color::White));
}

#[test]
fn rook_at_a3_checks_but_king_escapes() {
    let mut board = Board::new();
    board.initialize_custom(
        vec![
            ('a', 1, Color::White, PieceType::King),
            ('a', 3, Color::Black, PieceType::Rook),
        ],
        Color::White,
        GameState::Ongoing,
    );
    assert!(board.is_in_check(Color::White));
    assert!(!board.is_checkmate(Color::White), "b1 escapes the rook's file");
}

#[test]
fn kingside_castle_relocates_and_revokes_rights() {
    let mut board = Board::new();
    board.initialize_custom(
        vec![
            ('e', 1, Color::White, PieceType::King),
            ('h', 1, Color::White, PieceType::Rook),
        ],
        Color::White,
        GameState::Ongoing,
    );
    let result = board.try_move(
        Position::new('e', 1).unwrap(),
        Position::new('g', 1).unwrap(),
        None,
    );
    assert!(result.is_ok());
    let king = board.piece_at(Position::new('g', 1).unwrap()).unwrap();
    assert_eq!(king.kind, PieceType::King);
    let rook = board.piece_at(Position::new('f', 1).unwrap()).unwrap();
    assert_eq!(rook.kind, PieceType::Rook);
    assert!(board.piece_at(Position::new('e', 1).unwrap()).is_none());
    assert!(board.piece_at(Position::new('h', 1).unwrap()).is_none());
    assert!(!board.white_can_castle_kingside, "kingside right must be revoked");
    assert!(!board.white_can_castle_queenside, "queenside right is revoked too");
    assert_eq!(board.turn, Color::Black);
}

#[test]
fn failed_castle_leaves_board_unchanged() {
    // a rook missing, a blocked path, a king in check, and a checked
    // transit square each reject the castle and change nothing
    let setups: [Vec<(char, u8, Color, PieceType)>; 4] = [
        // rook missing
        vec![('e', 1, Color::White, PieceType::King)],
        // path blocked by own queen
        vec![
            ('e', 1, Color::White, PieceType::King),
            ('h', 1, Color::White, PieceType::Rook),
            ('f', 1, Color::White, PieceType::Queen),
        ],
        // king currently in check
        vec![
            ('e', 1, Color::White, PieceType::King),
            ('h', 1, Color::White, PieceType::Rook),
            ('e', 8, Color::Black, PieceType::Rook),
        ],
        // king would transit an attacked square
        vec![
            ('e', 1, Color::White, PieceType::King),
            ('h', 1, Color::White, PieceType::Rook),
            ('f', 8, Color::Black, PieceType::Rook),
        ],
    ];
    for pieces in setups {
        let mut board = Board::new();
        board.initialize_custom(pieces, Color::White, GameState::Ongoing);
        let snapshot = board.clone_board();
        let result = board.try_move(
            Position::new('e', 1).unwrap(),
            Position::new('g', 1).unwrap(),
            None,
        );
        assert!(result.is_err());
        assert!(
            boards_equal_in_content(&board, &snapshot),
            "a rejected castle must leave the board untouched"
        );
    }
}

#[test]
fn promotion_with_explicit_choice_takes_that_kind() {
    let mut board = Board::new();
    board.initialize_custom(
        vec![('b', 7, Color::White, PieceType::Pawn)],
        Color::White,
        GameState::Ongoing,
    );
    let to = Position::new('b', 8).unwrap();
    board
        .try_move(Position::new('b', 7).unwrap(), to, Some(PieceType::Rook))
        .unwrap();
    assert_eq!(board.piece_at(to).unwrap().kind, PieceType::Rook);
}

#[test]
fn promotion_without_choice_defaults_to_queen() {
    let mut board = Board::new();
    board.initialize_custom(
        vec![('b', 7, Color::White, PieceType::Pawn)],
        Color::White,
        GameState::Ongoing,
    );
    let to = Position::new('b', 8).unwrap();
    board
        .try_move(Position::new('b', 7).unwrap(), to, None)
        .unwrap();
    assert_eq!(board.piece_at(to).unwrap().kind, PieceType::Queen);
}

#[test]
fn promotion_to_king_or_pawn_is_rejected_after_commit() {
    for bad_choice in [PieceType::King, PieceType::Pawn] {
        let mut board = Board::new();
        board.initialize_custom(
            vec![('b', 7, Color::White, PieceType::Pawn)],
            Color::White,
            GameState::Ongoing,
        );
        let to = Position::new('b', 8).unwrap();
        let result = board.try_move(Position::new('b', 7).unwrap(), to, Some(bad_choice));
        assert_eq!(result, Err(MoveError::InvalidPromotion));
        // the rejection comes after the move itself was committed: the
        // pawn sits on the last rank unpromoted, and the turn is unchanged
        assert_eq!(board.piece_at(to).unwrap().kind, PieceType::Pawn);
        assert!(board.piece_at(Position::new('b', 7).unwrap()).is_none());
        assert_eq!(board.turn, Color::White);
    }
}

#[test]
fn black_pawn_promotes_on_first_rank() {
    let mut board = Board::new();
    board.initialize_custom(
        vec![('g', 2, Color::Black, PieceType::Pawn)],
        Color::Black,
        GameState::Ongoing,
    );
    let to = Position::new('g', 1).unwrap();
    board
        .try_move(Position::new('g', 2).unwrap(), to, Some(PieceType::Knight))
        .unwrap();
    let piece = board.piece_at(to).unwrap();
    assert_eq!(piece.kind, PieceType::Knight);
    assert_eq!(piece.color, Color::Black);
}

#[test]
fn reset_matches_fresh_board_after_any_history() {
    let mut board = Board::new();
    // play a short game that alters squares, rights and the game state
    board
        .try_move(
            Position::new('f', 2).unwrap(),
            Position::new('f', 3).unwrap(),
            None,
        )
        .unwrap();
    board
        .try_move(
            Position::new('e', 7).unwrap(),
            Position::new('e', 5).unwrap(),
            None,
        )
        .unwrap();
    board
        .try_move(
            Position::new('g', 2).unwrap(),
            Position::new('g', 4).unwrap(),
            None,
        )
        .unwrap();
    board
        .try_move(
            Position::new('d', 8).unwrap(),
            Position::new('h', 4).unwrap(),
            None,
        )
        .unwrap();
    assert_eq!(board.game_state, GameState::Checkmate(Color::White));

    board.reset();
    let fresh = Board::new();
    assert!(
        boards_equal_in_content(&board, &fresh),
        "reset must restore squares, turn, rights and state"
    );
}

#[test]
fn move_errors_name_each_rejection() {
    // no piece at the source
    let mut board = Board::new();
    let result = board.try_move(
        Position::new('e', 3).unwrap(),
        Position::new('e', 4).unwrap(),
        None,
    );
    assert_eq!(result, Err(MoveError::NoPieceAtSource));

    // a piece of the side not to move
    let result = board.try_move(
        Position::new('e', 7).unwrap(),
        Position::new('e', 5).unwrap(),
        None,
    );
    assert_eq!(result, Err(MoveError::WrongTurn));

    // a destination the piece cannot reach
    let result = board.try_move(
        Position::new('e', 2).unwrap(),
        Position::new('e', 5).unwrap(),
        None,
    );
    assert_eq!(result, Err(MoveError::IllegalDestination));

    // a move that exposes the mover's own king
    let mut board = Board::new();
    board.initialize_custom(
        vec![
            ('a', 1, Color::White, PieceType::King),
            ('b', 2, Color::Black, PieceType::Rook),
        ],
        Color::White,
        GameState::Ongoing,
    );
    let result = board.try_move(
        Position::new('a', 1).unwrap(),
        Position::new('b', 1).unwrap(),
        None,
    );
    assert_eq!(result, Err(MoveError::SelfCheck));
}

#[test]
fn castle_errors_name_each_rejection() {
    // rook missing
    let mut board = Board::new();
    board.initialize_custom(
        vec![('e', 1, Color::White, PieceType::King)],
        Color::White,
        GameState::Ongoing,
    );
    let result = board.try_move(
        Position::new('e', 1).unwrap(),
        Position::new('g', 1).unwrap(),
        None,
    );
    assert_eq!(result, Err(MoveError::RookMissing));

    // castling while in check
    let mut board = Board::new();
    board.initialize_custom(
        vec![
            ('e', 1, Color::White, PieceType::King),
            ('h', 1, Color::White, PieceType::Rook),
            ('e', 8, Color::Black, PieceType::Rook),
        ],
        Color::White,
        GameState::Ongoing,
    );
    let result = board.try_move(
        Position::new('e', 1).unwrap(),
        Position::new('g', 1).unwrap(),
        None,
    );
    assert_eq!(result, Err(MoveError::CastleWhileInCheck));

    // castling through an attacked square
    let mut board = Board::new();
    board.initialize_custom(
        vec![
            ('e', 1, Color::White, PieceType::King),
            ('h', 1, Color::White, PieceType::Rook),
            ('f', 8, Color::Black, PieceType::Rook),
        ],
        Color::White,
        GameState::Ongoing,
    );
    let result = board.try_move(
        Position::new('e', 1).unwrap(),
        Position::new('g', 1).unwrap(),
        None,
    );
    assert_eq!(result, Err(MoveError::CastleThroughCheck));

    // the castling subsystem itself reports a revoked right and a
    // blocked path
    let mut board = Board::new();
    board.initialize_custom(
        vec![
            ('e', 1, Color::White, PieceType::King),
            ('h', 1, Color::White, PieceType::Rook),
        ],
        Color::White,
        GameState::Ongoing,
    );
    board.white_can_castle_kingside = false;
    assert_eq!(
        board.try_castle(Color::White, true),
        Err(CastleError::CastlingForbidden)
    );

    let mut board = Board::new();
    board.initialize_custom(
        vec![
            ('e', 1, Color::White, PieceType::King),
            ('h', 1, Color::White, PieceType::Rook),
            ('f', 1, Color::White, PieceType::Queen),
        ],
        Color::White,
        GameState::Ongoing,
    );
    assert_eq!(
        board.try_castle(Color::White, true),
        Err(CastleError::PathBlocked)
    );
}

#[test]
fn moving_king_or_rook_revokes_matching_rights() {
    let mut board = Board::new();
    // advance pawns to free the rooks' files
    board
        .try_move(
            Position::new('a', 2).unwrap(),
            Position::new('a', 4).unwrap(),
            None,
        )
        .unwrap();
    board
        .try_move(
            Position::new('a', 7).unwrap(),
            Position::new('a', 5).unwrap(),
            None,
        )
        .unwrap();
    // white rook leaves a1: white queenside right falls, the rest stand
    board
        .try_move(
            Position::new('a', 1).unwrap(),
            Position::new('a', 3).unwrap(),
            None,
        )
        .unwrap();
    assert!(!board.white_can_castle_queenside);
    assert!(board.white_can_castle_kingside);
    assert!(board.black_can_castle_kingside);
    assert!(board.black_can_castle_queenside);
    // black rook leaves a8: black queenside right falls
    board
        .try_move(
            Position::new('a', 8).unwrap(),
            Position::new('a', 6).unwrap(),
            None,
        )
        .unwrap();
    assert!(!board.black_can_castle_queenside);
    assert!(board.black_can_castle_kingside);
}

#[test]
fn position_text_forms_are_exact() {
    assert_eq!(Position::new('e', 4).unwrap().to_text(), "e4");
    assert_eq!(Position::new('a', 1).unwrap().to_text(), "a1");
    assert_eq!(Position::new('h', 8).unwrap().to_text(), "h8");
}

#[test]
fn display_renders_lone_piece_grid() {
    let mut board = Board::new();
    board.initialize_custom(
        vec![('a', 1, Color::White, PieceType::King)],
        Color::White,
        GameState::Ongoing,
    );
    let output = board.write_display();
    let lines: Vec<&str> = output.lines().collect();
    assert_eq!(lines.len(), 9);
    assert_eq!(lines[8], "   a  b  c  d  e  f  g  h");
    assert_eq!(lines[7], "1  ♔  .  .  .  .  .  .  . ");
    assert_eq!(lines[0], "8  .  .  .  .  .  .  .  . ");
}

use puzzle_engine::chess::{Board, Color, GameState, Piece, PieceType, Position};

#[test]
fn test_moves_in_directions_empty_board() {
    let board = Board::new();
    let from = Position::new('d', 4).unwrap();
    let directions = &[(1, 0)]; // East

    let moves = board.moves_in_directions(from, directions, Color::White);
    let expected_files = ['e', 'f', 'g', 'h'];

    assert_eq!(moves.len(), expected_files.len());
    for (i, pos) in moves.iter().enumerate() {
        assert_eq!(pos.file, expected_files[i]);
        assert_eq!(pos.rank, 4);
    }
}

#[test]
fn test_moves_blocked_by_ally() {
    let mut board = Board::new();
    let from = Position::new('d', 4).unwrap();
    board.set_piece(
        Position::new('f', 4).unwrap(),
        Piece { color: Color::White, kind: PieceType::Pawn },
    );

    let directions = &[(1, 0)]; // East

    let moves = board.moves_in_directions(from, directions, Color::White);
    let expected_files = ['e']; // only up to just before 'f'

    assert_eq!(moves.len(), expected_files.len());
    for (i, pos) in moves.iter().enumerate() {
        assert_eq!(pos.file, expected_files[i]);
        assert_eq!(pos.rank, 4);
    }
}

#[test]
fn test_moves_blocked_by_enemy() {
    let mut board = Board::new();
    let from = Position::new('d', 4).unwrap();
    board.set_piece(
        Position::new('f', 4).unwrap(),
        Piece { color: Color::Black, kind: PieceType::Pawn },
    );

    let directions = &[(1, 0)]; // East

    let moves = board.moves_in_directions(from, directions, Color::White);
    let expected_files = ['e', 'f']; // can capture on 'f'

    assert_eq!(moves.len(), expected_files.len());
    for (i, pos) in moves.iter().enumerate() {
        assert_eq!(pos.file, expected_files[i]);
        assert_eq!(pos.rank, 4);
    }
}

#[test]
fn test_moves_diagonal() {
    let board = Board::new();
    let from = Position::new('d', 4).unwrap();
    let directions = &[(1, 1)]; // Northeast

    let moves = board.moves_in_directions(from, directions, Color::White);
    let expected = [('e', 5), ('f', 6), ('g', 7)];

    assert_eq!(moves.len(), expected.len());
    for (i, pos) in moves.iter().enumerate() {
        assert_eq!(pos.file, expected[i].0);
        assert_eq!(pos.rank, expected[i].1);
    }
}

#[test]
fn test_moves_off_board_edge_case() {
    let board = Board::new();
    let from = Position::new('h', 8).unwrap();
    let directions = &[(1, 0), (0, 1), (1, 1)]; // All directions that should immediately go off board

    let moves = board.moves_in_directions(from, directions, Color::White);

    assert!(
        moves.is_empty(),
        "Should not generate any moves from h8 in these directions"
    );
}

#[test]
fn test_moves_in_multiple_directions() {
    let board = Board::new();
    let from = Position::new('d', 4).unwrap();
    let directions = &[(1, 0), (0, 1)]; // East and North

    let moves = board.moves_in_directions(from, directions, Color::White);

    // d4 east: e4, f4, g4, h4
    // d4 north: d5, d6, d7
    let expected_positions = [
        ('e', 4),
        ('f', 4),
        ('g', 4),
        ('h', 4),
        ('d', 5),
        ('d', 6),
        ('d', 7),
    ];

    assert_eq!(moves.len(), expected_positions.len());
    for expected in expected_positions.iter() {
        assert!(moves.contains(&Position::new(expected.0, expected.1).unwrap()));
    }
}

#[test]
fn test_pawn_initial_double_move() {
    let pieces = vec![('e', 2, Color::White, PieceType::Pawn)];
    let mut board = Board::new();
    board.initialize_custom(pieces, Color::White, GameState::Ongoing);

    let moves = board.get_legal_moves(Position::new('e', 2).unwrap());
    assert!(
        moves.contains(&Position::new('e', 3).unwrap()),
        "Pawn should move forward 1 square."
    );
    assert!(
        moves.contains(&Position::new('e', 4).unwrap()),
        "Pawn should move forward 2 squares on first move."
    );
}

#[test]
fn test_pawn_blocked_forward() {
    let pieces = vec![
        ('e', 2, Color::White, PieceType::Pawn),
        ('e', 3, Color::Black, PieceType::Pawn),
    ];
    let mut board = Board::new();
    board.initialize_custom(pieces, Color::White, GameState::Ongoing);

    let moves = board.get_legal_moves(Position::new('e', 2).unwrap());
    assert!(moves.is_empty(), "Pawn should not move if blocked.");
}

#[test]
fn test_pawn_capture_diagonal() {
    let pieces = vec![
        ('d', 4, Color::White, PieceType::Pawn),
        ('c', 5, Color::Black, PieceType::Pawn),
        ('e', 5, Color::Black, PieceType::Pawn),
    ];
    let mut board = Board::new();
    board.initialize_custom(pieces, Color::White, GameState::Ongoing);

    let moves = board.get_legal_moves(Position::new('d', 4).unwrap());
    assert!(
        moves.contains(&Position::new('c', 5).unwrap()),
        "Pawn should capture diagonally left."
    );
    assert!(
        moves.contains(&Position::new('e', 5).unwrap()),
        "Pawn should capture diagonally right."
    );
}

#[test]
fn test_knight_movement_open_board() {
    let pieces = vec![('d', 4, Color::White, PieceType::Knight)];
    let mut board = Board::new();
    board.initialize_custom(pieces, Color::White, GameState::Ongoing);

    let moves = board.get_legal_moves(Position::new('d', 4).unwrap());
    let expected_positions = [
        ('c', 6),
        ('e', 6),
        ('b', 5),
        ('f', 5),
        ('b', 3),
        ('f', 3),
        ('c', 2),
        ('e', 2),
    ];
    for (file, rank) in expected_positions.iter() {
        assert!(
            moves.contains(&Position::new(*file, *rank).unwrap()),
            "Knight move to {}{} missing.",
            file,
            rank
        );
    }
}

#[test]
fn test_rook_movement_clear() {
    let pieces = vec![('d', 4, Color::White, PieceType::Rook)];
    let mut board = Board::new();
    board.initialize_custom(pieces, Color::White, GameState::Ongoing);

    let moves = board.get_legal_moves(Position::new('d', 4).unwrap());
    let expected_positions = [
        ('d', 5),
        ('d', 6),
        ('d', 7),
        ('d', 8),
        ('d', 3),
        ('d', 2),
        ('d', 1),
        ('e', 4),
        ('f', 4),
        ('g', 4),
        ('h', 4),
        ('c', 4),
        ('b', 4),
        ('a', 4),
    ];
    for (file, rank) in expected_positions.iter() {
        assert!(
            moves.contains(&Position::new(*file, *rank).unwrap()),
            "Rook move to {}{} missing.",
            file,
            rank
        );
    }
}

#[test]
fn test_bishop_movement_clear() {
    let pieces = vec![('d', 4, Color::White, PieceType::Bishop)];
    let mut board = Board::new();
    board.initialize_custom(pieces, Color::White, GameState::Ongoing);

    let moves = board.get_legal_moves(Position::new('d', 4).unwrap());
    let expected_positions = [
        ('e', 5),
        ('f', 6),
        ('g', 7),
        ('h', 8),
        ('c', 5),
        ('b', 6),
        ('a', 7),
        ('e', 3),
        ('f', 2),
        ('g', 1),
        ('c', 3),
        ('b', 2),
        ('a', 1),
    ];
    for (file, rank) in expected_positions.iter() {
        assert!(
            moves.contains(&Position::new(*file, *rank).unwrap()),
            "Bishop move to {}{} missing.",
            file,
            rank
        );
    }
}

#[test]
fn test_queen_movement_clear() {
    let pieces = vec![('d', 4, Color::White, PieceType::Queen)];
    let mut board = Board::new();
    board.initialize_custom(pieces, Color::White, GameState::Ongoing);

    let moves = board.get_legal_moves(Position::new('d', 4).unwrap());

    assert!(
        moves.contains(&Position::new('d', 5).unwrap()),
        "Queen vertical move missing."
    );
    assert!(
        moves.contains(&Position::new('e', 5).unwrap()),
        "Queen diagonal move missing."
    );
    assert!(
        moves.contains(&Position::new('h', 4).unwrap()),
        "Queen horizontal move missing."
    );
}

#[test]
fn test_king_movement_clear() {
    let pieces = vec![('e', 4, Color::White, PieceType::King)];
    let mut board = Board::new();
    board.initialize_custom(pieces, Color::White, GameState::Ongoing);

    let moves = board.get_legal_moves(Position::new('e', 4).unwrap());
    let expected_positions = [
        ('d', 4),
        ('f', 4),
        ('e', 5),
        ('e', 3),
        ('d', 5),
        ('f', 5),
        ('d', 3),
        ('f', 3),
    ];
    for (file, rank) in expected_positions.iter() {
        assert!(
            moves.contains(&Position::new(*file, *rank).unwrap()),
            "King move to {}{} missing.",
            file,
            rank
        );
    }
}

#[test]
fn test_king_castling_moves_allowed() {
    let pieces = vec![
        ('e', 1, Color::White, PieceType::King),
        ('h', 1, Color::White, PieceType::Rook),
        ('a', 1, Color::White, PieceType::Rook),
    ];
    let mut board = Board::new();
    board.initialize_custom(pieces, Color::White, GameState::Ongoing);

    let moves = board.get_legal_moves(Position::new('e', 1).unwrap());
    assert!(
        moves.contains(&Position::new('g', 1).unwrap()),
        "Kingside castling move should be allowed."
    );
    assert!(
        moves.contains(&Position::new('c', 1).unwrap()),
        "Queenside castling move should be allowed."
    );
}

#[test]
fn test_king_castling_blocked_path() {
    let pieces = vec![
        ('e', 1, Color::White, PieceType::King),
        ('h', 1, Color::White, PieceType::Rook),
        ('f', 1, Color::White, PieceType::Knight), // Blocking kingside
    ];
    let mut board = Board::new();
    board.initialize_custom(pieces, Color::White, GameState::Ongoing);

    let moves = board.get_legal_moves(Position::new('e', 1).unwrap());
    assert!(
        !moves.contains(&Position::new('g', 1).unwrap()),
        "Kingside castling should not be allowed if path is blocked."
    );
}

#[test]
fn test_get_legal_moves_empty_square() {
    let pieces = vec![];
    let mut board = Board::new();
    board.initialize_custom(pieces, Color::White, GameState::Ongoing);

    let moves = board.get_legal_moves(Position::new('e', 4).unwrap());
    assert!(moves.is_empty(), "No moves should exist for empty square.");
}

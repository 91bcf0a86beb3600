use puzzle_engine::chess::{Board, Color, PieceType, Position};

fn verify_piece_at(
    board: &Board,
    file: char,
    rank: u8,
    expected_color: Color,
    expected_type: PieceType,
) {
    let pos = Position::new(file, rank).expect("Invalid position construction");
    let piece = board
        .piece_at(pos)
        .unwrap_or_else(|| panic!("Expected piece at {}{}", file, rank));

    assert_eq!(
        piece.color, expected_color,
        "Piece at {}{} has wrong color. Expected {:?}, got {:?}.",
        file, rank, expected_color, piece.color
    );

    assert_eq!(
        piece.kind, expected_type,
        "Piece at {}{} has wrong type. Expected {:?}, got {:?}.",
        file, rank, expected_type, piece.kind
    );
}

#[test]
fn test_reset_board_setup() {
    let board = Board::new();

    assert_eq!(board.turn, Color::White);
    assert_eq!(board.piece_count(), 32);

    for file in 'a'..='h' {
        verify_piece_at(&board, file, 2, Color::White, PieceType::Pawn);
        verify_piece_at(&board, file, 7, Color::Black, PieceType::Pawn);
    }

    for &(file, rank) in &[('a', 1), ('h', 1), ('a', 8), ('h', 8)] {
        let color = if rank == 1 { Color::White } else { Color::Black };
        verify_piece_at(&board, file, rank, color, PieceType::Rook);
    }

    for &(file, rank) in &[('b', 1), ('g', 1), ('b', 8), ('g', 8)] {
        let color = if rank == 1 { Color::White } else { Color::Black };
        verify_piece_at(&board, file, rank, color, PieceType::Knight);
    }

    for &(file, rank) in &[('c', 1), ('f', 1), ('c', 8), ('f', 8)] {
        let color = if rank == 1 { Color::White } else { Color::Black };
        verify_piece_at(&board, file, rank, color, PieceType::Bishop);
    }

    verify_piece_at(&board, 'd', 1, Color::White, PieceType::Queen);
    verify_piece_at(&board, 'd', 8, Color::Black, PieceType::Queen);
    verify_piece_at(&board, 'e', 1, Color::White, PieceType::King);
    verify_piece_at(&board, 'e', 8, Color::Black, PieceType::King);
}

#[test]
fn test_en_passant_setup() {
    let mut board = Board::new();

    // White pawn e2 to e4
    assert!(board
        .try_move(
            Position::new('e', 2).unwrap(),
            Position::new('e', 4).unwrap(),
            None
        )
        .is_ok());

    // Black pawn d7 to d5
    assert!(board
        .try_move(
            Position::new('d', 7).unwrap(),
            Position::new('d', 5).unwrap(),
            None
        )
        .is_ok());

    // Now check positions
    verify_piece_at(&board, 'e', 4, Color::White, PieceType::Pawn);
    verify_piece_at(&board, 'd', 5, Color::Black, PieceType::Pawn);

    // (En passant move itself would need full en passant rule implementation later.)
}

#[test]
fn test_display_initial_board() {
    let board = Board::new();
    let output = board.write_display();

    // Check critical pieces individually

    // Black back rank (rank 8)
    assert!(output.contains("8"), "Rank 8 missing");
    assert!(output.contains("♜"), "Black rook missing");
    assert!(output.contains("♞"), "Black knight missing");
    assert!(output.contains("♝"), "Black bishop missing");
    assert!(output.contains("♛"), "Black queen missing");
    assert!(output.contains("♚"), "Black king missing");

    // Black pawns (rank 7)
    assert!(output.contains("7"), "Rank 7 missing");
    assert!(output.matches('♟').count() >= 8, "Not enough black pawns");

    // White pawns (rank 2)
    assert!(output.contains("2"), "Rank 2 missing");
    assert!(output.matches('♙').count() >= 8, "Not enough white pawns");

    // White back rank (rank 1)
    assert!(output.contains("1"), "Rank 1 missing");
    assert!(output.contains("♖"), "White rook missing");
    assert!(output.contains("♘"), "White knight missing");
    assert!(output.contains("♗"), "White bishop missing");
    assert!(output.contains("♕"), "White queen missing");
    assert!(output.contains("♔"), "White king missing");

    // Files printed
    for file in 'a'..='h' {
        assert!(output.contains(file), "File {} missing", file);
    }
}

use puzzle_engine::chess::{Board, Color, GameState, PieceType};

#[test]
fn test_not_in_check_starting_position() {
    let board = Board::new();
    assert!(
        !board.is_in_check(Color::White),
        "White should not be in check at start."
    );
    assert!(
        !board.is_in_check(Color::Black),
        "Black should not be in check at start."
    );
}

#[test]
fn test_in_check_simple_rook_attack() {
    let pieces = vec![
        ('e', 1, Color::White, PieceType::King),
        ('e', 8, Color::Black, PieceType::Rook),
    ];
    let turn = Color::White;
    let game_state = GameState::Ongoing;
    let mut board = Board::new();
    board.initialize_custom(pieces, turn, game_state);

    assert!(
        board.is_in_check(Color::White),
        "White king should be in check from black rook."
    );
}

#[test]
fn test_not_in_check_rook_blocked() {
    let pieces = vec![
        ('e', 1, Color::White, PieceType::King),
        ('e', 4, Color::White, PieceType::Pawn), // Blocking pawn
        ('e', 8, Color::Black, PieceType::Rook),
    ];
    let turn = Color::White;
    let game_state = GameState::Ongoing;
    let mut board = Board::new();
    board.initialize_custom(pieces, turn, game_state);
    assert!(
        !board.is_in_check(Color::White),
        "White king should not be in check (rook is blocked)."
    );
}

#[test]
fn test_in_check_diagonal_bishop_attack() {
    let pieces = vec![
        ('c', 1, Color::White, PieceType::King),
        ('f', 4, Color::Black, PieceType::Bishop),
    ];
    let turn = Color::White;
    let game_state = GameState::Ongoing;
    let mut board = Board::new();
    board.initialize_custom(pieces, turn, game_state);
    assert!(
        board.is_in_check(Color::White),
        "White king should be in check from bishop on diagonal."
    );
}

#[test]
fn test_in_check_knight_attack() {
    let pieces = vec![
        ('e', 1, Color::White, PieceType::King),
        ('d', 3, Color::Black, PieceType::Knight),
    ];
    let turn = Color::White;
    let game_state = GameState::Ongoing;
    let mut board = Board::new();
    board.initialize_custom(pieces, turn, game_state);
    assert!(
        board.is_in_check(Color::White),
        "White king should be in check from knight."
    );
}

#[test]
fn test_in_check_queen_attack() {
    let pieces = vec![
        ('e', 1, Color::White, PieceType::King),
        ('e', 5, Color::Black, PieceType::Queen),
    ];
    let turn = Color::White;
    let game_state = GameState::Ongoing;
    let mut board = Board::new();
    board.initialize_custom(pieces, turn, game_state);
    assert!(
        board.is_in_check(Color::White),
        "White king should be in check from queen along file."
    );
}

#[test]
fn test_in_check_multiple_threats() {
    let pieces = vec![
        ('e', 1, Color::White, PieceType::King),
        ('e', 8, Color::Black, PieceType::Rook),
        ('a', 1, Color::Black, PieceType::Rook),
    ];
    let turn = Color::White;
    let game_state = GameState::Ongoing;
    let mut board = Board::new();
    board.initialize_custom(pieces, turn, game_state);
    assert!(
        board.is_in_check(Color::White),
        "White king should be in check from two directions."
    );
}

#[test]
fn test_not_in_check_empty_board() {
    let board = Board::new();
    assert!(
        !board.is_in_check(Color::White),
        "Empty board should not cause check (no kings)."
    );
    assert!(
        !board.is_in_check(Color::Black),
        "Empty board should not cause check (no kings)."
    );
}

#[test]
fn test_in_check_pawn_attack() {
    let pieces = vec![
        ('e', 4, Color::White, PieceType::King),
        ('d', 5, Color::Black, PieceType::Pawn), // Pawn threatens e4
    ];
    let turn = Color::White;
    let game_state = GameState::Ongoing;
    let mut board = Board::new();
    board.initialize_custom(pieces, turn, game_state);
    assert!(
        board.is_in_check(Color::White),
        "White king should be in check from black pawn."
    );
}

#[test]
fn test_not_in_check_wrong_color_pawn() {
    let pieces = vec![
        ('e', 4, Color::Black, PieceType::King),
        ('d', 5, Color::White, PieceType::Pawn), // White pawn can't threaten Black king backwards
    ];
    let turn = Color::White;
    let game_state = GameState::Ongoing;
    let mut board = Board::new();
    board.initialize_custom(pieces, turn, game_state);
    assert!(
        !board.is_in_check(Color::Black),
        "White pawn should not check black king from above."
    );
}

#[test]
fn test_not_checkmated_at_start() {
    let board = Board::new();
    assert!(
        !board.is_checkmate(Color::White),
        "White should not be checkmated at starting position."
    );
    assert!(
        !board.is_checkmate(Color::Black),
        "Black should not be checkmated at starting position."
    );
}

#[test]
fn test_simple_check_but_not_checkmate() {
    let pieces = vec![
        ('e', 1, Color::White, PieceType::King),
        ('e', 8, Color::Black, PieceType::Rook), // Black rook attacking, but king can move
    ];
    let turn = Color::White;
    let game_state = GameState::Ongoing;
    let mut board = Board::new();
    board.initialize_custom(pieces, turn, game_state);
    assert!(board.is_in_check(Color::White), "White king should be in check.");
    assert!(
        !board.is_checkmate(Color::White),
        "White king should not be checkmated (can escape)."
    );
}

#[test]
fn test_simple_checkmate_by_rook_and_king_blocked() {
    let pieces = vec![
        ('a', 1, Color::White, PieceType::King),
        ('a', 2, Color::Black, PieceType::Rook),
        ('b', 2, Color::Black, PieceType::Rook),
    ];
    let turn = Color::White;
    let game_state = GameState::Ongoing;
    let mut board = Board::new();
    board.initialize_custom(pieces, turn, game_state);
    assert!(board.is_in_check(Color::White), "White king should be in check.");
    assert!(
        board.is_checkmate(Color::White),
        "White king should be checkmated (blocked on all sides)."
    );
}

#[test]
fn test_simple_check_by_rook_and_king_can_take_to_escape() {
    let pieces = vec![
        ('a', 1, Color::White, PieceType::King),
        ('a', 2, Color::Black, PieceType::Rook),
        ('b', 3, Color::Black, PieceType::Rook),
    ];
    let turn = Color::White;
    let game_state = GameState::Ongoing;
    let mut board = Board::new();
    board.initialize_custom(pieces, turn, game_state);
    assert!(board.is_in_check(Color::White), "White king should be in check.");
    assert!(
        !board.is_checkmate(Color::White),
        "White king should be checkmated (blocked on all sides)."
    );
}

#[test]
fn test_checkmate_by_queen() {
    let pieces = vec![
        ('a', 1, Color::White, PieceType::King),
        ('h', 1, Color::Black, PieceType::Queen),
        ('b', 3, Color::Black, PieceType::King),
    ];
    let turn = Color::White;
    let game_state = GameState::Ongoing;
    let mut board = Board::new();
    board.initialize_custom(pieces, turn, game_state);
    assert!(
        board.is_in_check(Color::White),
        "White king should be in check from queen."
    );
    assert!(
        board.is_checkmate(Color::White),
        "White king should be checkmated (no escape)."
    );
}

#[test]
fn test_not_checkmate_king_can_escape() {
    let pieces = vec![
        ('a', 1, Color::White, PieceType::King),
        ('a', 3, Color::Black, PieceType::Queen),
    ];
    let turn = Color::White;
    let game_state = GameState::Ongoing;
    let mut board = Board::new();
    board.initialize_custom(pieces, turn, game_state);
    assert!(board.is_in_check(Color::White), "White king should be in check.");
    assert!(
        !board.is_checkmate(Color::White),
        "White king should be able to escape (move)."
    );
}

#[test]
fn test_checkmate_fools_mate() {
    let mut board = Board::new();

    // Simulate Fool's Mate
    board
        .try_move(
            puzzle_engine::chess::Position::new('f', 2).unwrap(),
            puzzle_engine::chess::Position::new('f', 3).unwrap(),
            None,
        )
        .unwrap();
    board
        .try_move(
            puzzle_engine::chess::Position::new('e', 7).unwrap(),
            puzzle_engine::chess::Position::new('e', 5).unwrap(),
            None,
        )
        .unwrap();
    board
        .try_move(
            puzzle_engine::chess::Position::new('g', 2).unwrap(),
            puzzle_engine::chess::Position::new('g', 4).unwrap(),
            None,
        )
        .unwrap();
    board
        .try_move(
            puzzle_engine::chess::Position::new('d', 8).unwrap(),
            puzzle_engine::chess::Position::new('h', 4).unwrap(),
            None,
        )
        .unwrap();

    assert!(board.is_in_check(Color::White), "White should be in check.");
    assert!(
        board.is_checkmate(Color::White),
        "White should be checkmated in Fool's Mate."
    );
}

#[test]
fn test_not_checkmate_not_in_check() {
    let pieces = vec![
        ('e', 1, Color::White, PieceType::King),
        ('a', 8, Color::Black, PieceType::Rook),
    ];
    let turn = Color::White;
    let game_state = GameState::Ongoing;
    let mut board = Board::new();
    board.initialize_custom(pieces, turn, game_state);
    assert!(
        !board.is_in_check(Color::White),
        "White king should not be in check."
    );
    assert!(
        !board.is_checkmate(Color::White),
        "White king should not be checkmated if not in check."
    );
}

#[test]
fn test_checkmate_edge_case_empty_board() {
    let board = Board::new();

    // No kings on the board technically — behavior undefined, but should NOT panic
    assert!(
        !board.is_checkmate(Color::White),
        "Empty board should not panic or cause checkmate."
    );
    assert!(
        !board.is_checkmate(Color::Black),
        "Empty board should not panic or cause checkmate."
    );
}

#[test]
fn test_checkmate_smothered_mate() {
    let pieces = vec![
        ('h', 8, Color::Black, PieceType::King),
        ('h', 7, Color::Black, PieceType::Pawn),
        ('g', 7, Color::Black, PieceType::King),
        ('g', 8, Color::Black, PieceType::Rook),
        ('f', 7, Color::White, PieceType::Knight),
    ];
    let turn = Color::White;
    let game_state = GameState::Ongoing;
    let mut board = Board::new();
    board.initialize_custom(pieces, turn, game_state);
    // No kings on the board technically — behavior undefined, but should NOT panic
    assert!(
        !board.is_checkmate(Color::White),
        "Empty board should not panic or cause checkmate."
    );
    assert!(
        !board.is_checkmate(Color::Black),
        "Empty board should not panic or cause checkmate."
    );
}

use tsmchess::fen::START_FEN;
use tsmchess::piece::PieceKind;
use tsmchess::position::Position;

#[test]
fn starting_position_has_twenty_moves() {
    let position = Position::new();
    let moves = position.generate_legal_moves();
    assert_eq!(moves.len(), 20);
    // a single and a double pawn push, and a knight move
    assert!(moves.contains(&(12, 20))); // e2e3
    assert!(moves.contains(&(12, 28))); // e2e4
    assert!(moves.contains(&(6, 21))); // g1f3
    assert!(!moves.contains(&(4, 12))); // the king is blocked
}

#[test]
fn pawn_double_push_updates_everything() {
    let mut position = Position::new();
    position.make_move("e2", "e4", "").unwrap();
    assert_eq!(
        position.fen,
        "rnbqkbnr/pppppppp/8/8/4P3/8/PPPP1PPP/RNBQKBNR b KQkq e3 0 1"
    );
    assert_eq!(position.state.en_passant, 20);
    assert!(position.state.color);
    assert_eq!(position.state.halfmove_clock, 0);
    assert_eq!(position.state.fullmove_clock, 1);
}

#[test]
fn quiet_move_increments_halfmove_clock() {
    let mut position = Position::new();
    position.make_move("g1", "f3", "").unwrap();
    assert_eq!(
        position.fen,
        "rnbqkbnr/pppppppp/8/8/8/5N2/PPPPPPPP/RNBQKB1R b KQkq - 1 1"
    );
}

#[test]
fn fullmove_counter_steps_after_dark_moves() {
    let mut position = Position::new();
    position.make_move("e2", "e4", "").unwrap();
    position.make_move("e7", "e5", "").unwrap();
    assert_eq!(position.state.fullmove_clock, 2);
    assert!(!position.state.color);
}

#[test]
fn illegal_move_is_rejected_and_names_coordinates() {
    let mut position = Position::new();
    let before = position.fen.clone();
    let result = position.make_move("e2", "e5", "");
    let message = result.unwrap_err();
    assert!(message.contains("e2e5"));
    assert!(message.contains("12"));
    assert!(message.contains("36"));
    assert!(message.contains("is not a legal move!"));
    assert_eq!(position.fen, before);
    assert!(position.old_position.is_none());
}

#[test]
fn apply_then_revert_restores_descriptor() {
    let mut position = Position::new();
    position.make_move("e2", "e4", "").unwrap();
    assert!(position.old_position.is_some());
    position.unmake_move().unwrap();
    assert_eq!(position.fen, START_FEN);
    assert!(position.old_position.is_none());
}

#[test]
fn second_revert_fails_and_changes_nothing() {
    let mut position = Position::new();
    position.make_move("e2", "e4", "").unwrap();
    position.unmake_move().unwrap();
    let before = position.fen.clone();
    let result = position.unmake_move();
    assert!(result.is_err());
    assert_eq!(position.fen, before);
    assert!(position.old_position.is_none());
}

#[test]
fn revert_without_history_fails_on_fresh_position() {
    let mut position = Position::new();
    let result = position.unmake_move();
    assert!(result.is_err());
    assert_eq!(position.fen, START_FEN);
}

#[test]
fn kingside_castling_moves_king_and_rook() {
    let mut position = Position::from("rnbqkbnr/pppppppp/8/8/8/8/PPPPPPPP/RNBQK2R w KQkq - 0 1");
    position.make_move("e1", "g1", "").unwrap();
    assert_eq!(
        position.fen,
        "rnbqkbnr/pppppppp/8/8/8/8/PPPPPPPP/RNBQ1RK1 b kq - 1 1"
    );
    assert_eq!(position.state.board[6].kind, PieceKind::King);
    assert_eq!(position.state.board[5].kind, PieceKind::Rook);
    assert_eq!(position.state.board[4].kind, PieceKind::Vacant);
    assert_eq!(position.state.board[7].kind, PieceKind::Vacant);
    assert!(!position.state.castle.light_kingside);
    assert!(!position.state.castle.light_queenside);
    assert!(position.state.castle.dark_kingside);
    assert!(position.state.castle.dark_queenside);
}

#[test]
fn queenside_castling_moves_king_and_rook() {
    let mut position = Position::from("rnbqkbnr/pppppppp/8/8/8/8/PPPPPPPP/R3KBNR w KQkq - 0 1");
    position.make_move("e1", "c1", "").unwrap();
    assert_eq!(
        position.fen,
        "rnbqkbnr/pppppppp/8/8/8/8/PPPPPPPP/2KR1BNR b kq - 1 1"
    );
}

#[test]
fn castling_not_offered_through_pieces_or_without_rights() {
    // the starting position holds the rights but the squares are occupied
    let start = Position::new();
    let moves = start.generate_legal_moves();
    assert!(!moves.contains(&(4, 6)));
    assert!(!moves.contains(&(4, 2)));
    // empty squares but no right held
    let stripped = Position::from("rnbqkbnr/pppppppp/8/8/8/8/PPPPPPPP/RNBQK2R w kq - 0 1");
    let moves = stripped.generate_legal_moves();
    assert!(!moves.contains(&(4, 6)));
}

#[test]
fn promotion_becomes_chosen_piece_of_mover_color() {
    let mut position = Position::from("1k6/P7/8/8/8/8/8/K7 w - - 0 1");
    assert!(position.promotion_required("a7", "a8"));
    position.make_move("a7", "a8", "q").unwrap();
    assert_eq!(position.fen, "Qk6/8/8/8/8/8/8/K7 b - - 0 1");
    assert_eq!(position.state.board[56].kind, PieceKind::Queen);
    assert!(!position.state.board[56].color);
}

#[test]
fn promotion_not_required_for_ordinary_moves() {
    let position = Position::new();
    assert!(!position.promotion_required("e2", "e4"));
    assert!(!position.promotion_required("e2", "e5"));
}

#[test]
fn en_passant_branch_removes_the_passed_pawn() {
    // the en-passant target square holds a capturable piece, so the diagonal
    // pawn capture is generated, and applying it also removes the pawn behind
    // the target
    let mut position = Position::from("k7/8/3r4/3pP3/8/8/8/K7 w - d6 0 1");
    position.make_move("e5", "d6", "").unwrap();
    assert_eq!(position.fen, "k7/8/3P4/8/8/8/8/K7 b - - 0 1");
}

#[test]
fn rook_move_revokes_its_wings_right() {
    let mut position = Position::from("rnbqkbnr/pppppppp/8/8/8/8/1PPPPPPP/RNBQKBNR w KQkq - 0 1");
    position.make_move("a1", "a3", "").unwrap();
    assert!(!position.state.castle.light_queenside);
    assert!(position.state.castle.light_kingside);
    assert!(position.state.castle.dark_kingside);
    assert!(position.state.castle.dark_queenside);
}

#[test]
fn knight_in_corner_has_two_moves() {
    let position = Position::from("k7/8/8/8/8/8/8/N6K w - - 0 1");
    let moves = position.generate_legal_moves();
    // knight a1: b3 and c2; king h1: g1, g2, h2
    assert!(moves.contains(&(0, 17)));
    assert!(moves.contains(&(0, 10)));
    assert_eq!(moves.len(), 5);
    for (origin, target) in &moves {
        assert!(*target < 64);
        let wrap = (*origin % 8) as i32 - (*target % 8) as i32;
        assert!(wrap.abs() <= 2);
    }
}

#[test]
fn sliding_stops_at_first_occupied_square() {
    let position = Position::from("k7/8/8/8/8/P7/8/R6K w - - 0 1");
    let moves = position.generate_legal_moves();
    // rook a1: a2 only upward (its own pawn on a3 blocks), b1 through g1
    assert!(moves.contains(&(0, 8)));
    assert!(!moves.contains(&(0, 16))); // its own pawn's square
    assert!(!moves.contains(&(0, 24))); // beyond the blocker
    assert!(moves.contains(&(0, 1)));
    assert!(moves.contains(&(0, 6)));
    assert!(!moves.contains(&(0, 7))); // its own king's square
    // pawn a3: a4 and (parsed as never moved) a5; king h1: g1, g2, h2
    assert_eq!(moves.len(), 12);
}

#[test]
fn sliding_includes_first_occupied_square_only_as_capture() {
    let position = Position::from("k7/8/8/8/r7/8/8/R6K w - - 0 1");
    let moves = position.generate_legal_moves();
    assert!(moves.contains(&(0, 24))); // captures the dark rook on a4
    assert!(!moves.contains(&(0, 32))); // never beyond it
}

#[test]
fn position_from_keeps_the_given_text_until_a_move() {
    let odd = "rnbqkbnr/pppppppp/44/8/8/62/PPPPPPPP/RNBQKBNR w KQkq - 0 1";
    let position = Position::from(odd);
    assert_eq!(position.fen, odd);
    let mut position = position;
    position.make_move("b1", "c3", "").unwrap();
    assert_eq!(
        position.fen,
        "rnbqkbnr/pppppppp/8/8/8/2N5/PPPPPPPP/R1BQKBNR b KQkq - 1 1"
    );
}

#[test]
fn empty_board_has_no_moves() {
    let position = Position::from("8/8/8/8/8/8/8/8 w - - 0 1");
    assert_eq!(position.generate_legal_moves().len(), 0);
}

#[test]
fn blocked_pawn_offers_no_push() {
    let position = Position::from("k7/8/8/8/p7/P7/8/K7 w - - 0 1");
    let moves = position.generate_legal_moves();
    assert!(!moves.contains(&(16, 24)));
    assert!(!moves.contains(&(16, 32)));
    // only the king can move: a2, b1, b2
    assert_eq!(moves.len(), 3);
}

#[test]
fn dark_pawn_moves_toward_rank_one() {
    let mut position = Position::new();
    position.make_move("e2", "e4", "").unwrap();
    position.make_move("d7", "d5", "").unwrap();
    assert_eq!(
        position.fen,
        "rnbqkbnr/ppp1pppp/8/3p4/4P3/8/PPPP1PPP/RNBQKBNR w KQkq d6 0 2"
    );
}

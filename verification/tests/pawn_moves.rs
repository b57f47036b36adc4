#![allow(unused_imports)]
use pun::board::{Board, Color, Piece, PieceType};
use pun::board::fen::FenData;
use pun::board::moves::{Move, MoveGenerator};
use pun::perft::perft;

fn get_moves(fen: &str, piece: Piece) -> Vec<String> {
    let board = Board::initialize_from_fen(fen);
    let mut moves = Vec::new();
    MoveGenerator::get_all_pawn_moves(&board, piece, &mut moves);
    let mut uci: Vec<String> = moves.iter().map(|m| m.to_uci()).collect();
    uci.sort();
    uci
}

fn has_move(moves: &[String], m: &str) -> bool {
    moves.contains(&m.to_string())
}

#[test]
fn test_white_pawn_single_push() {
    let moves = get_moves("8/8/8/8/8/8/4P3/8 w - - 0 1", Piece::WhitePawn);
    assert!(has_move(&moves, "e2e3"));
}

#[test]
fn test_white_pawn_double_push_from_rank2() {
    let moves = get_moves("8/8/8/8/8/8/4P3/8 w - - 0 1", Piece::WhitePawn);
    assert!(has_move(&moves, "e2e4"));
}

#[test]
fn test_white_pawn_no_double_push_from_rank3() {
    let moves = get_moves("8/8/8/8/8/4P3/8/8 w - - 0 1", Piece::WhitePawn);
    assert!(has_move(&moves, "e3e4"));
    assert!(!has_move(&moves, "e3e5"));
}

#[test]
fn test_black_pawn_single_push() {
    let moves = get_moves("8/4p3/8/8/8/8/8/8 b - - 0 1", Piece::BlackPawn);
    assert!(has_move(&moves, "e7e6"));
}

#[test]
fn test_black_pawn_double_push_from_rank7() {
    let moves = get_moves("8/4p3/8/8/8/8/8/8 b - - 0 1", Piece::BlackPawn);
    assert!(has_move(&moves, "e7e5"));
}

#[test]
fn test_black_pawn_no_double_push_from_rank6() {
    let moves = get_moves("8/8/4p3/8/8/8/8/8 b - - 0 1", Piece::BlackPawn);
    assert!(has_move(&moves, "e6e5"));
    assert!(!has_move(&moves, "e6e4"));
}

#[test]
fn test_white_pawn_blocked_single_push() {
    let moves = get_moves("8/8/8/8/8/4p3/4P3/8 w - - 0 1", Piece::WhitePawn);
    assert!(!has_move(&moves, "e2e3"));
    assert!(!has_move(&moves, "e2e4"));
}

#[test]
fn test_white_pawn_blocked_double_push_by_piece_on_rank4() {
    let moves = get_moves("8/8/8/8/4p3/8/4P3/8 w - - 0 1", Piece::WhitePawn);
    assert!(has_move(&moves, "e2e3"));
    assert!(!has_move(&moves, "e2e4"));
}

#[test]
fn test_black_pawn_blocked_single_push() {
    let moves = get_moves("8/4p3/4P3/8/8/8/8/8 b - - 0 1", Piece::BlackPawn);
    assert!(!has_move(&moves, "e7e6"));
    assert!(!has_move(&moves, "e7e5"));
}

#[test]
fn test_black_pawn_blocked_double_push_by_piece_on_rank5() {
    let moves = get_moves("8/4p3/8/4P3/8/8/8/8 b - - 0 1", Piece::BlackPawn);
    assert!(has_move(&moves, "e7e6"));
    assert!(!has_move(&moves, "e7e5"));
}

#[test]
fn test_white_pawn_capture_left_only() {
    let moves = get_moves("8/8/8/8/8/3p4/4P3/8 w - - 0 1", Piece::WhitePawn);
    assert!(has_move(&moves, "e2d3"));
    assert!(!has_move(&moves, "e2f3"));
}

#[test]
fn test_white_pawn_capture_right_only() {
    let moves = get_moves("8/8/8/8/8/5p2/4P3/8 w - - 0 1", Piece::WhitePawn);
    assert!(has_move(&moves, "e2f3"));
    assert!(!has_move(&moves, "e2d3"));
}

#[test]
fn test_white_pawn_capture_both_sides() {
    let moves = get_moves("8/8/8/8/8/3p1p2/4P3/8 w - - 0 1", Piece::WhitePawn);
    assert!(has_move(&moves, "e2d3"));
    assert!(has_move(&moves, "e2f3"));
}

#[test]
fn test_white_pawn_cannot_capture_own_pieces() {
    let moves = get_moves("8/8/8/8/8/3P1P2/4P3/8 w - - 0 1", Piece::WhitePawn);
    assert!(!has_move(&moves, "e2d3"));
    assert!(!has_move(&moves, "e2f3"));
}

#[test]
fn test_black_pawn_capture_both_sides() {
    let moves = get_moves("8/4p3/3P1P2/8/8/8/8/8 b - - 0 1", Piece::BlackPawn);
    assert!(has_move(&moves, "e7d6"));
    assert!(has_move(&moves, "e7f6"));
}

#[test]
fn test_black_pawn_cannot_capture_own_pieces() {
    let moves = get_moves("8/4p3/3p1p2/8/8/8/8/8 b - - 0 1", Piece::BlackPawn);
    assert!(!has_move(&moves, "e7d6"));
    assert!(!has_move(&moves, "e7f6"));
}

#[test]
fn test_white_pawn_a_file_no_left_wrap() {
    let moves = get_moves("8/8/8/8/8/1p6/P7/8 w - - 0 1", Piece::WhitePawn);
    assert!(has_move(&moves, "a2b3"));
    assert!(!has_move(&moves, "a2h3"));
}

#[test]
fn test_white_pawn_h_file_no_right_wrap() {
    let moves = get_moves("8/8/8/8/8/6p1/7P/8 w - - 0 1", Piece::WhitePawn);
    assert!(has_move(&moves, "h2g3"));
    assert!(!has_move(&moves, "h2a3"));
}

#[test]
fn test_black_pawn_a_file_no_left_wrap() {
    let moves = get_moves("8/p7/1P6/8/8/8/8/8 b - - 0 1", Piece::BlackPawn);
    assert!(has_move(&moves, "a7b6"));
    assert!(!has_move(&moves, "a7h6"));
}

#[test]
fn test_black_pawn_h_file_no_right_wrap() {
    let moves = get_moves("8/7p/6P1/8/8/8/8/8 b - - 0 1", Piece::BlackPawn);
    assert!(has_move(&moves, "h7g6"));
    assert!(!has_move(&moves, "h7a6"));
}

#[test]
fn test_white_pawn_promotion_all_four_pieces() {
    let moves = get_moves("8/4P3/8/8/8/8/8/8 w - - 0 1", Piece::WhitePawn);
    assert!(has_move(&moves, "e7e8q"));
    assert!(has_move(&moves, "e7e8r"));
    assert!(has_move(&moves, "e7e8b"));
    assert!(has_move(&moves, "e7e8n"));
    assert_eq!(moves.iter().filter(|m| m.starts_with("e7e8")).count(), 4);
}

#[test]
fn test_white_pawn_blocked_promotion() {
    let moves = get_moves("4r3/4P3/8/8/8/8/8/8 w - - 0 1", Piece::WhitePawn);
    assert!(!has_move(&moves, "e7e8q"));
    assert!(!has_move(&moves, "e7e8r"));
    assert!(!has_move(&moves, "e7e8b"));
    assert!(!has_move(&moves, "e7e8n"));
}

#[test]
fn test_white_pawn_promotion_capture_left() {
    let moves = get_moves("3r4/4P3/8/8/8/8/8/8 w - - 0 1", Piece::WhitePawn);
    assert!(has_move(&moves, "e7d8q"));
    assert!(has_move(&moves, "e7d8r"));
    assert!(has_move(&moves, "e7d8b"));
    assert!(has_move(&moves, "e7d8n"));
}

#[test]
fn test_white_pawn_promotion_capture_right() {
    let moves = get_moves("5r2/4P3/8/8/8/8/8/8 w - - 0 1", Piece::WhitePawn);
    assert!(has_move(&moves, "e7f8q"));
    assert!(has_move(&moves, "e7f8r"));
    assert!(has_move(&moves, "e7f8b"));
    assert!(has_move(&moves, "e7f8n"));
}

#[test]
fn test_black_pawn_promotion_all_four_pieces() {
    let moves = get_moves("8/8/8/8/8/8/4p3/8 b - - 0 1", Piece::BlackPawn);
    assert!(has_move(&moves, "e2e1q"));
    assert!(has_move(&moves, "e2e1r"));
    assert!(has_move(&moves, "e2e1b"));
    assert!(has_move(&moves, "e2e1n"));
    assert_eq!(moves.iter().filter(|m| m.starts_with("e2e1")).count(), 4);
}

#[test]
fn test_black_pawn_promotion_capture_left() {
    let moves = get_moves("8/8/8/8/8/8/4p3/3R4 b - - 0 1", Piece::BlackPawn);
    assert!(has_move(&moves, "e2d1q"));
    assert!(has_move(&moves, "e2d1r"));
    assert!(has_move(&moves, "e2d1b"));
    assert!(has_move(&moves, "e2d1n"));
}

#[test]
fn test_black_pawn_promotion_capture_right() {
    let moves = get_moves("8/8/8/8/8/8/4p3/5R2 b - - 0 1", Piece::BlackPawn);
    assert!(has_move(&moves, "e2f1q"));
    assert!(has_move(&moves, "e2f1r"));
    assert!(has_move(&moves, "e2f1b"));
    assert!(has_move(&moves, "e2f1n"));
}

#[test]
fn test_white_pawn_en_passant_left() {
    // White pawn e5, black pawn just double-pushed to d5, en passant target d6
    let moves = get_moves("8/8/8/3pP3/8/8/8/8 w - d6 0 1", Piece::WhitePawn);
    assert!(has_move(&moves, "e5d6"));
}

#[test]
fn test_white_pawn_en_passant_right() {
    // White pawn e5, black pawn just double-pushed to f5, en passant target f6
    let moves = get_moves("8/8/8/4Pp2/8/8/8/8 w - f6 0 1", Piece::WhitePawn);
    assert!(has_move(&moves, "e5f6"));
}

#[test]
fn test_white_pawn_no_en_passant_without_target() {
    // No en passant square set
    let moves = get_moves("8/8/8/3pP3/8/8/8/8 w - - 0 1", Piece::WhitePawn);
    assert!(!has_move(&moves, "e5d6"));
}

#[test]
fn test_white_pawn_no_en_passant_wrong_rank() {
    // White pawn on rank 4, en passant target on rank 6 — too far
    let moves = get_moves("8/8/8/8/3Pp3/8/8/8 w - f3 0 1", Piece::WhitePawn);
    assert!(!has_move(&moves, "d4f3"));
}

#[test]
fn test_white_pawn_no_en_passant_own_file() {
    // White pawn e5, en passant on e6 — same file, not diagonal
    let moves = get_moves("8/8/8/4p3/4P3/8/8/8 w - e6 0 1", Piece::WhitePawn);
    assert!(!has_move(&moves, "e5e6"));
}

#[test]
fn test_black_pawn_en_passant_left() {
    // Black pawn d4, white pawn just double-pushed to e4, en passant target e3
    let moves = get_moves("8/8/8/8/3pP3/8/8/8 b - e3 0 1", Piece::BlackPawn);
    assert!(has_move(&moves, "d4e3"));
}

#[test]
fn test_black_pawn_en_passant_right() {
    // Black pawn d4, white pawn just double-pushed to c4, en passant target c3
    let moves = get_moves("8/8/8/8/2Pp4/8/8/8 b - c3 0 1", Piece::BlackPawn);
    assert!(has_move(&moves, "d4c3"));
}

#[test]
fn test_black_pawn_no_en_passant_without_target() {
    // No en passant square set
    let moves = get_moves("8/8/8/8/3pP3/8/8/8 b - - 0 1", Piece::BlackPawn);
    assert!(!has_move(&moves, "d4e3"));
}

#![allow(unused_imports)]
use pun::board::{Board, Color, Piece, PieceType};
use pun::board::fen::FenData;
use pun::board::moves::{Move, MoveGenerator};
use pun::perft::perft;

fn get_moves(fen: &str, piece: Piece) -> Vec<String> {
    let board = Board::initialize_from_fen(fen);
    let mut moves = Vec::new();
    MoveGenerator::get_possible_moves(&board, piece, &mut moves);
    let mut uci: Vec<String> = moves.iter().map(|m| m.to_uci()).collect();
    uci.sort();
    uci
}

fn has_move(moves: &[String], m: &str) -> bool {
    moves.contains(&m.to_string())
}

#[test]
fn test_white_bishop_center_all_moves() {
    let moves = get_moves("8/8/8/8/3B4/8/8/8 w - - 0 1", Piece::WhiteBishop);
    assert!(has_move(&moves, "d4a1"));
    assert!(has_move(&moves, "d4b2"));
    assert!(has_move(&moves, "d4c3"));
    assert!(has_move(&moves, "d4e5"));
    assert!(has_move(&moves, "d4f6"));
    assert!(has_move(&moves, "d4g7"));
    assert!(has_move(&moves, "d4h8"));
    assert!(has_move(&moves, "d4a7"));
    assert!(has_move(&moves, "d4b6"));
    assert!(has_move(&moves, "d4c5"));
    assert!(has_move(&moves, "d4e3"));
    assert!(has_move(&moves, "d4f2"));
    assert!(has_move(&moves, "d4g1"));
    assert_eq!(moves.iter().filter(|m| m.starts_with("d4")).count(), 13);
}

#[test]
fn test_white_bishop_capture_single_target() {
    let moves = get_moves("8/8/8/4p3/3B4/8/8/8 w - - 0 1", Piece::WhiteBishop);
    assert!(has_move(&moves, "d4e5"));
    assert!(!has_move(&moves, "d4f6"));
}

#[test]
fn test_black_bishop_capture_single_target() {
    let moves = get_moves("8/8/8/4P3/3b4/8/8/8 b - - 0 1", Piece::BlackBishop);
    assert!(has_move(&moves, "d4e5"));
    assert!(!has_move(&moves, "d4f6"));
}

#[test]
fn test_white_bishop_capture_both_diagonals() {
    let moves = get_moves("8/8/8/4p3/3B4/1p6/8/8 w - - 0 1", Piece::WhiteBishop);
    assert!(has_move(&moves, "d4e5"));
    assert!(has_move(&moves, "d4b2"));
}

#[test]
fn test_white_bishop_blocked_by_own_piece() {
    let moves = get_moves("8/8/8/4p3/3B4/2P5/8/8 w - - 0 1", Piece::WhiteBishop);
    assert!(has_move(&moves, "d4e5"));
    assert!(!has_move(&moves, "d4f6"));
    assert!(!has_move(&moves, "d4c3"));
}

#[test]
fn test_white_bishop_a1_no_wrap() {
    let moves = get_moves("8/8/8/8/8/8/8/B7 w - - 0 1", Piece::WhiteBishop);
    assert!(has_move(&moves, "a1b2"));
    assert!(has_move(&moves, "a1c3"));
    assert!(has_move(&moves, "a1d4"));
    assert!(!has_move(&moves, "a1g2"));
}

#[test]
fn test_black_bishop_h8_no_wrap() {
    let moves = get_moves("7b/8/8/8/8/8/8/8 b - - 0 1", Piece::BlackBishop);
    assert!(has_move(&moves, "h8g7"));
    assert!(has_move(&moves, "h8f6"));
    assert!(has_move(&moves, "h8e5"));
    assert!(!has_move(&moves, "h8a7"));
}

#[test]
fn test_white_rook_center_all_moves() {
    let moves = get_moves("8/8/8/8/3R4/8/8/8 w - - 0 1", Piece::WhiteRook);
    assert!(has_move(&moves, "d4d1"));
    assert!(has_move(&moves, "d4d2"));
    assert!(has_move(&moves, "d4d3"));
    assert!(has_move(&moves, "d4d5"));
    assert!(has_move(&moves, "d4d6"));
    assert!(has_move(&moves, "d4d7"));
    assert!(has_move(&moves, "d4d8"));
    assert!(has_move(&moves, "d4a4"));
    assert!(has_move(&moves, "d4b4"));
    assert!(has_move(&moves, "d4c4"));
    assert!(has_move(&moves, "d4e4"));
    assert!(has_move(&moves, "d4f4"));
    assert!(has_move(&moves, "d4g4"));
    assert!(has_move(&moves, "d4h4"));
    assert_eq!(moves.iter().filter(|m| m.starts_with("d4")).count(), 14);
}

#[test]
fn test_white_rook_capture_single_target() {
    let moves = get_moves("8/8/8/8/3R4/8/3p4/8 w - - 0 1", Piece::WhiteRook);
    assert!(has_move(&moves, "d4d2"));
    assert!(!has_move(&moves, "d4d1"));
}

#[test]
fn test_black_rook_capture_single_target() {
    let moves = get_moves("8/8/3P4/8/3r4/8/8/8 b - - 0 1", Piece::BlackRook);
    assert!(has_move(&moves, "d4d6"));
    assert!(!has_move(&moves, "d4d7"));
}

#[test]
fn test_white_rook_blocked_by_own_piece() {
    let moves = get_moves("8/8/3P4/8/3R4/8/8/8 w - - 0 1", Piece::WhiteRook);
    assert!(has_move(&moves, "d4d5"));
    assert!(!has_move(&moves, "d4d6"));
}

#[test]
fn test_black_rook_blocked_by_own_piece() {
    let moves = get_moves("8/8/8/8/3r4/8/3p4/8 b - - 0 1", Piece::BlackRook);
    assert!(has_move(&moves, "d4d3"));
    assert!(!has_move(&moves, "d4d2"));
}

#[test]
fn test_white_rook_a1_no_wrap() {
    let moves = get_moves("8/8/8/8/8/8/8/R7 w - - 0 1", Piece::WhiteRook);
    assert!(has_move(&moves, "a1a8"));
    assert!(has_move(&moves, "a1h1"));
    assert!(!has_move(&moves, "a1b2"));
}

#[test]
fn test_black_rook_h8_no_wrap() {
    let moves = get_moves("7r/8/8/8/8/8/8/8 b - - 0 1", Piece::BlackRook);
    assert!(has_move(&moves, "h8h1"));
    assert!(has_move(&moves, "h8a8"));
    assert!(!has_move(&moves, "h8g7"));
}

#[test]
fn test_white_queen_center_all_moves() {
    let moves = get_moves("8/8/8/8/3Q4/8/8/8 w - - 0 1", Piece::WhiteQueen);
    assert!(has_move(&moves, "d4d1"));
    assert!(has_move(&moves, "d4a4"));
    assert!(has_move(&moves, "d4a1"));
    assert!(has_move(&moves, "d4h4"));
    assert!(has_move(&moves, "d4h8"));
    assert_eq!(moves.iter().filter(|m| m.starts_with("d4")).count(), 27);
}

#[test]
fn test_white_queen_capture_bishop_line() {
    let moves = get_moves("8/8/8/4p3/3Q4/8/8/8 w - - 0 1", Piece::WhiteQueen);
    assert!(has_move(&moves, "d4e5"));
    assert!(!has_move(&moves, "d4f6"));
}

#[test]
fn test_black_queen_capture_rook_line() {
    let moves = get_moves("8/8/3P4/8/3q4/8/8/8 b - - 0 1", Piece::BlackQueen);
    assert!(has_move(&moves, "d4d6"));
    assert!(!has_move(&moves, "d4d7"));
}

#[test]
fn test_white_queen_blocked_by_own_piece() {
    let moves = get_moves("8/8/8/4p3/3Q4/3P4/8/8 w - - 0 1", Piece::WhiteQueen);
    assert!(has_move(&moves, "d4e5"));
    assert!(!has_move(&moves, "d4f6"));
    assert!(!has_move(&moves, "d4d3"));
}

#[test]
fn test_white_queen_a1_no_wrap() {
    let moves = get_moves("8/8/8/8/8/8/8/Q7 w - - 0 1", Piece::WhiteQueen);
    assert!(has_move(&moves, "a1a8"));
    assert!(has_move(&moves, "a1h1"));
    assert!(has_move(&moves, "a1h8"));
    assert!(!has_move(&moves, "a1h2"));
}

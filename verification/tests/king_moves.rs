#![allow(unused_imports)]
use pun::board::{Board, Color, Piece, PieceType};
use pun::board::fen::FenData;
use pun::board::moves::{Move, MoveGenerator};
use pun::perft::perft;

fn get_moves(fen: &str, piece: Piece) -> Vec<String> {
    let board = Board::initialize_from_fen(fen);
    let mut moves = Vec::new();
    MoveGenerator::get_all_king_moves(&board, piece, &mut moves);
    let mut uci: Vec<String> = moves.iter().map(|m| m.to_uci()).collect();
    uci.sort();
    uci
}

fn has_move(moves: &[String], m: &str) -> bool {
    moves.contains(&m.to_string())
}

#[test]
fn test_white_king_center_moves() {
    let moves = get_moves("8/8/8/8/3K4/8/8/8 w - - 0 1", Piece::WhiteKing);
    assert!(has_move(&moves, "d4c3"));
    assert!(has_move(&moves, "d4c4"));
    assert!(has_move(&moves, "d4c5"));
    assert!(has_move(&moves, "d4d3"));
    assert!(has_move(&moves, "d4d5"));
    assert!(has_move(&moves, "d4e3"));
    assert!(has_move(&moves, "d4e4"));
    assert!(has_move(&moves, "d4e5"));
    assert_eq!(moves.iter().filter(|m| m.starts_with("d4")).count(), 8);
}

#[test]
fn test_black_king_edge_no_wrap() {
    let moves = get_moves("8/8/8/8/8/8/8/7k b - - 0 1", Piece::BlackKing);
    assert!(has_move(&moves, "h1g1"));
    assert!(has_move(&moves, "h1g2"));
    assert!(has_move(&moves, "h1h2"));
    assert!(!has_move(&moves, "h1a2"));
}

#![allow(unused_imports)]
use pun::board::{Board, Color, Piece, PieceType};
use pun::board::fen::FenData;
use pun::board::moves::{Move, MoveGenerator};
use pun::perft::perft;

fn legal_moves(fen: &str, color: Color) -> Vec<String> {
    let mut board = Board::initialize_from_fen(fen);
    let mut moves = Vec::new();
    MoveGenerator::get_all_moves(&mut board, color, &mut moves);
    let mut uci: Vec<String> = moves.iter().map(|m| m.to_uci()).collect();
    uci.sort();
    uci
}

#[test]
fn get_all_moves_keeps_board_state_intact() {
    let mut board =
        Board::initialize_from_fen("rnbqkbnr/pppppppp/8/8/8/8/PPPPPPPP/RNBQKBNR w KQkq - 0 1");
    let before = board.clone();
    let mut moves = Vec::new();
    MoveGenerator::get_all_moves(&mut board, Color::White, &mut moves);

    assert_eq!(board.pieces, before.pieces);
    assert_eq!(board.colors, before.colors);
    assert_eq!(board.side_to_move, before.side_to_move);
    assert_eq!(board.castling_rights, before.castling_rights);
    assert_eq!(board.en_passant_sq, before.en_passant_sq);
    assert_eq!(board.half_move_clock, before.half_move_clock);
    assert_eq!(board.full_move_clock, before.full_move_clock);
}

fn is_check(fen: &str, color: Color) -> bool {
    let board = Board::initialize_from_fen(fen);
    let king = Piece::new(color, PieceType::King);
    MoveGenerator::is_check(&board, color, board.pieces[king as usize])
}

#[test]
fn test_starting_position_white_not_in_check() {
    assert!(!is_check(
        "rnbqkbnr/pppppppp/8/8/8/8/PPPPPPPP/RNBQKBNR w KQkq - 0 1",
        Color::White
    ));
}

#[test]
fn test_starting_position_black_not_in_check() {
    assert!(!is_check(
        "rnbqkbnr/pppppppp/8/8/8/8/PPPPPPPP/RNBQKBNR w KQkq - 0 1",
        Color::Black
    ));
}

#[test]
fn test_kings_far_apart_not_in_check() {
    assert!(!is_check("k7/8/8/8/8/8/8/4K3 w - - 0 1", Color::White));
    assert!(!is_check("k7/8/8/8/8/8/8/4K3 w - - 0 1", Color::Black));
}

#[test]
fn test_white_king_in_check_by_rook_on_same_rank() {
    // black rook a1, white king e1, same rank clear path
    assert!(is_check("7k/8/8/8/8/8/8/r3K3 w - - 0 1", Color::White));
}

#[test]
fn test_white_king_in_check_by_rook_on_same_file() {
    // black rook e8, white king e1, same file clear path
    assert!(is_check("4r2k/8/8/8/8/8/8/4K3 w - - 0 1", Color::White));
}

#[test]
fn test_white_king_not_in_check_rook_blocked_by_own_piece() {
    // black rook a1, own rook c1 blocks it, king e1, black king h8
    assert!(!is_check("7k/8/8/8/8/8/8/r1R1K3 w - - 0 1", Color::White));
}

#[test]
fn test_white_king_not_in_check_rook_blocked_by_enemy_piece() {
    // black rook a1, black pawn b1 blocks it, king e1, black king h8
    assert!(!is_check("7k/8/8/8/8/8/8/rp2K3 w - - 0 1", Color::White));
}

#[test]
fn test_white_king_in_check_by_queen_on_rank() {
    // black queen a1, white king e1
    assert!(is_check("7k/8/8/8/8/8/8/q3K3 w - - 0 1", Color::White));
}

#[test]
fn test_white_king_in_check_by_queen_on_file() {
    // black queen e8, white king e1
    assert!(is_check("4q2k/8/8/8/8/8/8/4K3 w - - 0 1", Color::White));
}

#[test]
fn test_black_king_in_check_by_rook_on_same_file() {
    // white rook e1, black king e8
    assert!(is_check("4k3/8/8/8/8/8/8/4RK2 w - - 0 1", Color::Black));
}

#[test]
fn test_white_king_in_check_by_bishop_diagonal() {
    // black bishop a6, white king d3, clear diagonal
    assert!(is_check("7k/8/b7/8/8/3K4/8/8 w - - 0 1", Color::White));
}

#[test]
fn test_white_king_not_in_check_bishop_blocked_by_own_piece() {
    // white pawn c4 blocks diagonal from a6 to d3
    assert!(!is_check("7k/8/b7/8/2P5/3K4/8/8 w - - 0 1", Color::White));
}

#[test]
fn test_white_king_in_check_by_queen_on_diagonal() {
    // black queen a6, white king d3
    assert!(is_check("7k/8/q7/8/8/3K4/8/8 w - - 0 1", Color::White));
}

#[test]
fn test_black_king_in_check_by_bishop_diagonal() {
    // white bishop b5, black king e8
    assert!(is_check("4k3/8/8/1B6/8/8/8/4K3 w - - 0 1", Color::Black));
}

#[test]
fn test_white_king_in_check_by_knight() {
    // black knight d3 attacks e1
    assert!(is_check("7k/8/8/8/8/3n4/8/4K3 w - - 0 1", Color::White));
}

#[test]
fn test_white_king_not_in_check_knight_wrong_square() {
    // black knight c3 does NOT attack e1
    assert!(!is_check("7k/8/8/8/8/2n5/8/4K3 w - - 0 1", Color::White));
}

#[test]
fn test_black_king_in_check_by_knight() {
    // white knight f6 attacks e8
    assert!(is_check("4k3/8/5N2/8/8/8/8/4K3 w - - 0 1", Color::Black));
}

#[test]
fn test_white_king_safe_behind_pawn_wall() {
    // full pawn wall on rank 2, black rook on e8 cannot reach king
    assert!(!is_check(
        "3rk3/8/8/8/8/8/PPPPPPPP/4K3 w - - 0 1",
        Color::White
    ));
}

#[test]
fn test_white_king_exposed_after_pawn_gap() {
    // gap on e2, black rook on e8 reaches king on e1
    assert!(is_check(
        "4rk3/8/8/8/8/8/PPPP1PPP/4K3 w - - 0 1",
        Color::White
    ));
}

#[test]
fn test_black_king_safe_behind_pawn_wall() {
    assert!(!is_check(
        "4k3/pppppppp/8/8/8/8/8/4K3 b - - 0 1",
        Color::Black
    ));
}

#[test]
fn test_own_rooks_do_not_trigger_check_detection() {
    assert!(!is_check("7k/8/8/8/8/8/8/R3K2R w - - 0 1", Color::White));
}

#[test]
fn test_own_bishops_do_not_trigger_check_detection() {
    assert!(!is_check("7k/8/8/8/8/8/8/2B1KB2 w - - 0 1", Color::White));
}

#[test]
fn test_own_queen_does_not_trigger_check_detection() {
    assert!(!is_check("7k/8/8/8/8/8/8/3QK3 w - - 0 1", Color::White));
}

#[test]
fn test_own_piece_blocks_enemy_rook() {
    // black rook a1, own rook c1 blocks, king d1, black king h8
    assert!(!is_check("7k/8/8/8/8/8/8/r1RK4 w - - 0 1", Color::White));
}

#[test]
fn test_pinned_piece_cannot_move_off_pin_ray() {
    // white rook e4 pinned by black rook e8, king e1
    let moves = legal_moves("4r2k/8/8/8/4R3/8/8/4K3 w - - 0 1", Color::White);
    assert!(
        !moves
            .iter()
            .any(|m| m.starts_with("e4") && !m.starts_with("e4e"))
    );
}

#[test]
fn test_pinned_piece_can_move_along_pin_ray() {
    // white rook e4 pinned by black rook e8, can still move on e-file
    let moves = legal_moves("4r2k/8/8/8/4R3/8/8/4K3 w - - 0 1", Color::White);
    assert!(moves.contains(&"e4e5".to_string()));
    assert!(moves.contains(&"e4e8".to_string()));
}

#[test]
fn test_diagonally_pinned_piece_cannot_move() {
    // white knight d2 pinned by black bishop a5, king e1
    // knight can never move along a pin ray
    let moves = legal_moves("7k/8/8/b7/8/8/3N4/4K3 w - - 0 1", Color::White);
    assert!(!moves.iter().any(|m| m.starts_with("d2")));
}

#[test]
fn test_king_must_move_when_in_check() {
    // black rook a1 gives check, king e1 must escape
    let moves = legal_moves("7k/8/8/8/8/8/8/r3K3 w - - 0 1", Color::White);
    assert!(moves.iter().all(|m| m.starts_with("e1")));
}

#[test]
fn test_block_check_is_legal() {
    // black rook e8 checks king e1, white rook d4 can block on e4
    let moves = legal_moves("4r2k/8/8/8/3R4/8/8/4K3 w - - 0 1", Color::White);
    assert!(moves.contains(&"d4e4".to_string()));
}

#[test]
fn test_capture_checker_is_legal() {
    // black rook e4 checks king e1, white rook a4 can capture
    let moves = legal_moves("7k/8/8/8/R3r3/8/8/4K3 w - - 0 1", Color::White);
    assert!(moves.contains(&"a4e4".to_string()));
}

#[test]
fn test_move_that_walks_into_check_is_illegal() {
    // black rook f8, king e1 — e1f2 walks into check
    let moves = legal_moves("5r1k/8/8/8/8/8/8/4K3 w - - 0 1", Color::White);
    assert!(!moves.contains(&"e1f2".to_string()));
}

#[test]
fn test_double_check_only_king_can_move() {
    // black rook e8 and black bishop b4 give double check
    // only king moves are legal
    let moves = legal_moves("4r2k/8/8/8/1b6/8/8/4K3 w - - 0 1", Color::White);
    assert!(moves.iter().all(|m| m.starts_with("e1")));
}

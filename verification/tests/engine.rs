use pun::board::fen::FenData;
use pun::board::moves::openings::{book_pick, matching_lines, GameBook};
use pun::board::moves::{flip, Move, MoveGenerator};
use pun::board::{Board, Color, Piece, PieceType};
use pun::perft::{divide_map, divide_moves, perft};
use pun::search::eval::evaluate;
use pun::search::negmax::{negmax, MATE_VALUE};
use pun::search::transposition_table::{generate_keys, next_state, TTEntry, TranspositionTable, ENTRY_BYTES};
use pun::utils::string_to_square;
use std::sync::atomic::AtomicBool;
use std::sync::Arc;

const START: &str = "rnbqkbnr/pppppppp/8/8/8/8/PPPPPPPP/RNBQKBNR w KQkq - 0 1";
const KIWIPETE: &str = "r3k2r/p1ppqpb1/bn2pnp1/3PN3/1p2P3/2N2Q1p/PPPBBPPP/R3K2R w KQkq - 0 1";

fn bit(sq: u8) -> u64 {
    1u64 << sq
}

fn legal_uci(board: &mut Board) -> Vec<String> {
    let mut moves = Vec::new();
    let side = board.side_to_move;
    MoveGenerator::get_all_moves(board, side, &mut moves);
    moves.iter().map(|m| m.to_uci()).collect()
}

#[test]
fn square_names() {
    assert_eq!(string_to_square("a1"), 0);
    assert_eq!(string_to_square("e4"), 28);
    assert_eq!(string_to_square("h8"), 63);
    assert_eq!(string_to_square("e3x"), 20);
}

#[test]
fn move_fields_round_trip() {
    let m = Move::new(12, 28, 0);
    assert_eq!(m.0, 12 | (28 << 6));
    assert_eq!(m.start_pos(), 12);
    assert_eq!(m.end_pos(), 28);
    assert_eq!(m.special_flag(), 0);
    assert_eq!(m.to_uci(), "e2e4");
    let c = Move::new(63, 0, 0b1111);
    assert_eq!(c.start_pos(), 63);
    assert_eq!(c.end_pos(), 0);
    assert_eq!(c.special_flag(), 15);
}

#[test]
fn move_flags() {
    assert!(Move::new(0, 1, 0b0001).is_capture());
    assert!(!Move::new(0, 1, 0b0000).is_capture());
    assert!(Move::new(0, 1, 0b0011).is_en_passant());
    assert!(Move::new(0, 1, 0b0011).is_capture());
    assert!(Move::new(4, 6, 0b0100).is_castle());
    assert!(Move::new(4, 2, 0b0110).is_castle());
    assert!(!Move::new(4, 5, 0b0000).is_castle());
    assert!(Move::new(52, 60, 0b1000).is_promotion());
    assert!(Move::new(52, 61, 0b1001).is_promotion());
    assert!(!Move::new(52, 60, 0b0100).is_promotion());
    assert_eq!(Move::new(52, 60, 0b1000).promotion_piece(), Some('q'));
    assert_eq!(Move::new(52, 61, 0b1011).promotion_piece(), Some('r'));
    assert_eq!(Move::new(52, 60, 0b1100).promotion_piece(), Some('b'));
    assert_eq!(Move::new(52, 61, 0b1111).promotion_piece(), Some('n'));
    assert_eq!(Move::new(52, 60, 0b0001).promotion_piece(), None);
}

#[test]
fn uci_parse_and_format() {
    let m = Move::from_uci("e7e8q");
    assert_eq!(m.start_pos(), 52);
    assert_eq!(m.end_pos(), 60);
    assert_eq!(m.special_flag(), 0b1000);
    assert_eq!(m.to_uci(), "e7e8q");
    assert_eq!(Move::from_uci("a2a1n").special_flag(), 0b1110);
    assert_eq!(Move::from_uci("g1f3").0, Move::new(6, 21, 0).0);
    // Capture flags are not written in UCI notation.
    assert_eq!(Move::new(28, 35, 0b0001).to_uci(), "e4d5");
    assert_eq!(Move::new(52, 61, 0b1101).to_uci(), "e7f8b");
}

#[test]
fn uci_round_trip_law() {
    for from in [0u16, 7, 12, 35, 63] {
        for to in [0u16, 9, 28, 56, 63] {
            for flag in [0u16, 8, 10, 12, 14] {
                let m = Move::new(from, to, flag);
                assert_eq!(Move::from_uci(&m.to_uci()).0, m.0);
            }
        }
    }
}

#[test]
fn debug_text_of_moves() {
    assert_eq!(Move::new(4, 6, 0b0100).to_text(), "O-O");
    assert_eq!(Move::new(60, 58, 0b0110).to_text(), "O-O-O");
    assert_eq!(Move::new(12, 28, 0).to_text(), "e2e4");
    assert_eq!(Move::new(28, 35, 0b0001).to_text(), "e4xd5");
    assert_eq!(Move::new(36, 43, 0b0011).to_text(), "e5xd6 e.p.");
    assert_eq!(Move::new(52, 60, 0b1000).to_text(), "e7e8q");
    assert_eq!(Move::new(52, 61, 0b1011).to_text(), "e7xf8r");
}

#[test]
fn board_diagram() {
    let board = Board::initialize_from_fen(START);
    let expected = [
        "  +-----------------+",
        "8 | r n b q k b n r |",
        "7 | p p p p p p p p |",
        "6 | . . . . . . . . |",
        "5 | . . . . . . . . |",
        "4 | . . . . . . . . |",
        "3 | . . . . . . . . |",
        "2 | P P P P P P P P |",
        "1 | R N B Q K B N R |",
        "  +-----------------+",
        "    a b c d e f g h",
        "",
    ]
    .join("\n");
    assert_eq!(board.to_text(), expected);
}

#[test]
fn fen_rejects_what_cannot_be_read() {
    assert!(FenData::try_parse(START).is_some());
    assert!(FenData::try_parse("8/8/8/8/8/8/8/8/8 w - - 0 1").is_none());
    assert!(FenData::try_parse("x7/8/8/8/8/8/8/8 w - - 0 1").is_none());
    assert!(FenData::try_parse("8/8/8/8/8/8/8/8 x - - 0 1").is_none());
    assert!(FenData::try_parse("8/8/8/8/8/8/8/8 w KX - 0 1").is_none());
    assert!(FenData::try_parse("8/8/8/8/8/8/8/8 w - - abc 1").is_none());
    assert!(FenData::try_parse("8/8/8/8/8/8/8/8 w - - 0 70000").is_none());
    assert!(FenData::try_parse("8/8/8/8/8/8/8/8 w - -").is_none());
    assert!(FenData::try_parse("8/8/8/8/8/8/8/8 w - e 0 1").is_none());
    assert!(FenData::try_parse("9p/8/8/8/8/8/8/8 w - - 0 1").is_none());
}

#[test]
fn fen_fields_edge_cases() {
    let d = FenData::try_parse("8/8/8/8/8/8/8/4K2k w - - +5 00012 extra").unwrap();
    assert_eq!(d.half_move, 5);
    assert_eq!(d.full_move, 12);
    assert_eq!(d.pieces[Piece::WhiteKing as usize], bit(4));
    let d = FenData::try_parse("8/8/8/8/8/8/8/  4K2k   b   Kq   a3   0   1").unwrap();
    assert!(matches!(d.side_to_move, Color::Black));
    assert_eq!(d.castling_rights, 0b1001);
    assert_eq!(d.en_passant_sq, Some(16));
    assert_eq!(d.pieces[Piece::BlackKing as usize], bit(7));
    // Fewer than eight rows fill the board from rank 8 down.
    let d = FenData::try_parse("k7 w - - 0 1").unwrap();
    assert_eq!(d.pieces[Piece::BlackKing as usize], bit(56));
}

#[test]
fn fen_fields_split_at_unicode_whitespace() {
    let fen = "8/8/8/8/8/8/8/4K2k\u{a0}b\u{3000}Kq\u{2003}a3\u{85}7\u{205f}\u{1680}9";
    let d = FenData::try_parse(fen).unwrap();
    assert!(matches!(d.side_to_move, Color::Black));
    assert_eq!(d.castling_rights, 0b1001);
    assert_eq!(d.en_passant_sq, Some(16));
    assert_eq!(d.half_move, 7);
    assert_eq!(d.full_move, 9);
    assert_eq!(d.pieces[Piece::BlackKing as usize], bit(7));
    // A letter outside ASCII that is not whitespace stays inside its field.
    assert!(FenData::try_parse("8/8/8/8/8/8/8/4K2k w\u{e9} - - 0 1").is_none());
}

#[test]
fn bitboard_maps() {
    let text = Board::bitboard_map_text(0x8000_0000_0000_0001);
    let expected = "8 0 0 0 0 0 0 0 1 \n\
                    7 0 0 0 0 0 0 0 0 \n\
                    6 0 0 0 0 0 0 0 0 \n\
                    5 0 0 0 0 0 0 0 0 \n\
                    4 0 0 0 0 0 0 0 0 \n\
                    3 0 0 0 0 0 0 0 0 \n\
                    2 0 0 0 0 0 0 0 0 \n\
                    1 1 0 0 0 0 0 0 0 \n\
                    \x20 a b c d e f g h\n";
    assert_eq!(text, expected);
}

#[test]
fn initialize_from_fen_fills_the_board() {
    let board = Board::initialize_from_fen(START);
    assert_eq!(board.colors[0], 0xFFFF);
    assert_eq!(board.colors[1], 0xFFFF_0000_0000_0000);
    assert_eq!(board.castling_rights, 0b1111);
    assert_eq!(board.en_passant_sq, None);
    assert_eq!(board.full_move_clock, 1);
    assert!(board.history.is_empty());
}

#[test]
fn update_state_double_push() {
    let mut board = Board::initialize_from_fen(START);
    board.update_state("e2e4");
    assert_eq!(board.pieces[Piece::WhitePawn as usize], 0xEF00 | bit(28));
    assert_eq!(board.en_passant_sq, Some(20));
    assert_eq!(board.side_to_move, Color::Black);
    assert_eq!(board.half_move_clock, 0);
    assert_eq!(board.full_move_clock, 1);
    board.update_state("e7e5");
    assert_eq!(board.en_passant_sq, Some(44));
    assert_eq!(board.side_to_move, Color::White);
    assert_eq!(board.full_move_clock, 2);
    board.update_state("g1f3");
    assert_eq!(board.en_passant_sq, None);
    assert_eq!(board.half_move_clock, 1);
    assert_eq!(board.colors[0], board.get_side_bitboard(Color::White));
}

#[test]
fn update_state_capture_removes_the_taken_piece() {
    let mut board =
        Board::initialize_from_fen("rnbqkbnr/ppp1pppp/8/3p4/4P3/8/PPPP1PPP/RNBQKBNR w KQkq d6 0 2");
    board.update_state("e4d5");
    assert_eq!(board.pieces[Piece::BlackPawn as usize] & bit(35), 0);
    assert_ne!(board.pieces[Piece::WhitePawn as usize] & bit(35), 0);
    assert_eq!(board.colors[1] & bit(35), 0);
    assert_eq!(board.half_move_clock, 0);
}

#[test]
fn update_state_castles_the_rook() {
    let mut board = Board::initialize_from_fen("r3k2r/8/8/8/8/8/8/R3K2R w KQkq - 0 1");
    board.update_state("e1g1");
    assert_eq!(board.pieces[Piece::WhiteKing as usize], bit(6));
    assert_eq!(board.pieces[Piece::WhiteRook as usize], bit(0) | bit(5));
    assert_eq!(board.castling_rights, 0b1100);
    board.update_state("e8c8");
    assert_eq!(board.pieces[Piece::BlackKing as usize], bit(58));
    assert_eq!(board.pieces[Piece::BlackRook as usize], bit(59) | bit(63));
    assert_eq!(board.castling_rights, 0);
}

#[test]
fn update_state_rook_capture_clears_rights() {
    let mut board = Board::initialize_from_fen("r3k2r/8/8/8/8/8/8/R3K2R w KQkq - 0 1");
    board.update_state("a1a8");
    assert_eq!(board.castling_rights, 0b0101);
    assert_eq!(board.pieces[Piece::BlackRook as usize], bit(63));
}

#[test]
fn update_state_en_passant() {
    let mut board = Board::initialize_from_fen("8/8/8/3pP3/8/8/8/4K2k w - d6 0 1");
    board.update_state("e5d6");
    assert_eq!(board.pieces[Piece::BlackPawn as usize], 0);
    assert_eq!(board.pieces[Piece::WhitePawn as usize], bit(43));
}

#[test]
fn update_state_promotions() {
    let mut board = Board::initialize_from_fen("8/4P3/8/8/8/8/8/4K2k w - - 0 1");
    board.update_state("e7e8q");
    assert_eq!(board.pieces[Piece::WhitePawn as usize], 0);
    assert_eq!(board.pieces[Piece::WhiteQueen as usize], bit(60));
    let mut board = Board::initialize_from_fen("4K2k/8/8/8/8/8/3p4/8 b - - 0 1");
    board.update_state("d2d1n");
    assert_eq!(board.pieces[Piece::BlackKnight as usize], bit(3));
    assert_eq!(board.full_move_clock, 2);
}

#[test]
fn make_then_unmake_restores_the_board() {
    let mut board = Board::initialize_from_fen(KIWIPETE);
    let before = board.clone();
    let mut moves = Vec::new();
    MoveGenerator::get_all_moves(&mut board, Color::White, &mut moves);
    for mv in &moves {
        board.make_move(mv);
        assert_eq!(board.history.len(), 1);
        board.unmake_move();
        assert_eq!(board.pieces, before.pieces);
        assert_eq!(board.colors, before.colors);
        assert_eq!(board.castling_rights, before.castling_rights);
        assert_eq!(board.en_passant_sq, before.en_passant_sq);
        assert_eq!(board.side_to_move, before.side_to_move);
        assert!(board.history.is_empty());
    }
    // Taking back with nothing to take back leaves the board alone.
    board.unmake_move();
    assert_eq!(board.pieces, before.pieces);
}

#[test]
fn make_move_matches_update_state() {
    let mut a = Board::initialize_from_fen(KIWIPETE);
    let mut b = Board::initialize_from_fen(KIWIPETE);
    let mut moves = Vec::new();
    MoveGenerator::get_all_moves(&mut a, Color::White, &mut moves);
    let mv = moves[0];
    a.make_move(&mv);
    b.update_state(&mv.to_uci());
    assert_eq!(a.pieces, b.pieces);
    assert_eq!(a.castling_rights, b.castling_rights);
    assert_eq!(a.en_passant_sq, b.en_passant_sq);
}

#[test]
fn legal_moves_come_captures_first() {
    let mut board = Board::initialize_from_fen("4k3/1P6/8/3p4/4P3/8/8/4K3 w - - 0 1");
    let mut moves = Vec::new();
    MoveGenerator::get_all_moves(&mut board, Color::White, &mut moves);
    let groups: Vec<u8> = moves
        .iter()
        .map(|m| {
            if m.is_capture() {
                0
            } else if m.is_promotion() {
                1
            } else {
                2
            }
        })
        .collect();
    assert_eq!(groups[0], 0);
    assert!(groups.windows(2).all(|w| w[0] <= w[1]));
    assert!(groups.contains(&1));
    assert!(groups.contains(&2));
}

#[test]
fn generators_move_the_given_piece_by_their_pattern() {
    let board = Board::initialize_from_fen("8/8/8/8/3Q4/8/8/K6k w - - 0 1");
    let mut moves = Vec::new();
    MoveGenerator::get_all_rook_moves(&board, Piece::WhiteQueen, &mut moves);
    assert_eq!(moves.len(), 14);
    let mut moves = Vec::new();
    MoveGenerator::get_all_knight_moves(&board, Piece::WhiteQueen, &mut moves);
    assert_eq!(moves.len(), 8);
    let mut moves = Vec::new();
    MoveGenerator::get_all_queen_moves(&board, Piece::WhiteQueen, &mut moves);
    assert_eq!(moves.len(), 26);
}

fn uci_list(moves: &[Move]) -> Vec<String> {
    moves.iter().map(|m| m.to_uci()).collect()
}

#[test]
fn moves_come_in_the_order_each_side_sees_the_board() {
    let mut board = Board::initialize_from_fen(START);
    let white = legal_uci(&mut board);
    assert_eq!(&white[..4], &["a2a3", "a2a4", "b2b3", "b2b4"]);
    assert_eq!(&white[16..], &["b1c3", "b1a3", "g1h3", "g1f3"]);
    board.update_state("e2e4");
    let black = legal_uci(&mut board);
    assert_eq!(&black[..4], &["a7a6", "a7a5", "b7b6", "b7b5"]);
    assert_eq!(&black[16..], &["b8c6", "b8a6", "g8h6", "g8f6"]);
}

#[test]
fn rays_are_followed_together_one_square_at_a_time() {
    let board = Board::initialize_from_fen("8/8/8/8/3R4/8/8/K6k w - - 0 1");
    let mut moves = Vec::new();
    MoveGenerator::get_all_rook_moves(&board, Piece::WhiteRook, &mut moves);
    assert_eq!(
        uci_list(&moves),
        [
            "d4c4", "d4e4", "d4d3", "d4d5", "d4b4", "d4f4", "d4d2", "d4d6", "d4a4", "d4g4",
            "d4d1", "d4d7", "d4h4", "d4d8",
        ]
    );
    let board = Board::initialize_from_fen("8/8/8/3r4/8/8/8/K6k b - - 0 1");
    let mut moves = Vec::new();
    MoveGenerator::get_all_rook_moves(&board, Piece::BlackRook, &mut moves);
    assert_eq!(
        uci_list(&moves),
        [
            "d5c5", "d5e5", "d5d6", "d5d4", "d5b5", "d5f5", "d5d7", "d5d3", "d5a5", "d5g5",
            "d5d8", "d5d2", "d5h5", "d5d1",
        ]
    );
}

#[test]
fn the_move_list_is_the_same_every_time() {
    let mut board = Board::initialize_from_fen("r3k2r/p1ppqpb1/bn2pnp1/3PN3/1p2P3/2N2Q1p/PPPBBPPP/R3K2R w KQkq - 0 1");
    let first = legal_uci(&mut board);
    let second = legal_uci(&mut board);
    assert_eq!(first, second);
    assert_eq!(first.len(), 48);
    // Captures first, each group in generation order.
    assert_eq!(&first[..5], &["g2h3", "d5e6", "e5f7", "e5d7", "e5g6"]);
}

#[test]
fn negmax_gives_the_same_answer_twice() {
    let fen = "r3k2r/p1ppqpb1/bn2pnp1/3PN3/1p2P3/2N2Q1p/PPPBBPPP/R3K2R w KQkq - 0 1";
    let mut board = Board::initialize_from_fen(fen);
    let mut tt = TranspositionTable::new(1);
    let a = negmax(&mut board, &mut tt, 2, Arc::new(AtomicBool::new(false))).unwrap();
    let mut board = Board::initialize_from_fen(fen);
    let mut tt = TranspositionTable::new(1);
    let b = negmax(&mut board, &mut tt, 2, Arc::new(AtomicBool::new(false))).unwrap();
    assert_eq!(a.0.to_uci(), b.0.to_uci());
    assert_eq!(a.1, b.1);
}

#[test]
fn legal_moves_keep_the_board_well_formed() {
    let fen = "r3k2r/p1ppqpb1/bn2pnp1/3PN3/1p2P3/2N2Q1p/PPPBBPPP/R3K2R w KQkq - 0 1";
    let mut board = Board::initialize_from_fen(fen);
    let mut moves = Vec::new();
    MoveGenerator::get_all_moves(&mut board, Color::White, &mut moves);
    for mv in &moves {
        assert!(board.can_play(mv.start_pos() as u8, mv.end_pos() as u8, mv.promotion_piece()));
        board.make_move(mv);
        assert!(board.is_well_formed());
        board.unmake_move();
    }
    assert_eq!(board.pieces, Board::initialize_from_fen(fen).pieces);
}

#[test]
fn negmax_breaks_ties_by_move_order() {
    let mut board = Board::initialize_from_fen(START);
    let mut tt = TranspositionTable::new(1);
    let (mv, score) = negmax(&mut board, &mut tt, 1, Arc::new(AtomicBool::new(false))).unwrap();
    assert_eq!(mv.to_uci(), "a2a3");
    assert_eq!(score, 0);
    board.update_state("e2e4");
    let mut tt = TranspositionTable::new(1);
    let (mv, _) = negmax(&mut board, &mut tt, 1, Arc::new(AtomicBool::new(false))).unwrap();
    assert_eq!(mv.to_uci(), "a7a6");
}

#[test]
fn castling_is_generated_when_allowed() {
    let mut board = Board::initialize_from_fen("r3k2r/8/8/8/8/8/8/R3K2R w KQkq - 0 1");
    let moves = legal_uci(&mut board);
    assert!(moves.contains(&"e1g1".to_string()));
    assert!(moves.contains(&"e1c1".to_string()));
    // A rook attacking f1 stops king-side castling only.
    let mut board = Board::initialize_from_fen("r3kr2/8/8/8/8/8/8/R3K2R w KQq - 0 1");
    let moves = legal_uci(&mut board);
    assert!(!moves.contains(&"e1g1".to_string()));
    assert!(moves.contains(&"e1c1".to_string()));
    // An attacked b1 does not stop queen-side castling.
    let mut board = Board::initialize_from_fen("1r2k3/8/8/8/8/8/8/R3K3 w Q - 0 1");
    let moves = legal_uci(&mut board);
    assert!(moves.contains(&"e1c1".to_string()));
    // Black castles too.
    let mut board = Board::initialize_from_fen("r3k2r/8/8/8/8/8/8/4K3 b kq - 0 1");
    let moves = legal_uci(&mut board);
    assert!(moves.contains(&"e8g8".to_string()));
    assert!(moves.contains(&"e8c8".to_string()));
}

#[test]
fn divide_adds_up_to_perft() {
    let board = Board::initialize_from_fen(START);
    let counts = divide_moves(&board, 1);
    assert_eq!(counts.len(), 20);
    assert!(counts.iter().all(|(_, n)| *n == 1));
    let counts = divide_moves(&board, 3);
    let total: u64 = counts.iter().map(|(_, n)| *n).sum();
    assert_eq!(total, perft(&board, 3));
    let kiwi = Board::initialize_from_fen(KIWIPETE);
    let total: u64 = divide_moves(&kiwi, 2).iter().map(|(_, n)| *n).sum();
    assert_eq!(total, 2039);
}

#[test]
fn divide_map_by_uci_name() {
    let board = Board::initialize_from_fen(START);
    let map = divide_map(&board, 2);
    assert_eq!(map.get("e2e4"), Some(&20));
    assert_eq!(map.get("g1f3"), Some(&20));
    assert_eq!(map.get("e2e5"), None);
}

#[test]
fn perft_depth_zero_is_one() {
    let board = Board::initialize_from_fen(START);
    assert_eq!(perft(&board, 0), 1);
}

#[test]
fn flipped_boards() {
    assert_eq!(flip(0xFF), 0xFF00_0000_0000_0000);
    assert_eq!(flip(0x0102_0304_0506_0708), 0x0807_0605_0403_0201);
    let board = Board::initialize_from_fen(START);
    let (bb, color) = MoveGenerator::get_bitboard(&board, Piece::BlackPawn);
    assert_eq!(color, Color::Black);
    assert_eq!(bb, 0xFF00);
    let (bb, color) = MoveGenerator::get_bitboard(&board, Piece::WhitePawn);
    assert_eq!(color, Color::White);
    assert_eq!(bb, 0xFF00);
    let (own, enemy) = MoveGenerator::get_sides(&board, Color::Black);
    assert_eq!(own, 0xFFFF);
    assert_eq!(enemy, 0xFFFF_0000_0000_0000);
    let (own, enemy) = MoveGenerator::get_sides(&board, Color::White);
    assert_eq!(own, 0xFFFF);
    assert_eq!(enemy, 0xFFFF_0000_0000_0000);
}

#[test]
fn transposition_table_reads_back_what_was_stored() {
    let mut tt = TranspositionTable::new(1);
    assert_eq!(tt.len(), (1024 * 1024) / std::mem::size_of::<TTEntry>());
    assert!(tt.get(42).is_none());
    let e = TTEntry { key: 42, value: -17, depth: 3, flag: 0, best_move: Move::new(12, 28, 0) };
    tt.put(e);
    let got = tt.get(42).unwrap();
    assert_eq!(got.value, -17);
    assert_eq!(got.depth, 3);
    assert_eq!(got.best_move.0, e.best_move.0);
    // Another key in the same slot is a miss.
    assert!(tt.get(42 + tt.len() as u64).is_none());
    // A depth-0 entry is never found.
    tt.put(TTEntry { key: 7, value: 1, depth: 0, flag: 0, best_move: Move(0) });
    assert!(tt.get(7).is_none());
}

#[test]
fn zobrist_keys_are_fixed() {
    let mut state = 123456789u64;
    let first = next_state(&mut state);
    assert_eq!(first, 123456789u64.wrapping_mul(6364136223846793005).wrapping_add(1));
    assert_eq!(state, first);
    let keys = generate_keys();
    assert_eq!(keys.pieces[0][0], first);
    assert_eq!(keys.pieces[0][1], next_state(&mut state));
    let again = generate_keys();
    assert_eq!(keys.side_to_move, again.side_to_move);
    assert_eq!(keys.castling, again.castling);
}

#[test]
fn zobrist_hash_tells_positions_apart() {
    let keys = generate_keys();
    let a = Board::initialize_from_fen(START);
    let b = Board::initialize_from_fen(START);
    assert_eq!(a.zobrist_hash(&keys), b.zobrist_hash(&keys));
    let c = Board::initialize_from_fen("rnbqkbnr/pppppppp/8/8/8/8/PPPPPPPP/RNBQKBNR b KQkq - 0 1");
    assert_eq!(a.zobrist_hash(&keys) ^ c.zobrist_hash(&keys), keys.side_to_move);
    let mut d = Board::initialize_from_fen(START);
    d.update_state("g1f3");
    assert_ne!(a.zobrist_hash(&keys), d.zobrist_hash(&keys));
}

#[test]
fn evaluation_is_material_for_the_side_to_move() {
    assert_eq!(evaluate(&Board::initialize_from_fen(START)), 0);
    assert_eq!(evaluate(&Board::initialize_from_fen("4k3/8/8/8/8/8/8/3QK3 w - - 0 1")), 900);
    assert_eq!(evaluate(&Board::initialize_from_fen("4k3/8/8/8/8/8/8/3QK3 b - - 0 1")), -900);
    assert_eq!(
        evaluate(&Board::initialize_from_fen("4k3/pp6/8/8/8/8/8/1NB1K3 w - - 0 1")),
        320 + 330 - 200
    );
}

#[test]
fn negmax_finds_mate_in_one() {
    let mut board = Board::initialize_from_fen("6k1/5ppp/8/8/8/8/8/R5K1 w - - 0 1");
    let mut tt = TranspositionTable::new(1);
    let stop = Arc::new(AtomicBool::new(false));
    let (mv, score) = negmax(&mut board, &mut tt, 2, stop).unwrap();
    assert_eq!(mv.to_uci(), "a1a8");
    assert_eq!(score, MATE_VALUE);
    assert_eq!(board.pieces, Board::initialize_from_fen("6k1/5ppp/8/8/8/8/8/R5K1 w - - 0 1").pieces);
}

#[test]
fn negmax_takes_the_hanging_queen() {
    let mut board = Board::initialize_from_fen("4k3/8/8/3q4/8/8/8/3RK3 w - - 0 1");
    let mut tt = TranspositionTable::new(1);
    let stop = Arc::new(AtomicBool::new(false));
    let (mv, _) = negmax(&mut board, &mut tt, 1, stop).unwrap();
    assert_eq!(mv.to_uci(), "d1d5");
}

#[test]
fn negmax_stops_when_asked() {
    let mut board = Board::initialize_from_fen(START);
    let mut tt = TranspositionTable::new(1);
    let stop = Arc::new(AtomicBool::new(true));
    assert!(negmax(&mut board, &mut tt, 3, stop).is_none());
}

#[test]
fn negmax_without_moves_finds_nothing() {
    let mut board = Board::initialize_from_fen("k7/1Q6/1K6/8/8/8/8/8 b - - 0 1");
    let mut tt = TranspositionTable::new(1);
    let stop = Arc::new(AtomicBool::new(false));
    assert!(negmax(&mut board, &mut tt, 2, stop).is_none());
}

#[test]
fn opening_book_follows_its_lines() {
    let mut book = GameBook::new();
    assert!(book.in_book);
    let first = book.next_move(&[], false).unwrap();
    assert!(["e2e4", "d2d4", "c2c4", "g1f3"].contains(&first));
    let mut book = GameBook::new();
    let reply = book.next_move(&["e2e4".to_string()], true).unwrap();
    assert!(["e7e5", "c7c5", "e7e6", "c7c6"].contains(&reply));
    let mut book = GameBook::new();
    let played: Vec<String> = ["d2d4", "d7d5", "c2c4", "e7e6"].iter().map(|s| s.to_string()).collect();
    assert_eq!(book.next_move(&played, false), Some("b1c3"));
    assert!(book.in_book);
}

#[test]
fn opening_book_leaves_when_out_of_lines() {
    let mut book = GameBook::new();
    assert_eq!(book.next_move(&["a2a3".to_string()], false), None);
    assert!(!book.in_book);
    assert_eq!(book.next_move(&[], false), None);
    let mut book = GameBook::new();
    assert_eq!(book.next_move(&[], true), None);
    assert!(!book.in_book);
    let mut book = GameBook::new();
    let reply = book.next_move(&["b2b3".to_string()], true).unwrap();
    assert!(["d7d5", "g8f6"].contains(&reply));
}

#[test]
fn piece_helpers() {
    assert_eq!(Piece::new(Color::Black, PieceType::Rook), Piece::BlackRook);
    assert_eq!(Piece::BlackRook.kind(), PieceType::Rook);
    assert_eq!(Piece::BlackRook.color(), Color::Black);
    assert_eq!(Piece::WhiteKing.color(), Color::White);
    assert_eq!(Piece::all().len(), 12);
    assert_eq!(Piece::all()[9], Piece::BlackRook);
    assert_eq!(Color::White.opposite(), Color::Black);
    assert_eq!(Piece::letter(Some(Piece::BlackQueen)), 'q');
    assert_eq!(Piece::letter(None), '.');
}

#[test]
fn color_bitboards() {
    let board = Board::initialize_from_fen(KIWIPETE);
    assert_eq!(Board::get_color_bitboard(&board.pieces, Color::White), board.colors[0]);
    assert_eq!(board.get_side_bitboard(Color::Black), board.colors[1]);
    let mut b = board.clone();
    b.colors = [0, 0];
    b.refresh_colors();
    assert_eq!(b.colors, board.colors);
}

#[test]
fn piece_placement_helpers() {
    let mut board = Board::initialize_from_fen(START);
    assert_eq!(board.piece_at(4), Some(Piece::WhiteKing));
    assert_eq!(board.piece_at(36), None);
    assert_eq!(board.remove_piece_at(4), Some(Piece::WhiteKing));
    assert_eq!(board.piece_at(4), None);
    assert_eq!(board.remove_piece_at(4), None);
    board.place_piece_at(Piece::WhiteQueen, 36);
    assert_eq!(board.piece_at(36), Some(Piece::WhiteQueen));
    board.clear_castling_rights_for_rook_square(63);
    assert_eq!(board.castling_rights, 0b1011);
    board.clear_castling_rights_for_rook_square(12);
    assert_eq!(board.castling_rights, 0b1011);
}

#[test]
fn book_matching_lines_in_pool_order() {
    let lines: Vec<Vec<&'static str>> = vec![
        vec!["e2e4", "e7e5", "g1f3"],
        vec!["d2d4", "d7d5"],
        vec!["e2e4", "c7c5", "g1f3"],
        vec!["e2e4"],
    ];
    let played = vec!["e2e4".to_string()];
    assert_eq!(matching_lines(&lines, &played, 0), vec![0, 2]);
    assert_eq!(matching_lines(&lines, &[], 0), vec![0, 1, 2, 3]);
    let played = vec!["x".to_string(), "d2d4".to_string()];
    assert_eq!(matching_lines(&lines, &played, 1), vec![1]);
    assert_eq!(matching_lines(&lines, &["a2a3".to_string()], 0), Vec::<usize>::new());
}

#[test]
fn book_pick_takes_the_drawn_line() {
    let lines: Vec<Vec<&'static str>> = vec![
        vec!["e2e4", "e7e5", "g1f3"],
        vec!["d2d4", "d7d5"],
        vec!["e2e4", "c7c5", "g1f3"],
    ];
    let matching = vec![0, 2];
    assert_eq!(book_pick(&lines, &matching, 1, 0), "e7e5");
    assert_eq!(book_pick(&lines, &matching, 1, 1), "c7c5");
    assert_eq!(book_pick(&lines, &matching, 2, 1), "g1f3");
}

#[test]
fn uci_text_reads_back_as_written() {
    for s in ["e2e4", "e7e8q", "a1h8", "b7b8n", "h2h1r", "c7c8b"] {
        assert_eq!(Move::from_uci(s).to_uci(), s);
    }
}

fn piece_total(board: &Board) -> u32 {
    board.pieces.iter().map(|b| b.count_ones()).sum()
}

#[test]
fn only_captures_change_the_piece_count() {
    let mut board = Board::initialize_from_fen("4k3/8/8/3p4/4P3/8/8/4K3 w - - 0 1");
    assert_eq!(piece_total(&board), 4);
    board.make_move(&Move::from_uci("e4e5"));
    assert_eq!(piece_total(&board), 4);
    board.unmake_move();
    board.make_move(&Move::new(28, 35, 0b0001));
    assert_eq!(piece_total(&board), 3);
    let mut board = Board::initialize_from_fen(KIWIPETE);
    board.make_move(&Move::new(4, 6, 0b0100));
    assert_eq!(piece_total(&board), 32);
}

#[test]
fn divide_map_values_add_up_to_perft() {
    let mut board = Board::initialize_from_fen(START);
    let map = divide_map(&board, 3);
    let total: u64 = legal_uci(&mut board).iter().map(|m| *map.get(m.as_str()).unwrap()).sum();
    assert_eq!(total, perft(&board, 3));
    assert_eq!(total, 8902);
}

#[test]
fn table_entries_take_sixteen_bytes() {
    assert_eq!(std::mem::size_of::<TTEntry>(), ENTRY_BYTES);
    assert_eq!(TranspositionTable::new(1).len(), 65536);
    assert_eq!(TranspositionTable::new(2).len(), 131072);
}

#[test]
fn negmax_reads_any_stored_value() {
    let mut board = Board::initialize_from_fen(START);
    let mut tt = TranspositionTable::new(1);
    for key in 0..64u64 {
        tt.put(TTEntry { key, value: i32::MAX, depth: 9, flag: 0, best_move: Move(0) });
    }
    let stop = Arc::new(AtomicBool::new(true));
    assert!(negmax(&mut board, &mut tt, 3, stop).is_none());
    assert_eq!(board.pieces, Board::initialize_from_fen(START).pieces);
    let mut mated = Board::initialize_from_fen("k7/1Q6/1K6/8/8/8/8/8 b - - 0 1");
    let stop = Arc::new(AtomicBool::new(false));
    assert!(negmax(&mut mated, &mut tt, 2, stop).is_none());
    let mut board = Board::initialize_from_fen("4k3/8/8/3q4/8/8/8/3RK3 w - - 0 1");
    let stop = Arc::new(AtomicBool::new(false));
    assert!(negmax(&mut board, &mut tt, 1, stop).is_some());
}

#[test]
fn boards_from_fen_are_well_formed() {
    assert!(Board::initialize_from_fen(START).is_well_formed());
    assert!(Board::initialize_from_fen(KIWIPETE).is_well_formed());
}

#[test]
fn divide_map_values_add_up_on_kiwipete() {
    let mut board = Board::initialize_from_fen(KIWIPETE);
    let map = divide_map(&board, 2);
    let total: u64 = legal_uci(&mut board).iter().map(|m| *map.get(m.as_str()).unwrap()).sum();
    assert_eq!(total, 2039);
}

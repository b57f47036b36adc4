//! King steps and castling.
use vstd::prelude::*;
use crate::bitboard::{bit, lemma_mask_test, lemma_bit_or};
use crate::board::{Board, Color, Piece, PieceType, color_of, piece_index, other, lemma_piece_index_roundtrip, lemma_piece_for_index};
use super::{Move, MoveGenerator, code, move_from, move_to, move_flag, lemma_code_fields, lemma_code_unique};
use super::scan::{appends, indicator, walk_key, walked, walk_squares, keys_rise, added, lemma_rise_shift, lemma_rise_push, lemma_rise_widen, lemma_walk_step, lemma_walk_end, lemma_walk_first, lemma_appends_refl, lemma_appends_ext, lemma_appends_push};
use super::order::{leap_index, gen_key};
use super::knight::{leap_moves, leap_from};
use super::rules::{king_moves_from, king_home, castle_from, first_of, kingside_right, queenside_right, attacked, occupied, bb_of, own};

verus! {

/// The first square of a bitboard that a side visits is unique.
pub(crate) proof fn lemma_first_unique(c: Color, bb: u64, s: int, t: int)
    requires
        first_of(c, bb, s),
        first_of(c, bb, t),
    ensures
        s == t,
{
    assert(walk_key(c, s) <= walk_key(c, t));
    assert(walk_key(c, t) <= walk_key(c, s));
}

impl MoveGenerator {
    /// Generates all pseudo-legal king moves for one side, including castling:
    /// king moves from the first square of `piece`'s bitboard that `piece`'s
    /// side visits (for Black with rank 8 nearest), for `piece`'s side.
    #[verifier::rlimit(40)]
    pub fn get_all_king_moves(board: &Board, piece: Piece, available_moves: &mut Vec<Move>)
        ensures
            appends(
                old(available_moves)@,
                final(available_moves)@,
                |m: int| indicator(king_moves_from(board@, color_of(piece), board@.pieces[piece_index(piece)], m)),
            ),
            keys_rise(
                added(old(available_moves)@, final(available_moves)@),
                |m: int| gen_key(color_of(piece), PieceType::King, m),
                0,
                4096,
            ),
    {
        let ghost start = available_moves@;
        let ghost goal = |m: int| indicator(king_moves_from(board@, color_of(piece), board@.pieces[piece_index(piece)], m));
        let color = piece.color();
        let pieces = board.pieces[piece.idx()];
        proof {
            lemma_piece_index_roundtrip(piece);
            lemma_appends_refl(start);
        }
        let squares = walk_squares(pieces, color);
        let ghost key = |m: int| gen_key(color, PieceType::King, m);
        if squares.len() == 0 {
            proof {
                assert(added(start, available_moves@) =~= Seq::<Move>::empty());
                lemma_walk_end(squares@, pieces, color);
                assert forall|m: int| 0nat == #[trigger] goal(m) by {
                    assert(!walked(squares@, 0, move_from(m)));
                    assert(!walked(squares@, 0, king_home(color)));
                }
                lemma_appends_ext(start, start, |m: int| 0nat, goal);
            }
            return;
        }
        let own_bb = board.get_side_bitboard(color);
        let enemy = board.get_side_bitboard(color.opposite());
        let mirror = match color {
            Color::White => false,
            Color::Black => true,
        };
        let index: u16 = squares[0];
        let ghost ksq = index as int;
        proof {
            lemma_walk_step(squares@, pieces, color, 0);
            assert forall|t: int| #[trigger] bit(pieces, t) implies walk_key(color, ksq) <= walk_key(color, t) by {
                lemma_walk_first(squares@, pieces, color, t);
            }
            assert(first_of(color, pieces, ksq));
        }
        // Try every adjacent square, rejecting our own pieces.
        leap_moves(false, mirror, index, own_bb, enemy, available_moves);
        let ghost a1 = available_moves@;
        let ghost lo0 = walk_key(color, ksq) * 64;
        proof {
            let part = added(start, a1);
            let inner = |m: int| leap_index(false, mirror, ksq, move_to(m));
            assert forall|i: int| 0 <= i < part.len() implies key(#[trigger] part[i].0 as int) == inner(part[i].0 as int) + lo0 by {
                assert(move_from(part[i].0 as int) == ksq);
                assert(move_flag(part[i].0 as int) < 2);
            }
            lemma_rise_shift(part, inner, key, lo0, 0, 8);
            assert(walk_key(color, ksq) < 64);
        }
        let ghost n1 = |m: int| indicator(leap_from(false, own_bb, enemy, ksq, m));
        let ghost n2 = |m: int| indicator(castle_from(board@, color, pieces, m));
        proof {
            assert forall|m: int| n1(m) + n2(m) == #[trigger] goal(m) by {
                if 0 <= m < 65536 {
                    lemma_code_unique(m);
                }
                if first_of(color, pieces, move_from(m)) {
                    lemma_first_unique(color, pieces, move_from(m), ksq);
                }
            }
        }
        // Castling
        let home: u16 = match color {
            Color::White => 4,
            Color::Black => 60,
        };
        let ghost h = home as int;
        let no_castle = index != home || board.castling_rights == 0;
        let king_bb = board.pieces[Piece::new(color, PieceType::King).idx()];
        proof {
            lemma_piece_for_index(color, PieceType::King);
        }
        if no_castle || Self::is_check(board, color, king_bb) {
            proof {
                lemma_rise_widen(added(start, available_moves@), key, lo0, lo0 + 8, 0, 4096);
                assert forall|m: int| #[trigger] n2(m) == 0nat by {
                    if castle_from(board@, color, pieces, m) {
                        lemma_first_unique(color, pieces, h, ksq);
                    }
                }
                lemma_appends_ext(start, a1, n1, |m: int| n1(m) + n2(m));
                lemma_appends_ext(start, a1, |m: int| n1(m) + n2(m), goal);
            }
            return;
        }
        proof {
            assert(ksq == h);
        }
        let them = color.opposite();
        let (ks_bit, qs_bit): (u8, u8) = match color {
            Color::White => (1, 2),
            Color::Black => (4, 8),
        };
        let rook_bb = board.pieces[Piece::new(color, PieceType::Rook).idx()];
        let occ = own_bb | enemy;
        proof {
            lemma_piece_for_index(color, PieceType::Rook);
        }
        let ghost ks_ok = board.castling_rights & kingside_right(color) != 0 && bit(bb_of(board@, color, PieceType::Rook), h + 3)
            && !occupied(board@, h + 1) && !occupied(board@, h + 2) && !attacked(board@, h + 1, other(color))
            && !attacked(board@, h + 2, other(color));
        let ghost qs_ok = board.castling_rights & queenside_right(color) != 0 && bit(bb_of(board@, color, PieceType::Rook), h - 4)
            && !occupied(board@, h - 1) && !occupied(board@, h - 2) && !occupied(board@, h - 3)
            && !attacked(board@, h - 1, other(color)) && !attacked(board@, h - 2, other(color));
        // Kingside castling
        let ghost nk = |m: int| indicator(ks_ok && m == code(h, h + 2, 4));
        let ghost nq = |m: int| indicator(qs_ok && m == code(h, h - 2, 6));
        proof {
            lemma_mask_test(rook_bb, h + 3);
            lemma_mask_test(rook_bb, h - 4);
            lemma_mask_test(occ, h + 1);
            lemma_mask_test(occ, h + 2);
            lemma_mask_test(occ, h - 1);
            lemma_mask_test(occ, h - 2);
            lemma_mask_test(occ, h - 3);
            lemma_bit_or(own_bb, enemy, h + 1);
            lemma_bit_or(own_bb, enemy, h + 2);
            lemma_bit_or(own_bb, enemy, h - 1);
            lemma_bit_or(own_bb, enemy, h - 2);
            lemma_bit_or(own_bb, enemy, h - 3);
        }
        let ks = board.castling_rights & ks_bit != 0 && rook_bb & (1u64 << ((home + 3) as u64)) != 0
            && occ & (1u64 << ((home + 1) as u64)) == 0 && occ & (1u64 << ((home + 2) as u64)) == 0
            && !Self::is_square_attacked(board, (home + 1) as usize, them)
            && !Self::is_square_attacked(board, (home + 2) as usize, them);
        if ks {
            let mv = Move::new(home, home + 2, 0b0100);
            available_moves.push(mv);
            proof {
                lemma_code_fields(h, h + 2, 4);
                lemma_appends_push(start, a1, n1, mv);
                lemma_rise_push(start, a1, key, lo0, lo0 + 8, lo0 + 9, mv);
            }
        } else {
            proof {
                lemma_appends_ext(start, a1, n1, |m: int| n1(m) + indicator(m == code(h, h + 2, 4) && false));
                lemma_rise_widen(added(start, available_moves@), key, lo0, lo0 + 8, lo0, lo0 + 9);
            }
        }
        let ghost a2 = available_moves@;
        proof {
            lemma_appends_ext(start, a2, |m: int| n1(m) + indicator(m == code(h, h + 2, 4) && ks), |m: int| n1(m) + nk(m));
        }
        // Queenside castling
        let qs = board.castling_rights & qs_bit != 0 && rook_bb & (1u64 << ((home - 4) as u64)) != 0
            && occ & (1u64 << ((home - 1) as u64)) == 0 && occ & (1u64 << ((home - 2) as u64)) == 0
            && occ & (1u64 << ((home - 3) as u64)) == 0
            && !Self::is_square_attacked(board, (home - 1) as usize, them)
            && !Self::is_square_attacked(board, (home - 2) as usize, them);
        if qs {
            let mv = Move::new(home, home - 2, 0b0110);
            available_moves.push(mv);
            proof {
                lemma_code_fields(h, h - 2, 6);
                lemma_appends_push(start, a2, |m: int| n1(m) + nk(m), mv);
                lemma_rise_push(start, a2, key, lo0, lo0 + 9, lo0 + 10, mv);
            }
        } else {
            proof {
                lemma_appends_ext(start, a2, |m: int| n1(m) + nk(m), |m: int| n1(m) + nk(m) + indicator(m == code(h, h - 2, 6) && false));
                lemma_rise_widen(added(start, available_moves@), key, lo0, lo0 + 9, lo0, lo0 + 10);
            }
        }
        proof {
            lemma_rise_widen(added(start, available_moves@), key, lo0, lo0 + 10, 0, 4096);
            lemma_appends_ext(start, available_moves@, |m: int| n1(m) + nk(m) + indicator(m == code(h, h - 2, 6) && qs), |m: int| n1(m) + nk(m) + nq(m));
            assert forall|m: int| n1(m) + nk(m) + nq(m) == #[trigger] goal(m) by {
                lemma_code_fields(h, h + 2, 4);
                lemma_code_fields(h, h - 2, 6);
                assert(n2(m) == nk(m) + nq(m));
            }
            lemma_appends_ext(start, available_moves@, |m: int| n1(m) + nk(m) + nq(m), goal);
        }
    }
}

} // verus!

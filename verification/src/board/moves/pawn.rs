//! Pawn moves: pushes, double pushes, captures, promotions and en passant.
use vstd::prelude::*;
use crate::bitboard::{bit, lemma_mask_test, lemma_bit_or};
use crate::board::{Board, Color, Piece, PieceType, color_of, piece_index, lemma_piece_index_roundtrip};
use super::{Move, MoveGenerator, code, move_from, move_to, move_flag, lemma_code_fields, lemma_code_unique};
use super::scan::{appends, indicator, walk_of, walked, walk_squares, walk_key, keys_rise, all_from, added, lemma_rise_none, lemma_rise_push, lemma_rise_widen, lemma_rise_trans, lemma_rise_index, lemma_rise_square, lemma_from_trans, lemma_walk_step, lemma_walk_end, lemma_appends_refl, lemma_appends_trans, lemma_appends_ext, lemma_appends_push};
use super::order::{pawn_key, gen_key};
use super::rules::{file_of, rank_of, pawn_dir, pawn_start_rank, pawn_promo_rank, pawn_ep_rank, pawn_last_rank, pawn_diag, promo_flag, pawn_moves_from, occupied};

verus! {

/// The moves of a pawn of side `c` on `from`, given both occupancy masks and
/// the en passant target.
pub open spec fn pawn_sq(c: Color, own_bb: u64, enemy: u64, ep: Option<u8>, from: int, m: int) -> bool {
    let to = move_to(m);
    let f = move_flag(m);
    let promo = rank_of(from) == pawn_promo_rank(c);
    &&& 0 <= m < 65536
    &&& move_from(m) == from
    &&& {
        ||| (rank_of(from) != pawn_last_rank(c) && to == from + pawn_dir(c) && !bit(own_bb, to) && !bit(enemy, to) && (
        if promo {
            promo_flag(f)
        } else {
            f == 0
        }))
        ||| (rank_of(from) == pawn_start_rank(c) && to == from + 2 * pawn_dir(c) && !bit(own_bb, from + pawn_dir(c))
            && !bit(enemy, from + pawn_dir(c)) && !bit(own_bb, to) && !bit(enemy, to) && f == 0)
        ||| (pawn_diag(c, from, to) && bit(enemy, to) && (if promo {
            promo_flag(f - 1)
        } else {
            f == 1
        }))
        ||| (rank_of(from) == pawn_ep_rank(c) && pawn_diag(c, from, to) && ep == Some(to as u8) && f == 3)
    }
}

/// Appends the move `from`-`to` with `flag`.
fn push_move(from: u16, to: u16, flag: u16, available_moves: &mut Vec<Move>)
    requires
        from < 64,
        to < 64,
        flag < 16,
    ensures
        appends(old(available_moves)@, final(available_moves)@, |m: int| indicator(m == code(from as int, to as int, flag as int))),
        final(available_moves)@ == old(available_moves)@.push(Move(code(from as int, to as int, flag as int) as u16)),
{
    let ghost start = available_moves@;
    let mv = Move::new(from, to, flag);
    proof {
        lemma_appends_refl(start);
    }
    available_moves.push(mv);
    proof {
        lemma_appends_push(start, start, |m: int| 0nat, mv);
        lemma_appends_ext(start, available_moves@, |m: int| 0nat + indicator(m == mv.0 as int), |m: int| indicator(m == code(from as int, to as int, flag as int)));
    }
}

/// Appends the four promotions `from`-`to`, with the capture bit `capture`.
fn push_promotions(from: u16, to: u16, capture: u16, available_moves: &mut Vec<Move>)
    requires
        from < 64,
        to < 64,
        capture < 2,
    ensures
        appends(
            old(available_moves)@,
            final(available_moves)@,
            |m: int| indicator(0 <= m < 65536 && move_from(m) == from as int && move_to(m) == to as int && promo_flag(move_flag(m) - capture)),
        ),
        added(old(available_moves)@, final(available_moves)@).len() == 4,
        forall|i: int|
            0 <= i < 4 ==> #[trigger] added(old(available_moves)@, final(available_moves)@)[i].0 as int == code(
                from as int,
                to as int,
                8 + 2 * i + capture,
            ),
{
    let ghost start = available_moves@;
    push_move(from, to, 0b1000 + capture, available_moves);
    let ghost a1 = available_moves@;
    push_move(from, to, 0b1010 + capture, available_moves);
    let ghost a2 = available_moves@;
    push_move(from, to, 0b1100 + capture, available_moves);
    let ghost a3 = available_moves@;
    push_move(from, to, 0b1110 + capture, available_moves);
    proof {
        let f = from as int;
        let t = to as int;
        let c = capture as int;
        let n1 = |m: int| indicator(m == code(f, t, 8 + c));
        let n2 = |m: int| indicator(m == code(f, t, 10 + c));
        let n3 = |m: int| indicator(m == code(f, t, 12 + c));
        let n4 = |m: int| indicator(m == code(f, t, 14 + c));
        lemma_appends_trans(start, a1, a2, n1, n2);
        lemma_appends_trans(start, a2, a3, |m: int| n1(m) + n2(m), n3);
        lemma_appends_trans(start, a3, available_moves@, |m: int| n1(m) + n2(m) + n3(m), n4);
        let goal = |m: int| indicator(0 <= m < 65536 && move_from(m) == f && move_to(m) == t && promo_flag(move_flag(m) - c));
        assert forall|m: int| n1(m) + n2(m) + n3(m) + n4(m) == #[trigger] goal(m) by {
            if 0 <= m < 65536 {
                lemma_code_unique(m);
            }
        }
        lemma_appends_ext(start, available_moves@, |m: int| n1(m) + n2(m) + n3(m) + n4(m), goal);
        let s4 = added(start, available_moves@);
        assert(s4 =~= seq![
            Move(code(f, t, 8 + c) as u16),
            Move(code(f, t, 10 + c) as u16),
            Move(code(f, t, 12 + c) as u16),
            Move(code(f, t, 14 + c) as u16),
        ]);
    }
}

/// The promotions `from`-`to` with the capture bit `capture` come in the
/// places `base` to `base + 3` among a pawn's moves.
proof fn lemma_promotions_rise(c: Color, a: Seq<Move>, b: Seq<Move>, from: int, to: int, capture: int, base: int)
    requires
        0 <= from < 64,
        0 <= to < 64,
        0 <= capture < 2,
        to != from + 2 * pawn_dir(c),
        base == if to == from + pawn_dir(c) {
            0int
        } else if to == from + pawn_dir(c) - 1 {
            8int
        } else {
            12int
        },
        b.len() >= a.len(),
        added(a, b).len() == 4,
        forall|i: int| 0 <= i < 4 ==> #[trigger] added(a, b)[i].0 as int == code(from, to, 8 + 2 * i + capture),
    ensures
        keys_rise(added(a, b), |m: int| pawn_key(c, from, m), base, base + 4),
        all_from(added(a, b), from),
{
    let s = added(a, b);
    assert forall|i: int| 0 <= i < s.len() implies (|m: int| pawn_key(c, from, m))(#[trigger] s[i].0 as int) == base + i
        && move_from(s[i].0 as int) == from by {
        lemma_code_fields(from, to, 8 + 2 * i + capture);
    }
    lemma_rise_index(s, |m: int| pawn_key(c, from, m), base);
}

/// One move `from`-`to` with `flag`, at place `k` among a pawn's moves.
proof fn lemma_one_rise(c: Color, a: Seq<Move>, from: int, to: int, flag: int, k: int)
    requires
        0 <= from < 64,
        0 <= to < 64,
        0 <= flag < 16,
        pawn_key(c, from, code(from, to, flag)) == k,
    ensures
        keys_rise(added(a, a.push(Move(code(from, to, flag) as u16))), |m: int| pawn_key(c, from, m), k, k + 1),
        all_from(added(a, a.push(Move(code(from, to, flag) as u16))), from),
{
    lemma_code_fields(from, to, flag);
    let s = added(a, a.push(Move(code(from, to, flag) as u16)));
    assert(s =~= seq![Move(code(from, to, flag) as u16)]);
    lemma_rise_index(s, |m: int| pawn_key(c, from, m), k);
}


/// Occupied in either mask.
pub open spec fn occ2(own_bb: u64, enemy: u64, s: int) -> bool {
    bit(own_bb, s) || bit(enemy, s)
}

/// Single and double pushes of a pawn on `from`.
pub open spec fn push_part(c: Color, own_bb: u64, enemy: u64, from: int, m: int) -> bool {
    let to = move_to(m);
    let f = move_flag(m);
    let fwd = from + pawn_dir(c);
    &&& 0 <= m < 65536
    &&& move_from(m) == from
    &&& rank_of(from) != pawn_last_rank(c)
    &&& !occ2(own_bb, enemy, fwd)
    &&& {
        ||| (to == fwd && (if rank_of(from) == pawn_promo_rank(c) {
            promo_flag(f)
        } else {
            f == 0
        }))
        ||| (rank_of(from) == pawn_start_rank(c) && to == fwd + pawn_dir(c) && !occ2(own_bb, enemy, to) && f == 0)
    }
}

/// Captures of a pawn on `from` toward the a-file (`left`) or the h-file.
pub open spec fn capture_part(c: Color, enemy: u64, from: int, left: bool, m: int) -> bool {
    let to = move_to(m);
    let f = move_flag(m);
    let fwd = from + pawn_dir(c);
    &&& 0 <= m < 65536
    &&& move_from(m) == from
    &&& rank_of(from) != pawn_last_rank(c)
    &&& if left {
        file_of(from) > 0 && to == fwd - 1
    } else {
        file_of(from) < 7 && to == fwd + 1
    }
    &&& bit(enemy, to)
    &&& if rank_of(from) == pawn_promo_rank(c) {
        promo_flag(f - 1)
    } else {
        f == 1
    }
}

/// En passant captures of a pawn on `from`.
pub open spec fn ep_part(c: Color, ep: Option<u8>, from: int, m: int) -> bool {
    &&& 0 <= m < 65536
    &&& move_from(m) == from
    &&& rank_of(from) == pawn_ep_rank(c)
    &&& pawn_diag(c, from, move_to(m))
    &&& ep == Some(move_to(m) as u8)
    &&& move_flag(m) == 3
}

fn is_white(color: Color) -> (r: bool)
    ensures
        r == (color == Color::White),
{
    match color {
        Color::White => true,
        Color::Black => false,
    }
}

fn pawn_pushes(color: Color, from: u16, own_bb: u64, enemy: u64, available_moves: &mut Vec<Move>)
    requires
        from < 64,
    ensures
        appends(old(available_moves)@, final(available_moves)@, |m: int| indicator(push_part(color, own_bb, enemy, from as int, m))),
        keys_rise(added(old(available_moves)@, final(available_moves)@), |m: int| pawn_key(color, from as int, m), 0, 5),
        all_from(added(old(available_moves)@, final(available_moves)@), from as int),
{
    let ghost start = available_moves@;
    let ghost f = from as int;
    let white = is_white(color);
    let rank = from / 8;
    let occ = own_bb | enemy;
    let ghost goal = |m: int| indicator(push_part(color, own_bb, enemy, f, m));
    let ghost key = |m: int| pawn_key(color, f, m);
    proof {
        lemma_appends_refl(start);
        assert(added(start, start) =~= Seq::<Move>::empty());
    }
    if (white && rank == 7) || (!white && rank == 0) {
        proof {
            lemma_appends_ext(start, available_moves@, |m: int| 0nat, goal);
        }
        return;
    }
    let fwd: u16 = if white { from + 8 } else { from - 8 };
    proof {
        assert(fwd as int == f + pawn_dir(color));
        lemma_mask_test(occ, fwd as int);
        lemma_bit_or(own_bb, enemy, fwd as int);
    }
    if occ & (1u64 << (fwd as u64)) != 0 {
        proof {
            lemma_appends_ext(start, available_moves@, |m: int| 0nat, goal);
        }
        return;
    }
    let promo = (white && rank == 6) || (!white && rank == 1);
    let ghost n1 = |m: int| indicator(0 <= m < 65536 && move_from(m) == f && move_to(m) == fwd as int && (if promo { promo_flag(move_flag(m)) } else { move_flag(m) == 0 }));
    if promo {
        push_promotions(from, fwd, 0, available_moves);
        proof {
            lemma_appends_ext(start, available_moves@, |m: int| indicator(0 <= m < 65536 && move_from(m) == f && move_to(m) == fwd as int && promo_flag(move_flag(m) - 0)), n1);
            lemma_promotions_rise(color, start, available_moves@, f, fwd as int, 0, 0);
        }
    } else {
        push_move(from, fwd, 0, available_moves);
        proof {
            lemma_code_fields(f, fwd as int, 0);
            lemma_one_rise(color, start, f, fwd as int, 0, 0);
            lemma_rise_widen(added(start, available_moves@), key, 0, 1, 0, 4);
            assert forall|m: int| indicator(m == code(f, fwd as int, 0)) == #[trigger] n1(m) by {
                if 0 <= m < 65536 {
                    lemma_code_unique(m);
                }
                lemma_code_fields(f, fwd as int, 0);
            }
            lemma_appends_ext(start, available_moves@, |m: int| indicator(m == code(f, fwd as int, 0)), n1);
        }
    }
    let ghost mid = available_moves@;
    let ghost n2 = |m: int| indicator(rank_of(f) == pawn_start_rank(color) && 0 <= m < 65536 && move_from(m) == f
        && move_to(m) == fwd as int + pawn_dir(color) && !occ2(own_bb, enemy, move_to(m)) && move_flag(m) == 0);
    if (white && rank == 1) || (!white && rank == 6) {
        let fwd2: u16 = if white { from + 16 } else { from - 16 };
        proof {
            lemma_mask_test(occ, fwd2 as int);
            lemma_bit_or(own_bb, enemy, fwd2 as int);
        }
        if occ & (1u64 << (fwd2 as u64)) == 0 {
            push_move(from, fwd2, 0, available_moves);
            proof {
                lemma_code_fields(f, fwd2 as int, 0);
                lemma_one_rise(color, mid, f, fwd2 as int, 0, 4);
                lemma_rise_trans(start, mid, available_moves@, key, 0, 4, 5);
                lemma_from_trans(start, mid, available_moves@, f);
                assert forall|m: int| indicator(m == code(f, fwd2 as int, 0)) == #[trigger] n2(m) by {
                    if 0 <= m < 65536 {
                        lemma_code_unique(m);
                    }
                    lemma_code_fields(f, fwd2 as int, 0);
                }
                lemma_appends_ext(mid, available_moves@, |m: int| indicator(m == code(f, fwd2 as int, 0)), n2);
            }
        } else {
            proof {
                lemma_appends_refl(mid);
                lemma_appends_ext(mid, mid, |m: int| 0nat, n2);
                lemma_rise_widen(added(start, available_moves@), key, 0, 4, 0, 5);
            }
        }
    } else {
        proof {
            lemma_appends_refl(mid);
            lemma_appends_ext(mid, mid, |m: int| 0nat, n2);
            lemma_rise_widen(added(start, available_moves@), key, 0, 4, 0, 5);
        }
    }
    proof {
        lemma_appends_trans(start, mid, available_moves@, n1, n2);
        assert forall|m: int| n1(m) + n2(m) == #[trigger] goal(m) by {
            if 0 <= m < 65536 {
                lemma_code_unique(m);
            }
        }
        lemma_appends_ext(start, available_moves@, |m: int| n1(m) + n2(m), goal);
    }
}

fn pawn_capture(color: Color, from: u16, enemy: u64, left: bool, available_moves: &mut Vec<Move>)
    requires
        from < 64,
    ensures
        appends(old(available_moves)@, final(available_moves)@, |m: int| indicator(capture_part(color, enemy, from as int, left, m))),
        keys_rise(added(old(available_moves)@, final(available_moves)@), |m: int| pawn_key(color, from as int, m), if left { 8int } else { 12int }, if left { 12int } else { 16int }),
        all_from(added(old(available_moves)@, final(available_moves)@), from as int),
{
    let ghost start = available_moves@;
    let ghost f = from as int;
    let white = is_white(color);
    let rank = from / 8;
    let file = from % 8;
    let ghost goal = |m: int| indicator(capture_part(color, enemy, f, left, m));
    let ghost key = |m: int| pawn_key(color, f, m);
    let ghost base: int = if left { 8 } else { 12 };
    proof {
        lemma_appends_refl(start);
        assert(added(start, start) =~= Seq::<Move>::empty());
    }
    if (white && rank == 7) || (!white && rank == 0) || (left && file == 0) || (!left && file == 7) {
        proof {
            lemma_appends_ext(start, available_moves@, |m: int| 0nat, goal);
        }
        return;
    }
    let fwd: u16 = if white { from + 8 } else { from - 8 };
    let to: u16 = if left { fwd - 1 } else { fwd + 1 };
    proof {
        assert(fwd as int == f + pawn_dir(color));
        lemma_mask_test(enemy, to as int);
    }
    if enemy & (1u64 << (to as u64)) == 0 {
        proof {
            lemma_appends_ext(start, available_moves@, |m: int| 0nat, goal);
        }
        return;
    }
    if (white && rank == 6) || (!white && rank == 1) {
        push_promotions(from, to, 1, available_moves);
        proof {
            lemma_appends_ext(start, available_moves@, |m: int| indicator(0 <= m < 65536 && move_from(m) == f && move_to(m) == to as int && promo_flag(move_flag(m) - 1)), goal);
            lemma_promotions_rise(color, start, available_moves@, f, to as int, 1, base);
        }
    } else {
        push_move(from, to, 1, available_moves);
        proof {
            lemma_code_fields(f, to as int, 1);
            lemma_one_rise(color, start, f, to as int, 1, base);
            lemma_rise_widen(added(start, available_moves@), key, base, base + 1, base, base + 4);
            assert forall|m: int| indicator(m == code(f, to as int, 1)) == #[trigger] goal(m) by {
                if 0 <= m < 65536 {
                    lemma_code_unique(m);
                }
                lemma_code_fields(f, to as int, 1);
            }
            lemma_appends_ext(start, available_moves@, |m: int| indicator(m == code(f, to as int, 1)), goal);
        }
    }
}

fn pawn_en_passant(color: Color, from: u16, ep: Option<u8>, available_moves: &mut Vec<Move>)
    requires
        from < 64,
    ensures
        appends(old(available_moves)@, final(available_moves)@, |m: int| indicator(ep_part(color, ep, from as int, m))),
        keys_rise(added(old(available_moves)@, final(available_moves)@), |m: int| pawn_key(color, from as int, m), 16, 17),
        all_from(added(old(available_moves)@, final(available_moves)@), from as int),
{
    let ghost start = available_moves@;
    let ghost f = from as int;
    let white = is_white(color);
    let rank = from / 8;
    let file = from % 8;
    let ghost goal = |m: int| indicator(ep_part(color, ep, f, m));
    proof {
        lemma_appends_refl(start);
        assert(added(start, start) =~= Seq::<Move>::empty());
    }
    match ep {
        Some(ep_sq) => {
            let e = ep_sq as u16;
            if (white && rank == 4) || (!white && rank == 3) {
                let fwd: u16 = if white { from + 8 } else { from - 8 };
                let target: Option<u16> = if file != 0 && e == fwd - 1 {
                    Some(fwd - 1)
                } else if file != 7 && e == fwd + 1 {
                    Some(fwd + 1)
                } else {
                    None
                };
                match target {
                    Some(to) => {
                        push_move(from, to, 0b0011, available_moves);
                        proof {
                            lemma_code_fields(f, to as int, 3);
                            lemma_one_rise(color, start, f, to as int, 3, 16);
                            assert forall|m: int| indicator(m == code(f, to as int, 3)) == #[trigger] goal(m) by {
                                if 0 <= m < 65536 {
                                    lemma_code_unique(m);
                                }
                                lemma_code_fields(f, to as int, 3);
                            }
                            lemma_appends_ext(start, available_moves@, |m: int| indicator(m == code(f, to as int, 3)), goal);
                        }
                        return;
                    },
                    None => {},
                }
            }
        },
        None => {},
    }
    proof {
        assert forall|m: int| 0nat == #[trigger] goal(m) by {
            if 0 <= m < 65536 {
                lemma_code_unique(m);
            }
        }
        lemma_appends_ext(start, available_moves@, |m: int| 0nat, goal);
    }
}


/// Appends every move of a pawn of side `color` on `from`.
fn pawn_square_moves(color: Color, from: u16, own_bb: u64, enemy: u64, ep: Option<u8>, available_moves: &mut Vec<Move>)
    requires
        from < 64,
    ensures
        appends(old(available_moves)@, final(available_moves)@, |m: int| indicator(pawn_sq(color, own_bb, enemy, ep, from as int, m))),
        keys_rise(added(old(available_moves)@, final(available_moves)@), |m: int| pawn_key(color, from as int, m), 0, 17),
        all_from(added(old(available_moves)@, final(available_moves)@), from as int),
{
    let ghost f = from as int;
    let ghost a0 = available_moves@;
    pawn_pushes(color, from, own_bb, enemy, available_moves);
    let ghost a1 = available_moves@;
    pawn_capture(color, from, enemy, true, available_moves);
    let ghost a2 = available_moves@;
    pawn_capture(color, from, enemy, false, available_moves);
    let ghost a3 = available_moves@;
    pawn_en_passant(color, from, ep, available_moves);
    proof {
        let n1 = |m: int| indicator(push_part(color, own_bb, enemy, f, m));
        let n2 = |m: int| indicator(capture_part(color, enemy, f, true, m));
        let n3 = |m: int| indicator(capture_part(color, enemy, f, false, m));
        let n4 = |m: int| indicator(ep_part(color, ep, f, m));
        lemma_appends_trans(a0, a1, a2, n1, n2);
        lemma_appends_trans(a0, a2, a3, |m: int| n1(m) + n2(m), n3);
        lemma_appends_trans(a0, a3, available_moves@, |m: int| n1(m) + n2(m) + n3(m), n4);
        let goal = |m: int| indicator(pawn_sq(color, own_bb, enemy, ep, f, m));
        assert forall|m: int| n1(m) + n2(m) + n3(m) + n4(m) == #[trigger] goal(m) by {}
        lemma_appends_ext(a0, available_moves@, |m: int| n1(m) + n2(m) + n3(m) + n4(m), goal);
        let key = |m: int| pawn_key(color, f, m);
        lemma_rise_widen(added(a0, a1), key, 0, 5, 0, 8);
        lemma_rise_trans(a0, a1, a2, key, 0, 8, 12);
        lemma_rise_trans(a0, a2, a3, key, 0, 12, 16);
        lemma_rise_trans(a0, a3, available_moves@, key, 0, 16, 17);
        lemma_from_trans(a0, a1, a2, f);
        lemma_from_trans(a0, a2, a3, f);
        lemma_from_trans(a0, a3, available_moves@, f);
    }
}

impl MoveGenerator {
    /// Generates all pseudo-legal pawn moves for one side: pawn moves from
    /// every square of `piece`'s bitboard, for `piece`'s side.
    ///
    /// The squares are visited as the side sees the board: for Black with
    /// rank 8 nearest.
    pub fn get_all_pawn_moves(board: &Board, piece: Piece, available_moves: &mut Vec<Move>)
        ensures
            appends(
                old(available_moves)@,
                final(available_moves)@,
                |m: int| indicator(pawn_moves_from(board@, color_of(piece), board@.pieces[piece_index(piece)], m)),
            ),
            keys_rise(
                added(old(available_moves)@, final(available_moves)@),
                |m: int| gen_key(color_of(piece), PieceType::Pawn, m),
                0,
                4096,
            ),
    {
        let color = piece.color();
        let pieces = board.pieces[piece.idx()];
        let own_bb = board.get_side_bitboard(color);
        let enemy = board.get_side_bitboard(color.opposite());
        let ep = board.en_passant_sq;
        let squares = walk_squares(pieces, color);
        let ghost start = available_moves@;
        let ghost key = |m: int| gen_key(color, PieceType::Pawn, m);
        let ghost mut hi: int = 0;
        proof {
            lemma_piece_index_roundtrip(piece);
            lemma_appends_refl(start);
            lemma_rise_none(start, key, 0, 0);
            lemma_appends_ext(start, start, |m: int| 0nat, |m: int| indicator(
                walked(squares@, 0, move_from(m)) && pawn_sq(color, own_bb, enemy, ep, move_from(m), m),
            ));
        }
        let mut j: usize = 0;
        while j < squares.len()
            invariant
                0 <= j <= squares@.len(),
                walk_of(squares@, pieces, color),
                appends(start, available_moves@, |m: int| indicator(
                    walked(squares@, j as int, move_from(m)) && pawn_sq(color, own_bb, enemy, ep, move_from(m), m),
                )),
                key == (|m: int| gen_key(color, PieceType::Pawn, m)),
                keys_rise(added(start, available_moves@), key, 0, hi),
                hi == if j == 0 {
                    0
                } else {
                    64 * (walk_key(color, squares@[j - 1] as int) + 1)
                },
            decreases squares@.len() - j,
        {
            let index = squares[j];
            proof {
                lemma_walk_step(squares@, pieces, color, j as int);
                if j > 0 {
                    assert(walk_key(color, squares@[j - 1] as int) < walk_key(color, squares@[j as int] as int));
                }
            }
            let ghost before = available_moves@;
            pawn_square_moves(color, index, own_bb, enemy, ep, available_moves);
            proof {
                let part = added(before, available_moves@);
                let inner = |m: int| pawn_key(color, index as int, m);
                lemma_rise_widen(part, inner, 0, 17, 0, 64);
                assert forall|i: int| 0 <= i < part.len() implies key(#[trigger] part[i].0 as int) == inner(part[i].0 as int) + 64 * walk_key(color, index as int) by {
                    assert(move_from(part[i].0 as int) == index as int);
                }
                lemma_rise_square(start, before, available_moves@, inner, key, hi, 64 * walk_key(color, index as int), 64);
                hi = 64 * walk_key(color, index as int) + 64;
                let n1 = |m: int| indicator(
                    walked(squares@, j as int, move_from(m)) && pawn_sq(color, own_bb, enemy, ep, move_from(m), m),
                );
                let n2 = |m: int| indicator(pawn_sq(color, own_bb, enemy, ep, index as int, m));
                lemma_appends_trans(start, before, available_moves@, n1, n2);
                let n3 = |m: int| indicator(
                    walked(squares@, j + 1, move_from(m)) && pawn_sq(color, own_bb, enemy, ep, move_from(m), m),
                );
                assert forall|m: int| n1(m) + n2(m) == #[trigger] n3(m) by {}
                lemma_appends_ext(start, available_moves@, |m: int| n1(m) + n2(m), n3);
            }
            j = j + 1;
        }
        proof {
            lemma_walk_end(squares@, pieces, color);
            if squares@.len() > 0 {
                assert(walk_key(color, squares@[squares@.len() - 1] as int) < 64);
            }
            lemma_rise_widen(added(start, available_moves@), key, 0, hi, 0, 4096);
            let n1 = |m: int| indicator(
                walked(squares@, squares@.len() as int, move_from(m)) && pawn_sq(color, own_bb, enemy, ep, move_from(m), m),
            );
            assert forall|m: int| #[trigger] n1(m) == indicator(pawn_moves_from(board@, color_of(piece), board@.pieces[piece_index(piece)], m)) by {
                assert forall|s: int| occupied(board@, s) == occ2(own_bb, enemy, s) by {}
                if 0 <= m < 65536 {
                    lemma_code_unique(m);
                }
            }
            lemma_appends_ext(start, available_moves@, n1, |m: int| indicator(pawn_moves_from(board@, color_of(piece), board@.pieces[piece_index(piece)], m)));
        }
    }
}

} // verus!

//! Knight and king steps.
use vstd::prelude::*;
use crate::bitboard::{bit, single, lemma_mask_test};
use crate::board::{Board, Color, Piece, PieceType, color_of, piece_index, other, lemma_piece_index_roundtrip};
use super::scan::{appends, indicator, walk_of, walked, walk_squares, keys_rise, all_from, added, lemma_rise_none, lemma_rise_push, lemma_rise_widen, lemma_rise_square, walk_key, lemma_walk_step, lemma_walk_end, lemma_appends_refl, lemma_appends_trans, lemma_appends_ext};
use super::order::{leap_index, gen_key, lemma_leap_index};
use super::{Move, MoveGenerator, move_from, move_to, move_flag, codes, lemma_code_fields, lemma_code_unique};
use super::rules::{file_of, rank_of, square_at, on_board, knight_step, king_step, knight_moves_from, count_in, lemma_count_push};

verus! {

/// File delta of the `i`-th knight jump, in the order 17, 15, 10, 6, -17, -15, -10, -6.
pub open spec fn knight_df(i: int) -> int {
    if i == 0 {
        1
    } else if i == 1 {
        -1
    } else if i == 2 {
        2
    } else if i == 3 {
        -2
    } else if i == 4 {
        -1
    } else if i == 5 {
        1
    } else if i == 6 {
        -2
    } else {
        2
    }
}

/// Rank delta of the `i`-th knight jump.
pub open spec fn knight_dr(i: int) -> int {
    if i == 0 {
        2
    } else if i == 1 {
        2
    } else if i == 2 {
        1
    } else if i == 3 {
        1
    } else if i == 4 {
        -2
    } else if i == 5 {
        -2
    } else if i == 6 {
        -1
    } else {
        -1
    }
}

/// File delta of the `i`-th king step, in the order -9, -8, -7, -1, 1, 7, 8, 9.
pub open spec fn king_df(i: int) -> int {
    if i == 0 {
        -1
    } else if i == 1 {
        0
    } else if i == 2 {
        1
    } else if i == 3 {
        -1
    } else if i == 4 {
        1
    } else if i == 5 {
        -1
    } else if i == 6 {
        0
    } else {
        1
    }
}

/// Rank delta of the `i`-th king step.
pub open spec fn king_dr(i: int) -> int {
    if i <= 2 {
        -1
    } else if i <= 4 {
        0
    } else {
        1
    }
}

pub open spec fn delta_df(knight: bool, i: int) -> int {
    if knight {
        knight_df(i)
    } else {
        king_df(i)
    }
}

/// Rank delta of the `i`-th jump (or step); `mirror` turns the board round,
/// as Black sees it.
pub open spec fn delta_dr(knight: bool, mirror: bool, i: int) -> int {
    let dr = if knight {
        knight_dr(i)
    } else {
        king_dr(i)
    };
    if mirror {
        -dr
    } else {
        dr
    }
}

/// `to` is a knight jump (or a king step) away from `from`.
pub open spec fn leap(knight: bool, from: int, to: int) -> bool {
    if knight {
        knight_step(from, to)
    } else {
        king_step(from, to)
    }
}

/// The moves a knight (or king) on `from` makes, given the two occupancy masks.
pub open spec fn leap_from(knight: bool, own_bb: u64, enemy: u64, from: int, m: int) -> bool {
    &&& 0 <= m < 65536
    &&& move_from(m) == from
    &&& leap(knight, from, move_to(m))
    &&& !bit(own_bb, move_to(m))
    &&& move_flag(m) == if bit(enemy, move_to(m)) {
        1int
    } else {
        0int
    }
}

pub(crate) proof fn lemma_leap_deltas(knight: bool, mirror: bool, from: int, to: int)
    requires
        0 <= from < 64,
        0 <= to < 64,
    ensures
        leap(knight, from, to) <==> exists|i: int|
            0 <= i < 8 && on_board(
                file_of(from) + delta_df(knight, i),
                rank_of(from) + delta_dr(knight, mirror, i),
            ) && to == square_at(
                file_of(from) + delta_df(knight, i),
                rank_of(from) + delta_dr(knight, mirror, i),
            ),
{
    let df = file_of(to) - file_of(from);
    let dr0 = rank_of(to) - rank_of(from);
    let dr = if mirror {
        -dr0
    } else {
        dr0
    };
    assert(to == square_at(file_of(from) + df, rank_of(from) + dr0));
    if leap(knight, from, to) {
        let i: int = if knight {
            if df == 1 && dr == 2 {
                0
            } else if df == -1 && dr == 2 {
                1
            } else if df == 2 && dr == 1 {
                2
            } else if df == -2 && dr == 1 {
                3
            } else if df == -1 && dr == -2 {
                4
            } else if df == 1 && dr == -2 {
                5
            } else if df == -2 && dr == -1 {
                6
            } else {
                7
            }
        } else {
            if dr == -1 {
                df + 1
            } else if dr == 0 {
                if df == -1 {
                    3
                } else {
                    4
                }
            } else {
                df + 6
            }
        };
        assert(delta_df(knight, i) == df && delta_dr(knight, mirror, i) == dr0);
    }
}

/// `to` is reached from `from` by one of the first `i` deltas.
pub open spec fn reach_upto(knight: bool, mirror: bool, from: int, to: int, i: int) -> bool {
    exists|j: int|
        0 <= j < i && on_board(
            file_of(from) + delta_df(knight, j),
            rank_of(from) + delta_dr(knight, mirror, j),
        ) && to == #[trigger] square_at(file_of(from) + delta_df(knight, j), rank_of(from) + delta_dr(knight, mirror, j))
}

pub(crate) proof fn lemma_reach_step(knight: bool, mirror: bool, from: int, to: int, i: int)
    requires
        0 <= i < 8,
        0 <= from < 64,
    ensures
        reach_upto(knight, mirror, from, to, i + 1) == (reach_upto(knight, mirror, from, to, i) || (on_board(
            file_of(from) + delta_df(knight, i),
            rank_of(from) + delta_dr(knight, mirror, i),
        ) && to == square_at(file_of(from) + delta_df(knight, i), rank_of(from) + delta_dr(knight, mirror, i)))),
{
    let fi = file_of(from) + delta_df(knight, i);
    let ri = rank_of(from) + delta_dr(knight, mirror, i);
    if on_board(fi, ri) && to == square_at(fi, ri) {
        assert(0 <= i < i + 1 && on_board(fi, ri) && to == square_at(fi, ri));
    }
    if reach_upto(knight, mirror, from, to, i + 1) {
        let j = choose|j: int|
            0 <= j < i + 1 && on_board(
                file_of(from) + delta_df(knight, j),
                rank_of(from) + delta_dr(knight, mirror, j),
            ) && to == #[trigger] square_at(file_of(from) + delta_df(knight, j), rank_of(from) + delta_dr(knight, mirror, j));
        if j < i {
            assert(reach_upto(knight, mirror, from, to, i));
        }
    }
    if reach_upto(knight, mirror, from, to, i) {
        let j = choose|j: int|
            0 <= j < i && on_board(
                file_of(from) + delta_df(knight, j),
                rank_of(from) + delta_dr(knight, mirror, j),
            ) && to == #[trigger] square_at(file_of(from) + delta_df(knight, j), rank_of(from) + delta_dr(knight, mirror, j));
        assert(0 <= j < i + 1);
    }
}

/// Distinct deltas reach distinct squares.
pub(crate) proof fn lemma_reach_unique(knight: bool, mirror: bool, from: int, i: int)
    requires
        0 <= i < 8,
        0 <= from < 64,
        on_board(file_of(from) + delta_df(knight, i), rank_of(from) + delta_dr(knight, mirror, i)),
    ensures
        !reach_upto(knight, mirror, from, square_at(file_of(from) + delta_df(knight, i), rank_of(from) + delta_dr(knight, mirror, i)), i),
{
    let t = square_at(file_of(from) + delta_df(knight, i), rank_of(from) + delta_dr(knight, mirror, i));
    if reach_upto(knight, mirror, from, t, i) {
        let j = choose|j: int|
            0 <= j < i && on_board(
                file_of(from) + delta_df(knight, j),
                rank_of(from) + delta_dr(knight, mirror, j),
            ) && t == #[trigger] square_at(file_of(from) + delta_df(knight, j), rank_of(from) + delta_dr(knight, mirror, j));
        assert(false);
    }
}

/// The `i`-th delta, executable; `mirror` turns the board round, as Black sees it.
pub fn delta(knight: bool, mirror: bool, i: usize) -> (r: (i16, i16))
    requires
        i < 8,
    ensures
        r.0 as int == delta_df(knight, i as int),
        r.1 as int == delta_dr(knight, mirror, i as int),
{
    let (df, dr): (i16, i16) = if knight {
        if i == 0 {
            (1, 2)
        } else if i == 1 {
            (-1, 2)
        } else if i == 2 {
            (2, 1)
        } else if i == 3 {
            (-2, 1)
        } else if i == 4 {
            (-1, -2)
        } else if i == 5 {
            (1, -2)
        } else if i == 6 {
            (-2, -1)
        } else {
            (2, -1)
        }
    } else {
        if i == 0 {
            (-1, -1)
        } else if i == 1 {
            (0, -1)
        } else if i == 2 {
            (1, -1)
        } else if i == 3 {
            (-1, 0)
        } else if i == 4 {
            (1, 0)
        } else if i == 5 {
            (-1, 1)
        } else if i == 6 {
            (0, 1)
        } else {
            (1, 1)
        }
    };
    if mirror {
        (df, -dr)
    } else {
        (df, dr)
    }
}

/// Appends the knight jumps (or king steps) from `from`.
pub fn leap_moves(
    knight: bool,
    mirror: bool,
    from: u16,
    own_bb: u64,
    enemy: u64,
    available_moves: &mut Vec<Move>,
)
    requires
        from < 64,
    ensures
        appends(
            old(available_moves)@,
            final(available_moves)@,
            |m: int| indicator(leap_from(knight, own_bb, enemy, from as int, m)),
        ),
        keys_rise(
            added(old(available_moves)@, final(available_moves)@),
            |m: int| leap_index(knight, mirror, from as int, move_to(m)),
            0,
            8,
        ),
        all_from(added(old(available_moves)@, final(available_moves)@), from as int),
        forall|j: int|
            0 <= j < added(old(available_moves)@, final(available_moves)@).len() ==> move_flag(
                #[trigger] added(old(available_moves)@, final(available_moves)@)[j].0 as int,
            ) < 2,
{
    let ghost start = available_moves@.len() as int;
    let ghost key = |m: int| leap_index(knight, mirror, from as int, move_to(m));
    proof {
        lemma_rise_none(available_moves@, key, 0, 0);
        assert(added(old(available_moves)@, available_moves@).len() == 0);
    }
    let file = (from % 8) as i16;
    let rank = (from / 8) as i16;
    let mut i: usize = 0;
    while i < 8
        invariant
            0 <= i <= 8,
            from < 64,
            file as int == file_of(from as int),
            rank as int == rank_of(from as int),
            available_moves@.len() >= start,
            available_moves@.subrange(0, start) == old(available_moves)@,
            start == old(available_moves)@.len(),
            key == (|m: int| leap_index(knight, mirror, from as int, move_to(m))),
            keys_rise(added(old(available_moves)@, available_moves@), key, 0, i as int),
            all_from(added(old(available_moves)@, available_moves@), from as int),
            forall|j: int|
                0 <= j < added(old(available_moves)@, available_moves@).len() ==> move_flag(
                    #[trigger] added(old(available_moves)@, available_moves@)[j].0 as int,
                ) < 2,
            forall|m: int|
                #![trigger count_in(codes(available_moves@.skip(start)), m)]
                count_in(codes(available_moves@.skip(start)), m) == indicator(
                    0 <= m < 65536 && move_from(m) == from as int && !bit(own_bb, move_to(m))
                        && move_flag(m) == (if bit(enemy, move_to(m)) {
                        1int
                    } else {
                        0int
                    }) && reach_upto(knight, mirror, from as int, move_to(m), i as int),
                ),
        decreases 8 - i,
    {
        let (df, dr) = delta(knight, mirror, i);
        let nf = file + df;
        let nr = rank + dr;
        let ghost before = available_moves@;
        if 0 <= nf && nf < 8 && 0 <= nr && nr < 8 {
            let target = (nr * 8 + nf) as u16;
            let bb = 1u64 << (target as u64);
            proof {
                assert(bb == single(target as int));
                assert(target as int == square_at(file_of(from as int) + delta_df(knight, i as int), rank_of(from as int) + delta_dr(knight, mirror, i as int)));
                lemma_mask_test(own_bb, target as int);
                lemma_mask_test(enemy, target as int);
            }
            if own_bb & bb == 0 {
                let flag: u16 = if enemy & bb != 0 {
                    1
                } else {
                    0
                };
                let mv = Move::new(from, target, flag);
                available_moves.push(mv);
                proof {
                    lemma_code_fields(from as int, target as int, flag as int);
                    lemma_leap_index(knight, mirror, from as int, i as int);
                    lemma_rise_push(old(available_moves)@, before, key, 0, i as int, i + 1, mv);
                    let prev = added(old(available_moves)@, before);
                    assert forall|j: int| 0 <= j < prev.push(mv).len() implies move_from(#[trigger] prev.push(mv)[j].0 as int) == from as int
                        && move_flag(prev.push(mv)[j].0 as int) < 2 by {
                        if j < prev.len() {
                            assert(prev.push(mv)[j] == prev[j]);
                        }
                    }
                    assert(available_moves@.skip(start) =~= before.skip(start).push(mv));
                    assert(codes(available_moves@.skip(start)) =~= codes(before.skip(start)).push(
                        mv.0,
                    ));
                    assert forall|m: int| #![trigger count_in(codes(available_moves@.skip(start)), m)]
                        count_in(codes(available_moves@.skip(start)), m) == indicator(
                        0 <= m < 65536 && move_from(m) == from as int && !bit(own_bb, move_to(m))
                            && move_flag(m) == (if bit(enemy, move_to(m)) {
                            1int
                        } else {
                            0int
                        }) && reach_upto(knight, mirror, from as int, move_to(m), i + 1),
                    ) by {
                        lemma_count_push(codes(before.skip(start)), mv.0, m);
                        lemma_reach_step(knight, mirror, from as int, move_to(m), i as int);
                        lemma_reach_unique(knight, mirror, from as int, i as int);
                        if 0 <= m < 65536 {
                            lemma_code_unique(m);
                        }
                        if m == mv.0 as int {
                            assert(move_to(m) == target as int);
                            assert(move_from(m) == from as int);
                            assert(!reach_upto(knight, mirror, from as int, move_to(m), i as int));
                            assert(reach_upto(knight, mirror, from as int, move_to(m), i + 1));
                            assert(on_board(
                                file_of(from as int) + delta_df(knight, i as int),
                                rank_of(from as int) + delta_dr(knight, mirror, i as int),
                            ));
                            // the earlier deltas reach other squares
                            assert forall|j: int|
                                0 <= j < i && on_board(
                                    file_of(from as int) + delta_df(knight, j),
                                    rank_of(from as int) + delta_dr(knight, mirror, j),
                                ) implies move_to(m) != square_at(
                                file_of(from as int) + delta_df(knight, j),
                                rank_of(from as int) + delta_dr(knight, mirror, j),
                            ) by {}
                        }
                    }
                }
            } else {
                proof {
                    assert forall|m: int| #![trigger count_in(codes(available_moves@.skip(start)), m)]
                        count_in(codes(available_moves@.skip(start)), m) == indicator(
                        0 <= m < 65536 && move_from(m) == from as int && !bit(own_bb, move_to(m))
                            && move_flag(m) == (if bit(enemy, move_to(m)) {
                            1int
                        } else {
                            0int
                        }) && reach_upto(knight, mirror, from as int, move_to(m), i + 1),
                    ) by {
                        lemma_reach_step(knight, mirror, from as int, move_to(m), i as int);
                        if 0 <= m < 65536 {
                            lemma_code_unique(m);
                        }
                    }
                }
            }
        } else {
            proof {
                assert forall|m: int| #![trigger count_in(codes(available_moves@.skip(start)), m)]
                    count_in(codes(available_moves@.skip(start)), m) == indicator(
                    0 <= m < 65536 && move_from(m) == from as int && !bit(own_bb, move_to(m))
                        && move_flag(m) == (if bit(enemy, move_to(m)) {
                        1int
                    } else {
                        0int
                    }) && reach_upto(knight, mirror, from as int, move_to(m), i + 1),
                ) by {
                    lemma_reach_step(knight, mirror, from as int, move_to(m), i as int);
                }
            }
        }
        proof {
            if !keys_rise(added(old(available_moves)@, available_moves@), key, 0, i + 1) {
                lemma_rise_widen(added(old(available_moves)@, available_moves@), key, 0, i as int, 0, i + 1);
            }
        }
        i = i + 1;
    }
    proof {
        assert forall|m: int|
            #![trigger count_in(codes(available_moves@.skip(start)), m)]
            count_in(codes(available_moves@.skip(start)), m) == indicator(
                leap_from(knight, own_bb, enemy, from as int, m),
            ) by {
            if 0 <= m < 65536 {
                lemma_code_unique(m);
                lemma_leap_deltas(knight, mirror, from as int, move_to(m));
                assert(reach_upto(knight, mirror, from as int, move_to(m), 8) == leap(knight, from as int, move_to(m)));
            }
        }
    }
}


impl MoveGenerator {
    /// Generates all pseudo-legal knight moves for one side: knight jumps from
    /// every square of `piece`'s bitboard, for `piece`'s side.
    ///
    /// The squares are visited, and the jumps tried, as the side sees the
    /// board: for Black with rank 8 nearest.
    pub fn get_all_knight_moves(board: &Board, piece: Piece, available_moves: &mut Vec<Move>)
        ensures
            appends(
                old(available_moves)@,
                final(available_moves)@,
                |m: int| indicator(knight_moves_from(board@, color_of(piece), board@.pieces[piece_index(piece)], m)),
            ),
            keys_rise(
                added(old(available_moves)@, final(available_moves)@),
                |m: int| gen_key(color_of(piece), PieceType::Knight, m),
                0,
                4096,
            ),
    {
        let color = piece.color();
        let pieces = board.pieces[piece.idx()];
        let own_bb = board.get_side_bitboard(color);
        let enemy = board.get_side_bitboard(color.opposite());
        let mirror = match color {
            Color::White => false,
            Color::Black => true,
        };
        let squares = walk_squares(pieces, color);
        let ghost start = available_moves@;
        let ghost key = |m: int| gen_key(color, PieceType::Knight, m);
        let ghost mut hi: int = 0;
        proof {
            lemma_piece_index_roundtrip(piece);
            lemma_appends_refl(start);
            lemma_rise_none(start, key, 0, 0);
            lemma_appends_ext(start, start, |m: int| 0nat, |m: int| indicator(
                walked(squares@, 0, move_from(m)) && leap_from(true, own_bb, enemy, move_from(m), m),
            ));
        }
        let mut j: usize = 0;
        while j < squares.len()
            invariant
                0 <= j <= squares@.len(),
                walk_of(squares@, pieces, color),
                appends(start, available_moves@, |m: int| indicator(
                    walked(squares@, j as int, move_from(m)) && leap_from(true, own_bb, enemy, move_from(m), m),
                )),
                mirror == (color == Color::Black),
                key == (|m: int| gen_key(color, PieceType::Knight, m)),
                keys_rise(added(start, available_moves@), key, 0, hi),
                hi == if j == 0 {
                    0
                } else {
                    64 * (walk_key(color, squares@[j - 1] as int) + 1)
                },
            decreases squares@.len() - j,
        {
            let index = squares[j];
            proof {
                lemma_walk_step(squares@, pieces, color, j as int);
                if j > 0 {
                    assert(walk_key(color, squares@[j - 1] as int) < walk_key(color, squares@[j as int] as int));
                }
            }
            let ghost before = available_moves@;
            leap_moves(true, mirror, index, own_bb, enemy, available_moves);
            proof {
                let part = added(before, available_moves@);
                let inner = |m: int| leap_index(true, mirror, index as int, move_to(m));
                lemma_rise_widen(part, inner, 0, 8, 0, 64);
                assert forall|i: int| 0 <= i < part.len() implies key(#[trigger] part[i].0 as int) == inner(part[i].0 as int) + 64 * walk_key(color, index as int) by {
                    assert(move_from(part[i].0 as int) == index as int);
                }
                lemma_rise_square(start, before, available_moves@, inner, key, hi, 64 * walk_key(color, index as int), 64);
                hi = 64 * walk_key(color, index as int) + 64;
                let n1 = |m: int| indicator(
                    walked(squares@, j as int, move_from(m)) && leap_from(true, own_bb, enemy, move_from(m), m),
                );
                let n2 = |m: int| indicator(leap_from(true, own_bb, enemy, index as int, m));
                lemma_appends_trans(start, before, available_moves@, n1, n2);
                let n3 = |m: int| indicator(
                    walked(squares@, j + 1, move_from(m)) && leap_from(true, own_bb, enemy, move_from(m), m),
                );
                assert forall|m: int| n1(m) + n2(m) == #[trigger] n3(m) by {}
                lemma_appends_ext(start, available_moves@, |m: int| n1(m) + n2(m), n3);
            }
            j = j + 1;
        }
        proof {
            lemma_walk_end(squares@, pieces, color);
            if squares@.len() > 0 {
                assert(walk_key(color, squares@[squares@.len() - 1] as int) < 64);
            }
            lemma_rise_widen(added(start, available_moves@), key, 0, hi, 0, 4096);
            let n1 = |m: int| indicator(
                walked(squares@, squares@.len() as int, move_from(m)) && leap_from(true, own_bb, enemy, move_from(m), m),
            );
            assert forall|m: int| #[trigger] n1(m) == indicator(knight_moves_from(board@, color_of(piece), board@.pieces[piece_index(piece)], m)) by {
                if 0 <= m < 65536 {
                    lemma_code_unique(m);
                }
            }
            lemma_appends_ext(start, available_moves@, n1, |m: int| indicator(knight_moves_from(board@, color_of(piece), board@.pieces[piece_index(piece)], m)));
        }
    }
}

} // verus!

//! Which squares a side attacks.
use vstd::prelude::*;
use crate::bitboard::{bit, single, lemma_mask_test, lemma_lowest_bit};
use crate::board::{Board, Color, Piece, PieceType, other};
use vstd::std_specs::bits::u64_trailing_zeros;
use super::MoveGenerator;
use super::knight::{delta, delta_df, delta_dr, lemma_leap_deltas, reach_upto, lemma_reach_step, leap};
use super::rules::{file_of, rank_of, square_at, on_board, knight_step, king_step, bb_of, ray_on, ray_sq, is_dir, ray_hits, pawn_attacks, knight_attacks, king_attacks, diagonal_attacks, straight_attacks, attacked};

verus! {

pub(crate) proof fn lemma_mul_succ(k: int, d: int)
    ensures
        (k + 1) * d == k * d + d,
{
    assert((k + 1) * d == k * d + d) by (nonlinear_arith);
}

pub(crate) proof fn lemma_unit_mul(k: int, d: int)
    requires
        -1 <= d <= 1,
    ensures
        d == 1 ==> k * d == k,
        d == 0 ==> k * d == 0,
        d == -1 ==> k * d == -k,
{
    if d == 1 {
        assert(k * d == k) by (nonlinear_arith)
            requires
                d == 1,
        ;
    } else if d == 0 {
        assert(k * d == 0) by (nonlinear_arith)
            requires
                d == 0,
        ;
    } else {
        assert(k * d == -k) by (nonlinear_arith)
            requires
                d == -1,
        ;
    }
}

/// Once a ray has left the board it stays off it.
pub(crate) proof fn lemma_ray_leaves(from: int, df: int, dr: int, k: int, k2: int)
    requires
        0 <= from < 64,
        is_dir(df, dr),
        1 <= k <= k2,
        !ray_on(from, df, dr, k),
    ensures
        !ray_on(from, df, dr, k2),
{
    lemma_unit_mul(k, df);
    lemma_unit_mul(k2, df);
    lemma_unit_mul(k, dr);
    lemma_unit_mul(k2, dr);
}

/// The first `k` squares of the ray are on the board and hold neither an
/// attacker nor any piece.
pub open spec fn ray_clear(attackers: u64, occ: u64, sq: int, df: int, dr: int, k: int) -> bool {
    forall|j: int|
        #![trigger ray_sq(sq, df, dr, j)]
        #![trigger ray_on(sq, df, dr, j)]
        1 <= j <= k ==> ray_on(sq, df, dr, j) && !bit(attackers, ray_sq(sq, df, dr, j))
            && !bit(occ, ray_sq(sq, df, dr, j))
}

pub(crate) proof fn lemma_ray_clear_step(attackers: u64, occ: u64, sq: int, df: int, dr: int, k: int)
    requires
        0 <= k,
        ray_clear(attackers, occ, sq, df, dr, k),
        ray_on(sq, df, dr, k + 1),
        !bit(attackers, ray_sq(sq, df, dr, k + 1)),
        !bit(occ, ray_sq(sq, df, dr, k + 1)),
    ensures
        ray_clear(attackers, occ, sq, df, dr, k + 1),
{
    assert forall|j: int| #![trigger ray_sq(sq, df, dr, j)] 1 <= j <= k + 1 implies ray_on(sq, df, dr, j) && !bit(attackers, ray_sq(sq, df, dr, j))
            && !bit(occ, ray_sq(sq, df, dr, j)) by {
        if j <= k {
            assert(ray_on(sq, df, dr, j) && !bit(attackers, ray_sq(sq, df, dr, j))
            && !bit(occ, ray_sq(sq, df, dr, j)));
        }
    }
}

/// Does a piece of `attackers` see `square` along direction (`df`, `dr`)?
pub fn ray_attacks_dir(square: usize, occupancy: u64, attackers: u64, df: i32, dr: i32) -> (r:
    bool)
    requires
        square < 64,
        is_dir(df as int, dr as int),
    ensures
        r == ray_hits(attackers, occupancy, square as int, df as int, dr as int),
{
    let ghost sq = square as int;
    let start_file = (square % 8) as i32;
    let start_rank = (square / 8) as i32;
    let mut file = start_file;
    let mut rank = start_rank;
    let mut k: i32 = 0;
    while k < 7
        invariant
            0 <= k <= 7,
            0 <= sq < 64,
            sq == square as int,
            is_dir(df as int, dr as int),
            start_file as int == file_of(sq),
            start_rank as int == rank_of(sq),
            file as int == file_of(sq) + (k as int) * (df as int),
            rank as int == rank_of(sq) + (k as int) * (dr as int),
            -8 <= file <= 15,
            -8 <= rank <= 15,
            ray_clear(attackers, occupancy, sq, df as int, dr as int, k as int),
        decreases 7 - k,
    {
        let ghost old_k = k as int;
        proof {
            lemma_mul_succ(k as int, df as int);
            lemma_mul_succ(k as int, dr as int);
        }
        file = file + df;
        rank = rank + dr;
        k = k + 1;
        if !(0 <= file && file < 8 && 0 <= rank && rank < 8) {
            proof {
                assert forall|k2: int| k <= k2 <= 7 implies !ray_on(sq, df as int, dr as int, k2) by {
                    lemma_ray_leaves(sq, df as int, dr as int, k as int, k2);
                }
            }
            return false;
        }
        let target = (rank * 8 + file) as u64;
        let bb = 1u64 << target;
        proof {
            assert(target as int == ray_sq(sq, df as int, dr as int, k as int));
            assert(bb == single(target as int));
            lemma_mask_test(attackers, target as int);
            lemma_mask_test(occupancy, target as int);
        }
        if attackers & bb != 0 {
            proof {
                let kk = k as int;
                assert(1 <= kk <= 7 && ray_on(sq, df as int, dr as int, kk) && bit(attackers, ray_sq(sq, df as int, dr as int, kk))
                    && (forall|j: int| 1 <= j < kk ==> !bit(occupancy, #[trigger] ray_sq(sq, df as int, dr as int, j))));
                assert(ray_hits(attackers, occupancy, sq, df as int, dr as int));
            }
            return true;
        }
        if occupancy & bb != 0 {
            proof {
                let kk = k as int;
                assert forall|k2: int| 1 <= k2 <= 7 && ray_on(sq, df as int, dr as int, k2) && #[trigger] bit(attackers, ray_sq(sq, df as int, dr as int, k2))
                    implies !(forall|j: int| 1 <= j < k2 ==> !bit(occupancy, #[trigger] ray_sq(sq, df as int, dr as int, j))) by {
                    if k2 <= kk {
                        assert(!bit(attackers, ray_sq(sq, df as int, dr as int, k2)));
                    } else {
                        assert(bit(occupancy, ray_sq(sq, df as int, dr as int, kk)));
                    }
                }
            }
            return false;
        }
        proof {
            let kk = k as int;
            assert(ray_on(sq, df as int, dr as int, kk));
            assert(!bit(attackers, ray_sq(sq, df as int, dr as int, kk)));
            assert(!bit(occupancy, ray_sq(sq, df as int, dr as int, kk)));
            lemma_ray_clear_step(attackers, occupancy, sq, df as int, dr as int, old_k);
        }
    }
    false
}

impl MoveGenerator {
    /// Is side `color`'s piece on the lowest square of `target_bb` attacked by
    /// the other side? An empty `target_bb` is never in check.
    pub fn is_check(board: &Board, color: Color, target_bb: u64) -> (r: bool)
        ensures
            r == (target_bb != 0 && attacked(
                board@,
                u64_trailing_zeros(target_bb) as int,
                other(color),
            )),
    {
        if target_bb == 0 {
            return false;
        }
        proof {
            lemma_lowest_bit(target_bb);
        }
        let square = target_bb.trailing_zeros() as usize;
        Self::is_square_attacked(board, square, color.opposite())
    }

    /// Is `square` attacked by side `by_color`?
    pub fn is_square_attacked(board: &Board, square: usize, by_color: Color) -> (r: bool)
        requires
            square < 64,
        ensures
            r == attacked(board@, square as int, by_color),
    {
        let occupancy = board.colors[0] | board.colors[1];
        Self::pawn_attacks_square(board, square, by_color) || Self::knight_attacks_square(
            board,
            square,
            by_color,
        ) || Self::king_attacks_square(board, square, by_color)
            || Self::bishop_or_queen_attacks_square(board, square, by_color, occupancy)
            || Self::rook_or_queen_attacks_square(board, square, by_color, occupancy)
    }

    fn pawn_attacks_square(board: &Board, square: usize, by_color: Color) -> (r: bool)
        requires
            square < 64,
        ensures
            r == pawn_attacks(board@, square as int, by_color),
    {
        let pawns = board.pieces[Piece::new(by_color, PieceType::Pawn).idx()];
        let file = square % 8;
        let rank = square / 8;
        match by_color {
            Color::White => {
                if rank == 0 {
                    return false;
                }
                proof {
                    if file > 0 {
                        lemma_mask_test(pawns, square - 9);
                    }
                    lemma_mask_test(pawns, square - 7);
                    crate::board::lemma_piece_for_index(by_color, PieceType::Pawn);
                }
                (file > 0 && pawns & (1u64 << ((square - 9) as u64)) != 0) || (file < 7 && pawns
                    & (1u64 << ((square - 7) as u64)) != 0)
            },
            Color::Black => {
                if rank == 7 {
                    return false;
                }
                proof {
                    lemma_mask_test(pawns, square + 7);
                    if file < 7 {
                        lemma_mask_test(pawns, square + 9);
                    }
                    crate::board::lemma_piece_for_index(by_color, PieceType::Pawn);
                }
                (file > 0 && pawns & (1u64 << ((square + 7) as u64)) != 0) || (file < 7 && pawns
                    & (1u64 << ((square + 9) as u64)) != 0)
            },
        }
    }

    /// Is there a knight (`knight`) or king (`!knight`) of `bb` one leap from `square`?
    fn leap_attacks_square(bb: u64, square: usize, knight: bool) -> (r: bool)
        requires
            square < 64,
        ensures
            r == exists|t: int| leap(knight, t, square as int) && #[trigger] bit(bb, t),
    {
        let ghost sq = square as int;
        let file = (square % 8) as i16;
        let rank = (square / 8) as i16;
        let mut i: usize = 0;
        while i < 8
            invariant
                0 <= i <= 8,
                0 <= sq < 64,
                sq == square as int,
                file as int == file_of(sq),
                rank as int == rank_of(sq),
                forall|t: int| 0 <= t < 64 && reach_upto(knight, false, sq, t, i as int) ==> !bit(bb, t),
            decreases 8 - i,
        {
            let (df, dr) = delta(knight, false, i);
            let nf = file + df;
            let nr = rank + dr;
            proof {
                assert forall|t: int| 0 <= t < 64 implies reach_upto(knight, false, sq, t, i + 1) == (
                reach_upto(knight, false, sq, t, i as int) || (on_board(nf as int, nr as int) && t == square_at(
                    nf as int,
                    nr as int,
                ))) by {
                    lemma_reach_step(knight, false, sq, t, i as int);
                }
            }
            if 0 <= nf && nf < 8 && 0 <= nr && nr < 8 {
                let target = (nr * 8 + nf) as u64;
                proof {
                    lemma_mask_test(bb, target as int);
                }
                if bb & (1u64 << target) != 0 {
                    proof {
                        lemma_leap_deltas(knight, false, sq, target as int);
                        assert(reach_upto(knight, false, sq, target as int, i + 1));
                        assert(reach_upto(knight, false, sq, target as int, 8)) by {
                            let j = i as int;
                            assert(0 <= j < 8 && on_board(
                                file_of(sq) + delta_df(knight, j),
                                rank_of(sq) + delta_dr(knight, false, j),
                            ) && target as int == square_at(
                                file_of(sq) + delta_df(knight, j),
                                rank_of(sq) + delta_dr(knight, false, j),
                            ));
                        }
                        assert(leap(knight, sq, target as int));
                        assert(leap(knight, target as int, sq));
                        assert(bit(bb, target as int));
                        assert(leap(knight, target as int, sq) && bit(bb, target as int));
                        assert(exists|t: int| leap(knight, t, sq) && #[trigger] bit(bb, t));
                    }
                    return true;
                }
            }
            i = i + 1;
        }
        proof {
            assert forall|t: int| leap(knight, t, sq) implies !#[trigger] bit(bb, t) by {
                if 0 <= t < 64 {
                    assert(leap(knight, sq, t));
                    lemma_leap_deltas(knight, false, sq, t);
                    let j = choose|j: int|
                        0 <= j < 8 && on_board(
                            file_of(sq) + delta_df(knight, j),
                            rank_of(sq) + delta_dr(knight, false, j),
                        ) && t == square_at(
                            file_of(sq) + delta_df(knight, j),
                            rank_of(sq) + delta_dr(knight, false, j),
                        );
                    assert(reach_upto(knight, false, sq, t, 8)) by {
                        assert(0 <= j < 8 && on_board(
                            file_of(sq) + delta_df(knight, j),
                            rank_of(sq) + delta_dr(knight, false, j),
                        ) && t == square_at(
                            file_of(sq) + delta_df(knight, j),
                            rank_of(sq) + delta_dr(knight, false, j),
                        ));
                    }
                }
            }
        }
        false
    }

    fn knight_attacks_square(board: &Board, square: usize, by_color: Color) -> (r: bool)
        requires
            square < 64,
        ensures
            r == knight_attacks(board@, square as int, by_color),
    {
        let knights = board.pieces[Piece::new(by_color, PieceType::Knight).idx()];
        proof {
            crate::board::lemma_piece_for_index(by_color, PieceType::Knight);
        }
        let r = Self::leap_attacks_square(knights, square, true);
        proof {
            let sq = square as int;
            if r {
                let t = choose|t: int| leap(true, t, sq) && #[trigger] bit(knights, t);
                assert(knight_step(t, sq) && bit(bb_of(board@, by_color, PieceType::Knight), t));
            } else {
                assert forall|t: int| knight_step(t, sq) implies !#[trigger] bit(bb_of(board@, by_color, PieceType::Knight), t) by {
                    assert(!(leap(true, t, sq) && bit(knights, t)));
                }
            }
        }
        r
    }

    fn king_attacks_square(board: &Board, square: usize, by_color: Color) -> (r: bool)
        requires
            square < 64,
        ensures
            r == king_attacks(board@, square as int, by_color),
    {
        let king = board.pieces[Piece::new(by_color, PieceType::King).idx()];
        proof {
            crate::board::lemma_piece_for_index(by_color, PieceType::King);
        }
        let r = Self::leap_attacks_square(king, square, false);
        proof {
            let sq = square as int;
            if r {
                let t = choose|t: int| leap(false, t, sq) && #[trigger] bit(king, t);
                assert(king_step(t, sq) && bit(bb_of(board@, by_color, PieceType::King), t));
            } else {
                assert forall|t: int| king_step(t, sq) implies !#[trigger] bit(bb_of(board@, by_color, PieceType::King), t) by {
                    assert(!(leap(false, t, sq) && bit(king, t)));
                }
            }
        }
        r
    }

    fn bishop_or_queen_attacks_square(
        board: &Board,
        square: usize,
        by_color: Color,
        occupancy: u64,
    ) -> (r: bool)
        requires
            square < 64,
            occupancy == board.colors[0] | board.colors[1],
        ensures
            r == diagonal_attacks(board@, square as int, by_color),
    {
        let attackers = board.pieces[Piece::new(by_color, PieceType::Bishop).idx()]
            | board.pieces[Piece::new(by_color, PieceType::Queen).idx()];
        proof {
            crate::board::lemma_piece_for_index(by_color, PieceType::Bishop);
            crate::board::lemma_piece_for_index(by_color, PieceType::Queen);
        }
        ray_attacks_dir(square, occupancy, attackers, 1, 1) || ray_attacks_dir(
            square,
            occupancy,
            attackers,
            1,
            -1,
        ) || ray_attacks_dir(square, occupancy, attackers, -1, 1) || ray_attacks_dir(
            square,
            occupancy,
            attackers,
            -1,
            -1,
        )
    }

    fn rook_or_queen_attacks_square(
        board: &Board,
        square: usize,
        by_color: Color,
        occupancy: u64,
    ) -> (r: bool)
        requires
            square < 64,
            occupancy == board.colors[0] | board.colors[1],
        ensures
            r == straight_attacks(board@, square as int, by_color),
    {
        let attackers = board.pieces[Piece::new(by_color, PieceType::Rook).idx()]
            | board.pieces[Piece::new(by_color, PieceType::Queen).idx()];
        proof {
            crate::board::lemma_piece_for_index(by_color, PieceType::Rook);
            crate::board::lemma_piece_for_index(by_color, PieceType::Queen);
        }
        ray_attacks_dir(square, occupancy, attackers, 1, 0) || ray_attacks_dir(
            square,
            occupancy,
            attackers,
            -1,
            0,
        ) || ray_attacks_dir(square, occupancy, attackers, 0, 1) || ray_attacks_dir(
            square,
            occupancy,
            attackers,
            0,
            -1,
        )
    }
}

} // verus!

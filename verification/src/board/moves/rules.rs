//! The rules of piece movement and attack, stated over board positions.
//!
//! A square `s` has file `s % 8` (0 = a) and rank `s / 8` (0 = rank 1).
//! Moves are given by their 16-bit code (see [`super::code`]).
use vstd::prelude::*;
use crate::bitboard::bit;
use crate::board::{Color, PieceType, Position, side_bits, other, color_base, kind_offset};
use vstd::std_specs::bits::u64_trailing_zeros;
use super::{code, move_from, move_to, move_flag};
use super::scan::walk_key;

verus! {

pub open spec fn file_of(s: int) -> int {
    s % 8
}

pub open spec fn rank_of(s: int) -> int {
    s / 8
}

pub open spec fn square_at(f: int, r: int) -> int {
    r * 8 + f
}

pub open spec fn on_board(f: int, r: int) -> bool {
    0 <= f < 8 && 0 <= r < 8
}

pub open spec fn abs(x: int) -> int {
    if x < 0 {
        -x
    } else {
        x
    }
}

/// The bitboard of side `c`'s pieces of kind `k`.
pub open spec fn bb_of(p: Position, c: Color, k: PieceType) -> u64 {
    p.pieces[color_base(c) + kind_offset(k)]
}

/// Squares held by side `c`.
pub open spec fn own(p: Position, c: Color) -> u64 {
    side_bits(p.pieces, c)
}

/// Squares held by either side.
pub open spec fn occupied(p: Position, s: int) -> bool {
    bit(side_bits(p.pieces, Color::White), s) || bit(side_bits(p.pieces, Color::Black), s)
}

/// The flag of an ordinary move of side `c` to `to`: 1 when it captures.
pub open spec fn capture_flag(p: Position, c: Color, to: int) -> int {
    if bit(own(p, other(c)), to) {
        1
    } else {
        0
    }
}

/// A knight jump from `from` to `to`.
pub open spec fn knight_step(from: int, to: int) -> bool {
    let df = file_of(to) - file_of(from);
    let dr = rank_of(to) - rank_of(from);
    &&& 0 <= from < 64
    &&& 0 <= to < 64
    &&& ((abs(df) == 1 && abs(dr) == 2) || (abs(df) == 2 && abs(dr) == 1))
}

/// A king step from `from` to `to`.
pub open spec fn king_step(from: int, to: int) -> bool {
    let df = file_of(to) - file_of(from);
    let dr = rank_of(to) - rank_of(from);
    &&& 0 <= from < 64
    &&& 0 <= to < 64
    &&& abs(df) <= 1
    &&& abs(dr) <= 1
    &&& from != to
}

/// An ordinary (non-castling) move of a piece that steps as `step` says.
pub open spec fn step_move(p: Position, c: Color, from: int, m: int) -> bool {
    &&& !bit(own(p, c), move_to(m))
    &&& move_flag(m) == capture_flag(p, c, move_to(m))
    &&& move_from(m) == from
}

/// Knight jumps of side `c` from the squares of `bb`.
pub open spec fn knight_moves_from(p: Position, c: Color, bb: u64, m: int) -> bool {
    &&& 0 <= m < 65536
    &&& bit(bb, move_from(m))
    &&& knight_step(move_from(m), move_to(m))
    &&& step_move(p, c, move_from(m), m)
}

pub open spec fn knight_move(p: Position, c: Color, m: int) -> bool {
    knight_moves_from(p, c, bb_of(p, c, PieceType::Knight), m)
}

/// The `k`-th square from `from` in direction (`df`, `dr`) is on the board.
pub open spec fn ray_on(from: int, df: int, dr: int, k: int) -> bool {
    on_board(file_of(from) + k * df, rank_of(from) + k * dr)
}

/// The `k`-th square from `from` in direction (`df`, `dr`).
pub open spec fn ray_sq(from: int, df: int, dr: int, k: int) -> int {
    square_at(file_of(from) + k * df, rank_of(from) + k * dr)
}

/// A unit direction of movement.
pub open spec fn is_dir(df: int, dr: int) -> bool {
    -1 <= df <= 1 && -1 <= dr <= 1 && !(df == 0 && dr == 0)
}

pub open spec fn diagonal(df: int, dr: int) -> bool {
    is_dir(df, dr) && df != 0 && dr != 0
}

pub open spec fn straight(df: int, dr: int) -> bool {
    is_dir(df, dr) && (df == 0 || dr == 0)
}

/// `to` is reached from `from` by sliding in direction (`df`, `dr`) over empty
/// squares, ending on an empty square or on a piece of the other side.
pub open spec fn slide_to(p: Position, c: Color, from: int, df: int, dr: int, to: int) -> bool {
    exists|k: int|
        #![trigger ray_sq(from, df, dr, k)]
        1 <= k <= 7 && ray_on(from, df, dr, k) && to == ray_sq(from, df, dr, k) && (forall|j: int|
            #![trigger ray_sq(from, df, dr, j)]
            1 <= j < k ==> !occupied(p, ray_sq(from, df, dr, j)))
}

/// A sliding move of side `c` from a square of `bb` in a direction that
/// `dirs` admits.
pub open spec fn slider_move(
    p: Position,
    c: Color,
    bb: u64,
    dirs: spec_fn(int, int) -> bool,
    m: int,
) -> bool {
    &&& 0 <= m < 65536
    &&& 0 <= move_from(m) < 64
    &&& bit(bb, move_from(m))
    &&& exists|df: int, dr: int|
        dirs(df, dr) && #[trigger] slide_to(p, c, move_from(m), df, dr, move_to(m))
    &&& step_move(p, c, move_from(m), m)
}

/// Bishop moves of side `c` from the squares of `bb`.
pub open spec fn bishop_moves_from(p: Position, c: Color, bb: u64, m: int) -> bool {
    slider_move(p, c, bb, |df: int, dr: int| diagonal(df, dr), m)
}

/// Rook moves of side `c` from the squares of `bb`.
pub open spec fn rook_moves_from(p: Position, c: Color, bb: u64, m: int) -> bool {
    slider_move(p, c, bb, |df: int, dr: int| straight(df, dr), m)
}

/// Queen moves of side `c` from the squares of `bb`.
pub open spec fn queen_moves_from(p: Position, c: Color, bb: u64, m: int) -> bool {
    slider_move(p, c, bb, |df: int, dr: int| is_dir(df, dr), m)
}

pub open spec fn bishop_move(p: Position, c: Color, m: int) -> bool {
    bishop_moves_from(p, c, bb_of(p, c, PieceType::Bishop), m)
}

pub open spec fn rook_move(p: Position, c: Color, m: int) -> bool {
    rook_moves_from(p, c, bb_of(p, c, PieceType::Rook), m)
}

pub open spec fn queen_move(p: Position, c: Color, m: int) -> bool {
    queen_moves_from(p, c, bb_of(p, c, PieceType::Queen), m)
}

/// The forward direction of side `c`'s pawns, in squares.
pub open spec fn pawn_dir(c: Color) -> int {
    match c {
        Color::White => 8,
        Color::Black => -8,
    }
}

/// Rank from which side `c`'s pawns may advance two squares.
pub open spec fn pawn_start_rank(c: Color) -> int {
    match c {
        Color::White => 1,
        Color::Black => 6,
    }
}

/// Rank from which side `c`'s pawns promote on their next step.
pub open spec fn pawn_promo_rank(c: Color) -> int {
    match c {
        Color::White => 6,
        Color::Black => 1,
    }
}

/// Rank on which side `c`'s pawns may capture en passant.
pub open spec fn pawn_ep_rank(c: Color) -> int {
    match c {
        Color::White => 4,
        Color::Black => 3,
    }
}

/// The last rank of side `c`'s pawns; they have no forward square from there.
pub open spec fn pawn_last_rank(c: Color) -> int {
    match c {
        Color::White => 7,
        Color::Black => 0,
    }
}

/// `to` is a forward diagonal of `from` for side `c`.
pub open spec fn pawn_diag(c: Color, from: int, to: int) -> bool {
    &&& rank_of(from) != pawn_last_rank(c)
    &&& ((file_of(from) > 0 && to == from + pawn_dir(c) - 1) || (file_of(from) < 7 && to == from
        + pawn_dir(c) + 1))
}

pub open spec fn promo_flag(f: int) -> bool {
    f == 8 || f == 10 || f == 12 || f == 14
}

/// Pawn moves of side `c` from the squares of `bb`.
pub open spec fn pawn_moves_from(p: Position, c: Color, bb: u64, m: int) -> bool {
    let from = move_from(m);
    let to = move_to(m);
    let f = move_flag(m);
    let promo = rank_of(from) == pawn_promo_rank(c);
    &&& 0 <= m < 65536
    &&& bit(bb, from)
    &&& {
        // single push
        ||| (rank_of(from) != pawn_last_rank(c) && to == from + pawn_dir(c) && !occupied(p, to) && (
        if promo {
            promo_flag(f)
        } else {
            f == 0
        }))
        // double push
        ||| (rank_of(from) == pawn_start_rank(c) && to == from + 2 * pawn_dir(c) && !occupied(
            p,
            from + pawn_dir(c),
        ) && !occupied(p, to) && f == 0)
        // capture
        ||| (pawn_diag(c, from, to) && bit(own(p, other(c)), to) && (if promo {
            promo_flag(f - 1)
        } else {
            f == 1
        }))
        // en passant
        ||| (rank_of(from) == pawn_ep_rank(c) && pawn_diag(c, from, to) && p.en_passant_sq == Some(
            to as u8,
        ) && f == 3)
    }
}

pub open spec fn pawn_move(p: Position, c: Color, m: int) -> bool {
    pawn_moves_from(p, c, bb_of(p, c, PieceType::Pawn), m)
}

/// The king's home square of side `c`.
pub open spec fn king_home(c: Color) -> int {
    match c {
        Color::White => 4,
        Color::Black => 60,
    }
}

pub open spec fn kingside_right(c: Color) -> u8 {
    match c {
        Color::White => 1,
        Color::Black => 4,
    }
}

pub open spec fn queenside_right(c: Color) -> u8 {
    match c {
        Color::White => 2,
        Color::Black => 8,
    }
}

/// Squares attacked by pawns of side `by`.
pub open spec fn pawn_attacks(p: Position, sq: int, by: Color) -> bool {
    let pawns = bb_of(p, by, PieceType::Pawn);
    match by {
        Color::White => rank_of(sq) != 0 && ((file_of(sq) > 0 && bit(pawns, sq - 9)) || (file_of(
            sq,
        ) < 7 && bit(pawns, sq - 7))),
        Color::Black => rank_of(sq) != 7 && ((file_of(sq) > 0 && bit(pawns, sq + 7)) || (file_of(
            sq,
        ) < 7 && bit(pawns, sq + 9))),
    }
}

pub open spec fn knight_attacks(p: Position, sq: int, by: Color) -> bool {
    exists|t: int| knight_step(t, sq) && #[trigger] bit(bb_of(p, by, PieceType::Knight), t)
}

pub open spec fn king_attacks(p: Position, sq: int, by: Color) -> bool {
    exists|t: int| king_step(t, sq) && #[trigger] bit(bb_of(p, by, PieceType::King), t)
}

/// A piece in `attackers` sees `sq` along direction (`df`, `dr`): it is the
/// first square of `occ` on that ray, or stands before it.
pub open spec fn ray_hits(attackers: u64, occ: u64, sq: int, df: int, dr: int) -> bool {
    exists|k: int|
        #![trigger ray_sq(sq, df, dr, k)]
        1 <= k <= 7 && ray_on(sq, df, dr, k) && bit(attackers, ray_sq(sq, df, dr, k))
            && (forall|j: int| #![trigger ray_sq(sq, df, dr, j)] 1 <= j < k ==> !bit(occ, ray_sq(sq, df, dr, j)))
}

pub open spec fn diagonal_attacks(p: Position, sq: int, by: Color) -> bool {
    let att = bb_of(p, by, PieceType::Bishop) | bb_of(p, by, PieceType::Queen);
    let occ = p.colors[0] | p.colors[1];
    ray_hits(att, occ, sq, 1, 1) || ray_hits(att, occ, sq, 1, -1) || ray_hits(att, occ, sq, -1, 1)
        || ray_hits(att, occ, sq, -1, -1)
}

pub open spec fn straight_attacks(p: Position, sq: int, by: Color) -> bool {
    let att = bb_of(p, by, PieceType::Rook) | bb_of(p, by, PieceType::Queen);
    let occ = p.colors[0] | p.colors[1];
    ray_hits(att, occ, sq, 1, 0) || ray_hits(att, occ, sq, -1, 0) || ray_hits(att, occ, sq, 0, 1)
        || ray_hits(att, occ, sq, 0, -1)
}

/// Square `sq` is attacked by side `by`; sliding attacks are blocked by the
/// cached occupancy masks.
pub open spec fn attacked(p: Position, sq: int, by: Color) -> bool {
    ||| pawn_attacks(p, sq, by)
    ||| knight_attacks(p, sq, by)
    ||| king_attacks(p, sq, by)
    ||| diagonal_attacks(p, sq, by)
    ||| straight_attacks(p, sq, by)
}

/// The castling move `m` of side `c` once its king stands at home out of
/// check: the right still held, the rook in the corner, the squares between
/// empty and the squares the king crosses not attacked.
pub open spec fn castle_path(p: Position, c: Color, m: int) -> bool {
    let home = king_home(c);
    let them = other(c);
    ||| (m == code(home, home + 2, 4) && p.castling_rights & kingside_right(c) != 0 && bit(
        bb_of(p, c, PieceType::Rook),
        home + 3,
    ) && !occupied(p, home + 1) && !occupied(p, home + 2) && !attacked(p, home + 1, them)
        && !attacked(p, home + 2, them))
    ||| (m == code(home, home - 2, 6) && p.castling_rights & queenside_right(c) != 0 && bit(
        bb_of(p, c, PieceType::Rook),
        home - 4,
    ) && !occupied(p, home - 1) && !occupied(p, home - 2) && !occupied(p, home - 3)
        && !attacked(p, home - 1, them) && !attacked(p, home - 2, them))
}

/// `s` is the first square of `bb` that side `c` visits (see [`walk_key`]).
pub open spec fn first_of(c: Color, bb: u64, s: int) -> bool {
    &&& bit(bb, s)
    &&& forall|t: int| #[trigger] bit(bb, t) ==> walk_key(c, s) <= walk_key(c, t)
}

/// Castling moves of side `c` counted from the first square of `bb` that the
/// side visits: that square is the king's home square, side `c`'s king (the
/// lowest square of its king bitboard) is not attacked, a castling right is
/// held, and the path is as [`castle_path`] says.
pub open spec fn castle_from(p: Position, c: Color, bb: u64, m: int) -> bool {
    let kb = bb_of(p, c, PieceType::King);
    &&& first_of(c, bb, king_home(c))
    &&& p.castling_rights != 0
    &&& !(kb != 0 && attacked(p, u64_trailing_zeros(kb) as int, other(c)))
    &&& castle_path(p, c, m)
}

/// King moves of side `c` from the first square of `bb` that the side visits:
/// one step, or a castle as [`castle_from`] says.
pub open spec fn king_moves_from(p: Position, c: Color, bb: u64, m: int) -> bool {
    ||| (0 <= m < 65536 && first_of(c, bb, move_from(m)) && king_step(move_from(m), move_to(m))
        && step_move(p, c, move_from(m), m))
    ||| castle_from(p, c, bb, m)
}

/// Castling moves of side `c`'s king.
pub open spec fn castle_move(p: Position, c: Color, m: int) -> bool {
    castle_from(p, c, bb_of(p, c, PieceType::King), m)
}

/// Moves of side `c`'s king: one step, or a castle.
pub open spec fn king_move(p: Position, c: Color, m: int) -> bool {
    king_moves_from(p, c, bb_of(p, c, PieceType::King), m)
}

/// The pseudo-legal moves of side `c`'s pieces of kind `k`.
pub open spec fn pseudo_move(p: Position, c: Color, k: PieceType, m: int) -> bool {
    match k {
        PieceType::Pawn => pawn_move(p, c, m),
        PieceType::Knight => knight_move(p, c, m),
        PieceType::Bishop => bishop_move(p, c, m),
        PieceType::Rook => rook_move(p, c, m),
        PieceType::Queen => queen_move(p, c, m),
        PieceType::King => king_move(p, c, m),
    }
}

/// How often `m` occurs in `s`.
pub open spec fn count_in(s: Seq<u16>, m: int) -> nat
    decreases s.len(),
{
    if s.len() == 0 {
        0
    } else {
        count_in(s.drop_last(), m) + if s.last() as int == m {
            1nat
        } else {
            0nat
        }
    }
}

pub(crate) proof fn lemma_count_push(s: Seq<u16>, x: u16, m: int)
    ensures
        count_in(s.push(x), m) == count_in(s, m) + if x as int == m {
            1nat
        } else {
            0nat
        },
{
    assert(s.push(x).drop_last() =~= s);
}

pub(crate) proof fn lemma_count_concat(a: Seq<u16>, b: Seq<u16>, m: int)
    ensures
        count_in(a + b, m) == count_in(a, m) + count_in(b, m),
    decreases b.len(),
{
    if b.len() == 0 {
        assert(a + b =~= a);
    } else {
        lemma_count_concat(a, b.drop_last(), m);
        assert((a + b).drop_last() =~= a + b.drop_last());
    }
}

} // verus!

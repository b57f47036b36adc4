//! The order in which the generator yields moves, stated as keys that rise
//! along what it yields.
//!
//! Each side sees the board from its own end: Black's squares are visited
//! rank 8 first (see [`walk_key`]) and its jumps, steps and rays are tried
//! with the ranks turned round (`mirror`).
use vstd::prelude::*;
use crate::board::{Color, PieceType};
use super::{move_from, move_to, move_flag};
use super::scan::walk_key;
use super::rules::{file_of, rank_of, square_at, on_board, ray_on, ray_sq, abs, pawn_dir};
use super::knight::{delta_df, delta_dr};
use super::sliders::{dir_df, dir_dr};
use super::attacks::lemma_unit_mul;

verus! {

/// The place, among the eight jumps (or king steps) tried from `from`, of the
/// one that lands on `to`; 8 where none does.
pub open spec fn leap_index(knight: bool, mirror: bool, from: int, to: int) -> int {
    let df = file_of(to) - file_of(from);
    let dr = if mirror {
        rank_of(from) - rank_of(to)
    } else {
        rank_of(to) - rank_of(from)
    };
    if knight {
        if df == 1 && dr == 2 {
            0
        } else if df == -1 && dr == 2 {
            1
        } else if df == 2 && dr == 1 {
            2
        } else if df == -2 && dr == 1 {
            3
        } else if df == -1 && dr == -2 {
            4
        } else if df == 1 && dr == -2 {
            5
        } else if df == -2 && dr == -1 {
            6
        } else if df == 2 && dr == -1 {
            7
        } else {
            8
        }
    } else {
        if dr == -1 && -1 <= df <= 1 {
            df + 1
        } else if dr == 0 && df == -1 {
            3
        } else if dr == 0 && df == 1 {
            4
        } else if dr == 1 && -1 <= df <= 1 {
            df + 6
        } else {
            8
        }
    }
}

pub open spec fn sign(x: int) -> int {
    if x < 0 {
        -1
    } else if x > 0 {
        1
    } else {
        0
    }
}

/// The place of direction (`df`, `dr`) among the four diagonal (or straight)
/// directions, in the order they are tried.
pub open spec fn dir_index(mirror: bool, df: int, dr: int) -> int {
    let d = if mirror {
        -dr
    } else {
        dr
    };
    if df != 0 && d != 0 {
        if d < 0 {
            if df < 0 {
                0
            } else {
                1
            }
        } else {
            if df < 0 {
                2
            } else {
                3
            }
        }
    } else {
        if d == 0 {
            if df < 0 {
                0
            } else {
                1
            }
        } else {
            if d < 0 {
                2
            } else {
                3
            }
        }
    }
}

/// Where the slide from `from` to `to` comes among a slider's moves: the
/// diagonal ones before the straight ones, nearer squares before farther
/// ones, and at each distance the directions in their order.
pub open spec fn slide_key(mirror: bool, from: int, to: int) -> int {
    let df = file_of(to) - file_of(from);
    let dr = rank_of(to) - rank_of(from);
    let dist = if abs(df) > abs(dr) {
        abs(df)
    } else {
        abs(dr)
    };
    (if df != 0 && dr != 0 {
        0int
    } else {
        32int
    }) + (dist - 1) * 4 + dir_index(mirror, sign(df), sign(dr))
}

/// Where pawn move `m` comes among the moves of one pawn of side `c` on
/// `from`: the push (its promotions in flag order), the double push, the
/// capture towards the a-file, the one towards the h-file (each with its
/// promotions), then en passant.
pub open spec fn pawn_key(c: Color, from: int, m: int) -> int {
    let to = move_to(m);
    let f = move_flag(m);
    let promo = if f >= 8 {
        (f % 8) / 2
    } else {
        0
    };
    if f == 3 {
        16
    } else if to == from + 2 * pawn_dir(c) {
        4
    } else if to == from + pawn_dir(c) {
        promo
    } else if to == from + pawn_dir(c) - 1 {
        8 + promo
    } else {
        12 + promo
    }
}

/// Where king move `m` comes among the king's moves: its steps in order,
/// then castling on the king's side and on the queen's side.
pub open spec fn king_key(mirror: bool, from: int, m: int) -> int {
    if move_flag(m) == 4 {
        8
    } else if move_flag(m) == 6 {
        9
    } else {
        leap_index(false, mirror, from, move_to(m))
    }
}

/// Where move `m` comes among the moves of one piece of kind `k` of side `c`.
pub open spec fn sub_key(c: Color, k: PieceType, m: int) -> int {
    let from = move_from(m);
    let mirror = c == Color::Black;
    match k {
        PieceType::Pawn => pawn_key(c, from, m),
        PieceType::Knight => leap_index(true, mirror, from, move_to(m)),
        PieceType::King => king_key(mirror, from, m),
        _ => slide_key(mirror, from, move_to(m)),
    }
}

/// Where move `m` comes among the moves the generator of kind `k` yields for
/// side `c`: by the square it starts from, in the side's order, then as
/// [`sub_key`] says.
pub open spec fn gen_key(c: Color, k: PieceType, m: int) -> int {
    walk_key(c, move_from(m)) * 64 + sub_key(c, k, m)
}

pub(crate) proof fn lemma_square_at(f: int, r: int)
    requires
        on_board(f, r),
    ensures
        0 <= square_at(f, r) < 64,
        file_of(square_at(f, r)) == f,
        rank_of(square_at(f, r)) == r,
{
}

/// The `i`-th jump (or step) from `from` has place `i`.
pub(crate) proof fn lemma_leap_index(knight: bool, mirror: bool, from: int, i: int)
    requires
        0 <= from < 64,
        0 <= i < 8,
        on_board(file_of(from) + delta_df(knight, i), rank_of(from) + delta_dr(knight, mirror, i)),
    ensures
        leap_index(
            knight,
            mirror,
            from,
            square_at(file_of(from) + delta_df(knight, i), rank_of(from) + delta_dr(knight, mirror, i)),
        ) == i,
{
    lemma_square_at(file_of(from) + delta_df(knight, i), rank_of(from) + delta_dr(knight, mirror, i));
}

/// The `k`-th square of ray `i` of a slider has the key of distance `k` in
/// direction `i`.
pub(crate) proof fn lemma_slide_key(diag: bool, mirror: bool, from: int, i: int, k: int)
    requires
        0 <= from < 64,
        0 <= i < 4,
        1 <= k <= 7,
        ray_on(from, dir_df(diag, i), dir_dr(diag, mirror, i), k),
    ensures
        slide_key(mirror, from, ray_sq(from, dir_df(diag, i), dir_dr(diag, mirror, i), k)) == (if diag {
            0int
        } else {
            32int
        }) + (k - 1) * 4 + i,
{
    let df = dir_df(diag, i);
    let dr = dir_dr(diag, mirror, i);
    lemma_unit_mul(k, df);
    lemma_unit_mul(k, dr);
    lemma_square_at(file_of(from) + k * df, rank_of(from) + k * dr);
}

} // verus!

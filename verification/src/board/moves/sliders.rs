//! Bishop, rook and queen moves.
use vstd::prelude::*;
use crate::bitboard::{bit, single, lemma_mask_test};
use crate::board::{Board, Color, Piece, PieceType, color_of, piece_index, other, lemma_piece_index_roundtrip, side_bits};
use super::{Move, MoveGenerator, move_from, move_to, move_flag, lemma_code_fields, lemma_code_unique};
use super::scan::{appends, indicator, walk_of, walked, walk_squares, walk_key, keys_rise, all_from, added, lemma_rise_none, lemma_rise_widen, lemma_rise_trans, lemma_rise_index, lemma_rise_square, lemma_rise_ext, lemma_from_trans, lemma_prefix_trans, lemma_walk_step, lemma_walk_end, lemma_appends_refl, lemma_appends_trans, lemma_appends_ext, lemma_appends_push};
use super::order::{slide_key, gen_key, lemma_slide_key};
use super::attacks::{lemma_unit_mul, lemma_ray_leaves};
use super::rules::{file_of, rank_of, ray_on, ray_sq, is_dir, diagonal, straight, occupied, slide_to, slider_move, bishop_moves_from, rook_moves_from, queen_moves_from, own, step_move};

verus! {

/// The squares before the `k`-th of the ray are on the board and empty.
pub open spec fn path_clear(own_bb: u64, enemy: u64, from: int, df: int, dr: int, k: int) -> bool {
    forall|j: int|
        #![trigger ray_sq(from, df, dr, j)]
        #![trigger ray_on(from, df, dr, j)]
        1 <= j < k ==> ray_on(from, df, dr, j) && !bit(own_bb, ray_sq(from, df, dr, j)) && !bit(
            enemy,
            ray_sq(from, df, dr, j),
        )
}

/// `to` is one of the first `k - 1` squares of the ray, reached over empty squares.
pub open spec fn ray_upto(own_bb: u64, enemy: u64, from: int, df: int, dr: int, to: int, k: int) -> bool {
    exists|k1: int|
        #![trigger ray_sq(from, df, dr, k1)]
        1 <= k1 < k && ray_on(from, df, dr, k1) && to == ray_sq(from, df, dr, k1) && path_clear(
            own_bb,
            enemy,
            from,
            df,
            dr,
            k1,
        )
}

/// The moves a slider on `from` makes in direction (`df`, `dr`).
pub open spec fn ray_move(own_bb: u64, enemy: u64, from: int, df: int, dr: int, m: int) -> bool {
    &&& 0 <= m < 65536
    &&& move_from(m) == from
    &&& !bit(own_bb, move_to(m))
    &&& move_flag(m) == if bit(enemy, move_to(m)) {
        1int
    } else {
        0int
    }
    &&& ray_upto(own_bb, enemy, from, df, dr, move_to(m), 8)
}

pub(crate) proof fn lemma_ray_sq_bounds(from: int, df: int, dr: int, k: int)
    requires
        0 <= from < 64,
        ray_on(from, df, dr, k),
    ensures
        0 <= ray_sq(from, df, dr, k) < 64,
        file_of(ray_sq(from, df, dr, k)) == file_of(from) + k * df,
        rank_of(ray_sq(from, df, dr, k)) == rank_of(from) + k * dr,
{
}

/// Distinct steps of one ray reach distinct squares.
pub(crate) proof fn lemma_ray_distinct(from: int, df: int, dr: int, k1: int, k2: int)
    requires
        0 <= from < 64,
        is_dir(df, dr),
        ray_on(from, df, dr, k1),
        ray_on(from, df, dr, k2),
        ray_sq(from, df, dr, k1) == ray_sq(from, df, dr, k2),
    ensures
        k1 == k2,
{
    lemma_ray_sq_bounds(from, df, dr, k1);
    lemma_ray_sq_bounds(from, df, dr, k2);
    lemma_unit_mul(k1, df);
    lemma_unit_mul(k2, df);
    lemma_unit_mul(k1, dr);
    lemma_unit_mul(k2, dr);
}

/// Rays in distinct directions share no square.
pub(crate) proof fn lemma_rays_disjoint(from: int, df1: int, dr1: int, k1: int, df2: int, dr2: int, k2: int)
    requires
        0 <= from < 64,
        is_dir(df1, dr1),
        is_dir(df2, dr2),
        1 <= k1,
        1 <= k2,
        ray_on(from, df1, dr1, k1),
        ray_on(from, df2, dr2, k2),
        ray_sq(from, df1, dr1, k1) == ray_sq(from, df2, dr2, k2),
    ensures
        df1 == df2 && dr1 == dr2,
{
    lemma_ray_sq_bounds(from, df1, dr1, k1);
    lemma_ray_sq_bounds(from, df2, dr2, k2);
    lemma_unit_mul(k1, df1);
    lemma_unit_mul(k2, df2);
    lemma_unit_mul(k1, dr1);
    lemma_unit_mul(k2, dr2);
}

pub(crate) proof fn lemma_ray_upto_step(own_bb: u64, enemy: u64, from: int, df: int, dr: int, to: int, k: int)
    requires
        1 <= k,
    ensures
        ray_upto(own_bb, enemy, from, df, dr, to, k + 1) == (ray_upto(own_bb, enemy, from, df, dr, to, k) || (
            ray_on(from, df, dr, k) && to == ray_sq(from, df, dr, k) && path_clear(own_bb, enemy, from, df, dr, k))),
{
    if ray_on(from, df, dr, k) && to == ray_sq(from, df, dr, k) && path_clear(own_bb, enemy, from, df, dr, k) {
        assert(1 <= k < k + 1 && ray_on(from, df, dr, k) && to == ray_sq(from, df, dr, k) && path_clear(own_bb, enemy, from, df, dr, k));
    }
    if ray_upto(own_bb, enemy, from, df, dr, to, k + 1) {
        let k1 = choose|k1: int|
            #![trigger ray_sq(from, df, dr, k1)]
            1 <= k1 < k + 1 && ray_on(from, df, dr, k1) && to == ray_sq(from, df, dr, k1) && path_clear(own_bb, enemy, from, df, dr, k1);
        if k1 < k {
            assert(ray_upto(own_bb, enemy, from, df, dr, to, k));
        }
    }
    if ray_upto(own_bb, enemy, from, df, dr, to, k) {
        let k1 = choose|k1: int|
            #![trigger ray_sq(from, df, dr, k1)]
            1 <= k1 < k && ray_on(from, df, dr, k1) && to == ray_sq(from, df, dr, k1) && path_clear(own_bb, enemy, from, df, dr, k1);
        assert(1 <= k1 < k + 1);
    }
}

/// Past a blocked or off-board square nothing more of the ray is reached.
pub(crate) proof fn lemma_ray_upto_stop(own_bb: u64, enemy: u64, from: int, df: int, dr: int, to: int, k: int)
    requires
        1 <= k <= 7,
        0 <= from < 64,
        is_dir(df, dr),
        !ray_on(from, df, dr, k) || bit(own_bb, ray_sq(from, df, dr, k)) || bit(enemy, ray_sq(from, df, dr, k)),
    ensures
        ray_upto(own_bb, enemy, from, df, dr, to, 8) == ray_upto(own_bb, enemy, from, df, dr, to, k + 1),
{
    if ray_upto(own_bb, enemy, from, df, dr, to, 8) {
        let k1 = choose|k1: int|
            #![trigger ray_sq(from, df, dr, k1)]
            1 <= k1 < 8 && ray_on(from, df, dr, k1) && to == ray_sq(from, df, dr, k1) && path_clear(own_bb, enemy, from, df, dr, k1);
        if k1 > k {
            if !ray_on(from, df, dr, k) {
                lemma_ray_leaves(from, df, dr, k, k1);
            } else {
                assert(ray_on(from, df, dr, k));
                assert(!bit(own_bb, ray_sq(from, df, dr, k)));
            }
        } else {
            assert(1 <= k1 < k + 1);
        }
    }
    if ray_upto(own_bb, enemy, from, df, dr, to, k + 1) {
        let k1 = choose|k1: int|
            #![trigger ray_sq(from, df, dr, k1)]
            1 <= k1 < k + 1 && ray_on(from, df, dr, k1) && to == ray_sq(from, df, dr, k1) && path_clear(own_bb, enemy, from, df, dr, k1);
        assert(1 <= k1 < 8);
    }
}

/// The moves of a slider on `from` to the squares of its ray in direction
/// (`df`, `dr`) that lie nearer than the `k`-th.
pub open spec fn ray_part(own_bb: u64, enemy: u64, from: int, df: int, dr: int, k: int, m: int) -> bool {
    &&& 0 <= m < 65536
    &&& move_from(m) == from
    &&& !bit(own_bb, move_to(m))
    &&& move_flag(m) == if bit(enemy, move_to(m)) {
        1int
    } else {
        0int
    }
    &&& ray_upto(own_bb, enemy, from, df, dr, move_to(m), k)
}

/// The ray in direction (`df`, `dr`) reaches nothing at the `k`-th square or
/// beyond.
pub open spec fn ray_done(own_bb: u64, enemy: u64, from: int, df: int, dr: int, k: int) -> bool {
    forall|to: int| #[trigger] ray_upto(own_bb, enemy, from, df, dr, to, 8) == ray_upto(own_bb, enemy, from, df, dr, to, k)
}

pub(crate) proof fn lemma_ray_upto_mono(own_bb: u64, enemy: u64, from: int, df: int, dr: int, to: int, k1: int, k2: int)
    requires
        k1 <= k2,
        ray_upto(own_bb, enemy, from, df, dr, to, k1),
    ensures
        ray_upto(own_bb, enemy, from, df, dr, to, k2),
{
    let j = choose|j: int|
        #![trigger ray_sq(from, df, dr, j)]
        1 <= j < k1 && ray_on(from, df, dr, j) && to == ray_sq(from, df, dr, j) && path_clear(own_bb, enemy, from, df, dr, j);
    assert(1 <= j < k2);
}

/// Takes the ray of a slider on `from` in direction (`df`, `dr`) one square
/// further, to its `k`-th square, while it is still open (`open`): appends the
/// move there unless the square is off the board or holds one of our own
/// pieces, and says whether the ray goes on past it.
fn ray_step(from: u16, df: i16, dr: i16, k: i16, own_bb: u64, enemy: u64, open: bool, available_moves: &mut Vec<Move>) -> (r: bool)
    requires
        from < 64,
        is_dir(df as int, dr as int),
        1 <= k <= 7,
        open ==> path_clear(own_bb, enemy, from as int, df as int, dr as int, k as int),
        !open ==> ray_done(own_bb, enemy, from as int, df as int, dr as int, k as int),
    ensures
        forall|m: int| #[trigger] ray_part(own_bb, enemy, from as int, df as int, dr as int, k + 1, m)
            == (ray_part(own_bb, enemy, from as int, df as int, dr as int, k as int, m)
            || ray_part(own_bb, enemy, from as int, df as int, dr as int, k + 1, m)),
        appends(
            old(available_moves)@,
            final(available_moves)@,
            |m: int| indicator(
                ray_part(own_bb, enemy, from as int, df as int, dr as int, k + 1, m)
                    && !ray_part(own_bb, enemy, from as int, df as int, dr as int, k as int, m),
            ),
        ),
        r ==> path_clear(own_bb, enemy, from as int, df as int, dr as int, k + 1),
        !r ==> ray_done(own_bb, enemy, from as int, df as int, dr as int, k + 1),
        added(old(available_moves)@, final(available_moves)@).len() <= 1,
        added(old(available_moves)@, final(available_moves)@).len() == 1 ==> ray_on(from as int, df as int, dr as int, k as int)
            && move_from(added(old(available_moves)@, final(available_moves)@)[0].0 as int) == from
            && move_to(added(old(available_moves)@, final(available_moves)@)[0].0 as int) == ray_sq(
            from as int,
            df as int,
            dr as int,
            k as int,
        ),
{
    let ghost f = from as int;
    let ghost kk = k as int;
    let ghost start = available_moves@;
    let ghost part_k = |m: int| ray_part(own_bb, enemy, f, df as int, dr as int, kk, m);
    let ghost part_k1 = |m: int| ray_part(own_bb, enemy, f, df as int, dr as int, kk + 1, m);
    let ghost n_new = |m: int| indicator(part_k1(m) && !part_k(m));
    proof {
        assert forall|m: int| #[trigger] part_k1(m) == (part_k(m) || part_k1(m)) by {
            if part_k(m) {
                lemma_ray_upto_mono(own_bb, enemy, f, df as int, dr as int, move_to(m), kk, kk + 1);
            }
        }
        lemma_appends_refl(start);
        assert(added(start, start) =~= Seq::<Move>::empty());
    }
    if !open {
        proof {
            assert forall|m: int| #[trigger] n_new(m) == 0nat by {
                let to = move_to(m);
                if ray_upto(own_bb, enemy, f, df as int, dr as int, to, kk + 1) {
                    lemma_ray_upto_mono(own_bb, enemy, f, df as int, dr as int, to, kk + 1, 8);
                    assert(ray_upto(own_bb, enemy, f, df as int, dr as int, to, 8));
                }
            }
            assert forall|to: int| #[trigger] ray_upto(own_bb, enemy, f, df as int, dr as int, to, 8)
                == ray_upto(own_bb, enemy, f, df as int, dr as int, to, kk + 1) by {
                if ray_upto(own_bb, enemy, f, df as int, dr as int, to, kk + 1) {
                    lemma_ray_upto_mono(own_bb, enemy, f, df as int, dr as int, to, kk + 1, 8);
                }
                if ray_upto(own_bb, enemy, f, df as int, dr as int, to, 8) {
                    assert(ray_upto(own_bb, enemy, f, df as int, dr as int, to, kk));
                    lemma_ray_upto_mono(own_bb, enemy, f, df as int, dr as int, to, kk, kk + 1);
                }
            }
            lemma_appends_ext(start, start, |m: int| 0nat, n_new);
        }
        return false;
    }
    proof {
        lemma_unit_mul(kk, df as int);
        lemma_unit_mul(kk, dr as int);
    }
    let nf = (from % 8) as i16 + k * df;
    let nr = (from / 8) as i16 + k * dr;
    if !(0 <= nf && nf < 8 && 0 <= nr && nr < 8) {
        proof {
            assert(!ray_on(f, df as int, dr as int, kk));
            assert forall|m: int| #[trigger] n_new(m) == 0nat by {
                lemma_ray_upto_step(own_bb, enemy, f, df as int, dr as int, move_to(m), kk);
            }
            assert forall|to: int| #[trigger] ray_upto(own_bb, enemy, f, df as int, dr as int, to, 8)
                == ray_upto(own_bb, enemy, f, df as int, dr as int, to, kk + 1) by {
                lemma_ray_upto_stop(own_bb, enemy, f, df as int, dr as int, to, kk);
            }
            lemma_appends_ext(start, start, |m: int| 0nat, n_new);
        }
        return false;
    }
    let target = (nr * 8 + nf) as u16;
    let bb = 1u64 << (target as u64);
    proof {
        assert(target as int == ray_sq(f, df as int, dr as int, kk));
        assert(bb == single(target as int));
        lemma_mask_test(own_bb, target as int);
        lemma_mask_test(enemy, target as int);
        assert(ray_on(f, df as int, dr as int, kk));
    }
    if own_bb & bb != 0 {
        proof {
            assert forall|m: int| #[trigger] n_new(m) == 0nat by {
                lemma_ray_upto_step(own_bb, enemy, f, df as int, dr as int, move_to(m), kk);
            }
            assert forall|to: int| #[trigger] ray_upto(own_bb, enemy, f, df as int, dr as int, to, 8)
                == ray_upto(own_bb, enemy, f, df as int, dr as int, to, kk + 1) by {
                lemma_ray_upto_stop(own_bb, enemy, f, df as int, dr as int, to, kk);
            }
            lemma_appends_ext(start, start, |m: int| 0nat, n_new);
        }
        return false;
    }
    let is_capture = enemy & bb != 0;
    let flag: u16 = if is_capture {
        1
    } else {
        0
    };
    let mv = Move::new(from, target, flag);
    available_moves.push(mv);
    proof {
        lemma_code_fields(f, target as int, flag as int);
        assert(added(start, available_moves@) =~= seq![mv]);
        lemma_appends_push(start, start, |m: int| 0nat, mv);
        assert forall|m: int| 0nat + indicator(m == mv.0 as int) == #[trigger] n_new(m) by {
            lemma_ray_upto_step(own_bb, enemy, f, df as int, dr as int, move_to(m), kk);
            if 0 <= m < 65536 {
                lemma_code_unique(m);
            }
            if m == mv.0 as int {
                if ray_upto(own_bb, enemy, f, df as int, dr as int, move_to(m), kk) {
                    let k1 = choose|k1: int|
                        #![trigger ray_sq(f, df as int, dr as int, k1)]
                        1 <= k1 < kk && ray_on(f, df as int, dr as int, k1) && move_to(m) == ray_sq(f, df as int, dr as int, k1)
                        && path_clear(own_bb, enemy, f, df as int, dr as int, k1);
                    lemma_ray_distinct(f, df as int, dr as int, k1, kk);
                }
            }
        }
        lemma_appends_ext(start, available_moves@, |m: int| 0nat + indicator(m == mv.0 as int), n_new);
    }
    if is_capture {
        proof {
            assert forall|to: int| #[trigger] ray_upto(own_bb, enemy, f, df as int, dr as int, to, 8)
                == ray_upto(own_bb, enemy, f, df as int, dr as int, to, kk + 1) by {
                lemma_ray_upto_stop(own_bb, enemy, f, df as int, dr as int, to, kk);
            }
        }
        return false;
    }
    proof {
        assert(path_clear(own_bb, enemy, f, df as int, dr as int, kk + 1)) by {
            assert forall|j: int|
                #![trigger ray_sq(f, df as int, dr as int, j)]
                #![trigger ray_on(f, df as int, dr as int, j)]
                1 <= j < kk + 1 implies ray_on(f, df as int, dr as int, j) && !bit(own_bb, ray_sq(f, df as int, dr as int, j)) && !bit(
                    enemy,
                    ray_sq(f, df as int, dr as int, j),
                ) by {
                if j < kk {
                    assert(ray_on(f, df as int, dr as int, j));
                }
            }
        }
    }
    true
}


/// File delta of the `i`-th diagonal (or straight) direction, in the order
/// -9, -7, 7, 9 (or -1, 1, -8, 8).
pub open spec fn dir_df(diag: bool, i: int) -> int {
    if diag {
        if i == 0 || i == 2 {
            -1
        } else {
            1
        }
    } else {
        if i == 0 {
            -1
        } else if i == 1 {
            1
        } else {
            0
        }
    }
}

/// Rank delta of the `i`-th direction; `mirror` turns the board round, as
/// Black sees it.
pub open spec fn dir_dr(diag: bool, mirror: bool, i: int) -> int {
    let dr = if diag {
        if i <= 1 {
            -1
        } else {
            1
        }
    } else {
        if i <= 1 {
            0
        } else if i == 2 {
            -1
        } else {
            1
        }
    };
    if mirror {
        -dr
    } else {
        dr
    }
}

/// Direction (`df`, `dr`) is diagonal (or straight, when `!diag`).
pub open spec fn dir_kind(diag: bool, df: int, dr: int) -> bool {
    if diag {
        diagonal(df, dr)
    } else {
        straight(df, dr)
    }
}

fn dir_at(diag: bool, mirror: bool, i: usize) -> (r: (i16, i16))
    requires
        i < 4,
    ensures
        r.0 as int == dir_df(diag, i as int),
        r.1 as int == dir_dr(diag, mirror, i as int),
{
    let (df, dr): (i16, i16) = if diag {
        if i == 0 {
            (-1, -1)
        } else if i == 1 {
            (1, -1)
        } else if i == 2 {
            (-1, 1)
        } else {
            (1, 1)
        }
    } else {
        if i == 0 {
            (-1, 0)
        } else if i == 1 {
            (1, 0)
        } else if i == 2 {
            (0, -1)
        } else {
            (0, 1)
        }
    };
    if mirror {
        (df, -dr)
    } else {
        (df, dr)
    }
}

pub(crate) proof fn lemma_dir_kind(diag: bool, mirror: bool, df: int, dr: int)
    ensures
        dir_kind(diag, df, dr) <==> exists|i: int|
            0 <= i < 4 && dir_df(diag, i) == df && #[trigger] dir_dr(diag, mirror, i) == dr,
{
    if dir_kind(diag, df, dr) {
        let d = if mirror {
            -dr
        } else {
            dr
        };
        let i: int = if diag {
            if d == -1 { if df == -1 { 0 } else { 1 } } else { if df == -1 { 2 } else { 3 } }
        } else {
            if d == 0 { if df == -1 { 0 } else { 1 } } else { if d == -1 { 2 } else { 3 } }
        };
        assert(0 <= i < 4 && dir_df(diag, i) == df && dir_dr(diag, mirror, i) == dr);
    }
}

/// One move cannot lie on two rays of a square.
pub(crate) proof fn lemma_ray_move_unique(own_bb: u64, enemy: u64, from: int, df1: int, dr1: int, df2: int, dr2: int, m: int)
    requires
        0 <= from < 64,
        is_dir(df1, dr1),
        is_dir(df2, dr2),
        ray_move(own_bb, enemy, from, df1, dr1, m),
        ray_move(own_bb, enemy, from, df2, dr2, m),
    ensures
        df1 == df2 && dr1 == dr2,
{
    let k1 = choose|k1: int|
        #![trigger ray_sq(from, df1, dr1, k1)]
        1 <= k1 < 8 && ray_on(from, df1, dr1, k1) && move_to(m) == ray_sq(from, df1, dr1, k1) && path_clear(own_bb, enemy, from, df1, dr1, k1);
    let k2 = choose|k2: int|
        #![trigger ray_sq(from, df2, dr2, k2)]
        1 <= k2 < 8 && ray_on(from, df2, dr2, k2) && move_to(m) == ray_sq(from, df2, dr2, k2) && path_clear(own_bb, enemy, from, df2, dr2, k2);
    lemma_rays_disjoint(from, df1, dr1, k1, df2, dr2, k2);
}

/// The moves of a slider on `from` along the diagonals (or the straight lines).
pub open spec fn cast_move(diag: bool, own_bb: u64, enemy: u64, from: int, m: int) -> bool {
    exists|df: int, dr: int| dir_kind(diag, df, dr) && #[trigger] ray_move(own_bb, enemy, from, df, dr, m)
}

/// How far ray `j` has been followed once the rays before `i` have taken
/// their `k`-th square: `k + 1` for those, `k` for the others.
pub open spec fn cast_bound(i: int, j: int, k: int) -> int {
    if j < i {
        k + 1
    } else {
        k
    }
}

/// The moves that ray `j` of a slider on `from` has given once the rays
/// before `i` have taken their `k`-th square.
pub open spec fn cast_ray(diag: bool, mirror: bool, own_bb: u64, enemy: u64, from: int, k: int, i: int, j: int, m: int) -> bool {
    ray_part(own_bb, enemy, from, dir_df(diag, j), dir_dr(diag, mirror, j), cast_bound(i, j, k), m)
}

/// How often the four rays together have given move `m` by then.
pub open spec fn cast_count(diag: bool, mirror: bool, own_bb: u64, enemy: u64, from: int, k: int, i: int, m: int) -> nat {
    indicator(cast_ray(diag, mirror, own_bb, enemy, from, k, i, 0, m)) + indicator(cast_ray(
        diag,
        mirror,
        own_bb,
        enemy,
        from,
        k,
        i,
        1,
        m,
    )) + indicator(cast_ray(diag, mirror, own_bb, enemy, from, k, i, 2, m)) + indicator(cast_ray(
        diag,
        mirror,
        own_bb,
        enemy,
        from,
        k,
        i,
        3,
        m,
    ))
}

/// Every ray is open up to its square, or done there.
pub open spec fn rays_state(diag: bool, mirror: bool, own_bb: u64, enemy: u64, from: int, k: int, i: int, open: Seq<bool>) -> bool {
    &&& open.len() == 4
    &&& forall|j: int|
        0 <= j < 4 ==> (#[trigger] open[j] ==> path_clear(
            own_bb,
            enemy,
            from,
            dir_df(diag, j),
            dir_dr(diag, mirror, j),
            cast_bound(i, j, k),
        )) && (!open[j] ==> ray_done(own_bb, enemy, from, dir_df(diag, j), dir_dr(diag, mirror, j), cast_bound(i, j, k)))
}

/// Followed to their ends, the four rays give each move of the slider once.
pub(crate) proof fn lemma_cast_total(diag: bool, mirror: bool, own_bb: u64, enemy: u64, from: int, m: int)
    requires
        0 <= from < 64,
    ensures
        cast_count(diag, mirror, own_bb, enemy, from, 8, 0, m) == indicator(cast_move(diag, own_bb, enemy, from, m)),
{
    assert forall|j: int| 0 <= j < 4 implies (#[trigger] cast_ray(diag, mirror, own_bb, enemy, from, 8, 0, j, m)
        == ray_move(own_bb, enemy, from, dir_df(diag, j), dir_dr(diag, mirror, j), m)
        && dir_kind(diag, dir_df(diag, j), dir_dr(diag, mirror, j))) by {
        lemma_dir_kind(diag, mirror, dir_df(diag, j), dir_dr(diag, mirror, j));
        lemma_dir_kind(diag, false, dir_df(diag, j), dir_dr(diag, mirror, j));
    }
    assert forall|j1: int, j2: int|
        0 <= j1 < j2 < 4 implies !(#[trigger] cast_ray(diag, mirror, own_bb, enemy, from, 8, 0, j1, m)
        && #[trigger] cast_ray(diag, mirror, own_bb, enemy, from, 8, 0, j2, m)) by {
        if cast_ray(diag, mirror, own_bb, enemy, from, 8, 0, j1, m) && cast_ray(diag, mirror, own_bb, enemy, from, 8, 0, j2, m) {
            lemma_ray_move_unique(
                own_bb,
                enemy,
                from,
                dir_df(diag, j1),
                dir_dr(diag, mirror, j1),
                dir_df(diag, j2),
                dir_dr(diag, mirror, j2),
                m,
            );
        }
    }
    if cast_move(diag, own_bb, enemy, from, m) {
        let (df, dr) = choose|df: int, dr: int| dir_kind(diag, df, dr) && #[trigger] ray_move(own_bb, enemy, from, df, dr, m);
        lemma_dir_kind(diag, mirror, df, dr);
        let j = choose|j: int| 0 <= j < 4 && dir_df(diag, j) == df && #[trigger] dir_dr(diag, mirror, j) == dr;
        assert(cast_ray(diag, mirror, own_bb, enemy, from, 8, 0, j, m));
    }
    if cast_ray(diag, mirror, own_bb, enemy, from, 8, 0, 0, m) {
        assert(cast_move(diag, own_bb, enemy, from, m));
    }
    if cast_ray(diag, mirror, own_bb, enemy, from, 8, 0, 1, m) {
        assert(cast_move(diag, own_bb, enemy, from, m));
    }
    if cast_ray(diag, mirror, own_bb, enemy, from, 8, 0, 2, m) {
        assert(cast_move(diag, own_bb, enemy, from, m));
    }
    if cast_ray(diag, mirror, own_bb, enemy, from, 8, 0, 3, m) {
        assert(cast_move(diag, own_bb, enemy, from, m));
    }
}

/// Taking ray `i` one square further keeps every ray open up to its square,
/// or done there.
pub(crate) proof fn lemma_rays_advance(
    diag: bool,
    mirror: bool,
    own_bb: u64,
    enemy: u64,
    from: int,
    k: int,
    i: int,
    open: Seq<bool>,
    r: bool,
)
    requires
        0 <= i < 4,
        rays_state(diag, mirror, own_bb, enemy, from, k, i, open),
        r ==> path_clear(own_bb, enemy, from, dir_df(diag, i), dir_dr(diag, mirror, i), k + 1),
        !r ==> ray_done(own_bb, enemy, from, dir_df(diag, i), dir_dr(diag, mirror, i), k + 1),
    ensures
        rays_state(diag, mirror, own_bb, enemy, from, k, i + 1, open.update(i, r)),
{
    let o = open.update(i, r);
    assert forall|j: int|
        0 <= j < 4 implies (#[trigger] o[j] ==> path_clear(
            own_bb,
            enemy,
            from,
            dir_df(diag, j),
            dir_dr(diag, mirror, j),
            cast_bound(i + 1, j, k),
        )) && (!o[j] ==> ray_done(own_bb, enemy, from, dir_df(diag, j), dir_dr(diag, mirror, j), cast_bound(i + 1, j, k))) by {
        if j != i {
            assert(o[j] == open[j]);
            assert(cast_bound(i + 1, j, k) == cast_bound(i, j, k));
        }
    }
}

/// Taking ray `i` one square further adds the moves it reaches there.
pub(crate) proof fn lemma_cast_count_step(diag: bool, mirror: bool, own_bb: u64, enemy: u64, from: int, k: int, i: int, m: int)
    requires
        0 <= i < 4,
        ray_part(own_bb, enemy, from, dir_df(diag, i), dir_dr(diag, mirror, i), k + 1, m) == (ray_part(
            own_bb,
            enemy,
            from,
            dir_df(diag, i),
            dir_dr(diag, mirror, i),
            k,
            m,
        ) || ray_part(own_bb, enemy, from, dir_df(diag, i), dir_dr(diag, mirror, i), k + 1, m)),
    ensures
        cast_count(diag, mirror, own_bb, enemy, from, k, i, m) + indicator(
            ray_part(own_bb, enemy, from, dir_df(diag, i), dir_dr(diag, mirror, i), k + 1, m)
                && !ray_part(own_bb, enemy, from, dir_df(diag, i), dir_dr(diag, mirror, i), k, m),
        ) == cast_count(diag, mirror, own_bb, enemy, from, k, i + 1, m),
{
    assert(cast_ray(diag, mirror, own_bb, enemy, from, k, i + 1, i, m) == ray_part(own_bb, enemy, from, dir_df(diag, i), dir_dr(diag, mirror, i), k + 1, m));
    assert(cast_ray(diag, mirror, own_bb, enemy, from, k, i, i, m) == ray_part(own_bb, enemy, from, dir_df(diag, i), dir_dr(diag, mirror, i), k, m));
}

/// Shared raycaster for bishop, rook, and queen moves.
///
/// Follows the four diagonal (or straight) rays together, one square further
/// on each in turn, a ray stopping at the edge of the board, at one of our own
/// pieces, or after a capture. `mirror` turns the board round, as Black sees it.
pub fn raycast_moves(index: u16, own_bb: u64, enemy: u64, is_diagonal: bool, mirror: bool, available_moves: &mut Vec<Move>)
    requires
        index < 64,
    ensures
        appends(
            old(available_moves)@,
            final(available_moves)@,
            |m: int| indicator(cast_move(is_diagonal, own_bb, enemy, index as int, m)),
        ),
        keys_rise(
            added(old(available_moves)@, final(available_moves)@),
            |m: int| slide_key(mirror, index as int, move_to(m)),
            if is_diagonal {
                0int
            } else {
                32int
            },
            if is_diagonal {
                28int
            } else {
                60int
            },
        ),
        all_from(added(old(available_moves)@, final(available_moves)@), index as int),
{
    let ghost start = available_moves@;
    let ghost f = index as int;
    let ghost key = |m: int| slide_key(mirror, f, move_to(m));
    let ghost base: int = if is_diagonal {
        0
    } else {
        32
    };
    let mut open: Vec<bool> = vec![true, true, true, true];
    let mut k: i16 = 1;
    proof {
        lemma_appends_refl(start);
        assert(added(start, start) =~= Seq::<Move>::empty());
        assert forall|m: int| 0nat == #[trigger] cast_count(is_diagonal, mirror, own_bb, enemy, f, 1, 0, m) by {}
        lemma_appends_ext(start, start, |m: int| 0nat, |m: int| cast_count(is_diagonal, mirror, own_bb, enemy, f, 1, 0, m));
        assert(rays_state(is_diagonal, mirror, own_bb, enemy, f, 1, 0, open@));
    }
    while k <= 7
        invariant
            1 <= k <= 8,
            f == index as int,
            0 <= f < 64,
            start == old(available_moves)@,
            rays_state(is_diagonal, mirror, own_bb, enemy, f, k as int, 0, open@),
            appends(start, available_moves@, |m: int| cast_count(is_diagonal, mirror, own_bb, enemy, f, k as int, 0, m)),
            key == (|m: int| slide_key(mirror, f, move_to(m))),
            base == if is_diagonal {
                0int
            } else {
                32int
            },
            keys_rise(added(start, available_moves@), key, base, base + (k - 1) * 4),
            all_from(added(start, available_moves@), f),
        decreases 8 - k,
    {
        let mut i: usize = 0;
        while i < 4
            invariant
                0 <= i <= 4,
                1 <= k <= 7,
                f == index as int,
                0 <= f < 64,
                rays_state(is_diagonal, mirror, own_bb, enemy, f, k as int, i as int, open@),
                appends(start, available_moves@, |m: int| cast_count(is_diagonal, mirror, own_bb, enemy, f, k as int, i as int, m)),
                start == old(available_moves)@,
                key == (|m: int| slide_key(mirror, f, move_to(m))),
                base == if is_diagonal {
                    0int
                } else {
                    32int
                },
                keys_rise(added(start, available_moves@), key, base, base + (k - 1) * 4 + i),
                all_from(added(start, available_moves@), f),
            decreases 4 - i,
        {
            let (df, dr) = dir_at(is_diagonal, mirror, i);
            let ghost before = available_moves@;
            let ghost o0 = open@;
            proof {
                lemma_dir_kind(is_diagonal, mirror, df as int, dr as int);
                assert(dir_kind(is_diagonal, df as int, dr as int));
                assert(cast_bound(i as int, i as int, k as int) == k);
            }
            let r = ray_step(index, df, dr, k, own_bb, enemy, open[i], available_moves);
            open.set(i, r);
            proof {
                let ii = i as int;
                let kk = k as int;
                let n1 = |m: int| cast_count(is_diagonal, mirror, own_bb, enemy, f, kk, ii, m);
                let n2 = |m: int| indicator(
                    ray_part(own_bb, enemy, f, df as int, dr as int, kk + 1, m)
                        && !ray_part(own_bb, enemy, f, df as int, dr as int, kk, m),
                );
                let n3 = |m: int| cast_count(is_diagonal, mirror, own_bb, enemy, f, kk, ii + 1, m);
                lemma_appends_trans(start, before, available_moves@, n1, n2);
                assert forall|m: int| n1(m) + n2(m) == #[trigger] n3(m) by {
                    lemma_cast_count_step(is_diagonal, mirror, own_bb, enemy, f, kk, ii, m);
                }
                lemma_appends_ext(start, available_moves@, |m: int| n1(m) + n2(m), n3);
                lemma_rays_advance(is_diagonal, mirror, own_bb, enemy, f, kk, ii, o0, r);
                assert(open@ == o0.update(ii, r));
                let part = added(before, available_moves@);
                let x = base + (kk - 1) * 4 + ii;
                if part.len() == 1 {
                    lemma_slide_key(is_diagonal, mirror, f, ii, kk);
                }
                lemma_rise_index(part, key, x);
                lemma_rise_widen(part, key, x, x + part.len(), x, x + 1);
                lemma_rise_trans(start, before, available_moves@, key, base, x, x + 1);
                lemma_from_trans(start, before, available_moves@, f);
            }
            i = i + 1;
        }
        proof {
            assert forall|m: int| #[trigger] cast_count(is_diagonal, mirror, own_bb, enemy, f, k as int, 4, m)
                == cast_count(is_diagonal, mirror, own_bb, enemy, f, k + 1, 0, m) by {}
            lemma_appends_ext(start, available_moves@, |m: int| cast_count(is_diagonal, mirror, own_bb, enemy, f, k as int, 4, m),
                |m: int| cast_count(is_diagonal, mirror, own_bb, enemy, f, k + 1, 0, m));
        }
        k = k + 1;
    }
    proof {
        assert forall|m: int| #[trigger] cast_count(is_diagonal, mirror, own_bb, enemy, f, 8, 0, m)
            == indicator(cast_move(is_diagonal, own_bb, enemy, f, m)) by {
            lemma_cast_total(is_diagonal, mirror, own_bb, enemy, f, m);
        }
        lemma_appends_ext(start, available_moves@, |m: int| cast_count(is_diagonal, mirror, own_bb, enemy, f, 8, 0, m),
            |m: int| indicator(cast_move(is_diagonal, own_bb, enemy, f, m)));
    }
}


/// Intermediate squares of an on-board ray segment are on the board.
pub(crate) proof fn lemma_ray_on_between(from: int, df: int, dr: int, j: int, k: int)
    requires
        0 <= from < 64,
        is_dir(df, dr),
        1 <= j <= k,
        ray_on(from, df, dr, k),
    ensures
        ray_on(from, df, dr, j),
{
    if !ray_on(from, df, dr, j) {
        lemma_ray_leaves(from, df, dr, j, k);
    }
}

/// The moves of a slider on `from` in the allowed directions.
pub open spec fn slider_sq_move(diag: bool, straight_on: bool, own_bb: u64, enemy: u64, from: int, m: int) -> bool {
    (diag && cast_move(true, own_bb, enemy, from, m)) || (straight_on && cast_move(false, own_bb, enemy, from, m))
}

/// A ray move, stated with the board's occupancy.
pub(crate) proof fn lemma_ray_move_rules(p: crate::board::Position, c: Color, from: int, df: int, dr: int, m: int)
    requires
        0 <= from < 64,
        is_dir(df, dr),
    ensures
        ray_move(own(p, c), own(p, other(c)), from, df, dr, m) <==> (0 <= m < 65536 && move_from(m) == from
            && slide_to(p, c, from, df, dr, move_to(m)) && step_move(p, c, from, m)),
{
    let own_bb = own(p, c);
    let enemy = own(p, other(c));
    let to = move_to(m);
    assert forall|s: int| occupied(p, s) == (bit(own_bb, s) || bit(enemy, s)) by {}
    if ray_upto(own_bb, enemy, from, df, dr, to, 8) {
        let k = choose|k1: int|
            #![trigger ray_sq(from, df, dr, k1)]
            1 <= k1 < 8 && ray_on(from, df, dr, k1) && to == ray_sq(from, df, dr, k1) && path_clear(own_bb, enemy, from, df, dr, k1);
        assert forall|j: int| #![trigger ray_sq(from, df, dr, j)] 1 <= j < k implies !occupied(p, ray_sq(from, df, dr, j)) by {
            assert(ray_on(from, df, dr, j));
        }
        assert(1 <= k <= 7 && ray_on(from, df, dr, k) && to == ray_sq(from, df, dr, k));
    }
    if slide_to(p, c, from, df, dr, to) {
        let k = choose|k: int|
            #![trigger ray_sq(from, df, dr, k)]
            1 <= k <= 7 && ray_on(from, df, dr, k) && to == ray_sq(from, df, dr, k) && (forall|j: int|
                #![trigger ray_sq(from, df, dr, j)]
                1 <= j < k ==> !occupied(p, ray_sq(from, df, dr, j)));
        assert(path_clear(own_bb, enemy, from, df, dr, k)) by {
            assert forall|j: int|
                #![trigger ray_sq(from, df, dr, j)]
                #![trigger ray_on(from, df, dr, j)]
                1 <= j < k implies ray_on(from, df, dr, j) && !bit(own_bb, ray_sq(from, df, dr, j)) && !bit(
                    enemy,
                    ray_sq(from, df, dr, j),
                ) by {
                lemma_ray_on_between(from, df, dr, j, k);
                assert(!occupied(p, ray_sq(from, df, dr, j)));
            }
        }
        assert(1 <= k < 8 && ray_on(from, df, dr, k) && to == ray_sq(from, df, dr, k));
    }
}

pub(crate) proof fn lemma_slider_rules(p: crate::board::Position, c: Color, k: PieceType, bb: u64, m: int)
    requires
        k == PieceType::Bishop || k == PieceType::Rook || k == PieceType::Queen,
    ensures
        (0 <= move_from(m) < 64 && bit(bb, move_from(m)) && slider_sq_move(
            k != PieceType::Rook,
            k != PieceType::Bishop,
            own(p, c),
            own(p, other(c)),
            move_from(m),
            m,
        )) == match k {
            PieceType::Bishop => bishop_moves_from(p, c, bb, m),
            PieceType::Rook => rook_moves_from(p, c, bb, m),
            _ => queen_moves_from(p, c, bb, m),
        },
{
    let own_bb = own(p, c);
    let enemy = own(p, other(c));
    let from = move_from(m);
    let dirs: spec_fn(int, int) -> bool = match k {
        PieceType::Bishop => |df: int, dr: int| diagonal(df, dr),
        PieceType::Rook => |df: int, dr: int| straight(df, dr),
        _ => |df: int, dr: int| is_dir(df, dr),
    };
    assert(match k {
        PieceType::Bishop => bishop_moves_from(p, c, bb, m),
        PieceType::Rook => rook_moves_from(p, c, bb, m),
        _ => queen_moves_from(p, c, bb, m),
    } == slider_move(p, c, bb, dirs, m));
    if 0 <= from < 64 {
        if slider_sq_move(k != PieceType::Rook, k != PieceType::Bishop, own_bb, enemy, from, m) {
            let diag = k != PieceType::Rook && cast_move(true, own_bb, enemy, from, m);
            let (df, dr) = choose|df: int, dr: int| dir_kind(diag, df, dr) && #[trigger] ray_move(own_bb, enemy, from, df, dr, m);
            lemma_ray_move_rules(p, c, from, df, dr, m);
            assert(dirs(df, dr) && slide_to(p, c, from, df, dr, move_to(m)));
        }
        if slider_move(p, c, bb, dirs, m) {
            let (df, dr) = choose|df: int, dr: int| dirs(df, dr) && #[trigger] slide_to(p, c, from, df, dr, move_to(m));
            lemma_ray_move_rules(p, c, from, df, dr, m);
            if diagonal(df, dr) {
                assert(dir_kind(true, df, dr) && ray_move(own_bb, enemy, from, df, dr, m));
            } else {
                assert(dir_kind(false, df, dr) && ray_move(own_bb, enemy, from, df, dr, m));
            }
        }
    }
}

/// The diagonal and straight moves of a square are distinct.
pub(crate) proof fn lemma_casts_disjoint(own_bb: u64, enemy: u64, from: int, m: int)
    requires
        0 <= from < 64,
    ensures
        !(cast_move(true, own_bb, enemy, from, m) && cast_move(false, own_bb, enemy, from, m)),
{
    if cast_move(true, own_bb, enemy, from, m) && cast_move(false, own_bb, enemy, from, m) {
        let (df1, dr1) = choose|df: int, dr: int| dir_kind(true, df, dr) && #[trigger] ray_move(own_bb, enemy, from, df, dr, m);
        let (df2, dr2) = choose|df: int, dr: int| dir_kind(false, df, dr) && #[trigger] ray_move(own_bb, enemy, from, df, dr, m);
        lemma_ray_move_unique(own_bb, enemy, from, df1, dr1, df2, dr2, m);
    }
}

impl MoveGenerator {
    /// Generates the moves of every piece in `piece`'s bitboard that slides
    /// diagonally (`diag`) and/or straight (`straight_on`), visiting the
    /// squares as `piece`'s side sees the board.
    fn get_all_slider_moves(board: &Board, piece: Piece, diag: bool, straight_on: bool, available_moves: &mut Vec<Move>)
        ensures
            appends(
                old(available_moves)@,
                final(available_moves)@,
                |m: int| indicator(0 <= move_from(m) < 64 && bit(board.pieces@[piece_index(piece)], move_from(m)) && slider_sq_move(
                    diag,
                    straight_on,
                    side_bits(board.pieces@, color_of(piece)),
                    side_bits(board.pieces@, other(color_of(piece))),
                    move_from(m),
                    m,
                )),
            ),
            keys_rise(
                added(old(available_moves)@, final(available_moves)@),
                |m: int| walk_key(color_of(piece), move_from(m)) * 64 + slide_key(color_of(piece) == Color::Black, move_from(m), move_to(m)),
                0,
                4096,
            ),
    {
        let color = piece.color();
        let pieces = board.pieces[piece.idx()];
        let own_bb = board.get_side_bitboard(color);
        let enemy = board.get_side_bitboard(color.opposite());
        let mirror = match color {
            Color::White => false,
            Color::Black => true,
        };
        let squares = walk_squares(pieces, color);
        let ghost orig = pieces;
        let ghost start = available_moves@;
        let ghost nf = |m: int| indicator(0 <= move_from(m) < 64 && bit(orig, move_from(m)) && slider_sq_move(diag, straight_on, own_bb, enemy, move_from(m), m));
        let ghost key = |m: int| walk_key(color, move_from(m)) * 64 + slide_key(mirror, move_from(m), move_to(m));
        let ghost mut hi: int = 0;
        proof {
            lemma_appends_refl(start);
            lemma_rise_none(start, key, 0, 0);
            lemma_appends_ext(start, start, |m: int| 0nat, |m: int| indicator(
                walked(squares@, 0, move_from(m)) && slider_sq_move(diag, straight_on, own_bb, enemy, move_from(m), m),
            ));
        }
        let mut j: usize = 0;
        while j < squares.len()
            invariant
                0 <= j <= squares@.len(),
                walk_of(squares@, pieces, color),
                appends(start, available_moves@, |m: int| indicator(
                    walked(squares@, j as int, move_from(m)) && slider_sq_move(diag, straight_on, own_bb, enemy, move_from(m), m),
                )),
                mirror == (color == Color::Black),
                key == (|m: int| walk_key(color, move_from(m)) * 64 + slide_key(mirror, move_from(m), move_to(m))),
                keys_rise(added(start, available_moves@), key, 0, hi),
                hi == if j == 0 {
                    0
                } else {
                    64 * (walk_key(color, squares@[j - 1] as int) + 1)
                },
            decreases squares@.len() - j,
        {
            let index = squares[j];
            proof {
                lemma_walk_step(squares@, pieces, color, j as int);
                if j > 0 {
                    assert(walk_key(color, squares@[j - 1] as int) < walk_key(color, squares@[j as int] as int));
                }
            }
            let ghost before = available_moves@;
            let ghost n1 = |m: int| indicator(
                walked(squares@, j as int, move_from(m)) && slider_sq_move(diag, straight_on, own_bb, enemy, move_from(m), m),
            );
            let ghost n2 = |m: int| n1(m) + indicator(diag && cast_move(true, own_bb, enemy, index as int, m));
            let ghost inner = |m: int| slide_key(mirror, index as int, move_to(m));
            if diag {
                raycast_moves(index, own_bb, enemy, true, mirror, available_moves);
                proof {
                    let nd = |m: int| indicator(cast_move(true, own_bb, enemy, index as int, m));
                    lemma_appends_trans(start, before, available_moves@, n1, nd);
                    lemma_appends_ext(start, available_moves@, |m: int| n1(m) + nd(m), n2);
                    lemma_rise_widen(added(before, available_moves@), inner, 0, 28, 0, 32);
                }
            } else {
                proof {
                    lemma_appends_ext(start, available_moves@, n1, n2);
                    assert(added(before, available_moves@) =~= Seq::<Move>::empty());
                    assert(available_moves@.subrange(0, before.len() as int) =~= before);
                }
            }
            let ghost mid = available_moves@;
            let ghost n_sum = |m: int| n2(m) + indicator(straight_on && cast_move(false, own_bb, enemy, index as int, m));
            if straight_on {
                raycast_moves(index, own_bb, enemy, false, mirror, available_moves);
                proof {
                    let n3 = |m: int| indicator(cast_move(false, own_bb, enemy, index as int, m));
                    lemma_appends_trans(start, mid, available_moves@, n2, n3);
                    lemma_appends_ext(start, available_moves@, |m: int| n2(m) + n3(m), n_sum);
                    lemma_rise_widen(added(mid, available_moves@), inner, 32, 60, 32, 64);
                }
            } else {
                proof {
                    lemma_appends_ext(start, available_moves@, n2, n_sum);
                    assert(added(mid, available_moves@) =~= Seq::<Move>::empty());
                    assert(available_moves@.subrange(0, mid.len() as int) =~= mid);
                }
            }
            proof {
                lemma_rise_trans(before, mid, available_moves@, inner, 0, 32, 64);
                lemma_from_trans(before, mid, available_moves@, index as int);
                let part = added(before, available_moves@);
                assert forall|i: int| 0 <= i < part.len() implies key(#[trigger] part[i].0 as int) == inner(part[i].0 as int) + 64 * walk_key(color, index as int) by {
                    assert(move_from(part[i].0 as int) == index as int);
                }
                lemma_prefix_trans(before, mid, available_moves@);
                lemma_rise_square(start, before, available_moves@, inner, key, hi, 64 * walk_key(color, index as int), 64);
                hi = 64 * walk_key(color, index as int) + 64;
            }
            proof {
                let n_next = |m: int| indicator(
                    walked(squares@, j + 1, move_from(m)) && slider_sq_move(diag, straight_on, own_bb, enemy, move_from(m), m),
                );
                assert forall|m: int| #[trigger] n_sum(m) == n_next(m) by {
                    lemma_casts_disjoint(own_bb, enemy, index as int, m);
                    if cast_move(true, own_bb, enemy, index as int, m) {
                        let (df, dr) = choose|df: int, dr: int| dir_kind(true, df, dr) && #[trigger] ray_move(own_bb, enemy, index as int, df, dr, m);
                    }
                    if cast_move(false, own_bb, enemy, index as int, m) {
                        let (df, dr) = choose|df: int, dr: int| dir_kind(false, df, dr) && #[trigger] ray_move(own_bb, enemy, index as int, df, dr, m);
                    }
                    if slider_sq_move(diag, straight_on, own_bb, enemy, move_from(m), m) && move_from(m) != index as int {
                        if cast_move(true, own_bb, enemy, move_from(m), m) && diag {
                            let (df, dr) = choose|df: int, dr: int| dir_kind(true, df, dr) && #[trigger] ray_move(own_bb, enemy, move_from(m), df, dr, m);
                        } else {
                            let (df, dr) = choose|df: int, dr: int| dir_kind(false, df, dr) && #[trigger] ray_move(own_bb, enemy, move_from(m), df, dr, m);
                        }
                    }
                }
                lemma_appends_ext(start, available_moves@, n_sum, n_next);
            }
            j = j + 1;
        }
        proof {
            lemma_walk_end(squares@, pieces, color);
            if squares@.len() > 0 {
                assert(walk_key(color, squares@[squares@.len() - 1] as int) < 64);
            }
            lemma_rise_widen(added(start, available_moves@), key, 0, hi, 0, 4096);
            let n1 = |m: int| indicator(
                walked(squares@, squares@.len() as int, move_from(m)) && slider_sq_move(diag, straight_on, own_bb, enemy, move_from(m), m),
            );
            assert forall|m: int| #[trigger] n1(m) == nf(m) by {}
            lemma_appends_ext(start, available_moves@, n1, nf);
        }
    }

    /// Generates all pseudo-legal bishop moves for one side: bishop moves from
    /// every square of `piece`'s bitboard, for `piece`'s side.
    pub fn get_all_bishop_moves(board: &Board, piece: Piece, available_moves: &mut Vec<Move>)
        ensures
            appends(
                old(available_moves)@,
                final(available_moves)@,
                |m: int| indicator(bishop_moves_from(board@, color_of(piece), board@.pieces[piece_index(piece)], m)),
            ),
            keys_rise(
                added(old(available_moves)@, final(available_moves)@),
                |m: int| gen_key(color_of(piece), PieceType::Bishop, m),
                0,
                4096,
            ),
    {
        Self::get_all_slider_moves(board, piece, true, false, available_moves);
        proof {
            lemma_rise_ext(
                added(old(available_moves)@, available_moves@),
                |m: int| walk_key(color_of(piece), move_from(m)) * 64 + slide_key(color_of(piece) == Color::Black, move_from(m), move_to(m)),
                |m: int| gen_key(color_of(piece), PieceType::Bishop, m),
                0,
                4096,
            );
            Self::lemma_slider_generated(board, piece, PieceType::Bishop, old(available_moves)@, available_moves@);
        }
    }

    /// Generates all pseudo-legal rook moves for one side: rook moves from
    /// every square of `piece`'s bitboard, for `piece`'s side.
    pub fn get_all_rook_moves(board: &Board, piece: Piece, available_moves: &mut Vec<Move>)
        ensures
            appends(
                old(available_moves)@,
                final(available_moves)@,
                |m: int| indicator(rook_moves_from(board@, color_of(piece), board@.pieces[piece_index(piece)], m)),
            ),
            keys_rise(
                added(old(available_moves)@, final(available_moves)@),
                |m: int| gen_key(color_of(piece), PieceType::Rook, m),
                0,
                4096,
            ),
    {
        Self::get_all_slider_moves(board, piece, false, true, available_moves);
        proof {
            lemma_rise_ext(
                added(old(available_moves)@, available_moves@),
                |m: int| walk_key(color_of(piece), move_from(m)) * 64 + slide_key(color_of(piece) == Color::Black, move_from(m), move_to(m)),
                |m: int| gen_key(color_of(piece), PieceType::Rook, m),
                0,
                4096,
            );
            Self::lemma_slider_generated(board, piece, PieceType::Rook, old(available_moves)@, available_moves@);
        }
    }

    /// Generates all pseudo-legal queen moves for one side: queen moves from
    /// every square of `piece`'s bitboard, for `piece`'s side.
    pub fn get_all_queen_moves(board: &Board, piece: Piece, available_moves: &mut Vec<Move>)
        ensures
            appends(
                old(available_moves)@,
                final(available_moves)@,
                |m: int| indicator(queen_moves_from(board@, color_of(piece), board@.pieces[piece_index(piece)], m)),
            ),
            keys_rise(
                added(old(available_moves)@, final(available_moves)@),
                |m: int| gen_key(color_of(piece), PieceType::Queen, m),
                0,
                4096,
            ),
    {
        Self::get_all_slider_moves(board, piece, true, true, available_moves);
        proof {
            lemma_rise_ext(
                added(old(available_moves)@, available_moves@),
                |m: int| walk_key(color_of(piece), move_from(m)) * 64 + slide_key(color_of(piece) == Color::Black, move_from(m), move_to(m)),
                |m: int| gen_key(color_of(piece), PieceType::Queen, m),
                0,
                4096,
            );
            Self::lemma_slider_generated(board, piece, PieceType::Queen, old(available_moves)@, available_moves@);
        }
    }

    proof fn lemma_slider_generated(board: &Board, piece: Piece, k: PieceType, a: Seq<Move>, b: Seq<Move>)
        requires
            k == PieceType::Bishop || k == PieceType::Rook || k == PieceType::Queen,
            appends(a, b, |m: int| indicator(0 <= move_from(m) < 64 && bit(board.pieces@[piece_index(piece)], move_from(m)) && slider_sq_move(
                k != PieceType::Rook,
                k != PieceType::Bishop,
                side_bits(board.pieces@, color_of(piece)),
                side_bits(board.pieces@, other(color_of(piece))),
                move_from(m),
                m,
            ))),
        ensures
            appends(a, b, |m: int| indicator(match k {
                PieceType::Bishop => bishop_moves_from(board@, color_of(piece), board@.pieces[piece_index(piece)], m),
                PieceType::Rook => rook_moves_from(board@, color_of(piece), board@.pieces[piece_index(piece)], m),
                _ => queen_moves_from(board@, color_of(piece), board@.pieces[piece_index(piece)], m),
            })),
    {
        lemma_piece_index_roundtrip(piece);
        let n1 = |m: int| indicator(0 <= move_from(m) < 64 && bit(board.pieces@[piece_index(piece)], move_from(m)) && slider_sq_move(
                k != PieceType::Rook,
                k != PieceType::Bishop,
                side_bits(board.pieces@, color_of(piece)),
                side_bits(board.pieces@, other(color_of(piece))),
                move_from(m),
                m,
            ));
        let n2 = |m: int| indicator(match k {
                PieceType::Bishop => bishop_moves_from(board@, color_of(piece), board@.pieces[piece_index(piece)], m),
                PieceType::Rook => rook_moves_from(board@, color_of(piece), board@.pieces[piece_index(piece)], m),
                _ => queen_moves_from(board@, color_of(piece), board@.pieces[piece_index(piece)], m),
            });
        assert forall|m: int| #[trigger] n1(m) == n2(m) by {
            lemma_slider_rules(board@, color_of(piece), k, board@.pieces[piece_index(piece)], m);
        }
        lemma_appends_ext(a, b, n1, n2);
    }
}

} // verus!

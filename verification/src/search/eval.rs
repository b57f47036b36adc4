//! Static evaluation: the material balance from the side to move's view.
use vstd::prelude::*;
use crate::bitboard::{bit, lemma_mask_test};
use crate::board::{Board, Position, color_base};

verus! {

/// The value of the piece stored at bitboard index `i`: pawn 100, knight
/// 320, bishop 330, rook 500, queen 900, king 0.
pub open spec fn piece_value(i: int) -> int {
    let k = i % 6;
    if k == 0 {
        100
    } else if k == 1 {
        320
    } else if k == 2 {
        330
    } else if k == 3 {
        500
    } else if k == 4 {
        900
    } else {
        0
    }
}

/// What square `k % 64` of bitboard `k / 64` adds to the balance: the
/// piece's value for the side to move, its negation for the other side.
pub open spec fn square_score(p: Position, k: int) -> int {
    let i = k / 64;
    let s = k % 64;
    if bit(p.pieces[i], s) {
        if color_base(p.side_to_move) <= i < color_base(p.side_to_move) + 6 {
            piece_value(i)
        } else {
            -piece_value(i)
        }
    } else {
        0
    }
}

/// The balance over the first `n` (bitboard, square) pairs.
pub open spec fn material_upto(p: Position, n: int) -> int
    decreases n,
{
    if n <= 0 {
        0
    } else {
        material_upto(p, n - 1) + square_score(p, n - 1)
    }
}

/// The material balance of a position, from the side to move's view.
pub open spec fn material(p: Position) -> int {
    material_upto(p, 768)
}

pub(crate) proof fn lemma_material_bound(p: Position, n: int)
    requires
        0 <= n <= 768,
    ensures
        -900 * n <= material_upto(p, n) <= 900 * n,
    decreases n,
{
    if n > 0 {
        lemma_material_bound(p, n - 1);
    }
}

/// Evaluates the position for the side to move: its material minus the other side's.
pub fn evaluate(board: &Board) -> (r: i32)
    ensures
        r == material(board@),
{
    let values: [i32; 6] = [100, 320, 330, 500, 900, 0];
    let base: usize = match board.side_to_move {
        crate::board::Color::White => 0,
        crate::board::Color::Black => 6,
    };
    let mut score: i32 = 0;
    let mut i: usize = 0;
    while i < 12
        invariant
            0 <= i <= 12,
            base as int == color_base(board.side_to_move),
            values@ == seq![100i32, 320, 330, 500, 900, 0],
            score == material_upto(board@, i * 64),
        decreases 12 - i,
    {
        let bb = board.pieces[i];
        let v = values[i % 6];
        let mut s: u64 = 0;
        while s < 64
            invariant
                0 <= i < 12,
                0 <= s <= 64,
                bb == board.pieces@[i as int],
                v == piece_value(i as int),
                base as int == color_base(board.side_to_move),
                score == material_upto(board@, i * 64 + s),
            decreases 64 - s,
        {
            proof {
                lemma_mask_test(bb, s as int);
                lemma_material_bound(board@, i * 64 + s);
                assert((i * 64 + s) / 64 == i as int) by (nonlinear_arith)
                    requires
                        s < 64,
                ;
                assert((i * 64 + s) % 64 == s as int) by (nonlinear_arith)
                    requires
                        s < 64,
                ;
            }
            if bb & (1u64 << s) != 0 {
                if base <= i && i < base + 6 {
                    score = score + v;
                } else {
                    score = score - v;
                }
            }
            s = s + 1;
        }
        i = i + 1;
    }
    score
}

} // verus!

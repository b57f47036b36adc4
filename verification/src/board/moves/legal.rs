//! Pseudo-legal moves of a whole side, and the legal ones among them.
use vstd::prelude::*;
use crate::bitboard::{bit, lemma_empty_is_zero};
use crate::board::{Board, Color, Piece, PieceType, Position, color_of, kind_of, kind_offset, piece_for, piece_index, piece_on, well_formed, color_base, other, removed_at, placed_at, lemma_piece_for_index, lemma_piece_index_roundtrip, lemma_piece_on_bit, lemma_piece_on_side, lemma_first_piece_from, lemma_side_bits};
use crate::board::play::{playable, moving_piece, captured_piece, is_ep_capture, ep_victim, after_play, cleared, castled, landing_piece, empty_at, within, pieces_wf, lemma_removed_at, lemma_placed_at, lemma_within_wf, lemma_unoccupied_empty};
use vstd::std_specs::bits::u64_trailing_zeros;
use super::{Move, MoveGenerator, move_from, move_to, move_flag, promotion_letter, code, lemma_code_fields, lemma_code_unique, uci_text, square_name};
use super::scan::{appends, indicator, keys_rise, added, lemma_rise_none, lemma_rise_ext, lemma_rise_shift, lemma_rise_trans, lemma_rise_widen, lemma_rise_concat, lemma_rise_append, lemma_rise_unique, lemma_appends_refl, lemma_appends_trans, lemma_appends_ext};
use super::order::gen_key;
use super::codes;
use super::rules::{pseudo_move, occupied, pawn_dir, pawn_diag, pawn_move, knight_move, bishop_move, rook_move, queen_move, king_move, king_step, step_move, capture_flag, pawn_moves_from, knight_moves_from, bishop_moves_from, rook_moves_from, queen_moves_from, king_moves_from, bb_of, castle_move, king_home, own, pawn_ep_rank, rank_of, attacked, count_in, lemma_count_push, lemma_count_concat};

verus! {

/// The piece kind that the generator visits in place `i` (0..6).
pub open spec fn kind_at(i: int) -> PieceType {
    if i == 0 {
        PieceType::Pawn
    } else if i == 1 {
        PieceType::Knight
    } else if i == 2 {
        PieceType::Bishop
    } else if i == 3 {
        PieceType::Rook
    } else if i == 4 {
        PieceType::Queen
    } else {
        PieceType::King
    }
}

/// How often code `m` is generated for the first `i` piece kinds of side `c`.
pub open spec fn pseudo_prefix(p: Position, c: Color, i: int, m: int) -> nat
    decreases i,
{
    if i <= 0 {
        0
    } else {
        pseudo_prefix(p, c, i - 1, m) + indicator(pseudo_move(p, c, kind_at(i - 1), m))
    }
}

/// How often code `m` is generated among the pseudo-legal moves of side `c`:
/// once for each piece kind that can make it.
pub open spec fn pseudo_count(p: Position, c: Color, m: int) -> nat {
    pseudo_prefix(p, c, 6, m)
}

/// A side's pieces of a kind with an empty bitboard have no moves.
pub(crate) proof fn lemma_no_pieces_no_moves(p: Position, c: Color, k: PieceType, m: int)
    requires
        bb_of(p, c, k) == 0,
    ensures
        !pseudo_move(p, c, k, m),
{
    lemma_empty_is_zero(0);
    if k == PieceType::King {
        if castle_move(p, c, m) {
            assert(bit(bb_of(p, c, k), king_home(c)));
        }
    }
}



/// The position after playing the move with code `m`.
pub open spec fn after_move(p: Position, m: int) -> Position {
    after_play(p, move_from(m), move_to(m), promotion_letter(move_flag(m)))
}

/// Side `c`'s king (the lowest square of its king bitboard) is attacked.
pub open spec fn in_check(p: Position, c: Color) -> bool {
    let k = bb_of(p, c, PieceType::King);
    k != 0 && attacked(p, u64_trailing_zeros(k) as int, other(c))
}

/// How often the legal move generator yields code `m` for side `c`: as often
/// as the pseudo-legal generator does, unless the move leaves `c`'s king attacked.
pub open spec fn legal_count(p: Position, c: Color, m: int) -> nat {
    if in_check(after_move(p, m), c) {
        0
    } else {
        pseudo_count(p, c, m)
    }
}

/// Where move `m` comes among the pseudo-legal moves of side `c` in `p`: by
/// the kind of the piece that makes it, in the order pawn, knight, bishop,
/// rook, queen, king, then as [`gen_key`] says.
pub open spec fn pseudo_key(p: Position, c: Color, m: int) -> int {
    let k = kind_of(moving_piece(p, move_from(m)));
    kind_offset(k) * 4096 + gen_key(c, k, m)
}

/// Where move `m` comes among the legal moves of side `c` in `p`: captures,
/// then promotions, then the others, each group in pseudo-legal order.
pub open spec fn legal_key(p: Position, c: Color, m: int) -> int {
    move_group(m) * 24576 + pseudo_key(p, c, m)
}

/// Order of the generated groups: captures, then promotions, then quiet moves.
pub open spec fn move_group(m: int) -> int {
    if move_flag(m) % 2 == 1 {
        0
    } else if move_flag(m) >= 8 {
        1
    } else {
        2
    }
}

/// Every capture comes before every promotion, and those before every quiet move.
pub open spec fn grouped(s: Seq<Move>) -> bool {
    forall|i: int, j: int|
        0 <= i < j < s.len() ==> move_group(#[trigger] s[i].0 as int) <= move_group(
            #[trigger] s[j].0 as int,
        )
}

/// The legal move generator's contract fixes its result: two lists holding
/// the legal moves of a side, each in rising order of [`legal_key`], are the
/// same list.
pub proof fn lemma_legal_moves_determined(p: Position, c: Color, s1: Seq<Move>, s2: Seq<Move>)
    requires
        forall|m: int| #[trigger] count_in(codes(s1), m) == legal_count(p, c, m),
        forall|m: int| #[trigger] count_in(codes(s2), m) == legal_count(p, c, m),
        keys_rise(s1, |m: int| legal_key(p, c, m), 0, 73728),
        keys_rise(s2, |m: int| legal_key(p, c, m), 0, 73728),
    ensures
        s1 == s2,
{
    assert forall|m: int| #[trigger] count_in(codes(s1), m) == count_in(codes(s2), m) by {
        assert(count_in(codes(s1), m) == legal_count(p, c, m));
        assert(count_in(codes(s2), m) == legal_count(p, c, m));
    }
    lemma_rise_unique(s1, s2, |m: int| legal_key(p, c, m), 0, 73728);
}

/// A move of a sequence is counted in it.
pub(crate) proof fn lemma_count_member(s: Seq<u16>, i: int)
    requires
        0 <= i < s.len(),
    ensures
        count_in(s, s[i] as int) >= 1,
    decreases s.len(),
{
    if i < s.len() - 1 {
        lemma_count_member(s.drop_last(), i);
    }
}

/// A code generated for a side comes from one of its piece kinds.
pub(crate) proof fn lemma_pseudo_kind(p: Position, c: Color, m: int) -> (k: PieceType)
    requires
        pseudo_count(p, c, m) > 0,
    ensures
        pseudo_move(p, c, k, m),
{
    reveal_with_fuel(pseudo_prefix, 7);
    if pseudo_move(p, c, kind_at(0), m) {
        kind_at(0)
    } else if pseudo_move(p, c, kind_at(1), m) {
        kind_at(1)
    } else if pseudo_move(p, c, kind_at(2), m) {
        kind_at(2)
    } else if pseudo_move(p, c, kind_at(3), m) {
        kind_at(3)
    } else if pseudo_move(p, c, kind_at(4), m) {
        kind_at(4)
    } else {
        kind_at(5)
    }
}

/// Where a pseudo-legal move of a well-formed position starts and lands, and
/// which piece makes it.
pub(crate) proof fn lemma_pseudo_origin(p: Position, c: Color, m: int)
    requires
        well_formed(p),
        pseudo_count(p, c, m) > 0,
    ensures
        0 <= m < 65536,
        0 <= move_from(m) < 64,
        0 <= move_to(m) < 64,
        piece_on(p.pieces, move_from(m)) is Some,
        pseudo_move(p, c, kind_of(moving_piece(p, move_from(m))), m),
        moving_piece(p, move_from(m)) == piece_for(c, kind_of(moving_piece(p, move_from(m)))),
        is_ep_capture(p, move_from(m), move_to(m)) ==> 0 <= ep_victim(p.side_to_move, move_to(m)) < 64,
{
    let k = lemma_pseudo_kind(p, c, m);
    let from = move_from(m);
    let to = move_to(m);
    lemma_piece_for_index(c, k);
    let idx = color_base(c) + kind_offset(k);
    if k == PieceType::King && castle_move(p, c, m) {
        let h = king_home(c);
        lemma_code_fields(h, h + 2, 4);
        lemma_code_fields(h, h - 2, 6);
    }
    assert(0 <= m < 65536);
    lemma_code_unique(m);
    assert(bit(p.pieces[idx], from));
    lemma_piece_on_bit(p, idx, from);
    assert(moving_piece(p, from) == piece_for(c, k));
    if is_ep_capture(p, from, to) {
        assert(k == PieceType::Pawn);
        if bit(own(p, other(c)), to) {
            lemma_piece_on_side(p.pieces, other(c), to);
        }
        assert(rank_of(from) == pawn_ep_rank(c));
    }
}

/// In a well-formed position, the moves of a side's pieces of a kind are made
/// by that side's piece of that kind.
pub(crate) proof fn lemma_pseudo_piece(p: Position, c: Color, k: PieceType, m: int)
    requires
        well_formed(p),
        pseudo_move(p, c, k, m),
    ensures
        moving_piece(p, move_from(m)) == piece_for(c, k),
{
    lemma_piece_for_index(c, k);
    let idx = color_base(c) + kind_offset(k);
    if k == PieceType::King && castle_move(p, c, m) {
        let h = king_home(c);
        lemma_code_fields(h, h + 2, 4);
        lemma_code_fields(h, h - 2, 6);
    }
    lemma_code_unique(m);
    assert(bit(p.pieces[idx], move_from(m)));
    lemma_piece_on_bit(p, idx, move_from(m));
}

/// Every pseudo-legal move of a well-formed position can be played, given
/// clocks with room to count.
pub proof fn lemma_pseudo_playable(p: Position, c: Color, m: int)
    requires
        well_formed(p),
        p.half_move_clock < 0xffff,
        p.full_move_clock < 0xffff,
        pseudo_count(p, c, m) > 0,
    ensures
        playable(p, move_from(m), move_to(m), promotion_letter(move_flag(m))),
{
    lemma_pseudo_origin(p, c, m);
}

/// Playing a pseudo-legal move keeps a position well formed.
pub proof fn lemma_after_move_well_formed(p: Position, c: Color, m: int)
    requires
        well_formed(p),
        pseudo_count(p, c, m) > 0,
    ensures
        well_formed(after_move(p, m)),
{
    lemma_pseudo_origin(p, c, m);
    let from = move_from(m);
    let to = move_to(m);
    let mp = moving_piece(p, from);
    let s0 = p.pieces;
    let ep = is_ep_capture(p, from, to);
    let s1 = if ep {
        removed_at(s0, ep_victim(p.side_to_move, to))
    } else {
        s0
    };
    assert(pieces_wf(s0)) by {
        assert(well_formed(p));
    }
    if ep {
        lemma_removed_at(s0, ep_victim(p.side_to_move, to));
        lemma_within_wf(s1, s0);
    }
    assert(within(s1, s0));
    lemma_removed_at(s1, from);
    let s2 = removed_at(s1, from);
    lemma_within_wf(s2, s1);
    lemma_removed_at(s2, to);
    let s3 = removed_at(s2, to);
    lemma_within_wf(s3, s2);
    assert(s3 == cleared(p, from, to));
    assert(empty_at(s3, to));
    assert(within(s3, s0));
    let s4 = castled(s3, mp, from, to);
    let castling = (mp == Piece::WhiteKing && from == 4 && (to == 6 || to == 2)) || (mp
        == Piece::BlackKing && from == 60 && (to == 62 || to == 58));
    if castling {
        let k = kind_of(mp);
        lemma_piece_for_index(c, k);
        assert(k == PieceType::King);
        let h = king_home(c);
        lemma_code_unique(m);
        lemma_code_fields(h, h + 2, 4);
        lemma_code_fields(h, h - 2, 6);
        assert(castle_move(p, c, m));
        let (corner, rook_sq) = if to == h + 2 {
            (h + 3, h + 1)
        } else {
            (h - 4, h - 1)
        };
        lemma_unoccupied_empty(s0, rook_sq);
        assert(empty_at(s3, rook_sq));
        lemma_removed_at(s3, corner);
        let s3b = removed_at(s3, corner);
        lemma_within_wf(s3b, s3);
        assert(empty_at(s3b, rook_sq));
        assert(empty_at(s3b, to));
        let rook = piece_for(c, PieceType::Rook);
        lemma_placed_at(s3b, rook, rook_sq);
        assert(s4 == placed_at(s3b, rook, rook_sq));
        assert(empty_at(s4, to));
    }
    assert(pieces_wf(s4));
    assert(empty_at(s4, to));
    lemma_placed_at(s4, landing_piece(mp, p.side_to_move, promotion_letter(move_flag(m))), to);
}

impl MoveGenerator {
    /// Generates all pseudo-legal moves for a single piece type.
    pub fn get_possible_moves(board: &Board, piece: Piece, available_moves: &mut Vec<Move>)
        ensures
            appends(
                old(available_moves)@,
                final(available_moves)@,
                |m: int| indicator(pseudo_move(board@, color_of(piece), kind_of(piece), m)),
            ),
            keys_rise(
                added(old(available_moves)@, final(available_moves)@),
                |m: int| gen_key(color_of(piece), kind_of(piece), m),
                0,
                4096,
            ),
    {
        let ghost a = available_moves@;
        let ghost c = color_of(piece);
        let ghost bb = board@.pieces[piece_index(piece)];
        let ghost goal = |m: int| indicator(pseudo_move(board@, c, kind_of(piece), m));
        proof {
            lemma_piece_index_roundtrip(piece);
            assert(bb == bb_of(board@, c, kind_of(piece)));
        }
        match piece.kind() {
            PieceType::Pawn => {
                Self::get_all_pawn_moves(board, piece, available_moves);
                proof {
                    lemma_rise_ext(added(a, available_moves@), |m: int| gen_key(c, PieceType::Pawn, m), |m: int| gen_key(c, kind_of(piece), m), 0, 4096);
                    lemma_appends_ext(a, available_moves@, |m: int| indicator(pawn_moves_from(board@, c, bb, m)), goal);
                }
            },
            PieceType::Knight => {
                Self::get_all_knight_moves(board, piece, available_moves);
                proof {
                    lemma_rise_ext(added(a, available_moves@), |m: int| gen_key(c, PieceType::Knight, m), |m: int| gen_key(c, kind_of(piece), m), 0, 4096);
                    lemma_appends_ext(a, available_moves@, |m: int| indicator(knight_moves_from(board@, c, bb, m)), goal);
                }
            },
            PieceType::Bishop => {
                Self::get_all_bishop_moves(board, piece, available_moves);
                proof {
                    lemma_rise_ext(added(a, available_moves@), |m: int| gen_key(c, PieceType::Bishop, m), |m: int| gen_key(c, kind_of(piece), m), 0, 4096);
                    lemma_appends_ext(a, available_moves@, |m: int| indicator(bishop_moves_from(board@, c, bb, m)), goal);
                }
            },
            PieceType::Rook => {
                Self::get_all_rook_moves(board, piece, available_moves);
                proof {
                    lemma_rise_ext(added(a, available_moves@), |m: int| gen_key(c, PieceType::Rook, m), |m: int| gen_key(c, kind_of(piece), m), 0, 4096);
                    lemma_appends_ext(a, available_moves@, |m: int| indicator(rook_moves_from(board@, c, bb, m)), goal);
                }
            },
            PieceType::Queen => {
                Self::get_all_queen_moves(board, piece, available_moves);
                proof {
                    lemma_rise_ext(added(a, available_moves@), |m: int| gen_key(c, PieceType::Queen, m), |m: int| gen_key(c, kind_of(piece), m), 0, 4096);
                    lemma_appends_ext(a, available_moves@, |m: int| indicator(queen_moves_from(board@, c, bb, m)), goal);
                }
            },
            PieceType::King => {
                Self::get_all_king_moves(board, piece, available_moves);
                proof {
                    lemma_rise_ext(added(a, available_moves@), |m: int| gen_key(c, PieceType::King, m), |m: int| gen_key(c, kind_of(piece), m), 0, 4096);
                    lemma_appends_ext(a, available_moves@, |m: int| indicator(king_moves_from(board@, c, bb, m)), goal);
                }
            },
        }
    }

    /// Generates all pseudo-legal moves for a side: pawns, knights, bishops,
    /// rooks, queens, then the king.
    pub fn get_all_pseudo_legal_moves(board: &Board, color: Color, available_moves: &mut Vec<Move>)
        ensures
            appends(
                old(available_moves)@,
                final(available_moves)@,
                |m: int| pseudo_count(board@, color, m),
            ),
            well_formed(board@) ==> keys_rise(
                added(old(available_moves)@, final(available_moves)@),
                |m: int| pseudo_key(board@, color, m),
                0,
                24576,
            ),
    {
        let ghost a = available_moves@;
        let ghost key = |m: int| pseudo_key(board@, color, m);
        let kinds = PieceType::all();
        proof {
            lemma_appends_refl(a);
            lemma_rise_none(a, key, 0, 0);
            lemma_appends_ext(a, a, |m: int| 0nat, |m: int| pseudo_prefix(board@, color, 0, m));
        }
        let mut i: usize = 0;
        while i < 6
            invariant
                0 <= i <= 6,
                forall|j: int| 0 <= j < 6 ==> kind_offset(#[trigger] kinds@[j]) == j,
                appends(a, available_moves@, |m: int| pseudo_prefix(board@, color, i as int, m)),
                key == (|m: int| pseudo_key(board@, color, m)),
                well_formed(board@) ==> keys_rise(added(a, available_moves@), key, 0, 4096 * i),
            decreases 6 - i,
        {
            let kind = kinds[i];
            assert(kind == kind_at(i as int));
            let piece = Piece::new(color, kind);
            proof {
                lemma_piece_for_index(color, kind);
            }
            let ghost b = available_moves@;
            let ghost prev = |m: int| pseudo_prefix(board@, color, i as int, m);
            let ghost next = |m: int| pseudo_prefix(board@, color, i + 1, m);
            if board.pieces[piece.idx()] != 0 {
                Self::get_possible_moves(board, piece, available_moves);
                proof {
                    let step = |m: int| indicator(pseudo_move(board@, color, kind, m));
                    lemma_appends_trans(a, b, available_moves@, prev, step);
                    lemma_appends_ext(a, available_moves@, |m: int| prev(m) + step(m), next);
                    if well_formed(board@) {
                        let seg = added(b, available_moves@);
                        let gk = |m: int| gen_key(color, kind, m);
                        assert forall|j: int| 0 <= j < seg.len() implies key(#[trigger] seg[j].0 as int) == gk(seg[j].0 as int) + 4096 * i by {
                            lemma_count_member(codes(seg), j);
                            assert(codes(seg)[j] == seg[j].0);
                            assert(pseudo_move(board@, color, kind, seg[j].0 as int));
                            lemma_pseudo_piece(board@, color, kind, seg[j].0 as int);
                        }
                        lemma_rise_shift(seg, gk, key, 4096 * i, 0, 4096);
                        lemma_rise_trans(a, b, available_moves@, key, 0, 4096 * i, 4096 * i + 4096);
                    }
                }
            } else {
                proof {
                    assert forall|m: int| #[trigger] prev(m) == next(m) by {
                        lemma_no_pieces_no_moves(board@, color, kind, m);
                    }
                    lemma_appends_ext(a, available_moves@, prev, next);
                    if well_formed(board@) {
                        lemma_rise_widen(added(a, available_moves@), key, 0, 4096 * i, 0, 4096 * i + 4096);
                    }
                }
            }
            i = i + 1;
        }
    }

    /// Generates the legal moves of a side: the pseudo-legal moves after which
    /// its king is not attacked, captures first, then promotions, then quiet moves.
    ///
    /// Each move is tried on the board and taken back, so the board is left as it was.
    pub fn get_all_moves(board: &mut Board, color: Color, available_moves: &mut Vec<Move>)
        requires
            well_formed(old(board)@),
            old(board).half_move_clock < 0xffff,
            old(board).full_move_clock < 0xffff,
        ensures
            final(board)@ == old(board)@,
            final(board).past() == old(board).past(),
            appends(
                old(available_moves)@,
                final(available_moves)@,
                |m: int| legal_count(old(board)@, color, m),
            ),
            grouped(final(available_moves)@.skip(old(available_moves)@.len() as int)),
            keys_rise(
                added(old(available_moves)@, final(available_moves)@),
                |m: int| legal_key(old(board)@, color, m),
                0,
                73728,
            ),
    {
        let ghost p = board@;
        let ghost past = board.past();
        let mut pseudo: Vec<Move> = Vec::new();
        Self::get_all_pseudo_legal_moves(board, color, &mut pseudo);
        let ghost pk = |m: int| pseudo_key(p, color, m);
        proof {
            assert(pseudo@.skip(0) =~= pseudo@);
            assert(added(Seq::<Move>::empty(), pseudo@) =~= pseudo@);
        }
        let king = Piece::new(color, PieceType::King);
        proof {
            lemma_piece_for_index(color, PieceType::King);
        }
        let mut capture_moves: Vec<Move> = Vec::new();
        let mut promotion_moves: Vec<Move> = Vec::new();
        let mut quiet_moves: Vec<Move> = Vec::new();
        let mut i: usize = 0;
        while i < pseudo.len()
            invariant
                board@ == p,
                board.past() == past,
                well_formed(p),
                p.half_move_clock < 0xffff,
                p.full_move_clock < 0xffff,
                0 <= i <= pseudo.len(),
                piece_index(king) == color_base(color) + 5,
                forall|m: int| #[trigger] count_in(codes(pseudo@), m) == pseudo_count(p, color, m),
                forall|m: int|
                    #[trigger] count_in(codes(capture_moves@), m) + count_in(codes(promotion_moves@), m)
                        + count_in(codes(quiet_moves@), m) == if in_check(after_move(p, m), color) {
                        0
                    } else {
                        count_in(codes(pseudo@.take(i as int)), m)
                    },
                forall|j: int| 0 <= j < capture_moves@.len() ==> move_group(#[trigger] capture_moves@[j].0 as int) == 0,
                forall|j: int| 0 <= j < promotion_moves@.len() ==> move_group(#[trigger] promotion_moves@[j].0 as int) == 1,
                forall|j: int| 0 <= j < quiet_moves@.len() ==> move_group(#[trigger] quiet_moves@[j].0 as int) == 2,
                pk == (|m: int| pseudo_key(p, color, m)),
                keys_rise(pseudo@, pk, 0, 24576),
                keys_rise(capture_moves@, pk, 0, 24576),
                keys_rise(promotion_moves@, pk, 0, 24576),
                keys_rise(quiet_moves@, pk, 0, 24576),
                i < pseudo@.len() ==> forall|j: int| 0 <= j < capture_moves@.len() ==> pk(#[trigger] capture_moves@[j].0 as int) < pk(pseudo@[i as int].0 as int),
                i < pseudo@.len() ==> forall|j: int| 0 <= j < promotion_moves@.len() ==> pk(#[trigger] promotion_moves@[j].0 as int) < pk(pseudo@[i as int].0 as int),
                i < pseudo@.len() ==> forall|j: int| 0 <= j < quiet_moves@.len() ==> pk(#[trigger] quiet_moves@[j].0 as int) < pk(pseudo@[i as int].0 as int),
            decreases pseudo.len() - i,
        {
            let mv = pseudo[i];
            proof {
                lemma_count_member(codes(pseudo@), i as int);
                lemma_pseudo_playable(p, color, mv.0 as int);
            }
            board.make_move(&mv);
            let king_bb = board.pieces[king.idx()];
            let legal = !Self::is_check(board, color, king_bb);
            assert(legal == !in_check(after_move(p, mv.0 as int), color));
            board.unmake_move();
            let ghost c0 = capture_moves@;
            let ghost p0 = promotion_moves@;
            let ghost q0 = quiet_moves@;
            proof {
                assert(pk(mv.0 as int) < 24576);
                assert(keys_rise(c0, pk, 0, pk(mv.0 as int)));
                assert(keys_rise(p0, pk, 0, pk(mv.0 as int)));
                assert(keys_rise(q0, pk, 0, pk(mv.0 as int)));
            }
            if legal {
                if mv.is_capture() {
                    capture_moves.push(mv);
                    proof {
                        lemma_rise_append(c0, pk, 0, pk(mv.0 as int), 24576, mv);
                    }
                } else if mv.is_promotion() {
                    promotion_moves.push(mv);
                    proof {
                        lemma_rise_append(p0, pk, 0, pk(mv.0 as int), 24576, mv);
                    }
                } else {
                    quiet_moves.push(mv);
                    proof {
                        lemma_rise_append(q0, pk, 0, pk(mv.0 as int), 24576, mv);
                    }
                }
            }
            proof {
                if i + 1 < pseudo@.len() {
                    assert(pk(pseudo@[i as int].0 as int) < pk(pseudo@[i + 1].0 as int));
                    assert forall|j: int| 0 <= j < capture_moves@.len() implies pk(#[trigger] capture_moves@[j].0 as int) < pk(pseudo@[i + 1].0 as int) by {
                        if j < c0.len() {
                            assert(capture_moves@[j] == c0[j]);
                        }
                    }
                    assert forall|j: int| 0 <= j < promotion_moves@.len() implies pk(#[trigger] promotion_moves@[j].0 as int) < pk(pseudo@[i + 1].0 as int) by {
                        if j < p0.len() {
                            assert(promotion_moves@[j] == p0[j]);
                        }
                    }
                    assert forall|j: int| 0 <= j < quiet_moves@.len() implies pk(#[trigger] quiet_moves@[j].0 as int) < pk(pseudo@[i + 1].0 as int) by {
                        if j < q0.len() {
                            assert(quiet_moves@[j] == q0[j]);
                        }
                    }
                }
            }
            proof {
                assert(pseudo@.take(i + 1) =~= pseudo@.take(i as int).push(mv));
                assert(codes(pseudo@.take(i + 1)) =~= codes(pseudo@.take(i as int)).push(mv.0));
                assert(codes(c0.push(mv)) =~= codes(c0).push(mv.0));
                assert(codes(p0.push(mv)) =~= codes(p0).push(mv.0));
                assert(codes(q0.push(mv)) =~= codes(q0).push(mv.0));
                assert forall|m: int|
                    #[trigger] count_in(codes(capture_moves@), m) + count_in(codes(promotion_moves@), m)
                        + count_in(codes(quiet_moves@), m) == if in_check(after_move(p, m), color) {
                        0
                    } else {
                        count_in(codes(pseudo@.take(i + 1)), m)
                    } by {
                    lemma_count_push(codes(pseudo@.take(i as int)), mv.0, m);
                    lemma_count_push(codes(c0), mv.0, m);
                    lemma_count_push(codes(p0), mv.0, m);
                    lemma_count_push(codes(q0), mv.0, m);
                }
            }
            i = i + 1;
        }
        proof {
            assert(pseudo@.take(pseudo@.len() as int) =~= pseudo@);
        }
        let ghost start = available_moves@;
        let ghost cs = capture_moves@;
        let ghost ps = promotion_moves@;
        let ghost qs = quiet_moves@;
        available_moves.append(&mut capture_moves);
        available_moves.append(&mut promotion_moves);
        available_moves.append(&mut quiet_moves);
        proof {
            let new_moves = available_moves@.skip(start.len() as int);
            assert(available_moves@.subrange(0, start.len() as int) =~= start);
            assert(new_moves =~= cs + ps + qs);
            assert(codes(cs + ps + qs) =~= codes(cs) + codes(ps) + codes(qs));
            assert forall|m: int| #[trigger] count_in(codes(new_moves), m) == legal_count(p, color, m) by {
                lemma_count_concat(codes(cs) + codes(ps), codes(qs), m);
                lemma_count_concat(codes(cs), codes(ps), m);
            }
            let lk = |m: int| legal_key(p, color, m);
            assert forall|j: int| 0 <= j < cs.len() implies lk(#[trigger] cs[j].0 as int) == pk(cs[j].0 as int) + 0 by {
                assert(move_group(cs[j].0 as int) == 0);
            }
            assert forall|j: int| 0 <= j < ps.len() implies lk(#[trigger] ps[j].0 as int) == pk(ps[j].0 as int) + 24576 by {
                assert(move_group(ps[j].0 as int) == 1);
            }
            assert forall|j: int| 0 <= j < qs.len() implies lk(#[trigger] qs[j].0 as int) == pk(qs[j].0 as int) + 49152 by {
                assert(move_group(qs[j].0 as int) == 2);
            }
            lemma_rise_shift(cs, pk, lk, 0, 0, 24576);
            lemma_rise_shift(ps, pk, lk, 24576, 0, 24576);
            lemma_rise_shift(qs, pk, lk, 49152, 0, 24576);
            lemma_rise_concat(cs, ps, lk, 0, 24576, 49152);
            lemma_rise_concat(cs + ps, qs, lk, 0, 49152, 73728);
            assert(added(start, available_moves@) == new_moves);
            assert forall|a: int, b: int| 0 <= a < b < new_moves.len() implies move_group(
                #[trigger] new_moves[a].0 as int,
            ) <= move_group(#[trigger] new_moves[b].0 as int) by {
                if a < cs.len() {
                    assert(move_group(cs[a].0 as int) == 0);
                } else if a < cs.len() + ps.len() {
                    assert(move_group(ps[a - cs.len()].0 as int) == 1);
                    assert(b >= cs.len());
                    if b < cs.len() + ps.len() {
                        assert(move_group(ps[b - cs.len()].0 as int) == 1);
                    } else {
                        assert(move_group(qs[b - cs.len() - ps.len()].0 as int) == 2);
                    }
                } else {
                    assert(move_group(qs[a - cs.len() - ps.len()].0 as int) == 2);
                    assert(move_group(qs[b - cs.len() - ps.len()].0 as int) == 2);
                }
            }
        }
    }
}

/// The number of squares below `n` that hold a piece.
pub open spec fn held_count(pcs: Seq<u64>, n: int) -> nat
    decreases n,
{
    if n <= 0 {
        0
    } else {
        held_count(pcs, n - 1) + if empty_at(pcs, n - 1) {
            0nat
        } else {
            1nat
        }
    }
}

/// The number of pieces on the board: the squares that hold one.
pub open spec fn piece_count(pcs: Seq<u64>) -> nat {
    held_count(pcs, 64)
}

/// Two boards that differ at most at square `sq` hold counts that differ by
/// what they hold there.
proof fn lemma_held_change(a: Seq<u64>, b: Seq<u64>, sq: int, n: int)
    requires
        forall|t: int| t != sq ==> (empty_at(a, t) <==> empty_at(b, t)),
    ensures
        held_count(b, n) + (if 0 <= sq < n && !empty_at(a, sq) {
            1nat
        } else {
            0nat
        }) == held_count(a, n) + (if 0 <= sq < n && !empty_at(b, sq) {
            1nat
        } else {
            0nat
        }),
    decreases n,
{
    if n > 0 {
        lemma_held_change(a, b, sq, n - 1);
    }
}

/// The number of squares below `n` that bitboard `x` holds: its set bits.
pub open spec fn ones(x: u64, n: int) -> nat
    decreases n,
{
    if n <= 0 {
        0
    } else {
        ones(x, n - 1) + if bit(x, n - 1) {
            1nat
        } else {
            0nat
        }
    }
}

/// The set bits of the first `k` bitboards, below square `n`, added up.
pub open spec fn ones_sum(pcs: Seq<u64>, k: int, n: int) -> nat
    decreases k,
{
    if k <= 0 {
        0
    } else {
        ones_sum(pcs, k - 1, n) + ones(pcs[k - 1], n)
    }
}

/// The set bits of all twelve bitboards, added up.
pub open spec fn bitboard_total(pcs: Seq<u64>) -> nat {
    ones_sum(pcs, 12, 64)
}

/// How many of the first `k` bitboards hold square `s`.
pub open spec fn holders(pcs: Seq<u64>, s: int, k: int) -> nat
    decreases k,
{
    if k <= 0 {
        0
    } else {
        holders(pcs, s, k - 1) + if bit(pcs[k - 1], s) {
            1nat
        } else {
            0nat
        }
    }
}

/// The holders of the squares below `n`, added up.
pub open spec fn holders_sum(pcs: Seq<u64>, n: int) -> nat
    decreases n,
{
    if n <= 0 {
        0
    } else {
        holders_sum(pcs, n - 1) + holders(pcs, n - 1, 12)
    }
}

proof fn lemma_ones_sum_step(pcs: Seq<u64>, k: int, n: int)
    requires
        n > 0,
    ensures
        ones_sum(pcs, k, n) == ones_sum(pcs, k, n - 1) + holders(pcs, n - 1, k),
    decreases k,
{
    if k > 0 {
        lemma_ones_sum_step(pcs, k - 1, n);
    }
}

proof fn lemma_ones_sum_swap(pcs: Seq<u64>, n: int)
    requires
        n >= 0,
    ensures
        ones_sum(pcs, 12, n) == holders_sum(pcs, n),
    decreases n,
{
    if n > 0 {
        lemma_ones_sum_swap(pcs, n - 1);
        lemma_ones_sum_step(pcs, 12, n);
    } else {
        lemma_ones_sum_zero(pcs, 12);
    }
}

proof fn lemma_ones_sum_zero(pcs: Seq<u64>, k: int)
    ensures
        ones_sum(pcs, k, 0) == 0,
    decreases k,
{
    if k > 0 {
        lemma_ones_sum_zero(pcs, k - 1);
    }
}

/// In a well-formed board a square has one holder if it holds a piece, else none.
proof fn lemma_holders(pcs: Seq<u64>, s: int, k: int)
    requires
        pieces_wf(pcs),
        0 <= k <= 12,
    ensures
        holders(pcs, s, k) == if exists|i: int| 0 <= i < k && #[trigger] bit(pcs[i], s) {
            1nat
        } else {
            0nat
        },
    decreases k,
{
    assert(pcs.len() == 12) by {
        assert(well_formed(Position {
            pieces: pcs,
            colors: seq![],
            side_to_move: Color::White,
            castling_rights: 0,
            en_passant_sq: None,
            half_move_clock: 0,
            full_move_clock: 0,
        }));
    }
    if k > 0 {
        lemma_holders(pcs, s, k - 1);
        if bit(pcs[k - 1], s) {
            assert forall|i: int| 0 <= i < k - 1 implies !bit(#[trigger] pcs[i], s) by {
                assert(bit(pcs[k - 1], s));
            }
        }
    }
}

proof fn lemma_holders_sum(pcs: Seq<u64>, n: int)
    requires
        pieces_wf(pcs),
        0 <= n,
    ensures
        holders_sum(pcs, n) == held_count(pcs, n),
    decreases n,
{
    if n > 0 {
        lemma_holders_sum(pcs, n - 1);
        lemma_holders(pcs, n - 1, 12);
        if empty_at(pcs, n - 1) {
            assert(!exists|i: int| 0 <= i < 12 && #[trigger] bit(pcs[i], n - 1));
        } else {
            assert(exists|j: int| 0 <= j < 12 && #[trigger] bit(pcs[j], n - 1));
        }
    }
}

/// In a well-formed board the set bits of the bitboards add up to the
/// number of pieces.
pub proof fn lemma_bitboard_total(pcs: Seq<u64>)
    requires
        pieces_wf(pcs),
    ensures
        bitboard_total(pcs) == piece_count(pcs),
{
    lemma_ones_sum_swap(pcs, 64);
    lemma_holders_sum(pcs, 64);
}

/// A pseudo-legal move lands on another square than the one it leaves.
proof fn lemma_from_not_to(p: Position, c: Color, m: int)
    requires
        well_formed(p),
        pseudo_count(p, c, m) > 0,
    ensures
        move_from(m) != move_to(m),
{
    lemma_pseudo_origin(p, c, m);
    let from = move_from(m);
    let k = kind_of(moving_piece(p, from));
    lemma_piece_for_index(c, k);
    let idx = color_base(c) + kind_offset(k);
    lemma_first_piece_from(p.pieces, from, 0);
    lemma_piece_index_roundtrip(moving_piece(p, from));
    assert(bit(p.pieces[idx], from));
    lemma_side_bits(p.pieces, c, from);
    assert(bit(super::rules::own(p, c), from));
    if k == PieceType::King && castle_move(p, c, m) {
        let h = king_home(c);
        lemma_code_fields(h, h + 2, 4);
        lemma_code_fields(h, h - 2, 6);
    }
    lemma_code_unique(m);
}

/// A move changes the number of pieces only by a capture: one piece fewer
/// after a capture, as many otherwise.
pub proof fn lemma_move_piece_count(p: Position, m: int)
    requires
        well_formed(p),
        legal_count(p, p.side_to_move, m) > 0,
    ensures
        piece_count(after_move(p, m).pieces) + (if captured_piece(p, move_from(m), move_to(m)) is Some {
            1nat
        } else {
            0nat
        }) == piece_count(p.pieces),
        bitboard_total(after_move(p, m).pieces) + (if captured_piece(p, move_from(m), move_to(m)) is Some {
            1nat
        } else {
            0nat
        }) == bitboard_total(p.pieces),
{
    let c = p.side_to_move;
    lemma_pseudo_origin(p, c, m);
    lemma_after_move_well_formed(p, c, m);
    let from = move_from(m);
    let to = move_to(m);
    let mp = moving_piece(p, from);
    let s0 = p.pieces;
    assert(pieces_wf(s0)) by {
        assert(well_formed(p));
    }
    assert(from != to) by {
        lemma_from_not_to(p, c, m);
    }
    let ep = is_ep_capture(p, from, to);
    let victim = ep_victim(c, to);
    lemma_first_piece_from(s0, from, 0);
    lemma_first_piece_from(s0, to, 0);
    let s1 = if ep {
        removed_at(s0, victim)
    } else {
        s0
    };
    if ep {
        lemma_first_piece_from(s0, victim, 0);
        lemma_removed_at(s0, victim);
        lemma_within_wf(s1, s0);
        lemma_held_change(s0, s1, victim, 64);
        assert(victim % 8 == to % 8);
    }
    assert(within(s1, s0));
    lemma_removed_at(s1, from);
    let s2 = removed_at(s1, from);
    lemma_within_wf(s2, s1);
    lemma_held_change(s1, s2, from, 64);
    lemma_removed_at(s2, to);
    let s3 = removed_at(s2, to);
    lemma_within_wf(s3, s2);
    lemma_held_change(s2, s3, to, 64);
    assert(s3 == cleared(p, from, to));
    assert(!empty_at(s0, from));
    assert(!empty_at(s1, from));
    assert(empty_at(s2, to) <==> empty_at(s0, to));
    if ep {
        assert(captured_piece(p, from, to) is Some <==> !empty_at(s0, victim));
        assert(empty_at(s0, to));
        assert(empty_at(s1, victim));
        assert(held_count(s1, 64) + (if !empty_at(s0, victim) { 1nat } else { 0nat }) == held_count(s0, 64));
    } else {
        assert(captured_piece(p, from, to) is Some <==> !empty_at(s0, to));
    }
    assert(held_count(s2, 64) + 1 == held_count(s1, 64));
    assert(held_count(s3, 64) + 1 + (if captured_piece(p, from, to) is Some {
        1nat
    } else {
        0nat
    }) == held_count(s0, 64));
    let s4 = castled(s3, mp, from, to);
    let castling = (mp == Piece::WhiteKing && from == 4 && (to == 6 || to == 2)) || (mp
        == Piece::BlackKing && from == 60 && (to == 62 || to == 58));
    if castling {
        let k = kind_of(mp);
        lemma_piece_for_index(c, k);
        let h = king_home(c);
        lemma_code_unique(m);
        lemma_code_fields(h, h + 2, 4);
        lemma_code_fields(h, h - 2, 6);
        assert(castle_move(p, c, m));
        let (corner, rook_sq) = if to == h + 2 {
            (h + 3, h + 1)
        } else {
            (h - 4, h - 1)
        };
        lemma_unoccupied_empty(s0, rook_sq);
        assert(!empty_at(s0, corner));
        assert(!empty_at(s3, corner));
        lemma_removed_at(s3, corner);
        let s3b = removed_at(s3, corner);
        lemma_within_wf(s3b, s3);
        lemma_held_change(s3, s3b, corner, 64);
        let rook = piece_for(c, PieceType::Rook);
        lemma_placed_at(s3b, rook, rook_sq);
        lemma_held_change(s3b, s4, rook_sq, 64);
        assert(!empty_at(s4, rook_sq)) by {
            lemma_piece_index_roundtrip(rook);
            crate::bitboard::lemma_bit_set(s3b[piece_index(rook)], rook_sq, rook_sq);
            assert(bit(s4[piece_index(rook)], rook_sq));
        }
    }
    assert(held_count(s4, 64) == held_count(s3, 64));
    assert(empty_at(s4, to));
    let lp = landing_piece(mp, p.side_to_move, promotion_letter(move_flag(m)));
    lemma_placed_at(s4, lp, to);
    let s5 = placed_at(s4, lp, to);
    lemma_held_change(s4, s5, to, 64);
    assert(!empty_at(s5, to)) by {
        lemma_piece_index_roundtrip(lp);
        crate::bitboard::lemma_bit_set(s4[piece_index(lp)], to, to);
        assert(bit(s5[piece_index(lp)], to));
    }
    assert(s5 == after_move(p, m).pieces);
    lemma_bitboard_total(s0);
    assert(pieces_wf(s5)) by {
        assert(well_formed(after_move(p, m)));
    }
    lemma_bitboard_total(s5);
}

/// The half-move clock after a legal move: a move that takes a piece off the
/// board, or a pawn move, sets it to zero; any other move adds one to it.
pub proof fn lemma_move_clock(p: Position, m: int)
    requires
        well_formed(p),
        legal_count(p, p.side_to_move, m) > 0,
        p.half_move_clock < 0xffff,
    ensures
        piece_count(after_move(p, m).pieces) < piece_count(p.pieces) ==> after_move(p, m).half_move_clock == 0,
        kind_of(moving_piece(p, move_from(m))) == PieceType::Pawn ==> after_move(p, m).half_move_clock == 0,
        kind_of(moving_piece(p, move_from(m))) != PieceType::Pawn && piece_count(after_move(p, m).pieces)
            == piece_count(p.pieces) ==> after_move(p, m).half_move_clock == p.half_move_clock + 1,
{
    lemma_move_piece_count(p, m);
}

/// The en passant target square, if there is one, holds no piece.
pub open spec fn ep_clear(p: Position) -> bool {
    match p.en_passant_sq {
        Some(e) => !occupied(p, e as int),
        None => true,
    }
}

/// A code that occurs at two places of a sequence occurs at least twice.
pub(crate) proof fn lemma_count_two(s: Seq<u16>, i: int, j: int)
    requires
        0 <= i < j < s.len(),
        s[i] == s[j],
    ensures
        count_in(s, s[i] as int) >= 2,
    decreases s.len(),
{
    if j < s.len() - 1 {
        lemma_count_two(s.drop_last(), i, j);
    } else {
        lemma_count_member(s.drop_last(), i);
    }
}

/// The generator visits each piece kind once.
proof fn lemma_kind_at(i: int, j: int)
    requires
        0 <= i < 6,
        0 <= j < 6,
        kind_at(i) == kind_at(j),
    ensures
        i == j,
{
}

/// In a well-formed position only the kind of piece standing on a move's
/// source square can make it: each code is generated at most once.
proof fn lemma_pseudo_prefix_at_most_one(p: Position, c: Color, i: int, m: int)
    requires
        well_formed(p),
        0 <= i <= 6,
    ensures
        pseudo_prefix(p, c, i, m) <= 1,
        pseudo_prefix(p, c, i, m) == 1 ==> exists|j: int| 0 <= j < i && pseudo_move(p, c, #[trigger] kind_at(j), m),
    decreases i,
{
    if i > 0 {
        lemma_pseudo_prefix_at_most_one(p, c, i - 1, m);
        if pseudo_prefix(p, c, i - 1, m) == 1 && pseudo_move(p, c, kind_at(i - 1), m) {
            let j = choose|j: int| 0 <= j < i - 1 && pseudo_move(p, c, #[trigger] kind_at(j), m);
            lemma_pseudo_piece(p, c, kind_at(j), m);
            lemma_pseudo_piece(p, c, kind_at(i - 1), m);
            lemma_piece_for_index(c, kind_at(j));
            lemma_piece_for_index(c, kind_at(i - 1));
            lemma_kind_at(j, i - 1);
        }
    }
}

/// Each legal code occurs at most once.
pub proof fn lemma_legal_at_most_one(p: Position, c: Color, m: int)
    requires
        well_formed(p),
    ensures
        legal_count(p, c, m) <= 1,
{
    lemma_pseudo_prefix_at_most_one(p, c, 6, m);
}

/// The pseudo-legal move of code `m` is made by a piece of kind `kind_at(j)`.
proof fn lemma_pseudo_kind_index(p: Position, c: Color, m: int) -> (j: int)
    requires
        well_formed(p),
        pseudo_count(p, c, m) > 0,
    ensures
        0 <= j < 6,
        pseudo_move(p, c, kind_at(j), m),
{
    lemma_pseudo_prefix_at_most_one(p, c, 6, m);
    choose|j: int| 0 <= j < 6 && pseudo_move(p, c, #[trigger] kind_at(j), m)
}

/// Two pseudo-legal moves with the same UCI name are the same move, when the
/// en passant square holds no piece.
pub proof fn lemma_same_name_same_move(p: Position, c: Color, m1: int, m2: int)
    requires
        well_formed(p),
        ep_clear(p),
        pseudo_count(p, c, m1) > 0,
        pseudo_count(p, c, m2) > 0,
        uci_text(m1) == uci_text(m2),
    ensures
        m1 == m2,
{
    lemma_pseudo_origin(p, c, m1);
    lemma_pseudo_origin(p, c, m2);
    lemma_code_unique(m1);
    lemma_code_unique(m2);
    let (f1, t1, g1) = (move_from(m1), move_to(m1), move_flag(m1));
    let (f2, t2, g2) = (move_from(m2), move_to(m2), move_flag(m2));
    let u1 = uci_text(m1);
    let u2 = uci_text(m2);
    assert(u1[0] == u2[0] && u1[1] == u2[1] && u1[2] == u2[2] && u1[3] == u2[3]);
    assert(u1[0] as int == 97 + f1 % 8 && u2[0] as int == 97 + f2 % 8);
    assert(u1[1] as int == 49 + f1 / 8 && u2[1] as int == 49 + f2 / 8);
    assert(u1[2] as int == 97 + t1 % 8 && u2[2] as int == 97 + t2 % 8);
    assert(u1[3] as int == 49 + t1 / 8 && u2[3] as int == 49 + t2 / 8);
    assert(f1 == f2 && t1 == t2);
    assert(promotion_letter(g1) == promotion_letter(g2)) by {
        if u1.len() == 5 {
            assert(u1[4] == u2[4]);
        }
    }
    let j1 = lemma_pseudo_kind_index(p, c, m1);
    let j2 = lemma_pseudo_kind_index(p, c, m2);
    lemma_pseudo_piece(p, c, kind_at(j1), m1);
    lemma_pseudo_piece(p, c, kind_at(j2), m2);
    lemma_piece_for_index(c, kind_at(j1));
    lemma_piece_for_index(c, kind_at(j2));
    let k = kind_at(j1);
    assert(kind_at(j2) == k);
    if k == PieceType::King {
        let h = king_home(c);
        lemma_code_fields(h, h + 2, 4);
        lemma_code_fields(h, h - 2, 6);
    }
    if k == PieceType::Pawn {
        if g1 != g2 {
            if bit(own(p, other(c)), t1) {
                lemma_piece_on_side(p.pieces, other(c), t1);
            }
            lemma_side_bits(p.pieces, other(c), t1);
        }
    }
    assert(g1 == g2);
}

} // verus!

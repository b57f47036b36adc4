//! Playing a move on the board: captures, en passant, castling, promotions,
//! castling rights and the clocks, and taking a move back.
use vstd::prelude::*;
use vstd::string::StringSliceAdditionalSpecFns;
use crate::bitboard::{bit, single, lemma_mask_test, lemma_bit_clear, lemma_bit_set};
use crate::utils::{square_of, square_name_ok};
use super::moves::{Move, move_from, move_to, move_flag, promotion_letter};
use super::{Board, Color, Piece, PieceType, Position, Snapshot, piece_on, first_piece_from, piece_index, piece_for, kind_of, other, side_bits, removed_at, placed_at, rook_square_mask, lemma_first_piece_from, lemma_index_piece_roundtrip, lemma_piece_index_roundtrip, well_formed, lemma_side_bits, color_base, WHITE_KINGSIDE, WHITE_QUEENSIDE, BLACK_KINGSIDE, BLACK_QUEENSIDE};

verus! {

/// The piece that stands on the source square of a move.
pub open spec fn moving_piece(p: Position, from: int) -> Piece {
    piece_on(p.pieces, from)->Some_0
}

/// The square of the pawn taken en passant by a pawn of side `c` landing on `to`.
pub open spec fn ep_victim(c: Color, to: int) -> int {
    match c {
        Color::White => to - 8,
        Color::Black => to + 8,
    }
}

/// A pawn moves diagonally onto the empty en passant target square.
pub open spec fn is_ep_capture(p: Position, from: int, to: int) -> bool {
    &&& kind_of(moving_piece(p, from)) == PieceType::Pawn
    &&& piece_on(p.pieces, to) is None
    &&& from % 8 != to % 8
    &&& p.en_passant_sq == Some(to as u8)
}

/// The square whose piece the move takes, if any.
pub open spec fn captured_square(p: Position, from: int, to: int) -> int {
    if is_ep_capture(p, from, to) {
        ep_victim(p.side_to_move, to)
    } else {
        to
    }
}

/// The piece the move takes, if any.
pub open spec fn captured_piece(p: Position, from: int, to: int) -> Option<Piece> {
    piece_on(p.pieces, captured_square(p, from, to))
}

/// The bitboards once the taken piece, the mover and whatever stood on `to` are lifted.
pub open spec fn cleared(p: Position, from: int, to: int) -> Seq<u64> {
    let s = if is_ep_capture(p, from, to) {
        removed_at(p.pieces, ep_victim(p.side_to_move, to))
    } else {
        p.pieces
    };
    removed_at(removed_at(s, from), to)
}

/// The rook's hop when the king castles.
pub open spec fn castled(pcs: Seq<u64>, mp: Piece, from: int, to: int) -> Seq<u64> {
    if mp == Piece::WhiteKing && from == 4 && to == 6 {
        placed_at(removed_at(pcs, 7), Piece::WhiteRook, 5)
    } else if mp == Piece::WhiteKing && from == 4 && to == 2 {
        placed_at(removed_at(pcs, 0), Piece::WhiteRook, 3)
    } else if mp == Piece::BlackKing && from == 60 && to == 62 {
        placed_at(removed_at(pcs, 63), Piece::BlackRook, 61)
    } else if mp == Piece::BlackKing && from == 60 && to == 58 {
        placed_at(removed_at(pcs, 56), Piece::BlackRook, 59)
    } else {
        pcs
    }
}

/// The piece that lands on the destination: a pawn may promote to the piece
/// that `promo` names, of the side to move.
pub open spec fn landing_piece(mp: Piece, side: Color, promo: Option<char>) -> Piece {
    if kind_of(mp) == PieceType::Pawn {
        match promo {
            Some('q') => piece_for(side, PieceType::Queen),
            Some('r') => piece_for(side, PieceType::Rook),
            Some('b') => piece_for(side, PieceType::Bishop),
            Some('n') => piece_for(side, PieceType::Knight),
            _ => mp,
        }
    } else {
        mp
    }
}

/// A promotion letter that a pawn move may carry.
pub open spec fn valid_promo(promo: Option<char>) -> bool {
    match promo {
        None => true,
        Some(c) => c == 'q' || c == 'r' || c == 'b' || c == 'n',
    }
}

/// Castling rights after the move: a rook taken or leaving its corner, or the
/// king moving, gives up the corresponding rights.
pub open spec fn rights_after(p: Position, from: int, to: int) -> u8 {
    let r0 = p.castling_rights;
    let cap = captured_piece(p, from, to);
    let r1 = if cap == Some(Piece::WhiteRook) || cap == Some(Piece::BlackRook) {
        r0 & rook_square_mask(captured_square(p, from, to))
    } else {
        r0
    };
    match moving_piece(p, from) {
        Piece::WhiteKing => r1 & !(WHITE_KINGSIDE | WHITE_QUEENSIDE),
        Piece::BlackKing => r1 & !(BLACK_KINGSIDE | BLACK_QUEENSIDE),
        Piece::WhiteRook | Piece::BlackRook => r1 & rook_square_mask(from),
        _ => r1,
    }
}

/// The en passant target after the move: the square a double pawn push skipped.
pub open spec fn ep_after(p: Position, from: int, to: int) -> Option<u8> {
    if kind_of(moving_piece(p, from)) == PieceType::Pawn && p.side_to_move == Color::White && from
        + 16 == to {
        Some((from + 8) as u8)
    } else if kind_of(moving_piece(p, from)) == PieceType::Pawn && p.side_to_move == Color::Black
        && from == to + 16 {
        Some((from - 8) as u8)
    } else {
        None
    }
}

/// Whether the move resets the half-move clock.
pub open spec fn resets_clock(p: Position, from: int, to: int) -> bool {
    kind_of(moving_piece(p, from)) == PieceType::Pawn || captured_piece(p, from, to) is Some
}

/// The position after the side to move plays from `from` to `to`, promoting
/// to `promo` when a pawn lands.
pub open spec fn after_play(p: Position, from: int, to: int, promo: Option<char>) -> Position {
    let mp = moving_piece(p, from);
    let pcs = placed_at(
        castled(cleared(p, from, to), mp, from, to),
        landing_piece(mp, p.side_to_move, promo),
        to,
    );
    Position {
        pieces: pcs,
        colors: seq![side_bits(pcs, Color::White), side_bits(pcs, Color::Black)],
        side_to_move: other(p.side_to_move),
        castling_rights: rights_after(p, from, to),
        en_passant_sq: ep_after(p, from, to),
        half_move_clock: if resets_clock(p, from, to) {
            0
        } else {
            (p.half_move_clock + 1) as u16
        },
        full_move_clock: if p.side_to_move == Color::Black {
            (p.full_move_clock + 1) as u16
        } else {
            p.full_move_clock
        },
    }
}

/// When a move can be played: a piece on a square `from`, a destination on
/// the board, a promotion letter a pawn can take, an en passant victim on the
/// board, and clocks that do not overflow.
pub open spec fn playable(p: Position, from: int, to: int, promo: Option<char>) -> bool {
    &&& 0 <= from < 64
    &&& 0 <= to < 64
    &&& p.pieces.len() == 12
    &&& piece_on(p.pieces, from) is Some
    &&& kind_of(moving_piece(p, from)) == PieceType::Pawn ==> valid_promo(promo)
    &&& is_ep_capture(p, from, to) ==> 0 <= ep_victim(p.side_to_move, to) < 64
    &&& !resets_clock(p, from, to) ==> p.half_move_clock < 0xffff
    &&& p.side_to_move == Color::Black ==> p.full_move_clock < 0xffff
}


/// No bitboard of `pcs` holds square `s`.
pub open spec fn empty_at(pcs: Seq<u64>, s: int) -> bool {
    forall|i: int| 0 <= i < 12 ==> !bit(#[trigger] pcs[i], s)
}

/// Every square that a bitboard of `a` holds, the same bitboard of `b` holds.
pub open spec fn within(a: Seq<u64>, b: Seq<u64>) -> bool {
    &&& a.len() == b.len()
    &&& forall|i: int, s: int| 0 <= i < 12 && #[trigger] bit(a[i], s) ==> bit(b[i], s)
}

pub open spec fn pieces_wf(pcs: Seq<u64>) -> bool {
    well_formed(Position {
        pieces: pcs,
        colors: seq![],
        side_to_move: Color::White,
        castling_rights: 0,
        en_passant_sq: None,
        half_move_clock: 0,
        full_move_clock: 0,
    })
}

/// Lifting a piece only clears squares; in a well-formed board it clears the square.
pub(crate) proof fn lemma_removed_at(pcs: Seq<u64>, sq: int)
    requires
        pcs.len() == 12,
        0 <= sq < 64,
    ensures
        within(removed_at(pcs, sq), pcs),
        pieces_wf(pcs) ==> empty_at(removed_at(pcs, sq), sq),
        forall|t: int| t != sq ==> (empty_at(removed_at(pcs, sq), t) <==> empty_at(pcs, t)),
{
    lemma_first_piece_from(pcs, sq, 0);
    let r = removed_at(pcs, sq);
    match piece_on(pcs, sq) {
        Some(q) => {
            lemma_piece_index_roundtrip(q);
            let k = piece_index(q);
            assert forall|i: int, s: int| 0 <= i < 12 && #[trigger] bit(r[i], s) implies bit(pcs[i], s) by {
                lemma_bit_clear(pcs[k], sq, s);
            }
            assert forall|t: int| t != sq implies (empty_at(r, t) <==> empty_at(pcs, t)) by {
                lemma_bit_clear(pcs[k], sq, t);
                if !empty_at(pcs, t) {
                    let i = choose|i: int| 0 <= i < 12 && bit(pcs[i], t);
                    assert(bit(r[i], t));
                }
                if !empty_at(r, t) {
                    let i = choose|i: int| 0 <= i < 12 && bit(r[i], t);
                    assert(bit(pcs[i], t));
                }
            }
            if pieces_wf(pcs) {
                assert forall|i: int| 0 <= i < 12 implies !bit(#[trigger] r[i], sq) by {
                    lemma_bit_clear(pcs[k], sq, sq);
                    if i != k {
                        assert(bit(pcs[k], sq));
                    }
                }
            }
        },
        None => {},
    }
}

/// Placing a piece on an empty square of a well-formed board keeps it well formed.
pub(crate) proof fn lemma_placed_at(pcs: Seq<u64>, piece: Piece, sq: int)
    requires
        pieces_wf(pcs),
        0 <= sq < 64,
        empty_at(pcs, sq),
    ensures
        pieces_wf(placed_at(pcs, piece, sq)),
        forall|t: int| t != sq ==> (empty_at(placed_at(pcs, piece, sq), t) <==> empty_at(pcs, t)),
{
    lemma_piece_index_roundtrip(piece);
    let k = piece_index(piece);
    let r = placed_at(pcs, piece, sq);
    assert forall|i: int, j: int, s: int|
        0 <= i < 12 && 0 <= j < 12 && i != j && bit(r[i], s) implies !bit(r[j], s) by {
        lemma_bit_set(pcs[k], sq, s);
        assert(!bit(pcs[i], sq));
        assert(!bit(pcs[j], sq));
    }
    assert forall|t: int| t != sq implies (empty_at(r, t) <==> empty_at(pcs, t)) by {
        lemma_bit_set(pcs[k], sq, t);
        if !empty_at(pcs, t) {
            let i = choose|i: int| 0 <= i < 12 && bit(pcs[i], t);
            assert(bit(r[i], t));
        }
        if !empty_at(r, t) {
            let i = choose|i: int| 0 <= i < 12 && bit(r[i], t);
            assert(bit(pcs[i], t));
        }
    }
}

/// Clearing squares keeps a board well formed.
pub(crate) proof fn lemma_within_wf(a: Seq<u64>, b: Seq<u64>)
    requires
        within(a, b),
        pieces_wf(b),
    ensures
        pieces_wf(a),
{
    assert forall|i: int, j: int, s: int|
        0 <= i < 12 && 0 <= j < 12 && i != j && bit(a[i], s) implies !bit(a[j], s) by {
        assert(bit(b[i], s));
        if bit(a[j], s) {
            assert(bit(b[j], s));
        }
    }
}

/// A square that neither side holds is held by no bitboard.
pub(crate) proof fn lemma_unoccupied_empty(pcs: Seq<u64>, s: int)
    requires
        pcs.len() == 12,
        !bit(side_bits(pcs, Color::White), s),
        !bit(side_bits(pcs, Color::Black), s),
    ensures
        empty_at(pcs, s),
{
    lemma_side_bits(pcs, Color::White, s);
    lemma_side_bits(pcs, Color::Black, s);
    assert forall|i: int| 0 <= i < 12 implies !bit(#[trigger] pcs[i], s) by {
        if i < 6 {
            assert(color_base(Color::White) <= i < color_base(Color::White) + 6);
        } else {
            assert(color_base(Color::Black) <= i < color_base(Color::Black) + 6);
        }
    }
}


/// Castling rights are never gained: a move only clears bits of the mask.
pub proof fn lemma_rights_only_cleared(p: Position, from: int, to: int)
    ensures
        rights_after(p, from, to) & !p.castling_rights == 0,
        rights_after(p, from, to) & p.castling_rights == rights_after(p, from, to),
{
    let r0 = p.castling_rights;
    let cap = captured_piece(p, from, to);
    let m1 = rook_square_mask(captured_square(p, from, to));
    let m2 = rook_square_mask(from);
    let k1 = !(WHITE_KINGSIDE | WHITE_QUEENSIDE);
    let k2 = !(BLACK_KINGSIDE | BLACK_QUEENSIDE);
    let r1 = if cap == Some(Piece::WhiteRook) || cap == Some(Piece::BlackRook) {
        r0 & m1
    } else {
        r0
    };
    assert(r1 & !r0 == 0) by (bit_vector)
        requires
            r1 == r0 || r1 == r0 & m1,
    ;
    let r2 = rights_after(p, from, to);
    assert(r2 == r1 & k1 || r2 == r1 & k2 || r2 == r1 & m2 || r2 == r1);
    assert(r2 & !r0 == 0 && r2 & r0 == r2) by (bit_vector)
        requires
            r1 & !r0 == 0,
            r2 == r1 & k1 || r2 == r1 & k2 || r2 == r1 & m2 || r2 == r1,
    ;
}

/// The promotion letter of a UCI move string: its fifth byte, if any.
pub open spec fn uci_promotion(b: Seq<u8>) -> Option<char> {
    if b.len() > 4 {
        Some(b[4] as char)
    } else {
        None
    }
}

/// A UCI move string (`e2e4`, `e7e8q`) that names two squares of the board.
pub open spec fn uci_squares_ok(b: Seq<u8>) -> bool {
    b.len() >= 4 && square_name_ok(b[0], b[1]) && square_name_ok(b[2], b[3])
}

/// The two squares a UCI move string names, when it names two squares of the board.
pub fn uci_move_squares(uci_move: &str) -> (r: Option<(u8, u8)>)
    ensures
        r is Some == uci_squares_ok(uci_move.spec_bytes()),
        r matches Some(sq) ==> sq.0 as int == square_of(uci_move.spec_bytes()[0], uci_move.spec_bytes()[1])
            && sq.1 as int == square_of(uci_move.spec_bytes()[2], uci_move.spec_bytes()[3]),
{
    let b = uci_move.as_bytes();
    if b.len() < 4 {
        return None;
    }
    let (f1, r1, f2, r2) = (b[0], b[1], b[2], b[3]);
    if f1 < 97 || r1 < 49 || f2 < 97 || r2 < 49 {
        return None;
    }
    let from = (r1 as u32 - 49) * 8 + (f1 as u32 - 97);
    let to = (r2 as u32 - 49) * 8 + (f2 as u32 - 97);
    if from < 64 && to < 64 {
        Some((from as u8, to as u8))
    } else {
        None
    }
}

/// The promotion letter of a UCI move string: its fifth byte, if it has one.
pub fn uci_move_promotion(uci_move: &str) -> (r: Option<char>)
    ensures
        r == uci_promotion(uci_move.spec_bytes()),
{
    let b = uci_move.as_bytes();
    if b.len() > 4 {
        Some(b[4] as char)
    } else {
        None
    }
}

/// What the board's history becomes when a move is made, and what the board shows.
pub open spec fn made(past: Seq<Position>, cur: Position, m: int) -> (Seq<Position>, Position) {
    (past.push(cur), after_play(cur, move_from(m), move_to(m), promotion_letter(move_flag(m))))
}

/// What the board's history and position become when the last move is taken back.
pub open spec fn unmade(past: Seq<Position>, cur: Position) -> (Seq<Position>, Position) {
    if past.len() == 0 {
        (past, cur)
    } else {
        (past.drop_last(), past.last())
    }
}

/// Making a move and then taking it back restores the board and its history.
pub proof fn lemma_unmake_undoes_make(past: Seq<Position>, cur: Position, m: int)
    ensures
        unmade(made(past, cur, m).0, made(past, cur, m).1) == (past, cur),
{
    assert(past.push(cur).drop_last() =~= past);
}

impl Board {
    /// Removes and returns the piece on a square.
    pub fn remove_piece_at(&mut self, square: u8) -> (r: Option<Piece>)
        requires
            square < 64,
        ensures
            r == piece_on(old(self).pieces@, square as int),
            final(self)@ == (Position {
                pieces: removed_at(old(self).pieces@, square as int),
                ..old(self)@
            }),
            final(self).past() == old(self).past(),
    {
        let mask = 1u64 << square;
        let mut i: usize = 0;
        while i < 12
            invariant
                0 <= i <= 12,
                square < 64,
                mask == single(square as int),
                self.pieces@.len() == 12,
                *self == *old(self),
                first_piece_from(self.pieces@, square as int, i as int) == piece_on(
                    self.pieces@,
                    square as int,
                ),
            decreases 12 - i,
        {
            proof {
                lemma_mask_test(self.pieces@[i as int], square as int);
                lemma_index_piece_roundtrip(i as int);
            }
            if self.pieces[i] & mask != 0 {
                let cleared = self.pieces[i] & !mask;
                self.pieces[i] = cleared;
                let piece = Piece::from_idx(i);
                assert(self.pieces@ =~= removed_at(old(self).pieces@, square as int));
                return Some(piece);
            }
            i = i + 1;
        }
        assert(self.pieces@ =~= removed_at(old(self).pieces@, square as int));
        None
    }

    /// Places a piece on a square without clearing anything first.
    pub fn place_piece_at(&mut self, piece: Piece, square: u8)
        requires
            square < 64,
        ensures
            final(self)@ == (Position {
                pieces: placed_at(old(self).pieces@, piece, square as int),
                ..old(self)@
            }),
            final(self).past() == old(self).past(),
    {
        let i = piece.idx();
        let v = self.pieces[i] | (1u64 << square);
        self.pieces[i] = v;
        assert(self.pieces@ =~= placed_at(old(self).pieces@, piece, square as int));
    }

    /// Clears castling rights when a rook leaves or is captured on a home square.
    pub fn clear_castling_rights_for_rook_square(&mut self, square: u8)
        ensures
            final(self)@ == (Position {
                castling_rights: old(self).castling_rights & rook_square_mask(square as int),
                ..old(self)@
            }),
            final(self).past() == old(self).past(),
    {
        let mask: u8 = if square == 0 {
            !WHITE_QUEENSIDE
        } else if square == 7 {
            !WHITE_KINGSIDE
        } else if square == 56 {
            !BLACK_QUEENSIDE
        } else if square == 63 {
            !BLACK_KINGSIDE
        } else {
            0b1111
        };
        self.castling_rights = self.castling_rights & mask;
    }

    /// Plays the side to move's piece from `from` to `to`, promoting a pawn
    /// to the piece that `promotion` names.
    ///
    /// This handles captures, en passant, the castling rook's hop, promotions,
    /// castling-right updates, the en passant target and both clocks.
    pub fn play(&mut self, from: u8, to: u8, promotion: Option<char>)
        requires
            playable(old(self)@, from as int, to as int, promotion),
        ensures
            final(self)@ == after_play(old(self)@, from as int, to as int, promotion),
            final(self).past() == old(self).past(),
    {
        let ghost p0 = self@;
        let moving_color = self.side_to_move;
        let moving_piece = self.piece_at(from).unwrap();
        let target_piece = self.piece_at(to);
        let prev_ep = self.en_passant_sq;
        let is_pawn = matches!(moving_piece, Piece::WhitePawn | Piece::BlackPawn);
        // En passant only lasts for the immediately following move.
        self.en_passant_sq = None;
        // Standard captures take the piece on the destination. En passant is
        // special because the captured pawn sits behind the destination square.
        let mut captured_piece = target_piece;
        let mut captured_sq = to;
        let ep_hit = match prev_ep {
            Some(e) => e == to,
            None => false,
        };
        if is_pawn && target_piece.is_none() && from % 8 != to % 8 && ep_hit {
            let ep_capture_sq = match moving_color {
                Color::White => to - 8,
                Color::Black => to + 8,
            };
            captured_piece = self.remove_piece_at(ep_capture_sq);
            captured_sq = ep_capture_sq;
        }
        assert(is_pawn == (kind_of(self::moving_piece(p0, from as int)) == PieceType::Pawn));
        assert(captured_sq as int == captured_square(p0, from as int, to as int));
        assert(captured_piece == self::captured_piece(p0, from as int, to as int));
        // Lift the moving piece and whatever stood on the destination.
        self.remove_piece_at(from);
        self.remove_piece_at(to);
        assert(self.pieces@ == cleared(p0, from as int, to as int));
        // A double pawn push exposes the skipped square as a new en passant target.
        if is_pawn {
            match moving_color {
                Color::White => {
                    if from + 16 == to {
                        self.en_passant_sq = Some(from + 8);
                    }
                },
                Color::Black => {
                    if from == to + 16 {
                        self.en_passant_sq = Some(from - 8);
                    }
                },
            }
        }
        // Capturing a rook on its home square removes the corresponding right.
        let rook_taken = match captured_piece {
            Some(Piece::WhiteRook) => true,
            Some(Piece::BlackRook) => true,
            _ => false,
        };
        if rook_taken {
            self.clear_castling_rights_for_rook_square(captured_sq);
        }
        // Moving a king or rook also removes castling rights.
        match moving_piece {
            Piece::WhiteKing => {
                self.castling_rights = self.castling_rights & !(WHITE_KINGSIDE | WHITE_QUEENSIDE);
            },
            Piece::BlackKing => {
                self.castling_rights = self.castling_rights & !(BLACK_KINGSIDE | BLACK_QUEENSIDE);
            },
            Piece::WhiteRook | Piece::BlackRook => {
                self.clear_castling_rights_for_rook_square(from);
            },
            _ => {},
        }
        // Castling is encoded as a king move, but the rook must move too.
        if moving_piece == Piece::WhiteKing && from == 4 && to == 6 {
            self.remove_piece_at(7);
            self.place_piece_at(Piece::WhiteRook, 5);
        } else if moving_piece == Piece::WhiteKing && from == 4 && to == 2 {
            self.remove_piece_at(0);
            self.place_piece_at(Piece::WhiteRook, 3);
        } else if moving_piece == Piece::BlackKing && from == 60 && to == 62 {
            self.remove_piece_at(63);
            self.place_piece_at(Piece::BlackRook, 61);
        } else if moving_piece == Piece::BlackKing && from == 60 && to == 58 {
            self.remove_piece_at(56);
            self.place_piece_at(Piece::BlackRook, 59);
        }
        assert(self.pieces@ == castled(cleared(p0, from as int, to as int), moving_piece, from as int, to as int));
        // Promotions replace the pawn with the promoted piece.
        let piece_to_place = if is_pawn {
            match promotion {
                Some('q') => Piece::new(moving_color, PieceType::Queen),
                Some('r') => Piece::new(moving_color, PieceType::Rook),
                Some('b') => Piece::new(moving_color, PieceType::Bishop),
                Some('n') => Piece::new(moving_color, PieceType::Knight),
                _ => moving_piece,
            }
        } else {
            moving_piece
        };
        self.place_piece_at(piece_to_place, to);
        // Pawn moves and captures reset the halfmove clock.
        if is_pawn || captured_piece.is_some() {
            self.half_move_clock = 0;
        } else {
            self.half_move_clock = self.half_move_clock + 1;
        }
        if moving_color == Color::Black {
            self.full_move_clock = self.full_move_clock + 1;
        }
        // Refresh cached occupancy and swap the side to move.
        self.refresh_colors();
        self.side_to_move = moving_color.opposite();
        assert(self@ == after_play(p0, from as int, to as int, promotion));
    }

    /// Applies a UCI move string to the board state.
    ///
    /// This handles:
    /// - captures
    /// - pawn promotions
    /// - en passant
    /// - castling rook movement
    /// - castling-right updates
    /// - en passant target updates
    /// - halfmove/fullmove clocks
    pub fn update_state(&mut self, uci_move: &str)
        requires
            uci_squares_ok(uci_move.spec_bytes()),
            playable(
                old(self)@,
                square_of(uci_move.spec_bytes()[0], uci_move.spec_bytes()[1]),
                square_of(uci_move.spec_bytes()[2], uci_move.spec_bytes()[3]),
                uci_promotion(uci_move.spec_bytes()),
            ),
        ensures
            final(self)@ == after_play(
                old(self)@,
                square_of(uci_move.spec_bytes()[0], uci_move.spec_bytes()[1]),
                square_of(uci_move.spec_bytes()[2], uci_move.spec_bytes()[3]),
                uci_promotion(uci_move.spec_bytes()),
            ),
            final(self).past() == old(self).past(),
    {
        let bytes = uci_move.as_bytes();
        // The UCI squares as square numbers: the file letter, then the rank digit.
        let from_sq = (bytes[1] - 49u8) * 8 + (bytes[0] - 97u8);
        let to_sq = (bytes[3] - 49u8) * 8 + (bytes[2] - 97u8);
        let promotion = if bytes.len() > 4 {
            Some(bytes[4] as char)
        } else {
            None
        };
        self.play(from_sq, to_sq, promotion);
    }

    /// Plays an encoded move, saving the position first so that
    /// [`Board::unmake_move`] can take it back.
    pub fn make_move(&mut self, mv: &Move)
        requires
            playable(
                old(self)@,
                move_from(mv.0 as int),
                move_to(mv.0 as int),
                promotion_letter(move_flag(mv.0 as int)),
            ),
        ensures
            (final(self).past(), final(self)@) == made(old(self).past(), old(self)@, mv.0 as int),
    {
        let snapshot = Snapshot {
            pieces: self.pieces,
            colors: self.colors,
            side_to_move: self.side_to_move,
            castling_rights: self.castling_rights,
            en_passant_sq: self.en_passant_sq,
            half_move_clock: self.half_move_clock,
            full_move_clock: self.full_move_clock,
        };
        let ghost before = self.past();
        self.history.push(snapshot);
        assert(self.past() =~= before.push(old(self)@));
        let from = mv.start_pos() as u8;
        let to = mv.end_pos() as u8;
        self.play(from, to, mv.promotion_piece());
    }

    /// Takes back the last move made with [`Board::make_move`]; without one,
    /// the board stays as it is.
    pub fn unmake_move(&mut self)
        ensures
            (final(self).past(), final(self)@) == unmade(old(self).past(), old(self)@),
    {
        match self.history.pop() {
            Some(s) => {
                self.pieces = s.pieces;
                self.colors = s.colors;
                self.side_to_move = s.side_to_move;
                self.castling_rights = s.castling_rights;
                self.en_passant_sq = s.en_passant_sq;
                self.half_move_clock = s.half_move_clock;
                self.full_move_clock = s.full_move_clock;
                assert(self.past() =~= old(self).past().drop_last());
            },
            None => {},
        }
    }

    /// Whether the side to move can play from `from` to `to` with this
    /// promotion letter (what [`Board::play`] and [`Board::update_state`] need).
    pub fn can_play(&self, from: u8, to: u8, promotion: Option<char>) -> (r: bool)
        requires
            from < 64,
            to < 64,
        ensures
            r == playable(self@, from as int, to as int, promotion),
    {
        let moving = match self.piece_at(from) {
            Some(p) => p,
            None => {
                return false;
            },
        };
        let is_pawn = matches!(moving, Piece::WhitePawn | Piece::BlackPawn);
        let promo_ok = match promotion {
            None => true,
            Some(c) => c == 'q' || c == 'r' || c == 'b' || c == 'n',
        };
        if is_pawn && !promo_ok {
            return false;
        }
        let target = self.piece_at(to);
        let ep_hit = match self.en_passant_sq {
            Some(e) => e == to,
            None => false,
        };
        let ep = is_pawn && target.is_none() && from % 8 != to % 8 && ep_hit;
        let mut captured = target.is_some();
        if ep {
            let in_range = match self.side_to_move {
                Color::White => to >= 8,
                Color::Black => to < 56,
            };
            if !in_range {
                return false;
            }
            let victim = match self.side_to_move {
                Color::White => to - 8,
                Color::Black => to + 8,
            };
            captured = self.piece_at(victim).is_some();
        }
        assert(captured == (captured_piece(self@, from as int, to as int) is Some));
        if !(is_pawn || captured) && self.half_move_clock == 0xffff {
            return false;
        }
        if self.side_to_move == Color::Black && self.full_move_clock == 0xffff {
            return false;
        }
        true
    }
}

} // verus!

//! Board representation: one bitboard per piece, cached occupancy per side,
//! and the game-state fields that FEN carries.
use vstd::prelude::*;
pub mod moves;
pub mod play;
pub mod fen;
pub mod display;

use crate::bitboard::{bit, single, lemma_bit_or, lemma_empty_is_zero, lemma_mask_test};





verus! {

/// Side-to-move and color indexing for board bitboards.
#[derive(Clone, Copy, Debug, PartialEq, Eq, Structural)]
pub enum Color {
    /// White side.
    White,
    /// Black side.
    Black,
}

/// The kind of a piece, without its color.
#[derive(Clone, Copy, Debug, PartialEq, Eq, Structural)]
pub enum PieceType {
    Pawn,
    Knight,
    Bishop,
    Rook,
    Queen,
    King,
}

/// Piece identifiers; [`Piece::idx`] gives the backing bitboard index.
#[derive(Clone, Copy, Debug, PartialEq, Eq, Structural)]
pub enum Piece {
    /// White pawn bitboard index (0).
    WhitePawn,
    /// White knight bitboard index (1).
    WhiteKnight,
    /// White bishop bitboard index (2).
    WhiteBishop,
    /// White rook bitboard index (3).
    WhiteRook,
    /// White queen bitboard index (4).
    WhiteQueen,
    /// White king bitboard index (5).
    WhiteKing,
    /// Black pawn bitboard index (6).
    BlackPawn,
    /// Black knight bitboard index (7).
    BlackKnight,
    /// Black bishop bitboard index (8).
    BlackBishop,
    /// Black rook bitboard index (9).
    BlackRook,
    /// Black queen bitboard index (10).
    BlackQueen,
    /// Black king bitboard index (11).
    BlackKing,
}

/// The other side.
pub open spec fn other(c: Color) -> Color {
    match c {
        Color::White => Color::Black,
        Color::Black => Color::White,
    }
}

/// First bitboard index of a side's six pieces.
pub open spec fn color_base(c: Color) -> int {
    match c {
        Color::White => 0,
        Color::Black => 6,
    }
}

/// Position of a kind within a side's six bitboards.
pub open spec fn kind_offset(k: PieceType) -> int {
    match k {
        PieceType::Pawn => 0,
        PieceType::Knight => 1,
        PieceType::Bishop => 2,
        PieceType::Rook => 3,
        PieceType::Queen => 4,
        PieceType::King => 5,
    }
}

/// Storage index of a piece.
pub open spec fn piece_index(p: Piece) -> int {
    match p {
        Piece::WhitePawn => 0,
        Piece::WhiteKnight => 1,
        Piece::WhiteBishop => 2,
        Piece::WhiteRook => 3,
        Piece::WhiteQueen => 4,
        Piece::WhiteKing => 5,
        Piece::BlackPawn => 6,
        Piece::BlackKnight => 7,
        Piece::BlackBishop => 8,
        Piece::BlackRook => 9,
        Piece::BlackQueen => 10,
        Piece::BlackKing => 11,
    }
}

/// The piece stored at index `i` (0..12).
pub open spec fn piece_of_index(i: int) -> Piece {
    if i == 0 {
        Piece::WhitePawn
    } else if i == 1 {
        Piece::WhiteKnight
    } else if i == 2 {
        Piece::WhiteBishop
    } else if i == 3 {
        Piece::WhiteRook
    } else if i == 4 {
        Piece::WhiteQueen
    } else if i == 5 {
        Piece::WhiteKing
    } else if i == 6 {
        Piece::BlackPawn
    } else if i == 7 {
        Piece::BlackKnight
    } else if i == 8 {
        Piece::BlackBishop
    } else if i == 9 {
        Piece::BlackRook
    } else if i == 10 {
        Piece::BlackQueen
    } else {
        Piece::BlackKing
    }
}

/// The side owning a piece: indices 0..=5 are White.
pub open spec fn color_of(p: Piece) -> Color {
    if piece_index(p) <= 5 {
        Color::White
    } else {
        Color::Black
    }
}

/// The kind of a piece.
pub open spec fn kind_of(p: Piece) -> PieceType {
    match p {
        Piece::WhitePawn | Piece::BlackPawn => PieceType::Pawn,
        Piece::WhiteKnight | Piece::BlackKnight => PieceType::Knight,
        Piece::WhiteBishop | Piece::BlackBishop => PieceType::Bishop,
        Piece::WhiteRook | Piece::BlackRook => PieceType::Rook,
        Piece::WhiteQueen | Piece::BlackQueen => PieceType::Queen,
        Piece::WhiteKing | Piece::BlackKing => PieceType::King,
    }
}

/// The piece of a given color and kind.
pub open spec fn piece_for(c: Color, k: PieceType) -> Piece {
    piece_of_index(color_base(c) + kind_offset(k))
}

pub(crate) proof fn lemma_piece_index_roundtrip(p: Piece)
    ensures
        0 <= piece_index(p) < 12,
        piece_of_index(piece_index(p)) == p,
        piece_for(color_of(p), kind_of(p)) == p,
        piece_index(p) == color_base(color_of(p)) + kind_offset(kind_of(p)),
{
}

pub(crate) proof fn lemma_piece_for_index(c: Color, k: PieceType)
    ensures
        piece_index(piece_for(c, k)) == color_base(c) + kind_offset(k),
        color_of(piece_for(c, k)) == c,
        kind_of(piece_for(c, k)) == k,
{
}

pub(crate) proof fn lemma_index_piece_roundtrip(i: int)
    requires
        0 <= i < 12,
    ensures
        piece_index(piece_of_index(i)) == i,
{
}

impl Color {
    /// Returns the other side.
    pub fn opposite(self) -> (r: Color)
        ensures
            r == other(self),
    {
        match self {
            Color::White => Color::Black,
            Color::Black => Color::White,
        }
    }
}

impl PieceType {
    /// Every piece kind, in the order the move generator visits them.
    pub fn all() -> (r: [PieceType; 6])
        ensures
            forall|i: int| 0 <= i < 6 ==> kind_offset(#[trigger] r@[i]) == i,
    {
        [
            PieceType::Pawn,
            PieceType::Knight,
            PieceType::Bishop,
            PieceType::Rook,
            PieceType::Queen,
            PieceType::King,
        ]
    }
}

impl Piece {
    /// Returns every piece value in board storage order.
    pub fn all() -> (r: [Piece; 12])
        ensures
            forall|i: int| 0 <= i < 12 ==> #[trigger] r@[i] == piece_of_index(i),
    {
        [
            Piece::WhitePawn,
            Piece::WhiteKnight,
            Piece::WhiteBishop,
            Piece::WhiteRook,
            Piece::WhiteQueen,
            Piece::WhiteKing,
            Piece::BlackPawn,
            Piece::BlackKnight,
            Piece::BlackBishop,
            Piece::BlackRook,
            Piece::BlackQueen,
            Piece::BlackKing,
        ]
    }

    /// The bitboard index of this piece.
    pub fn idx(&self) -> (r: usize)
        ensures
            r == piece_index(*self),
    {
        match self {
            Piece::WhitePawn => 0,
            Piece::WhiteKnight => 1,
            Piece::WhiteBishop => 2,
            Piece::WhiteRook => 3,
            Piece::WhiteQueen => 4,
            Piece::WhiteKing => 5,
            Piece::BlackPawn => 6,
            Piece::BlackKnight => 7,
            Piece::BlackBishop => 8,
            Piece::BlackRook => 9,
            Piece::BlackQueen => 10,
            Piece::BlackKing => 11,
        }
    }

    /// The piece stored at bitboard index `i`.
    pub fn from_idx(i: usize) -> (r: Piece)
        requires
            i < 12,
        ensures
            r == piece_of_index(i as int),
    {
        if i == 0 {
            Piece::WhitePawn
        } else if i == 1 {
            Piece::WhiteKnight
        } else if i == 2 {
            Piece::WhiteBishop
        } else if i == 3 {
            Piece::WhiteRook
        } else if i == 4 {
            Piece::WhiteQueen
        } else if i == 5 {
            Piece::WhiteKing
        } else if i == 6 {
            Piece::BlackPawn
        } else if i == 7 {
            Piece::BlackKnight
        } else if i == 8 {
            Piece::BlackBishop
        } else if i == 9 {
            Piece::BlackRook
        } else if i == 10 {
            Piece::BlackQueen
        } else {
            Piece::BlackKing
        }
    }

    /// Returns the side that owns this piece.
    pub fn color(&self) -> (r: Color)
        ensures
            r == color_of(*self),
    {
        if self.idx() <= 5 {
            Color::White
        } else {
            Color::Black
        }
    }

    /// Returns the kind of this piece.
    pub fn kind(&self) -> (r: PieceType)
        ensures
            r == kind_of(*self),
    {
        match self {
            Piece::WhitePawn | Piece::BlackPawn => PieceType::Pawn,
            Piece::WhiteKnight | Piece::BlackKnight => PieceType::Knight,
            Piece::WhiteBishop | Piece::BlackBishop => PieceType::Bishop,
            Piece::WhiteRook | Piece::BlackRook => PieceType::Rook,
            Piece::WhiteQueen | Piece::BlackQueen => PieceType::Queen,
            Piece::WhiteKing | Piece::BlackKing => PieceType::King,
        }
    }

    /// The piece of a given color and kind.
    pub fn new(color: Color, kind: PieceType) -> (r: Piece)
        ensures
            r == piece_for(color, kind),
    {
        match (color, kind) {
            (Color::White, PieceType::Pawn) => Piece::WhitePawn,
            (Color::White, PieceType::Knight) => Piece::WhiteKnight,
            (Color::White, PieceType::Bishop) => Piece::WhiteBishop,
            (Color::White, PieceType::Rook) => Piece::WhiteRook,
            (Color::White, PieceType::Queen) => Piece::WhiteQueen,
            (Color::White, PieceType::King) => Piece::WhiteKing,
            (Color::Black, PieceType::Pawn) => Piece::BlackPawn,
            (Color::Black, PieceType::Knight) => Piece::BlackKnight,
            (Color::Black, PieceType::Bishop) => Piece::BlackBishop,
            (Color::Black, PieceType::Rook) => Piece::BlackRook,
            (Color::Black, PieceType::Queen) => Piece::BlackQueen,
            (Color::Black, PieceType::King) => Piece::BlackKing,
        }
    }
}

/// OR of the bitboards `pcs[lo..hi]`.
pub open spec fn or_range(pcs: Seq<u64>, lo: int, hi: int) -> u64
    decreases hi - lo,
{
    if hi <= lo {
        0
    } else {
        or_range(pcs, lo, hi - 1) | pcs[hi - 1]
    }
}

/// Occupancy of one side: the OR of its six piece bitboards.
pub open spec fn side_bits(pcs: Seq<u64>, c: Color) -> u64 {
    or_range(pcs, color_base(c), color_base(c) + 6)
}

pub(crate) proof fn lemma_or_range_bit(pcs: Seq<u64>, lo: int, hi: int, s: int)
    ensures
        bit(or_range(pcs, lo, hi), s) == (exists|i: int| lo <= i < hi && bit(pcs[i], s)),
    decreases hi - lo,
{
    if hi <= lo {
        lemma_empty_is_zero(0);
    } else {
        lemma_or_range_bit(pcs, lo, hi - 1, s);
        lemma_bit_or(or_range(pcs, lo, hi - 1), pcs[hi - 1], s);
    }
}

/// A square is held by side `c` exactly when one of its six bitboards has it.
pub(crate) proof fn lemma_side_bits(pcs: Seq<u64>, c: Color, s: int)
    ensures
        bit(side_bits(pcs, c), s) == (exists|i: int|
            color_base(c) <= i < color_base(c) + 6 && bit(pcs[i], s)),
{
    lemma_or_range_bit(pcs, color_base(c), color_base(c) + 6, s);
}

/// The first piece, in storage order from index `i`, whose bitboard holds `sq`.
pub open spec fn first_piece_from(pcs: Seq<u64>, sq: int, i: int) -> Option<Piece>
    decreases 12 - i,
{
    if i >= 12 || i < 0 {
        None
    } else if bit(pcs[i], sq) {
        Some(piece_of_index(i))
    } else {
        first_piece_from(pcs, sq, i + 1)
    }
}

/// The piece standing on `sq`: the first bitboard, in storage order, that holds it.
pub open spec fn piece_on(pcs: Seq<u64>, sq: int) -> Option<Piece> {
    first_piece_from(pcs, sq, 0)
}

pub(crate) proof fn lemma_first_piece_from(pcs: Seq<u64>, sq: int, i: int)
    requires
        0 <= i <= 12,
    ensures
        first_piece_from(pcs, sq, i) is None <==> (forall|j: int|
            i <= j < 12 ==> !bit(#[trigger] pcs[j], sq)),
        first_piece_from(pcs, sq, i) matches Some(p) ==> i <= piece_index(p) < 12 && bit(
            pcs[piece_index(p)],
            sq,
        ) && (forall|j: int| i <= j < piece_index(p) ==> !bit(#[trigger] pcs[j], sq)),
    decreases 12 - i,
{
    if i < 12 {
        lemma_first_piece_from(pcs, sq, i + 1);
        lemma_index_piece_roundtrip(i);
    }
}

/// What a square holds after clearing it in the first bitboard that holds it.
pub open spec fn removed_at(pcs: Seq<u64>, sq: int) -> Seq<u64> {
    match piece_on(pcs, sq) {
        Some(p) => pcs.update(piece_index(p), pcs[piece_index(p)] & !single(sq)),
        None => pcs,
    }
}

/// Adds `sq` to the bitboard of piece `p`.
pub open spec fn placed_at(pcs: Seq<u64>, p: Piece, sq: int) -> Seq<u64> {
    pcs.update(piece_index(p), pcs[piece_index(p)] | single(sq))
}


/// A well-formed position: twelve bitboards, no square held by two of them.
pub open spec fn well_formed(p: Position) -> bool {
    &&& p.pieces.len() == 12
    &&& forall|i: int, j: int, s: int|
        #![trigger bit(p.pieces[i], s), bit(p.pieces[j], s)]
        0 <= i < 12 && 0 <= j < 12 && i != j && bit(p.pieces[i], s) ==> !bit(p.pieces[j], s)
}

/// In a well-formed position, the piece on a square is the one whose bitboard holds it.
pub(crate) proof fn lemma_piece_on_bit(p: Position, i: int, s: int)
    requires
        well_formed(p),
        0 <= i < 12,
        bit(p.pieces[i], s),
    ensures
        piece_on(p.pieces, s) == Some(piece_of_index(i)),
{
    lemma_first_piece_from(p.pieces, s, 0);
    match piece_on(p.pieces, s) {
        Some(q) => {
            if piece_index(q) != i {
                assert(bit(p.pieces[piece_index(q)], s));
            }
            lemma_piece_index_roundtrip(q);
        },
        None => {
            assert(bit(p.pieces[i], s));
        },
    }
}

/// A square held by a side holds a piece.
pub(crate) proof fn lemma_piece_on_side(pcs: Seq<u64>, c: Color, s: int)
    requires
        bit(side_bits(pcs, c), s),
    ensures
        piece_on(pcs, s) is Some,
{
    lemma_side_bits(pcs, c, s);
    lemma_first_piece_from(pcs, s, 0);
    if piece_on(pcs, s) is None {
        let i = choose|i: int| color_base(c) <= i < color_base(c) + 6 && bit(pcs[i], s);
        assert(!bit(pcs[i], s));
    }
}

/// Castling-right mask for white king side.
pub const WHITE_KINGSIDE: u8 = 0b0001;
/// Castling-right mask for white queen side.
pub const WHITE_QUEENSIDE: u8 = 0b0010;
/// Castling-right mask for black king side.
pub const BLACK_KINGSIDE: u8 = 0b0100;
/// Castling-right mask for black queen side.
pub const BLACK_QUEENSIDE: u8 = 0b1000;

/// The mask that a rook leaving or being captured on `sq` applies to the castling rights.
pub open spec fn rook_square_mask(sq: int) -> u8 {
    if sq == 0 {
        !WHITE_QUEENSIDE
    } else if sq == 7 {
        !WHITE_KINGSIDE
    } else if sq == 56 {
        !BLACK_QUEENSIDE
    } else if sq == 63 {
        !BLACK_KINGSIDE
    } else {
        0b1111u8
    }
}

/// The state saved by a move so that it can be taken back.
#[derive(Clone, Copy, Debug)]
pub struct Snapshot {
    pub pieces: [u64; 12],
    pub colors: [u64; 2],
    pub side_to_move: Color,
    pub castling_rights: u8,
    pub en_passant_sq: Option<u8>,
    pub half_move_clock: u16,
    pub full_move_clock: u16,
}

/// The game position, without the history of moves that led to it.
pub struct Position {
    pub pieces: Seq<u64>,
    pub colors: Seq<u64>,
    pub side_to_move: Color,
    pub castling_rights: u8,
    pub en_passant_sq: Option<u8>,
    pub half_move_clock: u16,
    pub full_move_clock: u16,
}

impl Snapshot {
    pub open spec fn position(self) -> Position {
        Position {
            pieces: self.pieces@,
            colors: self.colors@,
            side_to_move: self.side_to_move,
            castling_rights: self.castling_rights,
            en_passant_sq: self.en_passant_sq,
            half_move_clock: self.half_move_clock,
            full_move_clock: self.full_move_clock,
        }
    }
}

/// Complete board state tracked by the engine.
#[derive(Clone, Debug)]
pub struct Board {
    /// One bitboard per piece type.
    pub pieces: [u64; 12],
    /// One occupancy bitboard per color.
    pub colors: [u64; 2],
    /// Side to move.
    pub side_to_move: Color,
    /// Castling rights bit mask.
    ///
    /// Bit 0: white king side
    /// Bit 1: white queen side
    /// Bit 2: black king side
    /// Bit 3: black queen side
    pub castling_rights: u8,
    /// En passant target square, if any.
    pub en_passant_sq: Option<u8>,
    /// Half-move clock for the 50-move rule.
    pub half_move_clock: u16,
    /// Full move number.
    pub full_move_clock: u16,
    /// Positions before each move made with [`Board::make_move`], most recent last.
    pub history: Vec<Snapshot>,
}

impl View for Board {
    type V = Position;

    open spec fn view(&self) -> Position {
        Position {
            pieces: self.pieces@,
            colors: self.colors@,
            side_to_move: self.side_to_move,
            castling_rights: self.castling_rights,
            en_passant_sq: self.en_passant_sq,
            half_move_clock: self.half_move_clock,
            full_move_clock: self.full_move_clock,
        }
    }
}

/// The cached occupancy masks agree with the piece bitboards.
pub open spec fn colors_fresh(p: Position) -> bool {
    p.colors.len() == 2 && p.colors[0] == side_bits(p.pieces, Color::White) && p.colors[1]
        == side_bits(p.pieces, Color::Black)
}

impl Board {
    /// The saved positions, oldest first.
    pub open spec fn past(&self) -> Seq<Position> {
        self.history@.map_values(|s: Snapshot| s.position())
    }

    /// ORs together all piece bitboards for a given color.
    pub fn get_color_bitboard(pieces: &[u64; 12], color: Color) -> (r: u64)
        ensures
            r == side_bits(pieces@, color),
    {
        let mut bitboard = 0u64;
        let (lo, hi): (usize, usize) = match color {
            Color::White => (0, 6),
            Color::Black => (6, 12),
        };
        let mut i: usize = lo;
        while i < hi
            invariant
                lo <= i <= hi,
                hi == lo + 6,
                lo as int == color_base(color),
                pieces@.len() == 12,
                bitboard == or_range(pieces@, lo as int, i as int),
            decreases hi - i,
        {
            bitboard = bitboard | pieces[i];
            i = i + 1;
        }
        bitboard
    }

    /// Returns the current occupancy mask for one side.
    pub fn get_side_bitboard(&self, color: Color) -> (r: u64)
        ensures
            r == side_bits(self.pieces@, color),
    {
        let mut bitboard = 0u64;
        let (lo, hi): (usize, usize) = match color {
            Color::White => (0, 6),
            Color::Black => (6, 12),
        };
        let mut i: usize = lo;
        while i < hi
            invariant
                lo <= i <= hi,
                hi == lo + 6,
                lo as int == color_base(color),
                self.pieces@.len() == 12,
                bitboard == or_range(self.pieces@, lo as int, i as int),
            decreases hi - i,
        {
            bitboard = bitboard | self.pieces[i];
            i = i + 1;
        }
        bitboard
    }

    /// Refreshes the cached occupancy masks after a board mutation.
    pub fn refresh_colors(&mut self)
        ensures
            final(self)@ == (Position { colors: seq![side_bits(old(self).pieces@, Color::White), side_bits(old(self).pieces@, Color::Black)], ..old(self)@ }),
            final(self).past() == old(self).past(),
            colors_fresh(final(self)@),
    {
        let w = self.get_side_bitboard(Color::White);
        let b = self.get_side_bitboard(Color::Black);
        self.colors[0] = w;
        self.colors[1] = b;
        assert(self.colors@ =~= seq![w, b]);
    }

    /// Returns the piece sitting on a square, if any.
    pub fn piece_at(&self, square: u8) -> (r: Option<Piece>)
        requires
            square < 64,
        ensures
            r == piece_on(self.pieces@, square as int),
    {
        let mask = 1u64 << square;
        let all = Piece::all();
        let mut i: usize = 0;
        while i < 12
            invariant
                0 <= i <= 12,
                square < 64,
                mask == single(square as int),
                self.pieces@.len() == 12,
                forall|k: int| 0 <= k < 12 ==> #[trigger] all@[k] == piece_of_index(k),
                first_piece_from(self.pieces@, square as int, i as int) == piece_on(
                    self.pieces@,
                    square as int,
                ),
            decreases 12 - i,
        {
            proof {
                lemma_mask_test(self.pieces@[i as int], square as int);
            }
            if self.pieces[i] & mask != 0 {
                return Some(all[i]);
            }
            i = i + 1;
        }
        None
    }

    /// Whether no square is held by two piece bitboards.
    pub fn is_well_formed(&self) -> (r: bool)
        ensures
            r == well_formed(self@),
    {
        let mut i: usize = 0;
        while i < 12
            invariant
                0 <= i <= 12,
                self.pieces@.len() == 12,
                forall|a: int, b: int, s: int|
                    #![trigger bit(self.pieces@[a], s), bit(self.pieces@[b], s)]
                    0 <= a < i && 0 <= b < 12 && a != b && bit(self.pieces@[a], s) ==> !bit(self.pieces@[b], s),
            decreases 12 - i,
        {
            let mut j: usize = 0;
            while j < 12
                invariant
                    0 <= i < 12,
                    0 <= j <= 12,
                    self.pieces@.len() == 12,
                    forall|a: int, b: int, s: int|
                        #![trigger bit(self.pieces@[a], s), bit(self.pieces@[b], s)]
                        0 <= a < i && 0 <= b < 12 && a != b && bit(self.pieces@[a], s) ==> !bit(self.pieces@[b], s),
                    forall|b: int, s: int|
                        #![trigger bit(self.pieces@[b], s)]
                        0 <= b < j && i != b && bit(self.pieces@[i as int], s) ==> !bit(self.pieces@[b], s),
                decreases 12 - j,
            {
                if i != j {
                    let overlap = self.pieces[i] & self.pieces[j];
                    if overlap != 0 {
                        proof {
                            lemma_empty_is_zero(overlap);
                            let s = choose|s: int| 0 <= s < 64 && bit(overlap, s);
                            crate::bitboard::lemma_bit_and(self.pieces@[i as int], self.pieces@[j as int], s);
                        }
                        return false;
                    }
                    proof {
                        assert forall|s: int| bit(self.pieces@[i as int], s) implies !bit(self.pieces@[j as int], s) by {
                            crate::bitboard::lemma_bit_and(self.pieces@[i as int], self.pieces@[j as int], s);
                            lemma_empty_is_zero(overlap);
                        }
                    }
                }
                j = j + 1;
            }
            i = i + 1;
        }
        true
    }
}

} // verus!

//! Move encoding and the move generator.
use vstd::prelude::*;
use vstd::string::StringSliceAdditionalSpecFns;
use crate::utils::{square_of, string_to_square};
use crate::board::{Board, Color, Piece, color_of, piece_index, side_bits};

pub mod rules;
pub mod knight;
pub mod scan;
pub mod attacks;
pub mod sliders;
pub mod pawn;
pub mod king;
pub mod legal;
pub mod openings;
pub mod order;

verus! {

/// Compact move encoding used throughout the engine.
///
/// The value stores:
/// - from-square
/// - to-square
/// - special move flags
///
/// Slots:   15 14 13 12 | 11 10  9  8  7  6 |  5  4  3  2  1  0
///        +-------------+-------------------+-----------------+
/// Roles: |   4 Flags   |    6 To-Square    |  6 From-Square  |
///        +-------------+-------------------+-----------------+
///
/// Flags:
/// 0000 - normal move
/// 0001 - capture
/// 0011 - en passant
/// 0100 - castle
/// 1000 - promotion
///
/// Promotions:
/// 1000 - queen
/// 1010 - rook
/// 1100 - bishop
/// 1110 - knight
///
/// Castles:
/// 0100 - king side
/// 0110 - queen side
#[derive(Clone, Copy, Debug, Default)]
pub struct Move(pub u16);

/// Source square of an encoded move.
pub open spec fn move_from(m: int) -> int {
    m % 64
}

/// Destination square of an encoded move.
pub open spec fn move_to(m: int) -> int {
    (m / 64) % 64
}

/// Flag nibble of an encoded move.
pub open spec fn move_flag(m: int) -> int {
    m / 4096
}

/// The code of the move from `from` to `to` with flag `flag`.
pub open spec fn code(from: int, to: int, flag: int) -> int {
    from + to * 64 + flag * 4096
}

/// The promotion letter that a flag nibble names, the capture bit ignored.
pub open spec fn promotion_letter(flag: int) -> Option<char> {
    let f = flag - flag % 2;
    if f == 8 {
        Some('q')
    } else if f == 10 {
        Some('r')
    } else if f == 12 {
        Some('b')
    } else if f == 14 {
        Some('n')
    } else {
        None
    }
}

pub proof fn lemma_code_fields(from: int, to: int, flag: int)
    requires
        0 <= from < 64,
        0 <= to < 64,
        0 <= flag < 16,
    ensures
        0 <= code(from, to, flag) < 65536,
        move_from(code(from, to, flag)) == from,
        move_to(code(from, to, flag)) == to,
        move_flag(code(from, to, flag)) == flag,
{
}

pub(crate) proof fn lemma_code_unique(m: int)
    requires
        0 <= m < 65536,
    ensures
        m == code(move_from(m), move_to(m), move_flag(m)),
        0 <= move_from(m) < 64,
        0 <= move_to(m) < 64,
        0 <= move_flag(m) < 16,
{
}

/// The codes of a sequence of moves.
pub open spec fn codes(s: Seq<Move>) -> Seq<u16> {
    s.map_values(|mv: Move| mv.0)
}

/// Stateless move generator entrypoint.
pub struct MoveGenerator;

/// The bits of a move made from its three fields.
pub open spec fn move_bits(start: u16, end: u16, flag: u16) -> u16 {
    start | ((end << 6u16) as u16) | ((flag << 12u16) as u16)
}

/// The promotion flag a UCI promotion letter stands for.
pub open spec fn promo_code(c: u8) -> u16 {
    if c == 113 {
        0b1000
    } else if c == 114 {
        0b1010
    } else if c == 98 {
        0b1100
    } else {
        0b1110
    }
}

/// The bytes of a UCI move that [`Move::from_uci`] reads: two square names
/// whose indices fit in a byte, then possibly a promotion letter.
pub open spec fn uci_ok(b: Seq<u8>) -> bool {
    &&& b.len() >= 4
    &&& b[0] >= 97 && b[1] >= 49 && (b[1] - 49) * 8 <= 255 && square_of(b[0], b[1]) <= 255
    &&& b[2] >= 97 && b[3] >= 49 && (b[3] - 49) * 8 <= 255 && square_of(b[2], b[3]) <= 255
    &&& b.len() > 4 ==> (b[4] == 113 || b[4] == 114 || b[4] == 98 || b[4] == 110)
}

/// The name of a square: its file letter, then its rank digit.
pub open spec fn square_name(s: int) -> Seq<char> {
    seq![(97 + s % 8) as char, (49 + s / 8) as char]
}

/// A move in UCI notation: source and destination squares, then the promotion letter.
pub open spec fn uci_text(m: int) -> Seq<char> {
    let base = square_name(move_from(m)) + square_name(move_to(m));
    match promotion_letter(move_flag(m)) {
        Some(c) => base.push(c),
        None => base,
    }
}

/// A bitboard with its byte order reversed: seen from the other side of the
/// board, rank `r` becomes rank `7 - r`.
pub open spec fn flipped(x: u64) -> u64 {
    ((x & 0xff) << 56u64) | (((x >> 8u64) & 0xff) << 48u64) | (((x >> 16u64) & 0xff) << 40u64) | (((x
        >> 24u64) & 0xff) << 32u64) | (((x >> 32u64) & 0xff) << 24u64) | (((x >> 40u64) & 0xff)
        << 16u64) | (((x >> 48u64) & 0xff) << 8u64) | (x >> 56u64)
}

/// Reverses the byte order of a bitboard.
pub fn flip(x: u64) -> (r: u64)
    ensures
        r == flipped(x),
{
    ((x & 0xff) << 56u64) | (((x >> 8u64) & 0xff) << 48u64) | (((x >> 16u64) & 0xff) << 40u64) | (((x
        >> 24u64) & 0xff) << 32u64) | (((x >> 32u64) & 0xff) << 24u64) | (((x >> 40u64) & 0xff)
        << 16u64) | (((x >> 48u64) & 0xff) << 8u64) | (x >> 56u64)
}

/// A file letter and rank digit whose square index [`string_to_square`] can compute.
fn square_name_fits(f: u8, r: u8) -> (ok: bool)
    ensures
        ok == (f >= 97 && r >= 49 && (r - 49) * 8 <= 255 && square_of(f, r) <= 255),
{
    f >= 97 && r >= 49 && r - 49 <= 31 && (r - 49) * 8 <= 255 - (f - 97)
}

/// `String::push`: appends one character.
#[verifier::external_body]
pub(crate) fn push_char(s: &mut String, c: char)
    ensures
        final(s)@ == old(s)@.push(c),
{
    s.push(c);
}

impl Move {
    /// Creates a new encoded move.
    pub fn new(start: u16, end: u16, flag: u16) -> (r: Self)
        ensures
            r.0 == move_bits(start, end, flag),
            start < 64 && end < 64 && flag < 16 ==> r.0 as int == code(
                start as int,
                end as int,
                flag as int,
            ),
    {
        proof {
            if start < 64 && end < 64 && flag < 16 {
                assert(start < 64 && end < 64 && flag < 16 ==> (start | ((end << 6u16) as u16) | ((
                flag << 12u16) as u16)) == start + end * 64 + flag * 4096) by (bit_vector);
            }
        }
        Self(start | end << 6 | flag << 12)
    }

    /// Returns the source square index.
    pub fn start_pos(&self) -> (r: usize)
        ensures
            r as int == move_from(self.0 as int),
    {
        proof {
            let v = self.0;
            assert(v & 0b111111u16 == v % 64) by (bit_vector);
        }
        (self.0 & 0b111111) as usize
    }

    /// Returns the destination square index.
    pub fn end_pos(&self) -> (r: usize)
        ensures
            r as int == move_to(self.0 as int),
    {
        proof {
            let v = self.0;
            assert((v >> 6u16) & 0b111111u16 == (v / 64) % 64) by (bit_vector);
        }
        ((self.0 >> 6) & 0b111111) as usize
    }

    /// Returns the special flag nibble.
    pub fn special_flag(&self) -> (r: u16)
        ensures
            r as int == move_flag(self.0 as int),
    {
        proof {
            let v = self.0;
            assert(v >> 12u16 == v / 4096) by (bit_vector);
        }
        self.0 >> 12
    }

    /// Returns `true` if this move captures a piece.
    pub fn is_capture(&self) -> (r: bool)
        ensures
            r == (move_flag(self.0 as int) % 2 == 1),
    {
        let f = self.special_flag();
        proof {
            assert(f & 1u16 == f % 2) by (bit_vector);
        }
        (f & 0b0001) == 1
    }

    /// Returns `true` if this move is a promotion.
    pub fn is_promotion(&self) -> (r: bool)
        ensures
            r == (move_flag(self.0 as int) >= 8),
    {
        let f = self.special_flag();
        proof {
            assert(f < 16 ==> ((f & 8u16 == 8u16) <==> f >= 8)) by (bit_vector);
        }
        (f & 0b1000) == 0b1000
    }

    /// Returns `true` if this move is an en passant capture.
    pub fn is_en_passant(&self) -> (r: bool)
        ensures
            r == (move_flag(self.0 as int) == 3),
    {
        self.special_flag() == 0b0011
    }

    /// Returns `true` if this move is a castle.
    pub fn is_castle(&self) -> (r: bool)
        ensures
            r == (move_flag(self.0 as int) == 4 || move_flag(self.0 as int) == 6),
    {
        self.special_flag() == 0b0100 || self.special_flag() == 0b0110
    }

    /// Returns the promoted piece letter, ignoring the capture bit.
    pub fn promotion_piece(&self) -> (r: Option<char>)
        ensures
            r == promotion_letter(move_flag(self.0 as int)),
    {
        let f = self.special_flag();
        let g = f & !0b0001u16;
        proof {
            assert(f < 16 ==> f & !1u16 == f - f % 2) by (bit_vector);
        }
        if g == 0b1000 {
            Some('q')
        } else if g == 0b1010 {
            Some('r')
        } else if g == 0b1100 {
            Some('b')
        } else if g == 0b1110 {
            Some('n')
        } else {
            None
        }
    }

    /// Parses a UCI move string (e.g. "e2e4", "e7e8q") into a Move.
    ///
    /// Whether the move captures is not known from the string alone; only a
    /// promotion is encoded into the flag.
    pub fn from_uci(uci: &str) -> (r: Self)
        requires
            uci_ok(uci.spec_bytes()),
        ensures
            r.0 == move_bits(
                square_of(uci.spec_bytes()[0], uci.spec_bytes()[1]) as u16,
                square_of(uci.spec_bytes()[2], uci.spec_bytes()[3]) as u16,
                if uci.spec_bytes().len() > 4 {
                    promo_code(uci.spec_bytes()[4])
                } else {
                    0
                },
            ),
    {
        let bytes = uci.as_bytes();
        let from = string_to_square(uci);
        let to = (bytes[3] - 49u8) * 8 + (bytes[2] - 97u8);
        let mut flag: u16 = 0;
        if bytes.len() > 4 {
            let p = bytes[4];
            flag = if p == 113 {
                0b1000
            } else if p == 114 {
                0b1010
            } else if p == 98 {
                0b1100
            } else {
                0b1110
            };
        }
        Move::new(from as u16, to as u16, flag)
    }

    /// Whether `uci` can be read by [`Move::from_uci`].
    pub fn is_uci(uci: &str) -> (r: bool)
        ensures
            r == uci_ok(uci.spec_bytes()),
    {
        let b = uci.as_bytes();
        if b.len() < 4 {
            return false;
        }
        if !square_name_fits(b[0], b[1]) || !square_name_fits(b[2], b[3]) {
            return false;
        }
        if b.len() > 4 {
            let p = b[4];
            return p == 113 || p == 114 || p == 98 || p == 110;
        }
        true
    }

    /// Formats the move as UCI.
    pub fn to_uci(&self) -> (r: String)
        ensures
            r@ == uci_text(self.0 as int),
    {
        let start = self.start_pos();
        let end = self.end_pos();
        let mut s = String::new();
        push_char(&mut s, (97 + (start % 8) as u8) as char);
        push_char(&mut s, (49 + (start / 8) as u8) as char);
        push_char(&mut s, (97 + (end % 8) as u8) as char);
        push_char(&mut s, (49 + (end / 8) as u8) as char);
        let ghost base = s@;
        if let Some(piece) = self.promotion_piece() {
            push_char(&mut s, piece);
        }
        s
    }
}


impl MoveGenerator {
    /// Returns the bitboard and color for a piece type.
    ///
    /// Black bitboards are byte-swapped into the same orientation as white so
    /// the shift logic can stay symmetric.
    pub fn get_bitboard(board: &Board, piece: Piece) -> (r: (u64, Color))
        ensures
            r.1 == color_of(piece),
            r.0 == if color_of(piece) == Color::White {
                board.pieces@[piece_index(piece)]
            } else {
                flipped(board.pieces@[piece_index(piece)])
            },
    {
        let color = piece.color();
        let bb = board.pieces[piece.idx()];
        let bb = if color == Color::White {
            bb
        } else {
            flip(bb)
        };
        (bb, color)
    }

    /// Returns own and enemy occupancy masks in the working orientation.
    pub fn get_sides(board: &Board, color: Color) -> (r: (u64, u64))
        ensures
            r == match color {
                Color::White => (
                    side_bits(board.pieces@, Color::White),
                    side_bits(board.pieces@, Color::Black),
                ),
                Color::Black => (
                    flipped(side_bits(board.pieces@, Color::Black)),
                    flipped(side_bits(board.pieces@, Color::White)),
                ),
            },
    {
        match color {
            Color::White => (board.get_side_bitboard(Color::White), board.get_side_bitboard(Color::Black)),
            Color::Black => (
                flip(board.get_side_bitboard(Color::Black)),
                flip(board.get_side_bitboard(Color::White)),
            ),
        }
    }
}


/// The fields of a move, packed, are its code.
pub(crate) proof fn lemma_move_bits_code(start: u16, end: u16, flag: u16)
    requires
        start < 64,
        end < 64,
        flag < 16,
    ensures
        move_bits(start, end, flag) as int == code(start as int, end as int, flag as int),
{
    assert(start < 64 && end < 64 && flag < 16 ==> (start | ((end << 6u16) as u16) | ((flag << 12u16)
        as u16)) == start + end * 64 + flag * 4096) by (bit_vector);
}

/// A flag that UCI notation carries: a quiet move, or a promotion without capture.
pub open spec fn uci_flag(flag: int) -> bool {
    flag == 0 || flag == 8 || flag == 10 || flag == 12 || flag == 14
}

/// Writing a move in UCI notation and reading it back gives the move again,
/// when its flag is one that UCI notation carries.
pub proof fn lemma_uci_roundtrip(m: int)
    requires
        0 <= m < 65536,
        uci_flag(move_flag(m)),
    ensures
        uci_ok(vstd::utf8::encode_utf8(uci_text(m))),
        ({
            let b = vstd::utf8::encode_utf8(uci_text(m));
            move_bits(
                square_of(b[0], b[1]) as u16,
                square_of(b[2], b[3]) as u16,
                if b.len() > 4 {
                    promo_code(b[4])
                } else {
                    0
                },
            ) as int == m
        }),
{
    lemma_code_unique(m);
    let t = uci_text(m);
    assert(vstd::utf8::is_ascii_chars(t));
    vstd::utf8::is_ascii_chars_encode_utf8(t);
    let b = vstd::utf8::encode_utf8(t);
    let from = move_from(m);
    let to = move_to(m);
    assert(b[0] == t[0] as u8 && b[1] == t[1] as u8 && b[2] == t[2] as u8 && b[3] == t[3] as u8);
    assert(square_of(b[0], b[1]) == from);
    assert(square_of(b[2], b[3]) == to);
    if b.len() > 4 {
        assert(b[4] == t[4] as u8);
    }
    let flag: u16 = if b.len() > 4 {
        promo_code(b[4])
    } else {
        0
    };
    assert(flag == move_flag(m));
    lemma_move_bits_code(from as u16, to as u16, flag);
}

/// A UCI move text: two square names on the board, then possibly a
/// promotion letter.
pub open spec fn uci_name(t: Seq<char>) -> bool {
    &&& t.len() == 4 || t.len() == 5
    &&& 97 <= t[0] as int <= 104 && 49 <= t[1] as int <= 56
    &&& 97 <= t[2] as int <= 104 && 49 <= t[3] as int <= 56
    &&& t.len() == 5 ==> (t[4] == 'q' || t[4] == 'r' || t[4] == 'b' || t[4] == 'n')
}

/// Reading a UCI move text and writing the move back in UCI notation gives
/// the text again.
pub proof fn lemma_uci_text_roundtrip(t: Seq<char>)
    requires
        uci_name(t),
    ensures
        uci_ok(vstd::utf8::encode_utf8(t)),
        ({
            let b = vstd::utf8::encode_utf8(t);
            uci_text(
                move_bits(
                    square_of(b[0], b[1]) as u16,
                    square_of(b[2], b[3]) as u16,
                    if b.len() > 4 {
                        promo_code(b[4])
                    } else {
                        0
                    },
                ) as int,
            ) == t
        }),
{
    assert(vstd::utf8::is_ascii_chars(t));
    vstd::utf8::is_ascii_chars_encode_utf8(t);
    let b = vstd::utf8::encode_utf8(t);
    assert(b[0] == t[0] as u8 && b[1] == t[1] as u8 && b[2] == t[2] as u8 && b[3] == t[3] as u8);
    if t.len() == 5 {
        assert(b[4] == t[4] as u8);
    }
    let from = square_of(b[0], b[1]);
    let to = square_of(b[2], b[3]);
    let flag: u16 = if b.len() > 4 {
        promo_code(b[4])
    } else {
        0
    };
    assert(0 <= from < 64 && 0 <= to < 64);
    lemma_move_bits_code(from as u16, to as u16, flag);
    let m = code(from, to, flag as int);
    assert(move_from(m) == from && move_to(m) == to && move_flag(m) == flag);
    assert(from % 8 == b[0] - 97 && from / 8 == b[1] - 49);
    assert(to % 8 == b[2] - 97 && to / 8 == b[3] - 49);
    assert(square_name(from) =~= seq![t[0], t[1]]);
    assert(square_name(to) =~= seq![t[2], t[3]]);
    assert(uci_text(m) =~= t);
}

} // verus!

//! Text renderings of the board and of moves, for people to read.
use vstd::prelude::*;
use crate::bitboard::bit;
use super::{Board, Piece, Position, piece_on};
use super::moves::{Move, move_from, move_to, move_flag, push_char};

verus! {

/// The letter of a piece in a diagram: upper case for White, lower case for
/// Black, `.` for an empty square.
pub open spec fn piece_letter(p: Option<Piece>) -> char {
    match p {
        Some(Piece::WhitePawn) => 'P',
        Some(Piece::WhiteKnight) => 'N',
        Some(Piece::WhiteBishop) => 'B',
        Some(Piece::WhiteRook) => 'R',
        Some(Piece::WhiteQueen) => 'Q',
        Some(Piece::WhiteKing) => 'K',
        Some(Piece::BlackPawn) => 'p',
        Some(Piece::BlackKnight) => 'n',
        Some(Piece::BlackBishop) => 'b',
        Some(Piece::BlackRook) => 'r',
        Some(Piece::BlackQueen) => 'q',
        Some(Piece::BlackKing) => 'k',
        None => '.',
    }
}

/// The first `n` squares of a rank, each letter followed by a space.
pub open spec fn rank_cells(p: Position, rank: int, n: int) -> Seq<char>
    decreases n,
{
    if n <= 0 {
        seq![]
    } else {
        rank_cells(p, rank, n - 1) + seq![piece_letter(piece_on(p.pieces, rank * 8 + n - 1)), ' ']
    }
}

/// One rank of the diagram: its number, a rule, its squares, a rule.
pub open spec fn rank_text(p: Position, rank: int) -> Seq<char> {
    seq![(49 + rank) as char, ' ', '|', ' '] + rank_cells(p, rank, 8) + seq!['|', '\n']
}

/// The ranks from 8 down to `9 - n`.
pub open spec fn ranks_text(p: Position, n: int) -> Seq<char>
    decreases n,
{
    if n <= 0 {
        seq![]
    } else {
        ranks_text(p, n - 1) + rank_text(p, 8 - n)
    }
}

/// `n` copies of `c`.
pub open spec fn repeated(c: char, n: nat) -> Seq<char> {
    Seq::new(n, |i: int| c)
}

/// The frame above and below the squares.
pub open spec fn frame() -> Seq<char> {
    seq![' ', ' ', '+'] + repeated('-', 17) + seq!['+', '\n']
}

/// The file letters under the diagram.
pub open spec fn file_legend() -> Seq<char> {
    seq![' ', ' ', ' ', ' ', 'a', ' ', 'b', ' ', 'c', ' ', 'd', ' ', 'e', ' ', 'f', ' ', 'g', ' ', 'h', '\n']
}

/// The diagram of a position, rank 8 at the top.
pub open spec fn board_text(p: Position) -> Seq<char> {
    frame() + ranks_text(p, 8) + frame() + file_legend()
}

/// The first `n` squares of a rank of a bitboard map: `1` for a square the
/// bitboard holds, `0` for another, each followed by a space.
pub open spec fn map_cells(bb: u64, rank: int, n: int) -> Seq<char>
    decreases n,
{
    if n <= 0 {
        seq![]
    } else {
        map_cells(bb, rank, n - 1) + seq![if bit(bb, rank * 8 + n - 1) {
            '1'
        } else {
            '0'
        }, ' ']
    }
}

/// The ranks of a bitboard map from 8 down to `9 - n`, each with its number.
pub open spec fn map_ranks(bb: u64, n: int) -> Seq<char>
    decreases n,
{
    if n <= 0 {
        seq![]
    } else {
        map_ranks(bb, n - 1) + seq![(49 + 8 - n) as char, ' '] + map_cells(bb, 8 - n, 8) + seq!['\n']
    }
}

/// The file letters under a bitboard map.
pub open spec fn map_legend() -> Seq<char> {
    seq![' ', ' ', 'a', ' ', 'b', ' ', 'c', ' ', 'd', ' ', 'e', ' ', 'f', ' ', 'g', ' ', 'h', '\n']
}

/// A bitboard as an 8x8 grid of `1` and `0`, rank 8 at the top.
pub open spec fn bitboard_map(bb: u64) -> Seq<char> {
    map_ranks(bb, 8) + map_legend()
}

/// A move written for debugging: castles as `O-O` or `O-O-O`; otherwise the
/// squares, an `x` between them for a capture, ` e.p.` after an en passant
/// capture and the letter of a promotion.
pub open spec fn move_text(m: int) -> Seq<char> {
    let f = move_flag(m);
    let from = move_from(m);
    let to = move_to(m);
    if f == 4 {
        seq!['O', '-', 'O']
    } else if f == 6 {
        seq!['O', '-', 'O', '-', 'O']
    } else {
        let core = seq![(97 + from % 8) as char, (49 + from / 8) as char] + (if f % 2 == 1 {
            seq!['x']
        } else {
            seq![]
        }) + seq![(97 + to % 8) as char, (49 + to / 8) as char];
        let ep = if f == 3 {
            core + seq![' ', 'e', '.', 'p', '.']
        } else {
            core
        };
        if f == 8 || f == 9 {
            ep.push('q')
        } else if f == 10 || f == 11 {
            ep.push('r')
        } else if f == 12 || f == 13 {
            ep.push('b')
        } else if f == 14 || f == 15 {
            ep.push('n')
        } else {
            ep
        }
    }
}

/// Appends `n` copies of `c`.
fn push_repeated(s: &mut String, c: char, n: usize)
    ensures
        final(s)@ == old(s)@ + repeated(c, n as nat),
{
    let mut i: usize = 0;
    while i < n
        invariant
            0 <= i <= n,
            s@ == old(s)@ + repeated(c, i as nat),
        decreases n - i,
    {
        push_char(s, c);
        i = i + 1;
        assert(s@ =~= old(s)@ + repeated(c, i as nat));
    }
}

/// Appends the frame line.
fn push_frame(s: &mut String)
    ensures
        final(s)@ == old(s)@ + frame(),
{
    push_char(s, ' ');
    push_char(s, ' ');
    push_char(s, '+');
    push_repeated(s, '-', 17);
    push_char(s, '+');
    push_char(s, '\n');
    assert(s@ =~= old(s)@ + frame());
}

impl Piece {
    /// The diagram letter of a piece.
    pub fn letter(p: Option<Piece>) -> (r: char)
        ensures
            r == piece_letter(p),
    {
        match p {
            Some(Piece::WhitePawn) => 'P',
            Some(Piece::WhiteKnight) => 'N',
            Some(Piece::WhiteBishop) => 'B',
            Some(Piece::WhiteRook) => 'R',
            Some(Piece::WhiteQueen) => 'Q',
            Some(Piece::WhiteKing) => 'K',
            Some(Piece::BlackPawn) => 'p',
            Some(Piece::BlackKnight) => 'n',
            Some(Piece::BlackBishop) => 'b',
            Some(Piece::BlackRook) => 'r',
            Some(Piece::BlackQueen) => 'q',
            Some(Piece::BlackKing) => 'k',
            None => '.',
        }
    }
}

impl Board {
    /// The board as a diagram: rank 8 at the top, one letter per square
    /// (the first piece bitboard that holds it), `.` for an empty square.
    pub fn to_text(&self) -> (r: String)
        ensures
            r@ == board_text(self@),
    {
        let mut s = String::new();
        push_frame(&mut s);
        let mut n: u8 = 0;
        while n < 8
            invariant
                0 <= n <= 8,
                s@ == frame() + ranks_text(self@, n as int),
            decreases 8 - n,
        {
            let rank: u8 = 7 - n;
            let ghost before = s@;
            push_char(&mut s, (49 + rank) as char);
            push_char(&mut s, ' ');
            push_char(&mut s, '|');
            push_char(&mut s, ' ');
            let mut file: u8 = 0;
            while file < 8
                invariant
                    0 <= file <= 8,
                    rank < 8,
                    s@ == before + seq![(49 + rank) as char, ' ', '|', ' '] + rank_cells(self@, rank as int, file as int),
                decreases 8 - file,
            {
                let piece = self.piece_at(rank * 8 + file);
                push_char(&mut s, Piece::letter(piece));
                push_char(&mut s, ' ');
                file = file + 1;
                assert(s@ =~= before + seq![(49 + rank) as char, ' ', '|', ' '] + rank_cells(self@, rank as int, file as int));
            }
            push_char(&mut s, '|');
            push_char(&mut s, '\n');
            n = n + 1;
            assert(s@ =~= frame() + ranks_text(self@, n as int));
        }
        push_frame(&mut s);
        let legend = ['a', 'b', 'c', 'd', 'e', 'f', 'g', 'h'];
        let ghost framed = s@;
        push_char(&mut s, ' ');
        push_char(&mut s, ' ');
        push_char(&mut s, ' ');
        push_char(&mut s, ' ');
        let ghost before = s@;
        let mut i: usize = 0;
        while i < 8
            invariant
                0 <= i <= 8,
                legend@ == seq!['a', 'b', 'c', 'd', 'e', 'f', 'g', 'h'],
                s@ == before + Seq::new((2 * i) as nat, |k: int| if k % 2 == 0 { legend@[k / 2] } else { if k < 15 { ' ' } else { '\n' } }),
            decreases 8 - i,
        {
            push_char(&mut s, legend[i]);
            push_char(&mut s, if i < 7 { ' ' } else { '\n' });
            i = i + 1;
            assert(s@ =~= before + Seq::new((2 * i) as nat, |k: int| if k % 2 == 0 { legend@[k / 2] } else { if k < 15 { ' ' } else { '\n' } }));
        }
        assert(s@ =~= framed + file_legend());
        assert(s@ =~= board_text(self@));
        s
    }
}

impl Board {
    /// A bitboard as an 8x8 grid of `1` and `0`, rank 8 at the top, with the
    /// file letters below (see [`bitboard_map`]).
    pub fn bitboard_map_text(bb: u64) -> (r: String)
        ensures
            r@ == bitboard_map(bb),
    {
        let mut s = String::new();
        let mut n: u8 = 0;
        while n < 8
            invariant
                0 <= n <= 8,
                s@ == map_ranks(bb, n as int),
            decreases 8 - n,
        {
            let rank: u8 = 7 - n;
            let ghost before = s@;
            push_char(&mut s, (49 + rank) as char);
            push_char(&mut s, ' ');
            let mut file: u8 = 0;
            while file < 8
                invariant
                    0 <= file <= 8,
                    rank < 8,
                    s@ == before + seq![(49 + rank) as char, ' '] + map_cells(bb, rank as int, file as int),
                decreases 8 - file,
            {
                let square = rank * 8 + file;
                let cell = if (bb >> (square as u64)) & 1u64 == 1u64 {
                    '1'
                } else {
                    '0'
                };
                push_char(&mut s, cell);
                push_char(&mut s, ' ');
                file = file + 1;
                assert(s@ =~= before + seq![(49 + rank) as char, ' '] + map_cells(bb, rank as int, file as int));
            }
            push_char(&mut s, '\n');
            n = n + 1;
            assert(s@ =~= map_ranks(bb, n as int));
        }
        let legend = ['a', 'b', 'c', 'd', 'e', 'f', 'g', 'h'];
        let ghost ranks = s@;
        push_char(&mut s, ' ');
        push_char(&mut s, ' ');
        let ghost before = s@;
        let mut i: usize = 0;
        while i < 8
            invariant
                0 <= i <= 8,
                legend@ == seq!['a', 'b', 'c', 'd', 'e', 'f', 'g', 'h'],
                s@ == before + Seq::new((2 * i) as nat, |k: int| if k % 2 == 0 { legend@[k / 2] } else { if k < 15 { ' ' } else { '\n' } }),
            decreases 8 - i,
        {
            push_char(&mut s, legend[i]);
            push_char(&mut s, if i < 7 { ' ' } else { '\n' });
            i = i + 1;
            assert(s@ =~= before + Seq::new((2 * i) as nat, |k: int| if k % 2 == 0 { legend@[k / 2] } else { if k < 15 { ' ' } else { '\n' } }));
        }
        assert(s@ =~= ranks + map_legend());
        s
    }
}

impl Move {
    /// The move written for debugging (see [`move_text`]).
    pub fn to_text(&self) -> (r: String)
        ensures
            r@ == move_text(self.0 as int),
    {
        let flag = self.special_flag();
        let mut s = String::new();
        // Castles first, by their flags.
        if flag == 0b0100 {
            push_char(&mut s, 'O');
            push_char(&mut s, '-');
            push_char(&mut s, 'O');
            assert(s@ =~= move_text(self.0 as int));
            return s;
        }
        if flag == 0b0110 {
            push_char(&mut s, 'O');
            push_char(&mut s, '-');
            push_char(&mut s, 'O');
            push_char(&mut s, '-');
            push_char(&mut s, 'O');
            assert(s@ =~= move_text(self.0 as int));
            return s;
        }
        let start = self.start_pos();
        let end = self.end_pos();
        push_char(&mut s, (97 + (start % 8) as u8) as char);
        push_char(&mut s, (49 + (start / 8) as u8) as char);
        // Captures, en passant included, put an `x` between the squares.
        if self.is_capture() || self.is_en_passant() {
            push_char(&mut s, 'x');
        }
        push_char(&mut s, (97 + (end % 8) as u8) as char);
        push_char(&mut s, (49 + (end / 8) as u8) as char);
        if self.is_en_passant() {
            push_char(&mut s, ' ');
            push_char(&mut s, 'e');
            push_char(&mut s, '.');
            push_char(&mut s, 'p');
            push_char(&mut s, '.');
        }
        if self.is_promotion() {
            if let Some(letter) = self.promotion_piece() {
                push_char(&mut s, letter);
            }
        }
        assert(s@ =~= move_text(self.0 as int));
        s
    }
}

} // verus!

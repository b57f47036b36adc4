//! FEN parsing, stated over the bytes of the FEN string.
//!
//! The piece placement is split at `/`; its last part also carries the other
//! fields, separated by whitespace: side to move, castling rights, en passant
//! target, halfmove clock and fullmove number.
use vstd::prelude::*;
use vstd::string::StringSliceAdditionalSpecFns;
use crate::board::{Board, Color, Piece, Position, placed_at, side_bits, well_formed, piece_index, lemma_piece_index_roundtrip};
use crate::bitboard::{bit, lemma_bit_set};
use crate::utils::square_of;

verus! {

/// The one-byte whitespace characters: the ASCII ones that `char::is_whitespace` accepts.
pub open spec fn is_space(c: u8) -> bool {
    c == 32 || (9 <= c && c <= 13)
}

/// `a`, `b`, `c` encode a three-byte whitespace character: U+1680, U+2000 to
/// U+200A, U+2028, U+2029, U+202F, U+205F or U+3000.
pub open spec fn wide_space(a: u8, b: u8, c: u8) -> bool {
    ||| (a == 0xE1 && b == 0x9A && c == 0x80)
    ||| (a == 0xE2 && b == 0x80 && ((0x80 <= c && c <= 0x8A) || c == 0xA8 || c == 0xA9 || c == 0xAF))
    ||| (a == 0xE2 && b == 0x81 && c == 0x9F)
    ||| (a == 0xE3 && b == 0x80 && c == 0x80)
}

/// The length in bytes of the whitespace character that starts at `i` in `s`,
/// 0 where none does. The whitespace characters are those of Unicode's
/// White_Space property, which `char::is_whitespace` uses, in UTF-8: the ASCII
/// ones, U+0085 and U+00A0 in two bytes, the others in three.
pub open spec fn space_len(s: Seq<u8>, i: int) -> int {
    if 0 <= i < s.len() && is_space(s[i]) {
        1
    } else if 0 <= i && i + 1 < s.len() && s[i] == 0xC2 && (s[i + 1] == 0x85 || s[i + 1] == 0xA0) {
        2
    } else if 0 <= i && i + 2 < s.len() && wide_space(s[i], s[i + 1], s[i + 2]) {
        3
    } else {
        0
    }
}

/// Byte `i` of `s` belongs to a whitespace character.
pub open spec fn in_space(s: Seq<u8>, i: int) -> bool {
    space_len(s, i) >= 1 || space_len(s, i - 1) >= 2 || space_len(s, i - 2) >= 3
}

/// Which bytes of `s` belong to whitespace characters.
pub open spec fn space_mask(s: Seq<u8>) -> Seq<bool> {
    Seq::new(s.len(), |i: int| in_space(s, i))
}

/// `s` cut at every `sep`, as `str::split` does: `n` separators give `n + 1` parts.
pub open spec fn split_seq(s: Seq<u8>, sep: u8) -> Seq<Seq<u8>>
    decreases s.len(),
{
    if s.len() == 0 {
        seq![Seq::<u8>::empty()]
    } else {
        let r = split_seq(s.drop_last(), sep);
        if s.last() == sep {
            r.push(Seq::<u8>::empty())
        } else {
            r.update(r.len() - 1, r.last().push(s.last()))
        }
    }
}

/// The maximal runs of the bytes of `s` that `m` leaves unmarked.
pub open spec fn runs(s: Seq<u8>, m: Seq<bool>) -> Seq<Seq<u8>>
    decreases s.len(),
{
    if s.len() == 0 {
        seq![]
    } else {
        let w = runs(s.drop_last(), m.take(s.len() - 1));
        if m[s.len() - 1] {
            w
        } else if s.len() > 1 && !m[s.len() - 2] {
            w.update(w.len() - 1, w.last().push(s.last()))
        } else {
            w.push(seq![s.last()])
        }
    }
}

/// The words of `s`: the maximal runs of bytes outside whitespace characters,
/// which for the UTF-8 text of a string are what `str::split_whitespace` gives.
pub open spec fn words(s: Seq<u8>) -> Seq<Seq<u8>> {
    runs(s, space_mask(s))
}

pub(crate) proof fn lemma_split_nonempty(s: Seq<u8>, sep: u8)
    ensures
        split_seq(s, sep).len() >= 1,
    decreases s.len(),
{
    if s.len() > 0 {
        lemma_split_nonempty(s.drop_last(), sep);
    }
}

/// The byte ranges `spans` of `b`.
pub open spec fn spans_text(b: Seq<u8>, spans: Seq<(usize, usize)>) -> Seq<Seq<u8>> {
    spans.map_values(|sp: (usize, usize)| b.subrange(sp.0 as int, sp.1 as int))
}

/// Every range of `spans` lies within `lo..hi`.
pub open spec fn spans_within(spans: Seq<(usize, usize)>, lo: int, hi: int) -> bool {
    forall|k: int| 0 <= k < spans.len() ==> lo <= (#[trigger] spans[k]).0 <= spans[k].1 <= hi
}

/// The parts of `b[lo..hi]` cut at every `sep`, as ranges of `b`.
fn split_spans(b: &[u8], lo: usize, hi: usize, sep: u8) -> (r: Vec<(usize, usize)>)
    requires
        lo <= hi <= b@.len(),
    ensures
        spans_within(r@, lo as int, hi as int),
        spans_text(b@, r@) == split_seq(b@.subrange(lo as int, hi as int), sep),
{
    let mut spans: Vec<(usize, usize)> = Vec::new();
    let mut start: usize = lo;
    let mut i: usize = lo;
    proof {
        assert(b@.subrange(lo as int, lo as int) =~= Seq::<u8>::empty());
        assert(spans_text(b@, spans@.push((start, i))) =~= seq![Seq::<u8>::empty()]);
    }
    while i < hi
        invariant
            lo <= start <= i <= hi <= b@.len(),
            spans_within(spans@, lo as int, i as int),
            spans_text(b@, spans@.push((start, i))) == split_seq(b@.subrange(lo as int, i as int), sep),
        decreases hi - i,
    {
        let c = b[i];
        let ghost prev = spans@.push((start, i));
        proof {
            assert(b@.subrange(lo as int, i + 1).drop_last() =~= b@.subrange(lo as int, i as int));
            assert(b@.subrange(lo as int, i + 1).last() == c);
            lemma_split_nonempty(b@.subrange(lo as int, i as int), sep);
        }
        if c == sep {
            spans.push((start, i));
            start = i + 1;
            proof {
                assert(b@.subrange(i + 1, i + 1) =~= Seq::<u8>::empty());
                assert(spans_text(b@, spans@.push((start, (i + 1) as usize))) =~= spans_text(b@, prev).push(
                    Seq::<u8>::empty(),
                ));
            }
        } else {
            proof {
                assert(b@.subrange(start as int, i + 1) =~= b@.subrange(start as int, i as int).push(c));
                assert(spans_text(b@, spans@.push((start, (i + 1) as usize))) =~= spans_text(b@, prev).update(
                    prev.len() - 1,
                    spans_text(b@, prev).last().push(c),
                ));
            }
        }
        i = i + 1;
    }
    spans.push((start, hi));
    spans
}

/// The length of the whitespace character that starts at `i` in `b[lo..hi]`.
fn space_len_at(b: &[u8], lo: usize, hi: usize, i: usize) -> (r: usize)
    requires
        lo <= i <= hi <= b@.len(),
    ensures
        r == space_len(b@.subrange(lo as int, hi as int), i - lo),
{
    let ghost sub = b@.subrange(lo as int, hi as int);
    let n = hi - i;
    if n >= 1 && (b[i] == 32 || (9 <= b[i] && b[i] <= 13)) {
        assert(sub[i - lo] == b@[i as int]);
        1
    } else if n >= 2 && b[i] == 0xC2 && (b[i + 1] == 0x85 || b[i + 1] == 0xA0) {
        proof {
            assert(sub[i - lo] == b@[i as int]);
            assert(sub[i - lo + 1] == b@[i + 1]);
        }
        2
    } else if n >= 3 && ((b[i] == 0xE1 && b[i + 1] == 0x9A && b[i + 2] == 0x80) || (b[i] == 0xE2
        && b[i + 1] == 0x80 && ((0x80 <= b[i + 2] && b[i + 2] <= 0x8A) || b[i + 2] == 0xA8 || b[i
        + 2] == 0xA9 || b[i + 2] == 0xAF)) || (b[i] == 0xE2 && b[i + 1] == 0x81 && b[i + 2] == 0x9F)
        || (b[i] == 0xE3 && b[i + 1] == 0x80 && b[i + 2] == 0x80)) {
        proof {
            assert(sub[i - lo] == b@[i as int]);
            assert(sub[i - lo + 1] == b@[i + 1]);
            assert(sub[i - lo + 2] == b@[i + 2]);
        }
        3
    } else {
        proof {
            if n >= 1 {
                assert(sub[i - lo] == b@[i as int]);
            }
            if n >= 2 {
                assert(sub[i - lo + 1] == b@[i + 1]);
            }
            if n >= 3 {
                assert(sub[i - lo + 2] == b@[i + 2]);
            }
        }
        0
    }
}

/// The words of `b[lo..hi]`, as ranges of `b`.
pub(crate) fn word_spans(b: &[u8], lo: usize, hi: usize) -> (r: Vec<(usize, usize)>)
    requires
        lo <= hi <= b@.len(),
    ensures
        spans_within(r@, lo as int, hi as int),
        spans_text(b@, r@) == words(b@.subrange(lo as int, hi as int)),
{
    let ghost sub = b@.subrange(lo as int, hi as int);
    let ghost mask = space_mask(sub);
    let mut spans: Vec<(usize, usize)> = Vec::new();
    let mut start: usize = lo;
    let mut in_word = false;
    let mut i: usize = lo;
    proof {
        assert(b@.subrange(lo as int, lo as int) =~= Seq::<u8>::empty());
    }
    while i < hi
        invariant
            lo <= start <= i <= hi <= b@.len(),
            sub == b@.subrange(lo as int, hi as int),
            mask == space_mask(sub),
            spans_within(spans@, lo as int, i as int),
            in_word == (i > lo && !mask[i - 1 - lo]),
            in_word ==> start < i,
            in_word ==> spans_text(b@, spans@.push((start, i))) == runs(
                b@.subrange(lo as int, i as int),
                mask.take(i - lo),
            ),
            !in_word ==> spans_text(b@, spans@) == runs(
                b@.subrange(lo as int, i as int),
                mask.take(i - lo),
            ),
        decreases hi - i,
    {
        let c = b[i];
        let ghost pre = b@.subrange(lo as int, i + 1);
        let ghost m = mask.take(i + 1 - lo);
        proof {
            assert(pre.drop_last() =~= b@.subrange(lo as int, i as int));
            assert(pre.last() == c);
            assert(m.take(i - lo) =~= mask.take(i - lo));
            assert(m[i - lo] == mask[i - lo]);
            if i > lo {
                assert(m[i - lo - 1] == mask[i - 1 - lo]);
            }
        }
        let space = space_len_at(b, lo, hi, i) >= 1 || (i - lo >= 1 && space_len_at(b, lo, hi, i - 1)
            >= 2) || (i - lo >= 2 && space_len_at(b, lo, hi, i - 2) >= 3);
        assert(space == mask[i - lo]);
        if space {
            if in_word {
                spans.push((start, i));
            }
            in_word = false;
        } else if in_word {
            proof {
                let prev = spans@.push((start, i));
                assert(b@.subrange(start as int, i + 1) =~= b@.subrange(start as int, i as int).push(c));
                assert(spans_text(b@, spans@.push((start, (i + 1) as usize))) =~= spans_text(b@, prev).update(
                    prev.len() - 1,
                    spans_text(b@, prev).last().push(c),
                ));
            }
        } else {
            start = i;
            in_word = true;
            proof {
                assert(b@.subrange(i as int, i + 1) =~= seq![c]);
                assert(spans_text(b@, spans@.push((start, (i + 1) as usize))) =~= spans_text(b@, spans@).push(
                    seq![c],
                ));
            }
        }
        i = i + 1;
    }
    proof {
        assert(mask.take(hi - lo) =~= mask);
    }
    if in_word {
        spans.push((start, hi));
    }
    spans
}


pub open spec fn is_digit(c: u8) -> bool {
    48 <= c && c <= 57
}

/// The piece a FEN letter names: upper case for White, lower case for Black.
pub open spec fn fen_piece(c: u8) -> Option<Piece> {
    if c == 80 {
        Some(Piece::WhitePawn)
    } else if c == 82 {
        Some(Piece::WhiteRook)
    } else if c == 78 {
        Some(Piece::WhiteKnight)
    } else if c == 66 {
        Some(Piece::WhiteBishop)
    } else if c == 81 {
        Some(Piece::WhiteQueen)
    } else if c == 75 {
        Some(Piece::WhiteKing)
    } else if c == 112 {
        Some(Piece::BlackPawn)
    } else if c == 114 {
        Some(Piece::BlackRook)
    } else if c == 110 {
        Some(Piece::BlackKnight)
    } else if c == 98 {
        Some(Piece::BlackBishop)
    } else if c == 113 {
        Some(Piece::BlackQueen)
    } else if c == 107 {
        Some(Piece::BlackKing)
    } else {
        None
    }
}

/// The file reached after a row's bytes: a digit skips that many squares, a letter one.
pub open spec fn row_file(row: Seq<u8>) -> int
    decreases row.len(),
{
    if row.len() == 0 {
        0
    } else {
        row_file(row.drop_last()) + if is_digit(row.last()) {
            row.last() - 48
        } else {
            1
        }
    }
}

/// A row on rank `rank` holds only digits and piece letters, its file count
/// fits in a byte, and every piece lands on the board.
pub open spec fn row_ok(row: Seq<u8>, rank: int) -> bool
    decreases row.len(),
{
    if row.len() == 0 {
        true
    } else {
        let f = row_file(row.drop_last());
        let c = row.last();
        row_ok(row.drop_last(), rank) && if is_digit(c) {
            f + (c - 48) <= 255
        } else {
            fen_piece(c) is Some && rank * 8 + f < 64
        }
    }
}

/// The bitboards `pcs` with the pieces of a row on rank `rank` added.
pub open spec fn row_bits(pcs: Seq<u64>, row: Seq<u8>, rank: int) -> Seq<u64>
    decreases row.len(),
{
    if row.len() == 0 {
        pcs
    } else {
        let prev = row_bits(pcs, row.drop_last(), rank);
        match fen_piece(row.last()) {
            Some(p) => placed_at(prev, p, rank * 8 + row_file(row.drop_last())),
            None => prev,
        }
    }
}

/// At most eight rows, the first on rank 8, each well formed.
pub open spec fn rows_ok(rows: Seq<Seq<u8>>) -> bool {
    rows.len() <= 8 && forall|i: int| 0 <= i < rows.len() ==> row_ok(#[trigger] rows[i], 7 - i)
}

/// The bitboards of the first `n` rows, the first on rank 8.
pub open spec fn rows_bits(rows: Seq<Seq<u8>>, n: int) -> Seq<u64>
    decreases n,
{
    if n <= 0 {
        Seq::new(12, |i: int| 0u64)
    } else {
        row_bits(rows_bits(rows, n - 1), rows[n - 1], 7 - (n - 1))
    }
}

/// The castling-right bit of a FEN letter.
pub open spec fn right_bit(c: u8) -> u8 {
    if c == 75 {
        1
    } else if c == 81 {
        2
    } else if c == 107 {
        4
    } else if c == 113 {
        8
    } else {
        0
    }
}

/// Castling field letters: `K`, `Q`, `k`, `q` or `-`.
pub open spec fn castle_ok(s: Seq<u8>) -> bool {
    forall|i: int|
        0 <= i < s.len() ==> (#[trigger] s[i] == 75 || s[i] == 81 || s[i] == 107 || s[i] == 113
            || s[i] == 45)
}

pub open spec fn castle_bits(s: Seq<u8>) -> u8
    decreases s.len(),
{
    if s.len() == 0 {
        0
    } else {
        castle_bits(s.drop_last()) | right_bit(s.last())
    }
}

/// The en passant field: `-`, or a square name whose index fits in a byte.
pub open spec fn ep_ok(s: Seq<u8>) -> bool {
    s == seq![45u8] || (s.len() >= 2 && s[0] >= 97 && s[1] >= 49 && (s[1] - 49) * 8 <= 255
        && square_of(s[0], s[1]) <= 255)
}

pub open spec fn ep_value(s: Seq<u8>) -> Option<u8> {
    if s == seq![45u8] {
        None
    } else {
        Some(square_of(s[0], s[1]) as u8)
    }
}

/// The value of a run of decimal digits.
pub open spec fn digits_value(s: Seq<u8>) -> int
    decreases s.len(),
{
    if s.len() == 0 {
        0
    } else {
        digits_value(s.drop_last()) * 10 + (s.last() - 48)
    }
}

/// The digits of a number, after an optional `+`.
pub open spec fn unsigned_digits(s: Seq<u8>) -> Seq<u8> {
    if s.len() > 0 && s[0] == 43 {
        s.skip(1)
    } else {
        s
    }
}

pub open spec fn all_digits(d: Seq<u8>) -> bool {
    forall|i: int| 0 <= i < d.len() ==> is_digit(#[trigger] d[i])
}

/// A `u16` in decimal, as `str::parse::<u16>` reads it: an optional `+`, then
/// at least one digit, and a value that fits.
pub open spec fn u16_text(s: Seq<u8>) -> Option<u16> {
    let d = unsigned_digits(s);
    if d.len() > 0 && all_digits(d) && digits_value(d) <= 65535 {
        Some(digits_value(d) as u16)
    } else {
        None
    }
}

/// The whitespace-separated fields of the part after the last `/`.
pub open spec fn fen_fields(b: Seq<u8>) -> Seq<Seq<u8>> {
    words(split_seq(b, 47).last())
}

/// The rows of the piece placement: the parts before the last `/`, then the
/// first field after it.
pub open spec fn fen_rows(b: Seq<u8>) -> Seq<Seq<u8>> {
    split_seq(b, 47).drop_last().push(fen_fields(b)[0])
}

/// A FEN that the parser accepts.
pub open spec fn fen_ok(b: Seq<u8>) -> bool {
    let f = fen_fields(b);
    &&& f.len() >= 6
    &&& rows_ok(fen_rows(b))
    &&& (f[1] == seq![119u8] || f[1] == seq![98u8])
    &&& castle_ok(f[2])
    &&& ep_ok(f[3])
    &&& u16_text(f[4]) is Some
    &&& u16_text(f[5]) is Some
}

/// Parsed FEN fields used to initialize a `Board`.
pub struct FenData {
    /// Piece bitboards in board storage order.
    pub pieces: [u64; 12],
    /// Side to move.
    pub side_to_move: Color,
    /// Castling-right bit mask.
    pub castling_rights: u8,
    /// En passant target square, if present.
    pub en_passant_sq: Option<u8>,
    /// Halfmove clock from the FEN.
    pub half_move: u16,
    /// Fullmove number from the FEN.
    pub full_move: u16,
}

/// What the FEN `b` says, field by field.
pub open spec fn fen_describes(d: FenData, b: Seq<u8>) -> bool {
    let f = fen_fields(b);
    &&& d.pieces@ == rows_bits(fen_rows(b), fen_rows(b).len() as int)
    &&& d.side_to_move == if f[1] == seq![119u8] {
        Color::White
    } else {
        Color::Black
    }
    &&& d.castling_rights == castle_bits(f[2])
    &&& d.en_passant_sq == ep_value(f[3])
    &&& Some(d.half_move) == u16_text(f[4])
    &&& Some(d.full_move) == u16_text(f[5])
}

pub(crate) proof fn lemma_row_ok_prefix(row: Seq<u8>, rank: int, k: int)
    requires
        0 <= k <= row.len(),
        row_ok(row, rank),
    ensures
        row_ok(row.take(k), rank),
    decreases row.len(),
{
    if k < row.len() {
        assert(row.drop_last().take(k) =~= row.take(k));
        lemma_row_ok_prefix(row.drop_last(), rank, k);
    } else {
        assert(row.take(k) =~= row);
    }
}

pub(crate) proof fn lemma_digits_grow(s: Seq<u8>, k: int)
    requires
        0 <= k <= s.len(),
        forall|i: int| 0 <= i < s.len() ==> is_digit(#[trigger] s[i]),
    ensures
        digits_value(s.take(k)) <= digits_value(s),
        digits_value(s) >= 0,
    decreases s.len(),
{
    if s.len() > 0 {
        assert forall|i: int| 0 <= i < s.drop_last().len() implies is_digit(#[trigger] s.drop_last()[i]) by {
            assert(s.drop_last()[i] == s[i]);
        }
        if k < s.len() {
            assert(s.drop_last().take(k) =~= s.take(k));
            lemma_digits_grow(s.drop_last(), k);
        } else {
            lemma_digits_grow(s.drop_last(), 0);
            assert(s.take(k) =~= s);
        }
    } else {
        assert(s.take(k) =~= s);
    }
}

impl FenData {
    /// The piece a FEN letter names.
    fn piece_of_letter(c: u8) -> (r: Option<Piece>)
        ensures
            r == fen_piece(c),
    {
        if c == 80 {
            Some(Piece::WhitePawn)
        } else if c == 82 {
            Some(Piece::WhiteRook)
        } else if c == 78 {
            Some(Piece::WhiteKnight)
        } else if c == 66 {
            Some(Piece::WhiteBishop)
        } else if c == 81 {
            Some(Piece::WhiteQueen)
        } else if c == 75 {
            Some(Piece::WhiteKing)
        } else if c == 112 {
            Some(Piece::BlackPawn)
        } else if c == 114 {
            Some(Piece::BlackRook)
        } else if c == 110 {
            Some(Piece::BlackKnight)
        } else if c == 98 {
            Some(Piece::BlackBishop)
        } else if c == 113 {
            Some(Piece::BlackQueen)
        } else if c == 107 {
            Some(Piece::BlackKing)
        } else {
            None
        }
    }

    /// Adds the pieces of the row `b[lo..hi]` on rank `rank` to `bitboard`;
    /// `false` when the row cannot be read.
    fn parse_row(b: &[u8], lo: usize, hi: usize, rank: u8, bitboard: &mut [u64; 12]) -> (r: bool)
        requires
            lo <= hi <= b@.len(),
            rank < 8,
        ensures
            r == row_ok(b@.subrange(lo as int, hi as int), rank as int),
            r ==> final(bitboard)@ == row_bits(old(bitboard)@, b@.subrange(lo as int, hi as int), rank as int),
    {
        let ghost start = bitboard@;
        let ghost whole = b@.subrange(lo as int, hi as int);
        // manually index the file
        let mut file: u8 = 0;
        let mut i: usize = lo;
        proof {
            assert(b@.subrange(lo as int, lo as int) =~= Seq::<u8>::empty());
        }
        while i < hi
            invariant
                lo <= i <= hi <= b@.len(),
                rank < 8,
                whole == b@.subrange(lo as int, hi as int),
                file as int == row_file(b@.subrange(lo as int, i as int)),
                row_ok(b@.subrange(lo as int, i as int), rank as int),
                bitboard@ == row_bits(start, b@.subrange(lo as int, i as int), rank as int),
            decreases hi - i,
        {
            let c = b[i];
            let ghost pre = b@.subrange(lo as int, i as int);
            let ghost next = b@.subrange(lo as int, i + 1);
            proof {
                assert(next.drop_last() =~= pre);
                assert(next.last() == c);
                assert(whole.take(i - lo + 1) =~= next);
            }
            if 48 <= c && c <= 57 {
                // a digit skips that number of empty squares
                let d = c - 48;
                if file > 255 - d {
                    proof {
                        if row_ok(whole, rank as int) {
                            lemma_row_ok_prefix(whole, rank as int, i - lo + 1);
                        }
                    }
                    return false;
                }
                file = file + d;
            } else {
                let piece = match Self::piece_of_letter(c) {
                    Some(p) => p,
                    None => {
                        proof {
                            if row_ok(whole, rank as int) {
                                lemma_row_ok_prefix(whole, rank as int, i - lo + 1);
                            }
                        }
                        return false;
                    },
                };
                let sq: u16 = rank as u16 * 8 + file as u16;
                if sq >= 64 {
                    proof {
                        if row_ok(whole, rank as int) {
                            lemma_row_ok_prefix(whole, rank as int, i - lo + 1);
                        }
                    }
                    return false;
                }
                let k = piece.idx();
                let v = bitboard[k] | (1u64 << sq);
                bitboard[k] = v;
                proof {
                    assert(bitboard@ =~= placed_at(row_bits(start, pre, rank as int), piece, sq as int));
                }
                file = file + 1;
            }
            i = i + 1;
        }
        true
    }

    /// Reads the rows of the piece placement, the first on rank 8, into bitboards.
    fn pieces_to_bitboard(b: &[u8], rows: &Vec<(usize, usize)>) -> (r: Option<[u64; 12]>)
        requires
            spans_within(rows@, 0, b@.len() as int),
        ensures
            r is Some == rows_ok(spans_text(b@, rows@)),
            r matches Some(x) ==> x@ == rows_bits(spans_text(b@, rows@), rows@.len() as int),
    {
        let ghost text = spans_text(b@, rows@);
        // create an empty bitboard
        let mut bitboard: [u64; 12] = [0, 0, 0, 0, 0, 0, 0, 0, 0, 0, 0, 0];
        proof {
            assert(bitboard@ =~= rows_bits(text, 0));
        }
        let mut i: usize = 0;
        while i < rows.len()
            invariant
                0 <= i <= rows@.len(),
                i <= 8,
                spans_within(rows@, 0, b@.len() as int),
                text == spans_text(b@, rows@),
                forall|j: int| 0 <= j < i ==> row_ok(#[trigger] text[j], 7 - j),
                bitboard@ == rows_bits(text, i as int),
            decreases rows@.len() - i,
        {
            if i >= 8 {
                // a ninth row has no rank
                return None;
            }
            // the FEN starts upside down, so we need to reverse the ranks
            let rank = 7 - i as u8;
            let (lo, hi) = rows[i];
            assert(text[i as int] == b@.subrange(lo as int, hi as int));
            let ghost before = bitboard@;
            if !Self::parse_row(b, lo, hi, rank, &mut bitboard) {
                return None;
            }
            i = i + 1;
        }
        Some(bitboard)
    }

    /// Reads a castling field.
    fn parse_castling(b: &[u8], lo: usize, hi: usize) -> (r: Option<u8>)
        requires
            lo <= hi <= b@.len(),
        ensures
            r is Some == castle_ok(b@.subrange(lo as int, hi as int)),
            r matches Some(x) ==> x == castle_bits(b@.subrange(lo as int, hi as int)),
    {
        let ghost whole = b@.subrange(lo as int, hi as int);
        let mut rights: u8 = 0b0000;
        let mut i: usize = lo;
        proof {
            assert(b@.subrange(lo as int, lo as int) =~= Seq::<u8>::empty());
        }
        while i < hi
            invariant
                lo <= i <= hi <= b@.len(),
                whole == b@.subrange(lo as int, hi as int),
                castle_ok(b@.subrange(lo as int, i as int)),
                rights == castle_bits(b@.subrange(lo as int, i as int)),
            decreases hi - i,
        {
            let c = b[i];
            let ghost next = b@.subrange(lo as int, i + 1);
            proof {
                assert(next.drop_last() =~= b@.subrange(lo as int, i as int));
                assert(whole[i - lo] == c);
            }
            if c == 75 {
                rights = rights | 0b0001;
            } else if c == 81 {
                rights = rights | 0b0010;
            } else if c == 107 {
                rights = rights | 0b0100;
            } else if c == 113 {
                rights = rights | 0b1000;
            } else if c != 45 {
                return None;
            } else {
                proof {
                    assert(rights | 0u8 == rights) by (bit_vector);
                }
            }
            i = i + 1;
        }
        Some(rights)
    }

    /// Reads a `u16` field.
    fn parse_u16(b: &[u8], lo: usize, hi: usize) -> (r: Option<u16>)
        requires
            lo <= hi <= b@.len(),
        ensures
            r == u16_text(b@.subrange(lo as int, hi as int)),
    {
        let ghost whole = b@.subrange(lo as int, hi as int);
        let start = if lo < hi && b[lo] == 43 {
            lo + 1
        } else {
            lo
        };
        let ghost d = b@.subrange(start as int, hi as int);
        proof {
            if lo < hi && b@[lo as int] == 43 {
                assert(whole.skip(1) =~= d);
            } else {
                assert(whole =~= d);
            }
        }
        if start == hi {
            return None;
        }
        let mut value: u32 = 0;
        let mut i: usize = start;
        proof {
            assert(b@.subrange(start as int, start as int) =~= Seq::<u8>::empty());
        }
        while i < hi
            invariant
                lo <= start <= i <= hi <= b@.len(),
                start < hi,
                whole == b@.subrange(lo as int, hi as int),
                d == b@.subrange(start as int, hi as int),
                unsigned_digits(whole) == d,
                forall|j: int| start <= j < i ==> is_digit(#[trigger] b@[j]),
                value as int == digits_value(b@.subrange(start as int, i as int)),
                value <= 65535,
            decreases hi - i,
        {
            let c = b[i];
            let ghost next = b@.subrange(start as int, i + 1);
            proof {
                assert(next.drop_last() =~= b@.subrange(start as int, i as int));
                assert(d[i - start] == c);
            }
            if !(48 <= c && c <= 57) {
                assert(!is_digit(d[i - start]));
                assert(!all_digits(d));
                return None;
            }
            value = value * 10 + (c - 48) as u32;
            if value > 65535 {
                proof {
                    if all_digits(d) {
                        assert(d.take(i - start + 1) =~= next);
                        lemma_digits_grow(d, i - start + 1);
                    }
                }
                return None;
            }
            i = i + 1;
        }
        proof {
            assert(b@.subrange(start as int, i as int) =~= d);
            assert forall|j: int| 0 <= j < d.len() implies is_digit(#[trigger] d[j]) by {
                assert(d[j] == b@[start + j]);
            }
            assert(all_digits(d));
        }
        Some(value as u16)
    }

    /// Parses a full FEN string into structured board data; `None` where the
    /// string cannot be read.
    pub fn try_parse(fen: &str) -> (r: Option<FenData>)
        ensures
            r is Some == fen_ok(fen.spec_bytes()),
            r matches Some(d) ==> fen_describes(d, fen.spec_bytes()),
    {
        let ghost bs = fen.spec_bytes();
        let b = fen.as_bytes();
        let n = b.len();
        proof {
            assert(b@.subrange(0, n as int) =~= bs);
            lemma_split_nonempty(bs, 47);
        }
        // Split the board layout from the rest of the FEN. The last slash
        // segment still contains the side-to-move and metadata fields.
        let segs = split_spans(b, 0, n, 47);
        let (last_lo, last_hi) = segs[segs.len() - 1];
        assert(spans_text(b@, segs@)[segs@.len() - 1] == split_seq(bs, 47).last());
        let fields = word_spans(b, last_lo, last_hi);
        assert(spans_text(b@, fields@) == fen_fields(bs));
        if fields.len() < 6 {
            return None;
        }
        let ghost ft = fen_fields(bs);
        // Put the last board row back so all 8 ranks can be processed uniformly.
        let mut rows: Vec<(usize, usize)> = Vec::new();
        let mut k: usize = 0;
        assert(segs@.len() >= 1);
        while k < segs.len() - 1
            invariant
                0 <= k < segs@.len(),
                spans_within(segs@, 0, n as int),
                rows@ == segs@.take(k as int),
            decreases segs@.len() - k,
        {
            rows.push(segs[k]);
            proof {
                assert(segs@.take(k + 1) =~= segs@.take(k as int).push(segs@[k as int]));
            }
            k = k + 1;
        }
        rows.push(fields[0]);
        proof {
            assert(spans_text(b@, rows@) =~= fen_rows(bs));
        }
        let (s_lo, s_hi) = fields[1];
        assert(ft[1] == b@.subrange(s_lo as int, s_hi as int));
        let side = if s_hi - s_lo == 1 && b[s_lo] == 119 {
            assert(ft[1] =~= seq![119u8]);
            Color::White
        } else if s_hi - s_lo == 1 && b[s_lo] == 98 {
            assert(ft[1] =~= seq![98u8]);
            Color::Black
        } else {
            proof {
                if ft[1] == seq![119u8] || ft[1] == seq![98u8] {
                    assert(ft[1].len() == 1);
                    assert(ft[1][0] == b@[s_lo as int]);
                }
            }
            return None;
        };
        let (c_lo, c_hi) = fields[2];
        assert(ft[2] == b@.subrange(c_lo as int, c_hi as int));
        let castle = match Self::parse_castling(b, c_lo, c_hi) {
            Some(c) => c,
            None => {
                return None;
            },
        };
        let (e_lo, e_hi) = fields[3];
        let ghost et = b@.subrange(e_lo as int, e_hi as int);
        assert(ft[3] == et);
        let en_passant_sq = if e_hi - e_lo == 1 && b[e_lo] == 45 {
            assert(et =~= seq![45u8]);
            None
        } else {
            proof {
                if et == seq![45u8] {
                    assert(et.len() == 1);
                    assert(et[0] == b@[e_lo as int]);
                }
            }
            if e_hi - e_lo < 2 {
                return None;
            }
            let f = b[e_lo];
            let r = b[e_lo + 1];
            assert(et[0] == f && et[1] == r);
            if f < 97 || r < 49 {
                return None;
            }
            let rank = r - 49;
            let file = f - 97;
            if rank > 31 {
                return None;
            }
            let v = rank * 8;
            if v > 255 - file {
                return None;
            }
            Some(v + file)
        };
        let (h_lo, h_hi) = fields[4];
        assert(ft[4] == b@.subrange(h_lo as int, h_hi as int));
        let half_move = match Self::parse_u16(b, h_lo, h_hi) {
            Some(v) => v,
            None => {
                return None;
            },
        };
        let (f_lo, f_hi) = fields[5];
        assert(ft[5] == b@.subrange(f_lo as int, f_hi as int));
        let full_move = match Self::parse_u16(b, f_lo, f_hi) {
            Some(v) => v,
            None => {
                return None;
            },
        };
        let pieces = match Self::pieces_to_bitboard(b, &rows) {
            Some(p) => p,
            None => {
                return None;
            },
        };
        Some(FenData {
            pieces,
            side_to_move: side,
            castling_rights: castle,
            en_passant_sq,
            half_move,
            full_move,
        })
    }

    /// Parses a full FEN string into structured board data.
    pub fn parse(fen: &str) -> (r: FenData)
        requires
            fen_ok(fen.spec_bytes()),
        ensures
            fen_describes(r, fen.spec_bytes()),
    {
        Self::try_parse(fen).unwrap()
    }
}


/// Every row covers at most eight squares.
pub open spec fn rows_fit(rows: Seq<Seq<u8>>) -> bool {
    forall|i: int| 0 <= i < rows.len() ==> row_file(#[trigger] rows[i]) <= 8
}

/// Twelve bitboards, no square held by two of them, every held square at
/// least `lo`.
spec fn disjoint_from(pcs: Seq<u64>, lo: int) -> bool {
    &&& pcs.len() == 12
    &&& forall|i: int, j: int, s: int|
        #![trigger bit(pcs[i], s), bit(pcs[j], s)]
        0 <= i < 12 && 0 <= j < 12 && i != j && bit(pcs[i], s) ==> !bit(pcs[j], s)
    &&& forall|i: int, s: int| 0 <= i < 12 && #[trigger] bit(pcs[i], s) ==> s >= lo
}

proof fn lemma_row_file_grows(row: Seq<u8>)
    ensures
        row_file(row) >= 0,
        row.len() > 0 ==> row_file(row.drop_last()) <= row_file(row),
        row.len() > 0 && fen_piece(row.last()) is Some ==> row_file(row) == row_file(row.drop_last()) + 1,
    decreases row.len(),
{
    if row.len() > 0 {
        lemma_row_file_grows(row.drop_last());
    }
}

/// A row's pieces land on distinct squares of its rank, below the file it reaches.
proof fn lemma_row_bits_disjoint(pcs: Seq<u64>, row: Seq<u8>, rank: int)
    requires
        0 <= rank < 8,
        row_ok(row, rank),
        row_file(row) <= 8,
        disjoint_from(pcs, rank * 8 + 8),
    ensures
        row_bits(pcs, row, rank).len() == 12,
        forall|i: int, j: int, s: int|
            #![trigger bit(row_bits(pcs, row, rank)[i], s), bit(row_bits(pcs, row, rank)[j], s)]
            0 <= i < 12 && 0 <= j < 12 && i != j && bit(row_bits(pcs, row, rank)[i], s) ==> !bit(
                row_bits(pcs, row, rank)[j],
                s,
            ),
        forall|i: int, s: int|
            0 <= i < 12 && #[trigger] bit(row_bits(pcs, row, rank)[i], s) ==> s >= rank * 8 + 8 || (rank
                * 8 <= s < rank * 8 + row_file(row)),
    decreases row.len(),
{
    if row.len() > 0 {
        let r0 = row.drop_last();
        lemma_row_file_grows(row);
        lemma_row_file_grows(r0);
        lemma_row_bits_disjoint(pcs, r0, rank);
        let prev = row_bits(pcs, r0, rank);
        match fen_piece(row.last()) {
            Some(p) => {
                let sq = rank * 8 + row_file(r0);
                lemma_piece_index_roundtrip(p);
                let k = piece_index(p);
                let next = row_bits(pcs, row, rank);
                assert(next == placed_at(prev, p, sq));
                assert(0 <= sq < rank * 8 + 8);
                assert forall|i: int, s: int| 0 <= i < 12 && #[trigger] bit(next[i], s) implies bit(prev[i], s)
                    || (i == k && s == sq) by {
                    lemma_bit_set(prev[k], sq, s);
                }
                assert forall|i: int, j: int, s: int|
                    0 <= i < 12 && 0 <= j < 12 && i != j && bit(next[i], s) implies !bit(next[j], s) by {
                    lemma_bit_set(prev[k], sq, s);
                    if bit(next[j], s) {
                        assert(bit(prev[i], s) || (i == k && s == sq));
                        assert(bit(prev[j], s) || (j == k && s == sq));
                    }
                }
            },
            None => {},
        }
    }
}

/// The bitboards of the first `n` rows of a placement whose rows fit hold no
/// square twice, and only squares of those rows.
proof fn lemma_rows_bits_disjoint(rows: Seq<Seq<u8>>, n: int)
    requires
        rows_ok(rows),
        rows_fit(rows),
        0 <= n <= rows.len(),
    ensures
        disjoint_from(rows_bits(rows, n), (8 - n) * 8),
    decreases n,
{
    if n == 0 {
        let z = rows_bits(rows, 0);
        assert forall|i: int, s: int| 0 <= i < 12 && #[trigger] bit(z[i], s) implies s >= 64 by {
            assert(z[i] == 0u64);
            crate::bitboard::lemma_empty_is_zero(0u64);
        }
    } else {
        lemma_rows_bits_disjoint(rows, n - 1);
        assert(row_ok(rows[n - 1], 7 - (n - 1)));
        assert(row_file(rows[n - 1]) <= 8);
        lemma_row_bits_disjoint(rows_bits(rows, n - 1), rows[n - 1], 7 - (n - 1));
    }
}

/// A FEN whose rows each cover at most eight squares describes a well-formed
/// board: no square is held by two pieces.
pub proof fn lemma_fen_well_formed(b: Seq<u8>)
    requires
        fen_ok(b),
        rows_fit(fen_rows(b)),
    ensures
        well_formed(fen_position(b)),
{
    let rows = fen_rows(b);
    lemma_rows_bits_disjoint(rows, rows.len() as int);
}

/// The position a FEN describes, its occupancy masks computed from the pieces.
pub open spec fn fen_position(b: Seq<u8>) -> Position {
    let f = fen_fields(b);
    let pcs = rows_bits(fen_rows(b), fen_rows(b).len() as int);
    Position {
        pieces: pcs,
        colors: seq![side_bits(pcs, Color::White), side_bits(pcs, Color::Black)],
        side_to_move: if f[1] == seq![119u8] {
            Color::White
        } else {
            Color::Black
        },
        castling_rights: castle_bits(f[2]),
        en_passant_sq: ep_value(f[3]),
        half_move_clock: u16_text(f[4])->Some_0,
        full_move_clock: u16_text(f[5])->Some_0,
    }
}

impl Board {
    /// Builds a board state from a FEN string.
    pub fn initialize_from_fen(fen: &str) -> (r: Board)
        requires
            fen_ok(fen.spec_bytes()),
        ensures
            r@ == fen_position(fen.spec_bytes()),
            r.past() == Seq::<Position>::empty(),
            rows_fit(fen_rows(fen.spec_bytes())) ==> well_formed(r@),
    {
        proof {
            if rows_fit(fen_rows(fen.spec_bytes())) {
                lemma_fen_well_formed(fen.spec_bytes());
            }
        }
        let fen_data = FenData::parse(fen);
        let white_bitboard = Self::get_color_bitboard(&fen_data.pieces, Color::White);
        let black_bitboard = Self::get_color_bitboard(&fen_data.pieces, Color::Black);
        let board = Board {
            pieces: fen_data.pieces,
            colors: [white_bitboard, black_bitboard],
            side_to_move: fen_data.side_to_move,
            castling_rights: fen_data.castling_rights,
            en_passant_sq: fen_data.en_passant_sq,
            half_move_clock: fen_data.half_move,
            full_move_clock: fen_data.full_move,
            history: Vec::new(),
        };
        assert(board.colors@ =~= seq![white_bitboard, black_bitboard]);
        assert(board.past() =~= Seq::<Position>::empty());
        board
    }
}

} // verus!

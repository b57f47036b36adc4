//! Reading the commands of the UCI protocol.
//!
//! A command line is read as its whitespace-separated words (see
//! [`words`]); what each command asks for is stated over those words.
use vstd::prelude::*;
use vstd::string::StringSliceAdditionalSpecFns;
use crate::board::{Board, Position};
use crate::board::moves::{Move, move_bits, promo_code, uci_ok, move_from, move_to, move_flag, promotion_letter, code, lemma_code_fields, lemma_move_bits_code};
use crate::board::play::{playable, made, uci_squares_ok, uci_move_squares};
use crate::utils::square_of;
use crate::board::fen::{words, spans_text, spans_within, word_spans, digits_value, unsigned_digits, all_digits, is_digit, lemma_digits_grow};

verus! {

/// How a `position` command sets up the board.
#[derive(Debug)]
pub struct Setup {
    /// The words, by their places in the line, that make up the FEN; `None`
    /// for the start position.
    pub fen: Option<(usize, usize)>,
    /// The place of the first word after `moves`, when the line has a
    /// `moves` word; the moves to play are the words from there on.
    pub moves: Option<usize>,
}

/// What a command line asks for.
#[derive(Debug)]
pub enum Command {
    /// `uci`: the engine names itself.
    Identify,
    /// `isready`.
    Ready,
    /// `ucinewgame`: back to the start position and the opening book.
    NewGame,
    /// `position`: any running search stops; then the board is set up as
    /// the setup says, if the line says how.
    Position(Option<Setup>),
    /// `go`: a search to the given depth.
    Go(u32),
    /// `stop`: any running search stops.
    Stop,
    /// `quit`: any running search stops, and the engine ends.
    Quit,
    /// A line that asks for nothing: a blank one, `setoption`, or an
    /// unknown word.
    Nothing,
}

/// The word `uci`.
pub open spec fn uci_word() -> Seq<u8> {
    seq![117u8, 99, 105]
}

/// The word `isready`.
pub open spec fn isready_word() -> Seq<u8> {
    seq![105u8, 115, 114, 101, 97, 100, 121]
}

/// The word `ucinewgame`.
pub open spec fn ucinewgame_word() -> Seq<u8> {
    seq![117u8, 99, 105, 110, 101, 119, 103, 97, 109, 101]
}

/// The word `position`.
pub open spec fn position_word() -> Seq<u8> {
    seq![112u8, 111, 115, 105, 116, 105, 111, 110]
}

/// The word `startpos`.
pub open spec fn startpos_word() -> Seq<u8> {
    seq![115u8, 116, 97, 114, 116, 112, 111, 115]
}

/// The word `fen`.
pub open spec fn fen_word() -> Seq<u8> {
    seq![102u8, 101, 110]
}

/// The word `moves`.
pub open spec fn moves_word() -> Seq<u8> {
    seq![109u8, 111, 118, 101, 115]
}

/// The word `go`.
pub open spec fn go_word() -> Seq<u8> {
    seq![103u8, 111]
}

/// The word `depth`.
pub open spec fn depth_word() -> Seq<u8> {
    seq![100u8, 101, 112, 116, 104]
}

/// The word `stop`.
pub open spec fn stop_word() -> Seq<u8> {
    seq![115u8, 116, 111, 112]
}

/// The word `quit`.
pub open spec fn quit_word() -> Seq<u8> {
    seq![113u8, 117, 105, 116]
}

/// The place of the first word `x` of `w` from place `i` on.
pub open spec fn word_index(w: Seq<Seq<u8>>, x: Seq<u8>, i: int) -> Option<int>
    decreases w.len() - i,
{
    if i < 0 || i >= w.len() {
        None
    } else if w[i] == x {
        Some(i)
    } else {
        word_index(w, x, i + 1)
    }
}

/// The place found is at or after `i`, within `w`, and holds `x`.
pub(crate) proof fn lemma_word_index(w: Seq<Seq<u8>>, x: Seq<u8>, i: int)
    requires
        0 <= i,
    ensures
        word_index(w, x, i) matches Some(j) ==> i <= j < w.len() && w[j] == x,
    decreases w.len() - i,
{
    if 0 <= i < w.len() && w[i] != x {
        lemma_word_index(w, x, i + 1);
    }
}

/// A `u32` in decimal, as `str::parse::<u32>` reads it: an optional `+`, then
/// at least one digit, and a value that fits.
pub open spec fn u32_text(s: Seq<u8>) -> Option<u32> {
    let d = unsigned_digits(s);
    if d.len() > 0 && all_digits(d) && digits_value(d) <= 0xffff_ffff {
        Some(digits_value(d) as u32)
    } else {
        None
    }
}

/// The depth a search runs to when `go` does not say.
pub const DEFAULT_SEARCH_DEPTH: u32 = 4;

/// The depth a `go` line asks for: the number after its first `depth` word,
/// or [`DEFAULT_SEARCH_DEPTH`] where there is none or it cannot be read.
pub open spec fn depth_of(w: Seq<Seq<u8>>) -> u32 {
    match word_index(w, depth_word(), 0) {
        Some(i) => if i + 1 < w.len() && u32_text(w[i + 1]) is Some {
            u32_text(w[i + 1])->Some_0
        } else {
            DEFAULT_SEARCH_DEPTH
        },
        None => DEFAULT_SEARCH_DEPTH,
    }
}

/// The setup a `position` line with the words `w` asks for.
pub open spec fn setup_of(w: Seq<Seq<u8>>) -> Option<Setup> {
    let mi = word_index(w, moves_word(), 0);
    let moves = match mi {
        Some(i) => Some((i + 1) as usize),
        None => None,
    };
    if w.len() < 2 {
        None
    } else if w[1] == startpos_word() {
        Some(Setup { fen: None, moves })
    } else if w[1] == fen_word() {
        let end = match mi {
            Some(i) => i,
            None => w.len() as int,
        };
        Some(Setup { fen: Some((2usize, end as usize)), moves })
    } else {
        None
    }
}

/// What a line with the words `w` asks for.
pub open spec fn command_of(w: Seq<Seq<u8>>) -> Command {
    if w.len() == 0 {
        Command::Nothing
    } else if w[0] == uci_word() {
        Command::Identify
    } else if w[0] == isready_word() {
        Command::Ready
    } else if w[0] == ucinewgame_word() {
        Command::NewGame
    } else if w[0] == position_word() {
        Command::Position(setup_of(w))
    } else if w[0] == go_word() {
        Command::Go(depth_of(w))
    } else if w[0] == stop_word() {
        Command::Stop
    } else if w[0] == quit_word() {
        Command::Quit
    } else {
        Command::Nothing
    }
}

/// Whether the word at `sp` in `b` is `lit`.
fn word_is(b: &[u8], sp: (usize, usize), lit: &[u8]) -> (r: bool)
    requires
        sp.0 <= sp.1 <= b@.len(),
    ensures
        r == (b@.subrange(sp.0 as int, sp.1 as int) == lit@),
{
    let (lo, hi) = sp;
    if hi - lo != lit.len() {
        return false;
    }
    let mut i: usize = 0;
    while i < lit.len()
        invariant
            lo == sp.0,
            hi == sp.1,
            lo <= hi <= b@.len(),
            hi - lo == lit@.len(),
            0 <= i <= lit@.len(),
            forall|j: int| 0 <= j < i ==> b@[lo + j] == lit@[j],
        decreases lit@.len() - i,
    {
        if b[lo + i] != lit[i] {
            assert(b@.subrange(lo as int, hi as int)[i as int] != lit@[i as int]);
            return false;
        }
        i = i + 1;
    }
    assert(b@.subrange(lo as int, hi as int) =~= lit@);
    true
}

/// The first place, from `i` on, of the word `lit` among the words at `spans`.
fn find_word(b: &[u8], spans: &Vec<(usize, usize)>, lit: &[u8]) -> (r: Option<usize>)
    requires
        spans_within(spans@, 0, b@.len() as int),
    ensures
        r == match word_index(spans_text(b@, spans@), lit@, 0) {
            Some(i) => Some(i as usize),
            None => None::<usize>,
        },
        r matches Some(i) ==> i < spans@.len(),
{
    let ghost w = spans_text(b@, spans@);
    let mut i: usize = 0;
    while i < spans.len()
        invariant
            0 <= i <= spans@.len(),
            w == spans_text(b@, spans@),
            spans_within(spans@, 0, b@.len() as int),
            word_index(w, lit@, 0) == word_index(w, lit@, i as int),
        decreases spans@.len() - i,
    {
        assert(w[i as int] == b@.subrange(spans@[i as int].0 as int, spans@[i as int].1 as int));
        if word_is(b, spans[i], lit) {
            return Some(i);
        }
        i = i + 1;
    }
    None
}

/// Reads a `u32` in decimal from `b[lo..hi]`, as `str::parse::<u32>` does.
fn parse_u32(b: &[u8], lo: usize, hi: usize) -> (r: Option<u32>)
    requires
        lo <= hi <= b@.len(),
    ensures
        r == u32_text(b@.subrange(lo as int, hi as int)),
{
    let ghost whole = b@.subrange(lo as int, hi as int);
    let start = if lo < hi && b[lo] == 43 {
        lo + 1
    } else {
        lo
    };
    let ghost d = b@.subrange(start as int, hi as int);
    proof {
        if lo < hi && b@[lo as int] == 43 {
            assert(whole.skip(1) =~= d);
        } else {
            assert(whole =~= d);
        }
    }
    if start == hi {
        return None;
    }
    let mut value: u64 = 0;
    let mut i: usize = start;
    proof {
        assert(b@.subrange(start as int, start as int) =~= Seq::<u8>::empty());
    }
    while i < hi
        invariant
            lo <= start <= i <= hi <= b@.len(),
            start < hi,
            whole == b@.subrange(lo as int, hi as int),
            d == b@.subrange(start as int, hi as int),
            unsigned_digits(whole) == d,
            forall|j: int| start <= j < i ==> is_digit(#[trigger] b@[j]),
            value as int == digits_value(b@.subrange(start as int, i as int)),
            value <= 0xffff_ffff,
        decreases hi - i,
    {
        let c = b[i];
        let ghost next = b@.subrange(start as int, i + 1);
        proof {
            assert(next.drop_last() =~= b@.subrange(start as int, i as int));
            assert(d[i - start] == c);
        }
        if !(48 <= c && c <= 57) {
            assert(!is_digit(d[i - start]));
            assert(!all_digits(d));
            return None;
        }
        value = value * 10 + (c - 48) as u64;
        if value > 0xffff_ffff {
            proof {
                if all_digits(d) {
                    assert(d.take(i - start + 1) =~= next);
                    lemma_digits_grow(d, i - start + 1);
                }
            }
            return None;
        }
        i = i + 1;
    }
    proof {
        assert(b@.subrange(start as int, i as int) =~= d);
        assert forall|j: int| 0 <= j < d.len() implies is_digit(#[trigger] d[j]) by {
            assert(d[j] == b@[start + j]);
        }
        assert(all_digits(d));
    }
    Some(value as u32)
}

/// Reads a command line: what it asks for, and where its words lie in it.
pub fn read_command(line: &str) -> (r: (Command, Vec<(usize, usize)>))
    ensures
        spans_within(r.1@, 0, line.spec_bytes().len() as int),
        spans_text(line.spec_bytes(), r.1@) == words(line.spec_bytes()),
        r.0 == command_of(words(line.spec_bytes())),
{
    let ghost bs = line.spec_bytes();
    let b = line.as_bytes();
    let n = b.len();
    let spans = word_spans(b, 0, n);
    proof {
        assert(b@.subrange(0, n as int) =~= bs);
    }
    let ghost w = words(bs);
    assert(w.len() == spans@.len());
    if spans.len() == 0 {
        return (Command::Nothing, spans);
    }
    let k_uci: [u8; 3] = [117u8, 99, 105];
    let k_isready: [u8; 7] = [105u8, 115, 114, 101, 97, 100, 121];
    let k_newgame: [u8; 10] = [117u8, 99, 105, 110, 101, 119, 103, 97, 109, 101];
    let k_position: [u8; 8] = [112u8, 111, 115, 105, 116, 105, 111, 110];
    let k_moves: [u8; 5] = [109u8, 111, 118, 101, 115];
    let k_startpos: [u8; 8] = [115u8, 116, 97, 114, 116, 112, 111, 115];
    let k_fen: [u8; 3] = [102u8, 101, 110];
    let k_go: [u8; 2] = [103u8, 111];
    let k_depth: [u8; 5] = [100u8, 101, 112, 116, 104];
    let k_stop: [u8; 4] = [115u8, 116, 111, 112];
    let k_quit: [u8; 4] = [113u8, 117, 105, 116];
    proof {
        assert(k_uci@ =~= uci_word());
        assert(k_isready@ =~= isready_word());
        assert(k_newgame@ =~= ucinewgame_word());
        assert(k_position@ =~= position_word());
        assert(k_moves@ =~= moves_word());
        assert(k_startpos@ =~= startpos_word());
        assert(k_fen@ =~= fen_word());
        assert(k_go@ =~= go_word());
        assert(k_depth@ =~= depth_word());
        assert(k_stop@ =~= stop_word());
        assert(k_quit@ =~= quit_word());
    }
    assert(w[0] == b@.subrange(spans@[0].0 as int, spans@[0].1 as int));
    let first = spans[0];
    if word_is(b, first, &k_uci) {
        return (Command::Identify, spans);
    }
    if word_is(b, first, &k_isready) {
        return (Command::Ready, spans);
    }
    if word_is(b, first, &k_newgame) {
        return (Command::NewGame, spans);
    }
    if word_is(b, first, &k_position) {
        let mi = find_word(b, &spans, &k_moves);
        proof {
            lemma_word_index(w, moves_word(), 0);
        }
        let moves = match mi {
            Some(i) => Some(i + 1),
            None => None,
        };
        assert(moves == match word_index(w, moves_word(), 0) {
            Some(i) => Some((i + 1) as usize),
            None => None,
        });
        if spans.len() < 2 {
            return (Command::Position(None), spans);
        }
        assert(w[1] == b@.subrange(spans@[1].0 as int, spans@[1].1 as int));
        if word_is(b, spans[1], &k_startpos) {
            return (Command::Position(Some(Setup { fen: None, moves })), spans);
        }
        if word_is(b, spans[1], &k_fen) {
            let end = match mi {
                Some(i) => i,
                None => spans.len(),
            };
            return (Command::Position(Some(Setup { fen: Some((2, end)), moves })), spans);
        }
        return (Command::Position(None), spans);
    }
    if word_is(b, first, &k_go) {
        let di = find_word(b, &spans, &k_depth);
        proof {
            lemma_word_index(w, depth_word(), 0);
        }
        let depth = match di {
            Some(i) => {
                if i + 1 < spans.len() {
                    let (lo, hi) = spans[i + 1];
                    assert(w[i + 1] == b@.subrange(lo as int, hi as int));
                    match parse_u32(b, lo, hi) {
                        Some(v) => v,
                        None => DEFAULT_SEARCH_DEPTH,
                    }
                } else {
                    DEFAULT_SEARCH_DEPTH
                }
            },
            None => DEFAULT_SEARCH_DEPTH,
        };
        return (Command::Go(depth), spans);
    }
    if word_is(b, first, &k_stop) {
        return (Command::Stop, spans);
    }
    if word_is(b, first, &k_quit) {
        return (Command::Quit, spans);
    }
    (Command::Nothing, spans)
}

/// The code of the move a UCI move text names.
pub open spec fn uci_code(b: Seq<u8>) -> int {
    move_bits(
        square_of(b[0], b[1]) as u16,
        square_of(b[2], b[3]) as u16,
        if b.len() > 4 {
            promo_code(b[4])
        } else {
            0
        },
    ) as int
}

/// The text names a move, on squares of the board, that can be played in `p`.
pub open spec fn uci_playable(p: crate::board::Position, b: Seq<u8>) -> bool {
    &&& uci_ok(b)
    &&& uci_squares_ok(b)
    &&& playable(p, move_from(uci_code(b)), move_to(uci_code(b)), promotion_letter(move_flag(uci_code(b))))
}

/// Plays a move of a `position` command, given in UCI notation. `false`, the
/// board left as it was, when the text names no move that can be played.
pub fn play_uci_move(board: &mut Board, mv: &str) -> (r: bool)
    ensures
        r == uci_playable(old(board)@, mv.spec_bytes()),
        r ==> (final(board).past(), final(board)@) == made(old(board).past(), old(board)@, uci_code(mv.spec_bytes())),
        !r ==> *final(board) == *old(board),
{
    let squares = uci_move_squares(mv);
    if !Move::is_uci(mv) {
        return false;
    }
    let (from, to) = match squares {
        Some(sq) => sq,
        None => {
            return false;
        },
    };
    let m = Move::from_uci(mv);
    proof {
        let b = mv.spec_bytes();
        let flag: u16 = if b.len() > 4 {
            promo_code(b[4])
        } else {
            0
        };
        lemma_move_bits_code(from as u16, to as u16, flag);
        lemma_code_fields(from as int, to as int, flag as int);
        assert(m.0 as int == uci_code(b));
        assert(move_from(m.0 as int) == from && move_to(m.0 as int) == to);
    }
    if !board.can_play(from, to, m.promotion_piece()) {
        return false;
    }
    board.make_move(&m);
    true
}

/// The bytes of each move text.
pub open spec fn texts(moves: Seq<&str>) -> Seq<Seq<u8>> {
    moves.map_values(|m: &str| m.spec_bytes())
}

/// The board's history and position after the moves `moves` are played in
/// turn from (`past`, `cur`); `None` when one of them cannot be played.
pub open spec fn replay(past: Seq<Position>, cur: Position, moves: Seq<Seq<u8>>) -> Option<(Seq<Position>, Position)>
    decreases moves.len(),
{
    if moves.len() == 0 {
        Some((past, cur))
    } else {
        match replay(past, cur, moves.drop_last()) {
            None => None,
            Some(st) => if uci_playable(st.1, moves.last()) {
                Some(made(st.0, st.1, uci_code(moves.last())))
            } else {
                None
            },
        }
    }
}

/// Plays the moves of a `position` command in turn. `None` when all of them
/// were played; otherwise the place of the first that cannot be played, the
/// board left after the moves before it.
pub fn replay_moves(board: &mut Board, moves: &[&str]) -> (r: Option<usize>)
    ensures
        match r {
            None => replay(old(board).past(), old(board)@, texts(moves@)) == Some(
                (final(board).past(), final(board)@),
            ),
            Some(k) => {
                &&& k < moves@.len()
                &&& replay(old(board).past(), old(board)@, texts(moves@).take(k as int)) == Some(
                    (final(board).past(), final(board)@),
                )
                &&& !uci_playable(final(board)@, moves@[k as int].spec_bytes())
            },
        },
{
    let ghost start = (board.past(), board@);
    let mut i: usize = 0;
    proof {
        assert(texts(moves@).take(0) =~= Seq::<Seq<u8>>::empty());
    }
    while i < moves.len()
        invariant
            0 <= i <= moves@.len(),
            start == (old(board).past(), old(board)@),
            replay(start.0, start.1, texts(moves@).take(i as int)) == Some((board.past(), board@)),
        decreases moves.len() - i,
    {
        let ghost before = (board.past(), board@);
        if !play_uci_move(board, moves[i]) {
            return Some(i);
        }
        proof {
            let t = texts(moves@).take(i + 1);
            assert(t.drop_last() =~= texts(moves@).take(i as int));
            assert(t.last() == moves@[i as int].spec_bytes());
        }
        i = i + 1;
    }
    proof {
        assert(texts(moves@).take(moves@.len() as int) =~= texts(moves@));
    }
    None
}

} // verus!

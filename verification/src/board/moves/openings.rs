//! A small opening book: lines of UCI moves, one of which is followed at random.
use vstd::prelude::*;
use vstd::string::StrSliceExecFns;
use rand::RngExt;

verus! {

/// The text of each move of each line.
pub open spec fn lines_text(v: Seq<Vec<&str>>) -> Seq<Seq<Seq<char>>> {
    v.map_values(|l: Vec<&str>| l@.map_values(|m: &str| m@))
}

/// Italian, Ruy Lopez, Queen's Gambit Declined, English and Reti lines for White.
pub open spec fn white_openings_text() -> Seq<Seq<Seq<char>>> {
    seq![
        seq!["e2e4"@, "e7e5"@, "g1f3"@, "b1c3"@, "g8f6"@, "f1c4"@, "f8c5"@, "d2d3"@],
        seq!["e2e4"@, "e7e5"@, "g1f3"@, "b1c3"@, "a7a6"@, "f1b5"@, "g8f6"@, "e1g1"@],
        seq!["d2d4"@, "d7d5"@, "c2c4"@, "e7e6"@, "b1c3"@, "g8f6"@, "c1g5"@, "f8e7"@, "e2e3"@],
        seq!["c2c4"@, "c7c5"@, "g1f3"@, "g8f6"@, "b1c3"@, "b8c6"@, "d2d4"@, "c5d4"@, "f3d4"@],
        seq!["g1f3"@, "d7d5"@, "g2g3"@, "g8f6"@, "f1g2"@, "e7e6"@, "e1g1"@, "f8e7"@, "c2c4"@]
    ]
}

/// Italian, Ruy Lopez, Queen's Gambit Declined, English and Reti lines for White.
fn white_openings() -> (r: Vec<Vec<&'static str>>)
    ensures
        lines_text(r@) == white_openings_text(),
{
    let r = vec![
        vec!["e2e4", "e7e5", "g1f3", "b1c3", "g8f6", "f1c4", "f8c5", "d2d3"],
        vec!["e2e4", "e7e5", "g1f3", "b1c3", "a7a6", "f1b5", "g8f6", "e1g1"],
        vec!["d2d4", "d7d5", "c2c4", "e7e6", "b1c3", "g8f6", "c1g5", "f8e7", "e2e3"],
        vec!["c2c4", "c7c5", "g1f3", "g8f6", "b1c3", "b8c6", "d2d4", "c5d4", "f3d4"],
        vec!["g1f3", "d7d5", "g2g3", "g8f6", "f1g2", "e7e6", "e1g1", "f8e7", "c2c4"]
    ];
    assert(lines_text(r@) =~~= white_openings_text());
    r
}

/// Petroff, Sicilian, French and Caro-Kann replies to 1.e4.
pub open spec fn black_vs_e4_text() -> Seq<Seq<Seq<char>>> {
    seq![
        seq!["e7e5"@, "g1f3"@, "g8f6"@, "f3e5"@, "d7d6"@, "e5f3"@, "f6e4"@, "d2d4"@],
        seq!["c7c5"@, "g1f3"@, "d7d6"@, "d2d4"@, "c5d4"@, "f3d4"@, "g8f6"@, "b1c3"@, "a7a6"@],
        seq!["e7e6"@, "d2d4"@, "d7d5"@, "b1c3"@, "g8f6"@, "c1g5"@, "f8e7"@, "e2e5"@, "f6d7"@],
        seq!["c7c6"@, "d2d4"@, "d7d5"@, "e4e5"@, "c1f5"@, "g1f3"@, "e7e6"@, "f1e2"@, "c7c5"@]
    ]
}

/// Petroff, Sicilian, French and Caro-Kann replies to 1.e4.
fn black_vs_e4() -> (r: Vec<Vec<&'static str>>)
    ensures
        lines_text(r@) == black_vs_e4_text(),
{
    let r = vec![
        vec!["e7e5", "g1f3", "g8f6", "f3e5", "d7d6", "e5f3", "f6e4", "d2d4"],
        vec!["c7c5", "g1f3", "d7d6", "d2d4", "c5d4", "f3d4", "g8f6", "b1c3", "a7a6"],
        vec!["e7e6", "d2d4", "d7d5", "b1c3", "g8f6", "c1g5", "f8e7", "e2e5", "f6d7"],
        vec!["c7c6", "d2d4", "d7d5", "e4e5", "c1f5", "g1f3", "e7e6", "f1e2", "c7c5"]
    ];
    assert(lines_text(r@) =~~= black_vs_e4_text());
    r
}

/// King's Indian, Nimzo-Indian and Slav replies to 1.d4.
pub open spec fn black_vs_d4_text() -> Seq<Seq<Seq<char>>> {
    seq![
        seq!["g8f6"@, "c2c4"@, "g7g6"@, "b1c3"@, "f8g7"@, "e2e4"@, "d7d6"@, "g1f3"@, "e1g1"@],
        seq!["g8f6"@, "c2c4"@, "e7e6"@, "b1c3"@, "f8b4"@, "e2e3"@, "e1g1"@, "f1d3"@, "d7d5"@],
        seq!["d7d5"@, "c2c4"@, "c7c6"@, "g1f3"@, "g8f6"@, "b1c3"@, "e7e6"@, "e2e3"@, "b8d7"@]
    ]
}

/// King's Indian, Nimzo-Indian and Slav replies to 1.d4.
fn black_vs_d4() -> (r: Vec<Vec<&'static str>>)
    ensures
        lines_text(r@) == black_vs_d4_text(),
{
    let r = vec![
        vec!["g8f6", "c2c4", "g7g6", "b1c3", "f8g7", "e2e4", "d7d6", "g1f3", "e1g1"],
        vec!["g8f6", "c2c4", "e7e6", "b1c3", "f8b4", "e2e3", "e1g1", "f1d3", "d7d5"],
        vec!["d7d5", "c2c4", "c7c6", "g1f3", "g8f6", "b1c3", "e7e6", "e2e3", "b8d7"]
    ];
    assert(lines_text(r@) =~~= black_vs_d4_text());
    r
}

/// Reversed Sicilian and Symmetrical English replies to 1.c4.
pub open spec fn black_vs_c4_text() -> Seq<Seq<Seq<char>>> {
    seq![
        seq!["e7e5"@, "b1c3"@, "g8f6"@, "g1f3"@, "b8c6"@, "g2g3"@, "d7d5"@, "c4d5"@, "f3d5"@],
        seq!["c7c5"@, "g1f3"@, "b8c6"@, "d2d4"@, "c5d4"@, "f3d4"@, "g7g6"@, "e2e4"@, "f8g7"@]
    ]
}

/// Reversed Sicilian and Symmetrical English replies to 1.c4.
fn black_vs_c4() -> (r: Vec<Vec<&'static str>>)
    ensures
        lines_text(r@) == black_vs_c4_text(),
{
    let r = vec![
        vec!["e7e5", "b1c3", "g8f6", "g1f3", "b8c6", "g2g3", "d7d5", "c4d5", "f3d5"],
        vec!["c7c5", "g1f3", "b8c6", "d2d4", "c5d4", "f3d4", "g7g6", "e2e4", "f8g7"]
    ];
    assert(lines_text(r@) =~~= black_vs_c4_text());
    r
}

/// King's Indian and Queen's Gambit style replies to 1.Nf3.
pub open spec fn black_vs_nf3_text() -> Seq<Seq<Seq<char>>> {
    seq![
        seq!["g8f6"@, "c2c4"@, "g7g6"@, "g2g3"@, "f8g7"@, "f1g2"@, "e1g1"@, "b1c3"@, "d7d6"@],
        seq!["d7d5"@, "d2d4"@, "g8f6"@, "c2c4"@, "e7e6"@, "b1c3"@, "f8e7"@, "c1g5"@, "e1g1"@]
    ]
}

/// King's Indian and Queen's Gambit style replies to 1.Nf3.
fn black_vs_nf3() -> (r: Vec<Vec<&'static str>>)
    ensures
        lines_text(r@) == black_vs_nf3_text(),
{
    let r = vec![
        vec!["g8f6", "c2c4", "g7g6", "g2g3", "f8g7", "f1g2", "e1g1", "b1c3", "d7d6"],
        vec!["d7d5", "d2d4", "g8f6", "c2c4", "e7e6", "b1c3", "f8e7", "c1g5", "e1g1"]
    ];
    assert(lines_text(r@) =~~= black_vs_nf3_text());
    r
}

/// Replies to any other first move.
pub open spec fn black_default_text() -> Seq<Seq<Seq<char>>> {
    seq![
        seq!["d7d5"@, "c2c4"@, "e7e6"@, "g1f3"@, "g8f6"@, "b1c3"@],
        seq!["g8f6"@, "d2d4"@, "g7g6"@, "c2c4"@, "f8g7"@, "b1c3"@]
    ]
}

/// Replies to any other first move.
fn black_default() -> (r: Vec<Vec<&'static str>>)
    ensures
        lines_text(r@) == black_default_text(),
{
    let r = vec![
        vec!["d7d5", "c2c4", "e7e6", "g1f3", "g8f6", "b1c3"],
        vec!["g8f6", "d2d4", "g7g6", "c2c4", "f8g7", "b1c3"]
    ];
    assert(lines_text(r@) =~~= black_default_text());
    r
}


/// The lines to follow: White's own, or Black's replies to White's first move.
pub open spec fn pool_text(is_black: bool, first: Seq<char>) -> Seq<Seq<Seq<char>>> {
    if !is_black {
        white_openings_text()
    } else if first == "e2e4"@ {
        black_vs_e4_text()
    } else if first == "d2d4"@ {
        black_vs_d4_text()
    } else if first == "c2c4"@ {
        black_vs_c4_text()
    } else if first == "g1f3"@ {
        black_vs_nf3_text()
    } else {
        black_default_text()
    }
}

/// A line continues the moves played: it is longer, and starts with them.
pub open spec fn continues(line: Seq<Seq<char>>, played: Seq<Seq<char>>) -> bool {
    line.len() > played.len() && forall|j: int| 0 <= j < played.len() ==> #[trigger] played[j] == line[j]
}

/// What the book answers after the moves `played`: `None` when no line
/// continues them; otherwise the move after them in one of the lines that do.
pub open spec fn book_reply(lines: Seq<Seq<Seq<char>>>, played: Seq<Seq<char>>, r: Option<Seq<char>>) -> bool {
    match r {
        None => forall|i: int| 0 <= i < lines.len() ==> !continues(#[trigger] lines[i], played),
        Some(m) => exists|i: int|
            0 <= i < lines.len() && continues(#[trigger] lines[i], played) && m == lines[i][played.len() as int],
    }
}

/// The indices of the lines among the first `n` that continue `played`, in
/// the order of the lines.
pub open spec fn continuing(lines: Seq<Seq<Seq<char>>>, played: Seq<Seq<char>>, n: int) -> Seq<int>
    decreases n,
{
    if n <= 0 {
        Seq::empty()
    } else if continues(lines[n - 1], played) {
        continuing(lines, played, n - 1).push(n - 1)
    } else {
        continuing(lines, played, n - 1)
    }
}

/// The moves the book may answer after `played`: the move after them in each
/// line that continues them, in the order of the lines.
pub open spec fn book_choices(lines: Seq<Seq<Seq<char>>>, played: Seq<Seq<char>>) -> Seq<Seq<char>> {
    continuing(lines, played, lines.len() as int).map_values(|i: int| lines[i][played.len() as int])
}

/// The indices `continuing` gives are lines below `n` that continue `played`,
/// and every such line is among them.
proof fn lemma_continuing(lines: Seq<Seq<Seq<char>>>, played: Seq<Seq<char>>, n: int)
    requires
        0 <= n <= lines.len(),
    ensures
        forall|k: int| 0 <= k < continuing(lines, played, n).len() ==> {
            let c = #[trigger] continuing(lines, played, n)[k];
            0 <= c < n && continues(lines[c], played)
        },
        forall|i: int| 0 <= i < n && continues(#[trigger] lines[i], played) ==> continuing(lines, played, n).contains(i),
    decreases n,
{
    if n > 0 {
        lemma_continuing(lines, played, n - 1);
        let prev = continuing(lines, played, n - 1);
        if continues(lines[n - 1], played) {
            let c = prev.push(n - 1);
            assert(c[prev.len() as int] == n - 1);
            assert forall|i: int| 0 <= i < n && continues(#[trigger] lines[i], played) implies c.contains(i) by {
                if i < n - 1 {
                    let w = choose|w: int| 0 <= w < prev.len() && prev[w] == i;
                    assert(c[w] == i);
                }
            }
        }
    }
}

/// The square a move text starts from.
pub open spec fn from_square(m: Seq<char>) -> int {
    (m[0] as int - 97) + 8 * (m[1] as int - 49)
}

/// The square a move text lands on.
pub open spec fn to_square(m: Seq<char>) -> int {
    (m[2] as int - 97) + 8 * (m[3] as int - 49)
}

/// Square `s` holds a piece after the first `n` moves of `game`, played from
/// the initial position (the first two and the last two ranks full).
pub open spec fn held_after(game: Seq<Seq<char>>, n: int, s: int) -> bool
    decreases n,
{
    if n <= 0 {
        0 <= s < 16 || 48 <= s < 64
    } else if s == to_square(game[n - 1]) {
        true
    } else if s == from_square(game[n - 1]) {
        false
    } else {
        held_after(game, n - 1, s)
    }
}

/// Each of the first `n` moves of `game` starts from a square that holds a piece.
pub open spec fn moves_from_held(game: Seq<Seq<char>>, n: int) -> bool {
    forall|k: int| 0 <= k < n && k < game.len() ==> #[trigger] held_after(game, k, from_square(game[k]))
}

/// White's lines play out for eight moves of the game.
proof fn lemma_white_lines()
    ensures
        forall|i: int| 0 <= i < white_openings_text().len() ==> moves_from_held(#[trigger] white_openings_text()[i], 8),
{
    reveal_strlit("e2e4");
    reveal_strlit("e7e5");
    reveal_strlit("g1f3");
    reveal_strlit("b1c3");
    reveal_strlit("g8f6");
    reveal_strlit("f1c4");
    reveal_strlit("f8c5");
    reveal_strlit("d2d3");
    reveal_strlit("a7a6");
    reveal_strlit("f1b5");
    reveal_strlit("e1g1");
    reveal_strlit("d2d4");
    reveal_strlit("d7d5");
    reveal_strlit("c2c4");
    reveal_strlit("e7e6");
    reveal_strlit("c1g5");
    reveal_strlit("f8e7");
    reveal_strlit("e2e3");
    reveal_strlit("c7c5");
    reveal_strlit("b8c6");
    reveal_strlit("c5d4");
    reveal_strlit("f3d4");
    reveal_strlit("g2g3");
    reveal_strlit("f1g2");
    reveal_with_fuel(held_after, 9);
    assert forall|i: int| 0 <= i < white_openings_text().len() implies moves_from_held(#[trigger] white_openings_text()[i], 8) by {
        let g = white_openings_text()[i];
        assert forall|k: int| 0 <= k < 8 && k < g.len() implies #[trigger] held_after(g, k, from_square(g[k])) by {}
    }
}

/// Black's replies to 1.e4 play out for eight moves of the game.
proof fn lemma_e4_lines()
    ensures
        forall|i: int| 0 <= i < black_vs_e4_text().len() ==> moves_from_held(seq!["e2e4"@] + #[trigger] black_vs_e4_text()[i], 8),
{
    reveal_strlit("e2e4");
    reveal_strlit("e7e5");
    reveal_strlit("g1f3");
    reveal_strlit("g8f6");
    reveal_strlit("f3e5");
    reveal_strlit("d7d6");
    reveal_strlit("e5f3");
    reveal_strlit("f6e4");
    reveal_strlit("d2d4");
    reveal_strlit("c7c5");
    reveal_strlit("c5d4");
    reveal_strlit("f3d4");
    reveal_strlit("b1c3");
    reveal_strlit("a7a6");
    reveal_strlit("e7e6");
    reveal_strlit("d7d5");
    reveal_strlit("c1g5");
    reveal_strlit("f8e7");
    reveal_strlit("e2e5");
    reveal_strlit("f6d7");
    reveal_strlit("c7c6");
    reveal_strlit("e4e5");
    reveal_strlit("c1f5");
    reveal_strlit("f1e2");
    reveal_with_fuel(held_after, 9);
    assert forall|i: int| 0 <= i < black_vs_e4_text().len() implies moves_from_held(seq!["e2e4"@] + #[trigger] black_vs_e4_text()[i], 8) by {
        let g = seq!["e2e4"@] + black_vs_e4_text()[i];
        assert forall|k: int| 0 <= k < 8 && k < g.len() implies #[trigger] held_after(g, k, from_square(g[k])) by {}
    }
}

/// Black's replies to 1.d4 play out for eight moves of the game.
proof fn lemma_d4_lines()
    ensures
        forall|i: int| 0 <= i < black_vs_d4_text().len() ==> moves_from_held(seq!["d2d4"@] + #[trigger] black_vs_d4_text()[i], 8),
{
    reveal_strlit("d2d4");
    reveal_strlit("g8f6");
    reveal_strlit("c2c4");
    reveal_strlit("g7g6");
    reveal_strlit("b1c3");
    reveal_strlit("f8g7");
    reveal_strlit("e2e4");
    reveal_strlit("d7d6");
    reveal_strlit("g1f3");
    reveal_strlit("e1g1");
    reveal_strlit("e7e6");
    reveal_strlit("f8b4");
    reveal_strlit("e2e3");
    reveal_strlit("f1d3");
    reveal_strlit("d7d5");
    reveal_strlit("c7c6");
    reveal_strlit("b8d7");
    reveal_with_fuel(held_after, 9);
    assert forall|i: int| 0 <= i < black_vs_d4_text().len() implies moves_from_held(seq!["d2d4"@] + #[trigger] black_vs_d4_text()[i], 8) by {
        let g = seq!["d2d4"@] + black_vs_d4_text()[i];
        assert forall|k: int| 0 <= k < 8 && k < g.len() implies #[trigger] held_after(g, k, from_square(g[k])) by {}
    }
}

/// Black's replies to 1.c4 play out for eight moves of the game.
proof fn lemma_c4_lines()
    ensures
        forall|i: int| 0 <= i < black_vs_c4_text().len() ==> moves_from_held(seq!["c2c4"@] + #[trigger] black_vs_c4_text()[i], 8),
{
    reveal_strlit("c2c4");
    reveal_strlit("e7e5");
    reveal_strlit("b1c3");
    reveal_strlit("g8f6");
    reveal_strlit("g1f3");
    reveal_strlit("b8c6");
    reveal_strlit("g2g3");
    reveal_strlit("d7d5");
    reveal_strlit("c4d5");
    reveal_strlit("f3d5");
    reveal_strlit("c7c5");
    reveal_strlit("d2d4");
    reveal_strlit("c5d4");
    reveal_strlit("f3d4");
    reveal_strlit("g7g6");
    reveal_strlit("e2e4");
    reveal_strlit("f8g7");
    reveal_with_fuel(held_after, 9);
    assert forall|i: int| 0 <= i < black_vs_c4_text().len() implies moves_from_held(seq!["c2c4"@] + #[trigger] black_vs_c4_text()[i], 8) by {
        let g = seq!["c2c4"@] + black_vs_c4_text()[i];
        assert forall|k: int| 0 <= k < 8 && k < g.len() implies #[trigger] held_after(g, k, from_square(g[k])) by {}
    }
}

/// Black's replies to 1.Nf3 play out for eight moves of the game.
proof fn lemma_nf3_lines()
    ensures
        forall|i: int| 0 <= i < black_vs_nf3_text().len() ==> moves_from_held(seq!["g1f3"@] + #[trigger] black_vs_nf3_text()[i], 8),
{
    reveal_strlit("g1f3");
    reveal_strlit("g8f6");
    reveal_strlit("c2c4");
    reveal_strlit("g7g6");
    reveal_strlit("g2g3");
    reveal_strlit("f8g7");
    reveal_strlit("f1g2");
    reveal_strlit("e1g1");
    reveal_strlit("b1c3");
    reveal_strlit("d7d6");
    reveal_strlit("d7d5");
    reveal_strlit("d2d4");
    reveal_strlit("e7e6");
    reveal_strlit("f8e7");
    reveal_strlit("c1g5");
    reveal_with_fuel(held_after, 9);
    assert forall|i: int| 0 <= i < black_vs_nf3_text().len() implies moves_from_held(seq!["g1f3"@] + #[trigger] black_vs_nf3_text()[i], 8) by {
        let g = seq!["g1f3"@] + black_vs_nf3_text()[i];
        assert forall|k: int| 0 <= k < 8 && k < g.len() implies #[trigger] held_after(g, k, from_square(g[k])) by {}
    }
}

/// The game a book line stands for: White's lines from the initial
/// position, Black's after White's first move.
pub open spec fn book_game(is_black: bool, first: Seq<char>, line: Seq<Seq<char>>) -> Seq<Seq<char>> {
    if is_black {
        seq![first] + line
    } else {
        line
    }
}

/// The book's lines are openings that can be played: White's from the
/// initial position, and Black's after the first move of White that they
/// answer. In the first eight moves of each such game every move starts from a
/// square that holds a piece, so Black's replies to one first move are not
/// the replies to another (1.d4 lines play c2c4, which 1.c4 has already
/// played; 1.c4 lines take on d5 from c4, which 1.d4 leaves empty).
pub proof fn lemma_book_lines_play_out(is_black: bool, first: Seq<char>)
    requires
        !is_black || first == "e2e4"@ || first == "d2d4"@ || first == "c2c4"@ || first == "g1f3"@,
    ensures
        forall|i: int|
            0 <= i < pool_text(is_black, first).len() ==> moves_from_held(
                book_game(is_black, first, #[trigger] pool_text(is_black, first)[i]),
                8,
            ),
{
    reveal_strlit("e2e4");
    reveal_strlit("d2d4");
    reveal_strlit("c2c4");
    reveal_strlit("g1f3");
    lemma_white_lines();
    lemma_e4_lines();
    lemma_d4_lines();
    lemma_c4_lines();
    lemma_nf3_lines();
    if is_black {
        if first == "e2e4"@ {
            assert(pool_text(is_black, first) == black_vs_e4_text());
        } else if first == "d2d4"@ {
            assert(pool_text(is_black, first) == black_vs_d4_text());
        } else if first == "c2c4"@ {
            assert(pool_text(is_black, first) == black_vs_c4_text());
        } else {
            assert(pool_text(is_black, first) == black_vs_nf3_text());
        }
    }
}

/// The text of each played move.
pub open spec fn played_text(moves: Seq<String>) -> Seq<Seq<char>> {
    moves.map_values(|m: String| m@)
}

/// `rand::rng().random_range(0..n)`: an index below `n` drawn at random.
#[verifier::external_body]
fn random_index(n: usize) -> (r: usize)
    requires
        n > 0,
    ensures
        r < n,
{
    rand::rng().random_range(0..n)
}

/// The move after the first `n_played` moves of the `k`-th matching line.
pub fn book_pick(lines: &Vec<Vec<&'static str>>, matching: &Vec<usize>, n_played: usize, k: usize) -> (r: &'static str)
    requires
        k < matching@.len(),
        forall|j: int| 0 <= j < matching@.len() ==> #[trigger] matching@[j] < lines@.len(),
        n_played < lines@[matching@[k as int] as int]@.len(),
    ensures
        r@ == lines_text(lines@)[matching@[k as int] as int][n_played as int],
{
    let chosen = matching[k];
    lines[chosen][n_played]
}

/// The indices of the lines that continue the moves played after the first
/// `offset`, in the order of the lines.
pub fn matching_lines(lines: &Vec<Vec<&'static str>>, moves_played: &[String], offset: usize) -> (r: Vec<usize>)
    requires
        offset <= moves_played@.len(),
    ensures
        r@.len() == continuing(lines_text(lines@), played_text(moves_played@).skip(offset as int), lines@.len() as int).len(),
        forall|k: int| 0 <= k < r@.len() ==> #[trigger] r@[k] as int == continuing(
            lines_text(lines@),
            played_text(moves_played@).skip(offset as int),
            lines@.len() as int,
        )[k],
{
    let ghost played = played_text(moves_played@).skip(offset as int);
    let ghost text = lines_text(lines@);
    let total = moves_played.len();
    let n_played = total - offset;
    let mut matching: Vec<usize> = Vec::new();
    let mut i: usize = 0;
    while i < lines.len()
        invariant
            0 <= i <= lines@.len(),
            text == lines_text(lines@),
            played == played_text(moves_played@).skip(offset as int),
            n_played == played.len(),
            offset + n_played == moves_played@.len(),
            total == moves_played@.len(),
            matching@.len() == continuing(text, played, i as int).len(),
            forall|k: int| 0 <= k < matching@.len() ==> #[trigger] matching@[k] as int == continuing(text, played, i as int)[k],
        decreases lines@.len() - i,
    {
        let line = &lines[i];
        let mut ok = line.len() > n_played;
        let mut j: usize = 0;
        while ok && j < n_played
            invariant
                0 <= j <= n_played,
                0 <= i < lines@.len(),
                text == lines_text(lines@),
                *line == lines@[i as int],
                n_played == played.len(),
                n_played < line@.len() || !ok,
                text[i as int] == line@.map_values(|m: &str| m@),
                played == played_text(moves_played@).skip(offset as int),
                offset + n_played == moves_played@.len(),
                total == moves_played@.len(),
                ok ==> forall|k: int| 0 <= k < j ==> #[trigger] played[k] == text[i as int][k],
                !ok ==> !continues(text[i as int], played),
            decreases n_played - j,
        {
            let same = same_text(moves_played[offset + j].as_str(), line[j]);
            proof {
                assert(played[j as int] == moves_played@[offset + j]@);
                assert(text[i as int][j as int] == line@[j as int]@);
            }
            if !same {
                ok = false;
            }
            j = j + 1;
        }
        proof {
            assert(ok <==> continues(text[i as int], played));
        }
        if ok {
            matching.push(i);
        }
        i = i + 1;
    }
    matching
}

/// Whether two strings hold the same characters.
fn same_text(a: &str, b: &str) -> (r: bool)
    ensures
        r == (a@ == b@),
{
    let n = a.unicode_len();
    if n != b.unicode_len() {
        return false;
    }
    let mut i: usize = 0;
    while i < n
        invariant
            0 <= i <= n,
            n == a@.len(),
            n == b@.len(),
            forall|j: int| 0 <= j < i ==> a@[j] == b@[j],
        decreases n - i,
    {
        if a.get_char(i) != b.get_char(i) {
            return false;
        }
        i = i + 1;
    }
    assert(a@ =~= b@);
    true
}

/// Tracks whether the game is still following the book.
pub struct GameBook {
    pub in_book: bool,
}

impl GameBook {
    /// A book for a new game.
    pub fn new() -> (r: Self)
        ensures
            r.in_book,
    {
        GameBook { in_book: true }
    }

    /// The lines for the side to move.
    fn pool(is_black: bool, first: &str) -> (r: Vec<Vec<&'static str>>)
        ensures
            lines_text(r@) == pool_text(is_black, first@),
    {
        if !is_black {
            white_openings()
        } else if same_text(first, "e2e4") {
            black_vs_e4()
        } else if same_text(first, "d2d4") {
            black_vs_d4()
        } else if same_text(first, "c2c4") {
            black_vs_c4()
        } else if same_text(first, "g1f3") {
            black_vs_nf3()
        } else {
            black_default()
        }
    }

    /// The next book move, given the UCI moves played so far this game (both
    /// sides): the move after them in a book line that starts with them, the
    /// line picked at random. `None`, and the book left for the rest of the
    /// game, when no line continues the game.
    pub fn next_move(&mut self, moves_played: &[String], is_black: bool) -> (r: Option<&'static str>)
        ensures
            !old(self).in_book ==> r is None && final(self).in_book == old(self).in_book,
            old(self).in_book && is_black && moves_played@.len() == 0 ==> r is None && !final(self).in_book,
            old(self).in_book && !(is_black && moves_played@.len() == 0) ==> {
                &&& book_reply(
                    pool_text(is_black, if is_black { moves_played@[0]@ } else { Seq::empty() }),
                    played_text(moves_played@).skip(if is_black { 1int } else { 0int }),
                    match r {
                        Some(m) => Some(m@),
                        None => None,
                    },
                )
                &&& final(self).in_book == r is Some
                &&& (r is None <==> book_choices(
                    pool_text(is_black, if is_black { moves_played@[0]@ } else { Seq::empty() }),
                    played_text(moves_played@).skip(if is_black { 1int } else { 0int }),
                ).len() == 0)
                &&& r matches Some(m) ==> book_choices(
                    pool_text(is_black, if is_black { moves_played@[0]@ } else { Seq::empty() }),
                    played_text(moves_played@).skip(if is_black { 1int } else { 0int }),
                ).contains(m@)
            },
    {
        if !self.in_book {
            return None;
        }
        let offset: usize = if is_black { 1 } else { 0 };
        // 1. Identify the relevant pool of lines
        let lines = if !is_black {
            Self::pool(false, "")
        } else {
            if moves_played.len() == 0 {
                self.in_book = false;
                return None;
            }
            Self::pool(true, moves_played[0].as_str())
        };
        let ghost played = played_text(moves_played@).skip(offset as int);
        let ghost text = lines_text(lines@);
        let n_played = moves_played.len() - offset;
        let ghost pool = pool_text(is_black, if is_black { moves_played@[0]@ } else { Seq::empty() });
        assert(text == pool);
        assert(played_text(moves_played@).skip(if is_black { 1int } else { 0int }) == played);
        // 2. Filter the pool to the lines that match the moves played so far
        let matching = matching_lines(&lines, moves_played, offset);
        let ghost cont = continuing(text, played, text.len() as int);
        proof {
            assert(text.len() == lines@.len());
            lemma_continuing(text, played, text.len() as int);
        }
        if matching.len() == 0 {
            proof {
                assert forall|k: int| 0 <= k < text.len() implies !continues(#[trigger] text[k], played) by {
                    if continues(text[k], played) {
                        assert(cont.contains(k));
                    }
                }
                assert(book_reply(pool, played, None));
                assert(book_choices(pool, played).len() == 0);
            }
            self.in_book = false;
            return None;
        }
        // 3. Pick a move from one of the matching lines
        let k = random_index(matching.len());
        proof {
            assert forall|j: int| 0 <= j < matching@.len() implies #[trigger] matching@[j] < lines@.len() by {
                assert(matching@[j] as int == cont[j]);
            }
            assert(matching@[k as int] as int == cont[k as int]);
            assert(continues(text[cont[k as int]], played));
        }
        let r = book_pick(&lines, &matching, n_played, k);
        proof {
            let chosen = cont[k as int];
            assert(continues(pool[chosen], played));
            assert(book_reply(pool, played, Some(r@)));
            assert(book_choices(pool, played)[k as int] == r@);
        }
        Some(r)
    }
}

} // verus!

# pun

A small chess engine whose rules, move generator, search and perft counter are
verified with Verus.

- `src/board/` — the board (twelve piece bitboards, side to move, castling
  rights, en passant square, clocks and the history of earlier positions), FEN
  parsing, playing and taking back moves, and the text diagram of a board.
- `src/board/moves/` — move encoding and UCI notation, the rules of movement
  and attack (`rules.rs`), the generators for each kind of piece, legal-move
  filtering (`legal.rs`), the order in which moves are generated (`order.rs`)
  and the opening book.
- `src/search/` — material evaluation, the transposition table with its
  Zobrist keys, and negamax with alpha-beta pruning.
- `src/perft.rs` — perft counts and their division by first move.
- `app/` — the command-line program and the UCI loop, which do the I/O and
  threading around the library.
- `tests/` — tests of the library.

Every generator states the moves it yields as counts over move codes, and the
order in which it yields them as a key that rises along the list; together
these fix the list. The search states its result over a recursive spec of the
search. Each reading of the stop flag is kept in a ghost log: every root move
is searched unless a reading saw the flag set, and the search stops at the
first such reading, so a flag set before the call gives no move, and a flag
never set gives a legal move exactly when there is one (from a table whose
values lie strictly inside the search's bounds, as a new table's do). A lemma shows that the
result is fixed by the position, the table, the depth and how many root moves
were searched before a stop.

A FEN whose rows each cover at most eight squares gives a board on which no
square is held twice; a legal move changes the number of pieces only by a
capture; and the counts of a perft division add up to the perft count
when the en passant square, if any, holds no piece.

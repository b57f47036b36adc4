//! Negamax search with alpha-beta pruning and a transposition table.
//!
//! The search tries the legal moves in the order the generator yields them
//! (captures, then promotions, then quiet moves). Its result is stated over a
//! [`SearchTree`] that records that order at every node: given the tree,
//! [`search_result`] gives the value found and the table left behind.
use vstd::prelude::*;
use std::sync::Arc;
use std::sync::atomic::AtomicBool;
use crate::board::{Board, Piece, PieceType, Position, well_formed, lemma_piece_for_index};
use crate::board::moves::{Move, MoveGenerator, codes};
use crate::board::moves::rules::count_in;
use crate::board::moves::scan::{appends, keys_rise, added};
use crate::board::moves::legal::{
    after_move, legal_count, legal_key, in_check, grouped, lemma_count_member, lemma_after_move_well_formed,
    lemma_pseudo_playable, lemma_legal_moves_determined,
};
use crate::search::eval::{evaluate, material, lemma_material_bound};
use crate::search::transposition_table::{
    TTEntry, TranspositionTable, ZobristKeys, generate_keys, keys_drawn, lookup, slot, zobrist, empty_entry, lemma_put_then_get,
};

verus! {

/// A score beyond any position's value.
pub const INF: i32 = 1_000_000;

/// The score of being checkmated.
pub const MATE_VALUE: i32 = 100_000;

/// A score the search can negate: an `i32` other than `i32::MIN`.
pub open spec fn value_ok(v: int) -> bool {
    i32::MIN < v <= i32::MAX
}

/// A table the search can use: nonempty, no stored value `i32::MIN`.
pub open spec fn table_ok(t: Seq<TTEntry>) -> bool {
    &&& t.len() > 0
    &&& forall|i: int| 0 <= i < t.len() && (#[trigger] t[i]).depth != 0 ==> value_ok(t[i].value as int)
}

/// `s` holds the legal moves of the side to move, in the order the generator
/// yields them.
#[verifier::opaque]
pub open spec fn move_order(p: Position, s: Seq<Move>) -> bool {
    &&& forall|m: int| #[trigger] count_in(codes(s), m) == legal_count(p, p.side_to_move, m)
    &&& grouped(s)
    &&& keys_rise(s, |m: int| legal_key(p, p.side_to_move, m), 0, 73728)
}

/// A position has one move order.
pub proof fn lemma_move_order_unique(p: Position, s1: Seq<Move>, s2: Seq<Move>)
    requires
        move_order(p, s1),
        move_order(p, s2),
    ensures
        s1 == s2,
{
    reveal(move_order);
    lemma_legal_moves_determined(p, p.side_to_move, s1, s2);
}

/// The side to move has no legal move.
#[verifier::opaque]
pub open spec fn no_moves(p: Position) -> bool {
    forall|m: int| #[trigger] legal_count(p, p.side_to_move, m) == 0
}

/// How a search went below a node: the order in which it tried the moves,
/// and how each searched move's subtree went.
pub enum SearchTree {
    /// A node answered without trying moves.
    Leaf,
    /// A node whose moves were tried in this order.
    Branch(Seq<Move>, Seq<SearchTree>),
}

/// The state of a scan over a node's moves: alpha, the best score, the best
/// move, the table, and whether the window has closed.
pub type ScanState = (int, int, Option<Move>, Seq<TTEntry>, bool);

/// The scan state after a move that scored `score` and left the table `t`.
pub open spec fn step(prev: ScanState, score: int, mv: Move, t: Seq<TTEntry>, beta: int) -> ScanState {
    let (best, best_move) = if score > prev.1 {
        (score, Some(mv))
    } else {
        (prev.1, prev.2)
    };
    let alpha = if score > prev.0 {
        score
    } else {
        prev.0
    };
    (alpha, best, best_move, t, alpha >= beta)
}

/// The entry a node stores: its hash, best score, depth and best move.
pub open spec fn stored(t: Seq<TTEntry>, h: u64, best: int, depth: nat, best_move: Option<Move>) -> Seq<TTEntry> {
    match best_move {
        Some(mv) => t.update(
            slot(h, t.len() as int),
            TTEntry { key: h, value: best as i32, depth: depth as u8, flag: 0, best_move: mv },
        ),
        None => t,
    }
}

/// The value found and the table left when `p` is searched to `depth` in the
/// window (`alpha`, `beta`) from table `t0`, the moves tried as `tree` says.
/// `None` when `tree` does not fit the node.
#[verifier::opaque]
pub open spec fn search_result(
    p: Position,
    t0: Seq<TTEntry>,
    depth: nat,
    alpha: int,
    beta: int,
    tree: SearchTree,
) -> Option<(int, Seq<TTEntry>)>
    decreases tree, 0int,
{
    let h = zobrist(p);
    let hit = lookup(t0, h);
    if hit is Some && hit->Some_0.depth >= depth as u8 {
        Some((hit->Some_0.value as int, t0))
    } else if depth == 0 {
        Some((material(p), t0))
    } else if no_moves(p) {
        Some(
            (
                if in_check(p, p.side_to_move) {
                    -MATE_VALUE as int
                } else {
                    0
                },
                t0,
            ),
        )
    } else {
        match tree {
            SearchTree::Leaf => None,
            SearchTree::Branch(s, kids) => {
                if move_order(p, s) {
                    match scan_result(p, s, kids, s.len() as int, t0, depth, alpha, beta) {
                        Some(st) => Some((st.1, stored(st.3, h, st.1, depth, st.2))),
                        None => None,
                    }
                } else {
                    None
                }
            },
        }
    }
}

/// The scan state after the first `k` moves of `s`; a move after the window
/// has closed is skipped, any other is searched one ply deeper with the
/// negated window.
#[verifier::opaque]
pub open spec fn scan_result(
    p: Position,
    s: Seq<Move>,
    kids: Seq<SearchTree>,
    k: int,
    t0: Seq<TTEntry>,
    depth: nat,
    alpha: int,
    beta: int,
) -> Option<ScanState>
    decreases kids, k,
{
    if k == 0 {
        Some((alpha, -INF as int, None::<Move>, t0, false))
    } else if k < 0 || k > kids.len() || depth == 0 {
        None
    } else {
        match scan_result(p, s, kids, k - 1, t0, depth, alpha, beta) {
            None => None,
            Some(prev) => {
                if prev.4 {
                    Some(prev)
                } else {
                    match search_result(
                        after_move(p, s[k - 1].0 as int),
                        prev.3,
                        (depth - 1) as nat,
                        -beta,
                        -prev.0,
                        kids[k - 1],
                    ) {
                        Some(child) => Some(step(prev, -child.0, s[k - 1], child.1, beta)),
                        None => None,
                    }
                }
            },
        }
    }
}

/// The root's scan state after its first `k` moves: each searched
/// `child_depth` deep with the window (-INF, -alpha), never cut.
#[verifier::opaque]
pub open spec fn root_result(
    p: Position,
    s: Seq<Move>,
    kids: Seq<SearchTree>,
    k: int,
    t0: Seq<TTEntry>,
    child_depth: nat,
) -> Option<ScanState>
    decreases k,
{
    if k == 0 {
        Some((-INF as int, -INF as int, None::<Move>, t0, false))
    } else if k < 0 || k > kids.len() {
        None
    } else {
        match root_result(p, s, kids, k - 1, t0, child_depth) {
            None => None,
            Some(prev) => match search_result(
                after_move(p, s[k - 1].0 as int),
                prev.3,
                child_depth,
                -INF as int,
                -prev.0,
                kids[k - 1],
            ) {
                Some(child) => Some(step(prev, -child.0, s[k - 1], child.1, INF as int)),
                None => None,
            },
        }
    }
}

/// No reading in `log` saw the stop flag set.
pub open spec fn none_set(log: Seq<bool>) -> bool {
    forall|i: int| 0 <= i < log.len() ==> !#[trigger] log[i]
}

/// The last reading in `log` saw the stop flag set, and none before it did.
pub open spec fn stopped_at_last(log: Seq<bool>) -> bool {
    &&& log.len() > 0
    &&& log.last()
    &&& none_set(log.drop_last())
}

/// Every value the table holds lies strictly inside the search's bounds.
pub open spec fn table_strict(t: Seq<TTEntry>) -> bool {
    forall|i: int| 0 <= i < t.len() && (#[trigger] t[i]).depth != 0 ==> -INF < t[i].value < INF
}

/// A table of empty entries, as a new table is, holds no value at the bounds.
pub proof fn lemma_empty_table_strict(n: nat)
    ensures
        table_strict(Seq::new(n, |i: int| empty_entry())),
{
}

/// `log` is `earlier` with more readings after it.
pub open spec fn extends(log: Seq<bool>, earlier: Seq<bool>) -> bool {
    &&& earlier.len() <= log.len()
    &&& forall|i: int| 0 <= i < earlier.len() ==> #[trigger] log[i] == earlier[i]
}

/// Whether the search has been asked to stop. Each reading of the flag is
/// appended to `log`, the record of what the search saw of it.
fn stop_requested(stop: &AtomicBool, log: &mut Ghost<Seq<bool>>) -> (r: bool)
    ensures
        final(log)@ == old(log)@.push(r),
{
    let r = stop.load(std::sync::atomic::Ordering::Relaxed);
    *log = Ghost(log@.push(r));
    r
}



/// Move `m` can be played in `p`, and the position it leads to searched to `depth - 1`.
#[verifier::opaque]
pub open spec fn child_ready(p: Position, m: int, depth: nat) -> bool {
    &&& crate::board::play::playable(
        p,
        crate::board::moves::move_from(m),
        crate::board::moves::move_to(m),
        crate::board::moves::promotion_letter(crate::board::moves::move_flag(m)),
    )
    &&& well_formed(after_move(p, m))
    &&& after_move(p, m).half_move_clock + depth - 1 <= 0xffff
    &&& after_move(p, m).full_move_clock + depth - 1 <= 0xffff
}


/// What the legal move generator yields, from an empty list, is a move order
/// of the position; it is empty exactly when the side to move has no move.
proof fn lemma_moves_found(p: Position, s: Seq<Move>)
    requires
        appends(Seq::empty(), s, |m: int| legal_count(p, p.side_to_move, m)),
        grouped(s.skip(0)),
        keys_rise(added(Seq::empty(), s), |m: int| legal_key(p, p.side_to_move, m), 0, 73728),
    ensures
        move_order(p, s),
        s.len() == 0 <==> no_moves(p),
{
    reveal(move_order);
    reveal(no_moves);
    assert(s.skip(0) =~= s);
    assert(added(Seq::empty(), s) =~= s);
    if s.len() == 0 {
        assert(codes(s) =~= Seq::<u16>::empty());
        assert forall|m: int| #[trigger] legal_count(p, p.side_to_move, m) == 0 by {
            assert(count_in(codes(s), m) == 0);
        }
    } else {
        assert(codes(s)[0] == s[0].0);
        lemma_count_member(codes(s), 0);
        assert(legal_count(p, p.side_to_move, s[0].0 as int) > 0);
    }
}

/// The child of a legal move can be searched one ply less deep.
proof fn lemma_child_ok(p: Position, s: Seq<Move>, i: int, depth: nat)
    requires
        well_formed(p),
        p.half_move_clock + depth <= 0xffff,
        p.full_move_clock + depth <= 0xffff,
        p.half_move_clock < 0xffff,
        p.full_move_clock < 0xffff,
        0 <= i < s.len(),
        depth >= 1,
        move_order(p, s),
    ensures
        child_ready(p, s[i].0 as int, depth),
{
    reveal(child_ready);
    reveal(move_order);
    assert(codes(s)[i] == s[i].0);
    lemma_count_member(codes(s), i);
    lemma_pseudo_playable(p, p.side_to_move, s[i].0 as int);
    lemma_after_move_well_formed(p, p.side_to_move, s[i].0 as int);
}



/// The table answers the search of `p` to `depth`.
pub open spec fn table_hit(t0: Seq<TTEntry>, p: Position, depth: nat) -> bool {
    lookup(t0, zobrist(p)) is Some && lookup(t0, zobrist(p))->Some_0.depth >= depth as u8
}

proof fn lemma_result_hit(p: Position, t0: Seq<TTEntry>, depth: nat, alpha: int, beta: int)
    requires
        table_hit(t0, p, depth),
    ensures
        search_result(p, t0, depth, alpha, beta, SearchTree::Leaf) == Some(
            (lookup(t0, zobrist(p))->Some_0.value as int, t0),
        ),
{
    reveal_with_fuel(search_result, 1);
}

proof fn lemma_result_leaf(p: Position, t0: Seq<TTEntry>, alpha: int, beta: int)
    requires
        !table_hit(t0, p, 0),
    ensures
        search_result(p, t0, 0, alpha, beta, SearchTree::Leaf) == Some((material(p), t0)),
{
    reveal_with_fuel(search_result, 1);
}

proof fn lemma_result_no_moves(p: Position, t0: Seq<TTEntry>, depth: nat, alpha: int, beta: int)
    requires
        !table_hit(t0, p, depth),
        depth > 0,
        no_moves(p),
    ensures
        search_result(p, t0, depth, alpha, beta, SearchTree::Leaf) == Some(
            (
                if in_check(p, p.side_to_move) {
                    -MATE_VALUE as int
                } else {
                    0
                },
                t0,
            ),
        ),
{
    reveal_with_fuel(search_result, 1);
}

#[verifier::rlimit(40)]
proof fn lemma_result_branch(
    p: Position,
    t0: Seq<TTEntry>,
    depth: nat,
    alpha: int,
    beta: int,
    s: Seq<Move>,
    kids: Seq<SearchTree>,
    st: ScanState,
)
    requires
        !table_hit(t0, p, depth),
        depth > 0,
        !no_moves(p),
        move_order(p, s),
        scan_result(p, s, kids, s.len() as int, t0, depth, alpha, beta) == Some(st),
    ensures
        search_result(p, t0, depth, alpha, beta, SearchTree::Branch(s, kids)) == Some(
            (st.1, stored(st.3, zobrist(p), st.1, depth, st.2)),
        ),
{
    reveal_with_fuel(search_result, 1);
    reveal_with_fuel(scan_result, 1);
}

proof fn lemma_scan_start(p: Position, s: Seq<Move>, t0: Seq<TTEntry>, depth: nat, alpha: int, beta: int)
    ensures
        scan_result(p, s, Seq::empty(), 0, t0, depth, alpha, beta) == Some(
            (alpha, -INF as int, None::<Move>, t0, false),
        ),
{
    reveal_with_fuel(scan_result, 1);
}

/// A scan over the first `k` moves reads only the first `k` subtrees.
proof fn lemma_scan_prefix(
    p: Position,
    s: Seq<Move>,
    kids: Seq<SearchTree>,
    k: int,
    t0: Seq<TTEntry>,
    depth: nat,
    alpha: int,
    beta: int,
)
    requires
        0 <= k <= kids.len(),
    ensures
        scan_result(p, s, kids, k, t0, depth, alpha, beta) == scan_result(p, s, kids.take(k), k, t0, depth, alpha, beta),
    decreases k,
{
    reveal_with_fuel(scan_result, 1);
    if k > 0 {
        lemma_scan_prefix(p, s, kids, k - 1, t0, depth, alpha, beta);
        lemma_scan_prefix(p, s, kids.take(k), k - 1, t0, depth, alpha, beta);
        assert(kids.take(k).take(k - 1) =~= kids.take(k - 1));
        assert(kids.take(k)[k - 1] == kids[k - 1]);
    }
}


/// A searched move extends a scan whose window is open.
proof fn lemma_scan_push(
    p: Position,
    s: Seq<Move>,
    kids: Seq<SearchTree>,
    i: int,
    t0: Seq<TTEntry>,
    depth: nat,
    alpha: int,
    beta: int,
    prev: ScanState,
    sub: SearchTree,
    child: (int, Seq<TTEntry>),
)
    requires
        scan_result(p, s, kids, i, t0, depth, alpha, beta) == Some(prev),
        !prev.4,
        depth > 0,
        kids.len() == i,
        0 <= i < s.len(),
        search_result(after_move(p, s[i].0 as int), prev.3, (depth - 1) as nat, -beta, -prev.0, sub)
            == Some(child),
    ensures
        scan_result(p, s, kids.push(sub), i + 1, t0, depth, alpha, beta) == Some(
            step(prev, -child.0, s[i], child.1, beta),
        ),
{
    reveal_with_fuel(scan_result, 1);
    reveal_with_fuel(search_result, 1);
    let k2 = kids.push(sub);
    assert(k2.take(i) =~= kids);
    lemma_scan_prefix(p, s, k2, i, t0, depth, alpha, beta);
    assert(k2[i] == sub);
    let j = i + 1;
    assert(j - 1 == i);
    assert(scan_result(p, s, k2, j - 1, t0, depth, alpha, beta) == Some(prev));
    assert(s[j - 1] == s[i]);
    assert(k2[j - 1] == sub);
    assert(search_result(after_move(p, s[j - 1].0 as int), prev.3, (depth - 1) as nat, -beta, -prev.0, k2[j - 1])
        == Some(child));
}

/// Once the window has closed, the remaining moves leave the scan as it is.
proof fn lemma_scan_cut(
    p: Position,
    s: Seq<Move>,
    kids: Seq<SearchTree>,
    k: int,
    t0: Seq<TTEntry>,
    depth: nat,
    alpha: int,
    beta: int,
    st: ScanState,
)
    requires
        scan_result(p, s, kids, k, t0, depth, alpha, beta) == Some(st),
        st.4,
        0 <= k <= s.len(),
        depth > 0,
        kids.len() == s.len(),
    ensures
        scan_result(p, s, kids, s.len() as int, t0, depth, alpha, beta) == Some(st),
    decreases s.len() - k,
{
    reveal_with_fuel(scan_result, 1);
    if k < s.len() {
        assert(scan_result(p, s, kids, k + 1, t0, depth, alpha, beta) == Some(st));
        lemma_scan_cut(p, s, kids, k + 1, t0, depth, alpha, beta, st);
    }
}

#[verifier::rlimit(60)]
/// Scores the position for the side to move: negamax with alpha-beta pruning,
/// reading and filling the transposition table. `None` when a reading of the
/// stop flag saw it set; otherwise the value, with how the search went below
/// the node. The readings are appended to `log`.
fn negmax_score(
    board: &mut Board,
    tt: &mut TranspositionTable,
    keys: &ZobristKeys,
    depth: u32,
    alpha: i32,
    beta: i32,
    stop: &AtomicBool,
    log: &mut Ghost<Seq<bool>>,
) -> (r: (Option<i32>, Ghost<SearchTree>))
    requires
        none_set(old(log)@),
        well_formed(old(board)@),
        old(board).half_move_clock + depth <= 0xffff,
        old(board).full_move_clock + depth <= 0xffff,
        old(tt).well_formed(),
        table_ok(old(tt)@),
        keys_drawn(*keys),
        value_ok(alpha as int),
        value_ok(beta as int),
    ensures
        final(board)@ == old(board)@,
        final(board).past() == old(board).past(),
        final(tt).well_formed(),
        table_ok(final(tt)@),
        final(tt)@.len() == old(tt)@.len(),
        extends(final(log)@, old(log)@),
        r.0 is Some <==> none_set(final(log)@),
        r.0 is None ==> stopped_at_last(final(log)@),
        table_strict(old(tt)@) ==> table_strict(final(tt)@),
        table_strict(old(tt)@) ==> (r.0 matches Some(v) ==> -INF < v < INF),
        r.0 matches Some(v) ==> value_ok(v as int) && search_result(
            old(board)@,
            old(tt)@,
            depth as nat,
            alpha as int,
            beta as int,
            r.1@,
        ) == Some((v as int, final(tt)@)),
    decreases depth, 1nat,
{
    let ghost p = board@;
    let ghost past = board.past();
    let ghost t0 = tt@;
    let ghost log0 = log@;
    if stop_requested(stop, log) {
        assert(log@[log@.len() - 1]);
        assert(log@.drop_last() =~= log0);
        return (None, Ghost(SearchTree::Leaf));
    }
    // Transposition Table Lookup
    let hash = board.zobrist_hash(keys);
    if let Some(entry) = tt.get(hash) {
        if entry.depth >= depth as u8 {
            proof {
                lemma_result_hit(p, t0, depth as nat, alpha as int, beta as int);
            }
            return (Some(entry.value), Ghost(SearchTree::Leaf));
        }
    }
    assert(!table_hit(t0, p, depth as nat));
    if depth == 0 {
        proof {
            lemma_material_bound(p, 768);
            lemma_result_leaf(p, t0, alpha as int, beta as int);
        }
        return (Some(evaluate(board)), Ghost(SearchTree::Leaf));
    }
    let mut moves: Vec<Move> = Vec::new();
    let side = board.side_to_move;
    MoveGenerator::get_all_moves(board, side, &mut moves);
    let ghost s = moves@;
    proof {
        lemma_moves_found(p, s);
    }
    if moves.len() == 0 {
        let king = Piece::new(side, PieceType::King);
        let king_bb = board.pieces[king.idx()];
        proof {
            lemma_piece_for_index(side, PieceType::King);
            lemma_result_no_moves(p, t0, depth as nat, alpha as int, beta as int);
        }
        if MoveGenerator::is_check(board, side, king_bb) {
            return (Some(-MATE_VALUE), Ghost(SearchTree::Leaf));
        } else {
            return (Some(0), Ghost(SearchTree::Leaf));
        }
    }
    proof {
        lemma_scan_start(p, s, t0, depth as nat, alpha as int, beta as int);
    }
    let mut best_score: i32 = -INF;
    let mut best_move: Option<Move> = None;
    let mut a: i32 = alpha;
    let mut cut = false;
    let ghost mut kids: Seq<SearchTree> = Seq::empty();
    let mut i: usize = 0;
    while i < moves.len() && !cut
        invariant
            board@ == p,
            board.past() == past,
            well_formed(p),
            p.half_move_clock + depth <= 0xffff,
            p.full_move_clock + depth <= 0xffff,
            depth >= 1,
            side == p.side_to_move,
            tt.well_formed(),
            table_ok(tt@),
            tt@.len() == t0.len(),
            keys_drawn(*keys),
            value_ok(beta as int),
            value_ok(a as int),
            value_ok(best_score as int),
            s == moves@,
            move_order(p, s),
            old(board)@ == p,
            old(board).past() == past,
            old(tt)@ == t0,
            old(log)@ == log0,
            extends(log@, log0),
            none_set(log@),
            table_strict(t0) ==> table_strict(tt@),
            table_strict(t0) ==> (i > 0 ==> -INF < best_score < INF),
            i == 0 ==> best_score == -INF,
            cut ==> i > 0,
            0 <= i <= s.len(),
            kids.len() == i,
            scan_result(p, s, kids, i as int, t0, depth as nat, alpha as int, beta as int) == Some(
                (a as int, best_score as int, best_move, tt@, cut),
            ),
        decreases s.len() - i,
    {
        let ghost before = log@;
        if stop_requested(stop, log) {
            assert(log@[log@.len() - 1]);
            assert(log@.drop_last() =~= before);
            return (None, Ghost(SearchTree::Leaf));
        }
        let mv = moves[i];
        proof {
            lemma_child_ok(p, s, i as int, depth as nat);
        }
        let ghost prev: ScanState = (a as int, best_score as int, best_move, tt@, cut);
        let (child, sub) = search_move(board, tt, keys, &mv, depth, -beta, -a, stop, log);
        let score = match child {
            Some(v) => -v,
            None => {
                return (None, Ghost(SearchTree::Leaf));
            },
        };
        if score > best_score {
            best_score = score;
            best_move = Some(mv);
        }
        if score > a {
            a = score;
        }
        if a >= beta {
            cut = true;
        }
        proof {
            let child = (-score as int, tt@);
            lemma_scan_push(p, s, kids, i as int, t0, depth as nat, alpha as int, beta as int, prev, sub@, child);
            kids = kids.push(sub@);
        }
        i = i + 1;
    }
    let ghost st: ScanState = (a as int, best_score as int, best_move, tt@, cut);
    let ghost all_kids = kids + Seq::new((s.len() - kids.len()) as nat, |j: int| SearchTree::Leaf);
    proof {
        assert(all_kids.take(i as int) =~= kids);
        lemma_scan_prefix(p, s, all_kids, i as int, t0, depth as nat, alpha as int, beta as int);
        if cut {
            lemma_scan_cut(p, s, all_kids, i as int, t0, depth as nat, alpha as int, beta as int, st);
        }
    }
    // Transposition Table Store
    if let Some(mv) = best_move {
        tt.put(TTEntry { key: hash, value: best_score, depth: depth as u8, flag: 0, best_move: mv });
    }
    proof {
        assert(tt@ == stored(st.3, hash, best_score as int, depth as nat, best_move));
        lemma_result_branch(p, t0, depth as nat, alpha as int, beta as int, s, all_kids, st);
    }
    (Some(best_score), Ghost(SearchTree::Branch(s, all_kids)))
}


/// Plays a move, scores the resulting position one ply less deep with the
/// window (`alpha`, `beta`), and takes the move back. `None` when a reading
/// of the stop flag, appended to `log`, saw it set.
fn search_move(
    board: &mut Board,
    tt: &mut TranspositionTable,
    keys: &ZobristKeys,
    mv: &Move,
    depth: u32,
    alpha: i32,
    beta: i32,
    stop: &AtomicBool,
    log: &mut Ghost<Seq<bool>>,
) -> (r: (Option<i32>, Ghost<SearchTree>))
    requires
        none_set(old(log)@),
        depth >= 1,
        child_ready(old(board)@, mv.0 as int, depth as nat),
        old(tt).well_formed(),
        table_ok(old(tt)@),
        keys_drawn(*keys),
        value_ok(alpha as int),
        value_ok(beta as int),
    ensures
        final(board)@ == old(board)@,
        final(board).past() == old(board).past(),
        final(tt).well_formed(),
        table_ok(final(tt)@),
        final(tt)@.len() == old(tt)@.len(),
        extends(final(log)@, old(log)@),
        r.0 is Some <==> none_set(final(log)@),
        r.0 is None ==> stopped_at_last(final(log)@),
        table_strict(old(tt)@) ==> table_strict(final(tt)@),
        table_strict(old(tt)@) ==> (r.0 matches Some(v) ==> -INF < v < INF),
        r.0 matches Some(v) ==> value_ok(v as int) && search_result(
            after_move(old(board)@, mv.0 as int),
            old(tt)@,
            (depth - 1) as nat,
            alpha as int,
            beta as int,
            r.1@,
        ) == Some((v as int, final(tt)@)),
    decreases depth, 0nat,
{
    proof {
        reveal(child_ready);
    }
    board.make_move(mv);
    assert(board@ == after_move(old(board)@, mv.0 as int));
    let r = negmax_score(board, tt, keys, depth - 1, alpha, beta, stop, log);
    board.unmake_move();
    r
}


/// The depth the root searches each child to.
pub open spec fn child_depth(depth: nat) -> nat {
    if depth == 0 {
        0
    } else {
        (depth - 1) as nat
    }
}

/// The root searched the first `k` moves of the order `s`, the subtrees as
/// `kids` says, and `r` is its best move and score (none if no move scored
/// above -INF).
pub open spec fn root_found(
    p: Position,
    t0: Seq<TTEntry>,
    depth: nat,
    s: Seq<Move>,
    kids: Seq<SearchTree>,
    k: int,
    r: Option<(Move, i32)>,
) -> bool {
    &&& move_order(p, s)
    &&& 0 <= k <= s.len()
    &&& root_result(p, s, kids, k, t0, child_depth(depth)) is Some
    &&& r == match root_result(p, s, kids, k, t0, child_depth(depth))->Some_0.2 {
        Some(mv) => Some((mv, root_result(p, s, kids, k, t0, child_depth(depth))->Some_0.1 as i32)),
        None => None,
    }
}

proof fn lemma_root_start(p: Position, s: Seq<Move>, t0: Seq<TTEntry>, cd: nat)
    ensures
        root_result(p, s, Seq::empty(), 0, t0, cd) == Some(
            (-INF as int, -INF as int, None::<Move>, t0, false),
        ),
{
    reveal_with_fuel(root_result, 1);
}

proof fn lemma_root_prefix(p: Position, s: Seq<Move>, kids: Seq<SearchTree>, k: int, t0: Seq<TTEntry>, cd: nat)
    requires
        0 <= k <= kids.len(),
    ensures
        root_result(p, s, kids, k, t0, cd) == root_result(p, s, kids.take(k), k, t0, cd),
    decreases k,
{
    reveal_with_fuel(root_result, 1);
    if k > 0 {
        lemma_root_prefix(p, s, kids, k - 1, t0, cd);
        lemma_root_prefix(p, s, kids.take(k), k - 1, t0, cd);
        assert(kids.take(k).take(k - 1) =~= kids.take(k - 1));
        assert(kids.take(k)[k - 1] == kids[k - 1]);
    }
}

proof fn lemma_root_push(
    p: Position,
    s: Seq<Move>,
    kids: Seq<SearchTree>,
    i: int,
    t0: Seq<TTEntry>,
    cd: nat,
    prev: ScanState,
    sub: SearchTree,
    child: (int, Seq<TTEntry>),
)
    requires
        root_result(p, s, kids, i, t0, cd) == Some(prev),
        kids.len() == i,
        0 <= i < s.len(),
        search_result(after_move(p, s[i].0 as int), prev.3, cd, -INF as int, -prev.0, sub) == Some(child),
    ensures
        root_result(p, s, kids.push(sub), i + 1, t0, cd) == Some(
            step(prev, -child.0, s[i], child.1, INF as int),
        ),
{
    reveal_with_fuel(root_result, 1);
    let k2 = kids.push(sub);
    assert(k2.take(i) =~= kids);
    lemma_root_prefix(p, s, k2, i, t0, cd);
    let j = i + 1;
    assert(j - 1 == i);
    assert(root_result(p, s, k2, j - 1, t0, cd) == Some(prev));
    assert(s[j - 1] == s[i]);
    assert(k2[j - 1] == sub);
}

/// Searches for the best move using negamax with alpha-beta pruning and the
/// transposition table. Stops early when `stop` is set; the best move found so
/// far is returned.
pub fn negmax(board: &mut Board, tt: &mut TranspositionTable, depth: u32, stop: Arc<AtomicBool>) -> (r: Option<(Move, i32)>)
    requires
        well_formed(old(board)@),
        old(board).half_move_clock < 0xffff,
        old(board).full_move_clock < 0xffff,
        old(board).half_move_clock + depth <= 0xffff,
        old(board).full_move_clock + depth <= 0xffff,
        old(tt).well_formed(),
        table_ok(old(tt)@),
    ensures
        final(board)@ == old(board)@,
        final(board).past() == old(board).past(),
        final(tt).well_formed(),
        table_ok(final(tt)@),
        final(tt)@.len() == old(tt)@.len(),
        exists|s: Seq<Move>, kids: Seq<SearchTree>, k: int|
            #[trigger] root_found(old(board)@, old(tt)@, depth as nat, s, kids, k, r),
{
    let mut log: Ghost<Seq<bool>> = Ghost(Seq::empty());
    negmax_with_log(board, tt, depth, &*stop, &mut log)
}

/// The search of [`negmax`], with each reading of the stop flag appended to
/// `log`. Every root move is searched unless a reading saw the flag set; the
/// search stops at the first such reading, and the result is the root's scan
/// over the moves whose search finished before it.
pub fn negmax_with_log(
    board: &mut Board,
    tt: &mut TranspositionTable,
    depth: u32,
    stop: &AtomicBool,
    log: &mut Ghost<Seq<bool>>,
) -> (r: Option<(Move, i32)>)
    requires
        well_formed(old(board)@),
        old(board).half_move_clock < 0xffff,
        old(board).full_move_clock < 0xffff,
        old(board).half_move_clock + depth <= 0xffff,
        old(board).full_move_clock + depth <= 0xffff,
        old(tt).well_formed(),
        table_ok(old(tt)@),
        none_set(old(log)@),
    ensures
        final(board)@ == old(board)@,
        final(board).past() == old(board).past(),
        final(tt).well_formed(),
        table_ok(final(tt)@),
        final(tt)@.len() == old(tt)@.len(),
        extends(final(log)@, old(log)@),
        !none_set(final(log)@) ==> stopped_at_last(final(log)@),
        exists|s: Seq<Move>, kids: Seq<SearchTree>, k: int|
            #[trigger] root_found(old(board)@, old(tt)@, depth as nat, s, kids, k, r)
            && (none_set(final(log)@) ==> k == s.len())
            && (!none_set(final(log)@) ==> k < s.len()),
        final(log)@.len() > old(log)@.len() && final(log)@[old(log)@.len() as int] ==> r is None,
        r matches Some((mv, _)) ==> legal_count(old(board)@, old(board)@.side_to_move, mv.0 as int) > 0,
        table_strict(old(tt)@) ==> table_strict(final(tt)@),
        none_set(final(log)@) && table_strict(old(tt)@) ==> (r is Some <==> !no_moves(old(board)@)),
{
    let ghost p = board@;
    let ghost past = board.past();
    let ghost t0 = tt@;
    let ghost log0 = log@;
    let keys = generate_keys();
    let mut moves: Vec<Move> = Vec::new();
    let side = board.side_to_move;
    MoveGenerator::get_all_moves(board, side, &mut moves);
    let ghost s = moves@;
    proof {
        lemma_moves_found(p, s);
    }
    let mut best_move: Option<Move> = None;
    let mut best_score: i32 = -INF;
    let mut alpha: i32 = -INF;
    let beta: i32 = INF;
    // Each child is searched one ply less deep, but at least to depth 0.
    let search_depth: u32 = if depth == 0 {
        1
    } else {
        depth
    };
    let ghost cd = child_depth(depth as nat);
    let ghost mut kids: Seq<SearchTree> = Seq::empty();
    let ghost mut done_table = t0;
    let ghost mut flag = false;
    proof {
        lemma_root_start(p, s, t0, cd);
    }
    let mut stopped = false;
    let mut i: usize = 0;
    while i < moves.len() && !stopped
        invariant
            board@ == p,
            board.past() == past,
            well_formed(p),
            p.half_move_clock + search_depth <= 0xffff,
            p.full_move_clock + search_depth <= 0xffff,
            search_depth >= 1,
            search_depth - 1 == cd,
            side == p.side_to_move,
            tt.well_formed(),
            table_ok(tt@),
            tt@.len() == t0.len(),
            keys_drawn(keys),
            beta == INF,
            value_ok(alpha as int),
            value_ok(best_score as int),
            s == moves@,
            move_order(p, s),
            0 <= i <= s.len(),
            kids.len() == i,
            !stopped ==> tt@ == done_table,
            root_result(p, s, kids, i as int, t0, cd) == Some(
                (alpha as int, best_score as int, best_move, done_table, flag),
            ),
            old(log)@ == log0,
            none_set(log0),
            extends(log@, log0),
            !stopped ==> none_set(log@),
            stopped ==> stopped_at_last(log@),
            stopped ==> i < s.len(),
            i > 0 ==> log@.len() > log0.len() && !log@[log0.len() as int],
            i == 0 ==> best_move is None && best_score == -INF,
            table_strict(t0) ==> table_strict(tt@),
            table_strict(t0) ==> (i > 0 ==> best_move is Some),
            best_move matches Some(mv) ==> legal_count(p, p.side_to_move, mv.0 as int) > 0,
        decreases s.len() - i + if stopped {
            0int
        } else {
            1int
        },
    {
        let ghost before = log@;
        if stop_requested(stop, log) {
            stopped = true;
            proof {
                assert(log@.drop_last() =~= before);
            }
        } else {
            let mv = moves[i];
            proof {
                lemma_child_ok(p, s, i as int, search_depth as nat);
            }
            let ghost prev: ScanState = (alpha as int, best_score as int, best_move, done_table, flag);
            let (child, sub) = search_move(board, tt, &keys, &mv, search_depth, -beta, -alpha, stop, log);
            match child {
                Some(v) => {
                    let score = -v;
                    if score > best_score {
                        best_score = score;
                        best_move = Some(mv);
                        proof {
                            reveal(move_order);
                            assert(codes(s)[i as int] == s[i as int].0);
                            lemma_count_member(codes(s), i as int);
                        }
                    }
                    if score > alpha {
                        alpha = score;
                    }
                    proof {
                        let c = (v as int, tt@);
                        lemma_root_push(p, s, kids, i as int, t0, cd, prev, sub@, c);
                        kids = kids.push(sub@);
                        done_table = tt@;
                        flag = alpha >= INF;
                    }
                    i = i + 1;
                },
                None => {
                    stopped = true;
                },
            }
        }
    }
    let r = match best_move {
        Some(mv) => Some((mv, best_score)),
        None => None,
    };
    proof {
        reveal(no_moves);
    }
    assert(root_found(p, t0, depth as nat, s, kids, i as int, r));
    r
}


/// The largest of `a` and the negations of the first `n` values of `vals`.
pub open spec fn raised(a: int, vals: Seq<int>, n: int) -> int
    decreases n,
{
    if n <= 0 {
        a
    } else if -vals[n - 1] > raised(a, vals, n - 1) {
        -vals[n - 1]
    } else {
        raised(a, vals, n - 1)
    }
}

/// The first `k` moves of `s` were searched in turn, the `i`-th from table
/// `tables[i]` with the window (-`beta`, -`raised(alpha, vals, i)`), giving
/// the value `vals[i]` and leaving `tables[i + 1]`; every move after the first
/// was searched with the window still open.
pub open spec fn searched_in_turn(
    p: Position,
    s: Seq<Move>,
    kids: Seq<SearchTree>,
    t0: Seq<TTEntry>,
    depth: nat,
    alpha: int,
    beta: int,
    k: int,
    vals: Seq<int>,
    tables: Seq<Seq<TTEntry>>,
) -> bool {
    &&& 0 <= k <= s.len()
    &&& k <= kids.len()
    &&& vals.len() == k
    &&& tables.len() == k + 1
    &&& tables[0] == t0
    &&& forall|i: int|
        0 <= i < k ==> search_result(
            after_move(p, s[i].0 as int),
            tables[i],
            (depth - 1) as nat,
            -beta,
            -raised(alpha, vals, i),
            #[trigger] kids[i],
        ) == Some((vals[i], tables[i + 1]))
    &&& forall|i: int| 0 < i < k ==> #[trigger] raised(alpha, vals, i) < beta
}

/// What a scan over the first `n` moves did, by the moves it searched.
proof fn lemma_scan_searched(
    p: Position,
    s: Seq<Move>,
    kids: Seq<SearchTree>,
    n: int,
    t0: Seq<TTEntry>,
    depth: nat,
    alpha: int,
    beta: int,
) -> (w: (int, Seq<int>, Seq<Seq<TTEntry>>))
    requires
        0 <= n <= s.len(),
        scan_result(p, s, kids, n, t0, depth, alpha, beta) is Some,
    ensures
        searched_in_turn(p, s, kids, t0, depth, alpha, beta, w.0, w.1, w.2),
        w.0 <= n,
        ({
            let st = scan_result(p, s, kids, n, t0, depth, alpha, beta)->Some_0;
            &&& st.0 == raised(alpha, w.1, w.0)
            &&& st.1 == raised(-INF as int, w.1, w.0)
            &&& st.3 == w.2[w.0]
            &&& st.4 == (w.0 > 0 && raised(alpha, w.1, w.0) >= beta)
            &&& (w.0 < n ==> st.4)
        }),
    decreases n,
{
    reveal_with_fuel(scan_result, 1);
    reveal_with_fuel(search_result, 1);
    if n == 0 {
        (0, Seq::empty(), seq![t0])
    } else {
        let (k, vals, tables) = lemma_scan_searched(p, s, kids, n - 1, t0, depth, alpha, beta);
        let prev = scan_result(p, s, kids, n - 1, t0, depth, alpha, beta)->Some_0;
        assert(n <= kids.len() && depth != 0);
        assert(scan_result(p, s, kids, n, t0, depth, alpha, beta) == if prev.4 {
            Some(prev)
        } else {
            match search_result(after_move(p, s[n - 1].0 as int), prev.3, (depth - 1) as nat, -beta, -prev.0, kids[n - 1]) {
                Some(child) => Some(step(prev, -child.0, s[n - 1], child.1, beta)),
                None => None,
            }
        });
        if prev.4 {
            (k, vals, tables)
        } else {
            assert(k == n - 1);
            let child = search_result(
                after_move(p, s[n - 1].0 as int),
                prev.3,
                (depth - 1) as nat,
                -beta,
                -prev.0,
                kids[n - 1],
            )->Some_0;
            assert(search_result(
                after_move(p, s[n - 1].0 as int),
                prev.3,
                (depth - 1) as nat,
                -beta,
                -prev.0,
                kids[n - 1],
            ) is Some);
            let vals2 = vals.push(child.0);
            let tables2 = tables.push(child.1);
            assert forall|i: int| 0 <= i <= k implies #[trigger] raised(alpha, vals2, i) == raised(alpha, vals, i)
                && raised(-INF as int, vals2, i) == raised(-INF as int, vals, i) by {
                lemma_raised_prefix(alpha, vals, child.0, i);
                lemma_raised_prefix(-INF as int, vals, child.0, i);
            }
            assert(raised(alpha, vals2, k) == raised(alpha, vals, k));
            assert(raised(-INF as int, vals2, k) == raised(-INF as int, vals, k));
            assert(vals2[k] == child.0);
            assert(tables2[k] == tables[k] && tables2[k + 1] == child.1);
            assert(raised(alpha, vals2, k + 1) == if -child.0 > prev.0 { -child.0 } else { prev.0 });
            assert forall|i: int|
                0 <= i < k + 1 implies search_result(
                after_move(p, s[i].0 as int),
                tables2[i],
                (depth - 1) as nat,
                -beta,
                -raised(alpha, vals2, i),
                #[trigger] kids[i],
            ) == Some((vals2[i], tables2[i + 1])) by {
                if i < k {
                    assert(vals2[i] == vals[i] && tables2[i] == tables[i] && tables2[i + 1] == tables[i + 1]);
                }
            }
            assert forall|i: int| 0 < i < k + 1 implies #[trigger] raised(alpha, vals2, i) < beta by {
                if i < k {
                    assert(raised(alpha, vals, i) < beta);
                }
            }
            (k + 1, vals2, tables2)
        }
    }
}

/// Adding a value after the first `i` leaves their running maximum alone.
proof fn lemma_raised_prefix(a: int, vals: Seq<int>, x: int, i: int)
    requires
        0 <= i <= vals.len(),
    ensures
        raised(a, vals.push(x), i) == raised(a, vals, i),
    decreases i,
{
    if i > 0 {
        lemma_raised_prefix(a, vals, x, i - 1);
        assert(vals.push(x)[i - 1] == vals[i - 1]);
    }
}

/// A node that searches its moves takes its value from the scan over all of them.
#[verifier::rlimit(40)]
proof fn lemma_branch_parts(
    p: Position,
    t0: Seq<TTEntry>,
    depth: nat,
    alpha: int,
    beta: int,
    s: Seq<Move>,
    kids: Seq<SearchTree>,
)
    requires
        !table_hit(t0, p, depth),
        depth > 0,
        !no_moves(p),
        search_result(p, t0, depth, alpha, beta, SearchTree::Branch(s, kids)) is Some,
    ensures
        move_order(p, s),
        scan_result(p, s, kids, s.len() as int, t0, depth, alpha, beta) is Some,
        search_result(p, t0, depth, alpha, beta, SearchTree::Branch(s, kids))->Some_0.0 == scan_result(
            p,
            s,
            kids,
            s.len() as int,
            t0,
            depth,
            alpha,
            beta,
        )->Some_0.1,
{
    reveal_with_fuel(search_result, 1);
    reveal_with_fuel(scan_result, 1);
    let h = zobrist(p);
    assert(!(lookup(t0, h) is Some && lookup(t0, h)->Some_0.depth >= depth as u8));
    assert(search_result(p, t0, depth, alpha, beta, SearchTree::Branch(s, kids)) == if move_order(p, s) {
        match scan_result(p, s, kids, s.len() as int, t0, depth, alpha, beta) {
            Some(st) => Some((st.1, stored(st.3, h, st.1, depth, st.2))),
            None => None,
        }
    } else {
        None
    });
}

/// Alpha-beta at a node that searches its moves: they are tried in the order
/// of the generator, each child searched one ply less deep with the window
/// narrowed by the best score found so far; the node's value is the largest
/// negated child value (or -INF), and moves are left untried only once that
/// score has reached `beta`.
pub proof fn lemma_alpha_beta(
    p: Position,
    t0: Seq<TTEntry>,
    depth: nat,
    alpha: int,
    beta: int,
    s: Seq<Move>,
    kids: Seq<SearchTree>,
)
    requires
        !table_hit(t0, p, depth),
        depth > 0,
        !no_moves(p),
        search_result(p, t0, depth, alpha, beta, SearchTree::Branch(s, kids)) is Some,
    ensures
        move_order(p, s),
        exists|k: int, vals: Seq<int>, tables: Seq<Seq<TTEntry>>|
            #[trigger] searched_in_turn(p, s, kids, t0, depth, alpha, beta, k, vals, tables)
            && search_result(p, t0, depth, alpha, beta, SearchTree::Branch(s, kids))->Some_0.0 == raised(
                -INF as int,
                vals,
                k,
            ) && (k < s.len() ==> raised(alpha, vals, k) >= beta),
{
    lemma_branch_parts(p, t0, depth, alpha, beta, s, kids);
    let w = lemma_scan_searched(p, s, kids, s.len() as int, t0, depth, alpha, beta);
    assert(searched_in_turn(p, s, kids, t0, depth, alpha, beta, w.0, w.1, w.2));
}

/// A scan has a best move once its best score rises above -INF.
proof fn lemma_scan_best_move(
    p: Position,
    s: Seq<Move>,
    kids: Seq<SearchTree>,
    n: int,
    t0: Seq<TTEntry>,
    depth: nat,
    alpha: int,
    beta: int,
)
    requires
        0 <= n,
        scan_result(p, s, kids, n, t0, depth, alpha, beta) is Some,
    ensures
        scan_result(p, s, kids, n, t0, depth, alpha, beta)->Some_0.2 is None ==> scan_result(
            p,
            s,
            kids,
            n,
            t0,
            depth,
            alpha,
            beta,
        )->Some_0.1 == -INF as int,
    decreases n,
{
    reveal_with_fuel(scan_result, 1);
    reveal_with_fuel(search_result, 1);
    if n > 0 {
        lemma_scan_best_move(p, s, kids, n - 1, t0, depth, alpha, beta);
    }
}

/// A node that searches its moves and finds one scoring above -INF leaves its
/// value in the table: looking up its position then gives that value, stored
/// at the node's depth.
#[verifier::rlimit(60)]
pub proof fn lemma_node_stored(
    p: Position,
    t0: Seq<TTEntry>,
    depth: nat,
    alpha: int,
    beta: int,
    s: Seq<Move>,
    kids: Seq<SearchTree>,
    v: int,
    t: Seq<TTEntry>,
)
    requires
        !table_hit(t0, p, depth),
        0 < depth < 256,
        !no_moves(p),
        search_result(p, t0, depth, alpha, beta, SearchTree::Branch(s, kids)) == Some((v, t)),
        t0.len() > 0,
        -INF < v <= i32::MAX,
    ensures
        lookup(t, zobrist(p)) is Some,
        lookup(t, zobrist(p))->Some_0.value == v,
        lookup(t, zobrist(p))->Some_0.depth == depth,
{
    lemma_branch_parts(p, t0, depth, alpha, beta, s, kids);
    let st = scan_result(p, s, kids, s.len() as int, t0, depth, alpha, beta)->Some_0;
    lemma_scan_best_move(p, s, kids, s.len() as int, t0, depth, alpha, beta);
    lemma_result_branch(p, t0, depth, alpha, beta, s, kids, st);
    lemma_scan_len(p, s, kids, s.len() as int, t0, depth, alpha, beta);
    assert(v == st.1 && st.2 is Some);
    assert(t == stored(st.3, zobrist(p), v, depth, st.2));
    lemma_stored_found(st.3, zobrist(p), v, depth, st.2->Some_0, t);
}

/// A search leaves a table as long as the one it started from.
#[verifier::rlimit(50)]
proof fn lemma_search_len(p: Position, t0: Seq<TTEntry>, depth: nat, alpha: int, beta: int, tree: SearchTree)
    requires
        search_result(p, t0, depth, alpha, beta, tree) is Some,
        t0.len() > 0,
    ensures
        search_result(p, t0, depth, alpha, beta, tree)->Some_0.1.len() == t0.len(),
    decreases tree, 0int,
{
    reveal_with_fuel(search_result, 1);
    reveal_with_fuel(scan_result, 1);
    if !table_hit(t0, p, depth) && depth != 0 && !no_moves(p) {
        if let SearchTree::Branch(s, kids) = tree {
            lemma_scan_len(p, s, kids, s.len() as int, t0, depth, alpha, beta);
            let st = scan_result(p, s, kids, s.len() as int, t0, depth, alpha, beta)->Some_0;
            let h = zobrist(p);
            assert(0 <= slot(h, st.3.len() as int) < st.3.len());
        }
    }
}

/// A scan leaves a table as long as the one it started from.
#[verifier::rlimit(50)]
proof fn lemma_scan_len(
    p: Position,
    s: Seq<Move>,
    kids: Seq<SearchTree>,
    k: int,
    t0: Seq<TTEntry>,
    depth: nat,
    alpha: int,
    beta: int,
)
    requires
        scan_result(p, s, kids, k, t0, depth, alpha, beta) is Some,
        t0.len() > 0,
    ensures
        scan_result(p, s, kids, k, t0, depth, alpha, beta)->Some_0.3.len() == t0.len(),
    decreases kids, k,
{
    reveal_with_fuel(scan_result, 1);
    reveal_with_fuel(search_result, 1);
    if k > 0 {
        lemma_scan_len(p, s, kids, k - 1, t0, depth, alpha, beta);
        let prev = scan_result(p, s, kids, k - 1, t0, depth, alpha, beta)->Some_0;
        if !prev.4 {
            assert(decreases_to!(kids => kids[k - 1]));
            lemma_search_len(after_move(p, s[k - 1].0 as int), prev.3, (depth - 1) as nat, -beta, -prev.0, kids[k - 1]);
        }
    }
}

/// Storing a value at a nonzero depth makes it what a lookup finds.
proof fn lemma_stored_found(t1: Seq<TTEntry>, h: u64, v: int, depth: nat, mv: Move, t: Seq<TTEntry>)
    requires
        t == stored(t1, h, v, depth, Some(mv)),
        t1.len() > 0,
        0 < depth < 256,
        i32::MIN <= v <= i32::MAX,
    ensures
        lookup(t, h) is Some,
        lookup(t, h)->Some_0.value == v,
        lookup(t, h)->Some_0.depth == depth,
{
    let e = TTEntry { key: h, value: v as i32, depth: depth as u8, flag: 0, best_move: mv };
    assert(t == t1.update(slot(h, t1.len() as int), e));
    lemma_put_then_get(t1, e);
}

/// The root's scan over its first `k` moves: each tried in turn, the `i`-th
/// searched `cd` deep from `tables[i]` with the window (-INF,
/// -`raised(-INF, vals, i)`), giving `vals[i]` and leaving `tables[i + 1]`;
/// the best score is the largest negated child value (or -INF).
pub proof fn lemma_root_in_turn(
    p: Position,
    s: Seq<Move>,
    kids: Seq<SearchTree>,
    k: int,
    t0: Seq<TTEntry>,
    cd: nat,
) -> (w: (Seq<int>, Seq<Seq<TTEntry>>))
    requires
        0 <= k <= s.len(),
        root_result(p, s, kids, k, t0, cd) is Some,
    ensures
        w.0.len() == k,
        w.1.len() == k + 1,
        w.1[0] == t0,
        forall|i: int|
            0 <= i < k ==> search_result(
                after_move(p, s[i].0 as int),
                w.1[i],
                cd,
                -INF as int,
                -raised(-INF as int, w.0, i),
                #[trigger] kids[i],
            ) == Some((w.0[i], w.1[i + 1])),
        root_result(p, s, kids, k, t0, cd)->Some_0.1 == raised(-INF as int, w.0, k),
        root_result(p, s, kids, k, t0, cd)->Some_0.0 == raised(-INF as int, w.0, k),
        root_result(p, s, kids, k, t0, cd)->Some_0.3 == w.1[k],
    decreases k,
{
    reveal_with_fuel(root_result, 1);
    if k == 0 {
        (Seq::empty(), seq![t0])
    } else {
        let (vals, tables) = lemma_root_in_turn(p, s, kids, k - 1, t0, cd);
        let prev = root_result(p, s, kids, k - 1, t0, cd)->Some_0;
        assert(k <= kids.len());
        assert(search_result(after_move(p, s[k - 1].0 as int), prev.3, cd, -INF as int, -prev.0, kids[k - 1]) is Some);
        let child = search_result(after_move(p, s[k - 1].0 as int), prev.3, cd, -INF as int, -prev.0, kids[k - 1])->Some_0;
        let vals2 = vals.push(child.0);
        let tables2 = tables.push(child.1);
        assert forall|i: int| 0 <= i <= k - 1 implies #[trigger] raised(-INF as int, vals2, i) == raised(-INF as int, vals, i) by {
            lemma_raised_prefix(-INF as int, vals, child.0, i);
        }
        assert(vals2[k - 1] == child.0);
        assert(raised(-INF as int, vals2, k - 1) == raised(-INF as int, vals, k - 1));
        assert forall|i: int|
            0 <= i < k implies search_result(
            after_move(p, s[i].0 as int),
            tables2[i],
            cd,
            -INF as int,
            -raised(-INF as int, vals2, i),
            #[trigger] kids[i],
        ) == Some((vals2[i], tables2[i + 1])) by {
            if i < k - 1 {
                assert(vals2[i] == vals[i] && tables2[i] == tables[i] && tables2[i + 1] == tables[i + 1]);
            }
        }
        (vals2, tables2)
    }
}

/// Two records of a search that both fit give the same value and table.
#[verifier::rlimit(50)]
proof fn lemma_search_same(
    p: Position,
    t0: Seq<TTEntry>,
    depth: nat,
    alpha: int,
    beta: int,
    tree1: SearchTree,
    tree2: SearchTree,
)
    requires
        search_result(p, t0, depth, alpha, beta, tree1) is Some,
        search_result(p, t0, depth, alpha, beta, tree2) is Some,
    ensures
        search_result(p, t0, depth, alpha, beta, tree1) == search_result(p, t0, depth, alpha, beta, tree2),
    decreases tree1, 0int,
{
    reveal_with_fuel(search_result, 1);
    reveal_with_fuel(scan_result, 1);
    if !table_hit(t0, p, depth) && depth != 0 && !no_moves(p) {
        if let SearchTree::Branch(s1, kids1) = tree1 {
            if let SearchTree::Branch(s2, kids2) = tree2 {
                assert(move_order(p, s1) && move_order(p, s2));
                lemma_move_order_unique(p, s1, s2);
                assert(scan_result(p, s1, kids1, s1.len() as int, t0, depth, alpha, beta) is Some);
                assert(scan_result(p, s1, kids2, s1.len() as int, t0, depth, alpha, beta) is Some);
                lemma_scan_same(p, s1, kids1, kids2, s1.len() as int, t0, depth, alpha, beta);
            }
        }
    }
}

/// Two records of a scan that both fit give the same scan state.
#[verifier::rlimit(50)]
proof fn lemma_scan_same(
    p: Position,
    s: Seq<Move>,
    kids1: Seq<SearchTree>,
    kids2: Seq<SearchTree>,
    k: int,
    t0: Seq<TTEntry>,
    depth: nat,
    alpha: int,
    beta: int,
)
    requires
        scan_result(p, s, kids1, k, t0, depth, alpha, beta) is Some,
        scan_result(p, s, kids2, k, t0, depth, alpha, beta) is Some,
    ensures
        scan_result(p, s, kids1, k, t0, depth, alpha, beta) == scan_result(p, s, kids2, k, t0, depth, alpha, beta),
    decreases kids1, k,
{
    reveal_with_fuel(scan_result, 1);
    reveal_with_fuel(search_result, 1);
    if k > 0 {
        assert(k <= kids1.len() && k <= kids2.len() && depth != 0);
        let prev1 = scan_result(p, s, kids1, k - 1, t0, depth, alpha, beta);
        let prev2 = scan_result(p, s, kids2, k - 1, t0, depth, alpha, beta);
        assert(prev1 is Some && prev2 is Some);
        lemma_scan_same(p, s, kids1, kids2, k - 1, t0, depth, alpha, beta);
        assert(prev1 == prev2);
        let prev = prev1->Some_0;
        if !prev.4 {
            let q = after_move(p, s[k - 1].0 as int);
            assert(search_result(q, prev.3, (depth - 1) as nat, -beta, -prev.0, kids1[k - 1]) is Some);
            assert(search_result(q, prev.3, (depth - 1) as nat, -beta, -prev.0, kids2[k - 1]) is Some);
            assert(decreases_to!(kids1 => kids1[k - 1]));
            lemma_search_same(q, prev.3, (depth - 1) as nat, -beta, -prev.0, kids1[k - 1], kids2[k - 1]);
        }
    }
}

/// Two records of the root's scan that both fit give the same scan state.
proof fn lemma_root_same(
    p: Position,
    s: Seq<Move>,
    kids1: Seq<SearchTree>,
    kids2: Seq<SearchTree>,
    k: int,
    t0: Seq<TTEntry>,
    cd: nat,
)
    requires
        root_result(p, s, kids1, k, t0, cd) is Some,
        root_result(p, s, kids2, k, t0, cd) is Some,
    ensures
        root_result(p, s, kids1, k, t0, cd) == root_result(p, s, kids2, k, t0, cd),
    decreases k,
{
    reveal_with_fuel(root_result, 1);
    if k > 0 {
        lemma_root_same(p, s, kids1, kids2, k - 1, t0, cd);
        let prev = root_result(p, s, kids1, k - 1, t0, cd)->Some_0;
        lemma_search_same(after_move(p, s[k - 1].0 as int), prev.3, cd, -INF as int, -prev.0, kids1[k - 1], kids2[k - 1]);
    }
}

/// What negmax returns is fixed by the position, the table, the depth and
/// how many of the root's moves it searched before it was asked to stop.
pub proof fn lemma_negmax_determined(
    p: Position,
    t0: Seq<TTEntry>,
    depth: nat,
    s1: Seq<Move>,
    kids1: Seq<SearchTree>,
    s2: Seq<Move>,
    kids2: Seq<SearchTree>,
    k: int,
    r1: Option<(Move, i32)>,
    r2: Option<(Move, i32)>,
)
    requires
        root_found(p, t0, depth, s1, kids1, k, r1),
        root_found(p, t0, depth, s2, kids2, k, r2),
    ensures
        r1 == r2,
{
    lemma_move_order_unique(p, s1, s2);
    lemma_root_same(p, s1, kids1, kids2, k, t0, child_depth(depth));
}

/// The engine only plays legal moves: the best move of a root scan over a
/// move order is a legal move of the position.
pub proof fn lemma_best_move_legal(
    p: Position,
    s: Seq<Move>,
    kids: Seq<SearchTree>,
    k: int,
    t0: Seq<TTEntry>,
    cd: nat,
    st: ScanState,
    mv: Move,
)
    requires
        move_order(p, s),
        0 <= k <= s.len(),
        root_result(p, s, kids, k, t0, cd) == Some(st),
        st.2 == Some(mv),
    ensures
        legal_count(p, p.side_to_move, mv.0 as int) > 0,
    decreases k,
{
    reveal_with_fuel(root_result, 1);
    reveal(move_order);
    if k > 0 {
        let prev = root_result(p, s, kids, k - 1, t0, cd)->Some_0;
        if prev.2 == Some(mv) {
            lemma_best_move_legal(p, s, kids, k - 1, t0, cd, prev, mv);
        } else {
            assert(mv == s[k - 1]);
            assert(codes(s)[k - 1] == s[k - 1].0);
            lemma_count_member(codes(s), k - 1);
        }
    }
}

} // verus!

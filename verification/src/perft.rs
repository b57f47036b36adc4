//! Perft: counting the leaf nodes of the legal move tree to a fixed depth.
use vstd::prelude::*;
use crate::board::{Board, Position, well_formed};
use crate::board::moves::{Move, MoveGenerator, codes, uci_text};
use vstd::hash_map::StringHashMap;
use crate::board::moves::scan::{appends, keys_rise, added};
use crate::board::moves::rules::count_in;
use crate::board::moves::legal::{after_move, legal_count, legal_key, grouped, lemma_count_member, lemma_after_move_well_formed, lemma_pseudo_playable, ep_clear, lemma_count_two, lemma_legal_at_most_one, lemma_same_name_same_move};

verus! {

/// `w(0) + w(1) + ... + w(n - 1)`.
pub open spec fn code_sum(w: spec_fn(int) -> nat, n: int) -> nat
    decreases n,
{
    if n <= 0 {
        0
    } else {
        code_sum(w, n - 1) + w(n - 1)
    }
}

/// `f` summed over the codes of `s`.
pub open spec fn seq_sum(s: Seq<u16>, f: spec_fn(int) -> nat) -> nat
    decreases s.len(),
{
    if s.len() == 0 {
        0
    } else {
        seq_sum(s.drop_last(), f) + f(s.last() as int)
    }
}

/// The number of leaves of the legal move tree of `p` at `depth`.
pub open spec fn perft_nodes(p: Position, depth: nat) -> nat
    decreases depth, 65537int,
{
    if depth == 0 {
        1
    } else {
        perft_sum(p, depth, 65536)
    }
}

/// The leaves below the legal moves of `p` whose codes are below `n`, each
/// counted as often as the generator yields it.
pub open spec fn perft_sum(p: Position, depth: nat, n: int) -> nat
    decreases depth, n,
{
    if depth == 0 || n <= 0 {
        0
    } else {
        perft_sum(p, depth, n - 1) + legal_count(p, p.side_to_move, n - 1) * perft_nodes(
            after_move(p, n - 1),
            (depth - 1) as nat,
        )
    }
}

pub(crate) proof fn lemma_code_sum_ext(a: spec_fn(int) -> nat, b: spec_fn(int) -> nat, n: int)
    requires
        forall|m: int| 0 <= m < n ==> #[trigger] a(m) == b(m),
    ensures
        code_sum(a, n) == code_sum(b, n),
    decreases n,
{
    if n > 0 {
        lemma_code_sum_ext(a, b, n - 1);
    }
}

pub(crate) proof fn lemma_code_sum_add(a: spec_fn(int) -> nat, b: spec_fn(int) -> nat, n: int)
    ensures
        code_sum(|m: int| a(m) + b(m), n) == code_sum(a, n) + code_sum(b, n),
    decreases n,
{
    if n > 0 {
        lemma_code_sum_add(a, b, n - 1);
    }
}

pub(crate) proof fn lemma_code_sum_point(x: int, v: nat, n: int)
    ensures
        code_sum(|m: int| if m == x { v } else { 0nat }, n) == if 0 <= x < n { v } else { 0 },
    decreases n,
{
    if n > 0 {
        lemma_code_sum_point(x, v, n - 1);
    }
}

/// Summing over a sequence of codes is summing over all codes, each weighted
/// by how often it occurs.
pub(crate) proof fn lemma_seq_sum_counts(s: Seq<u16>, f: spec_fn(int) -> nat)
    ensures
        seq_sum(s, f) == code_sum(|m: int| count_in(s, m) * f(m), 65536),
    decreases s.len(),
{
    if s.len() == 0 {
        assert forall|m: int| 0 <= m < 65536 implies #[trigger] count_in(s, m) * f(m) == 0nat by {
            assert(count_in(s, m) == 0);
        }
        lemma_code_sum_ext(|m: int| count_in(s, m) * f(m), |m: int| 0nat, 65536);
        lemma_code_sum_point(-1, 0, 65536);
        lemma_code_sum_ext(|m: int| 0nat, |m: int| if m == -1 { 0nat } else { 0nat }, 65536);
    } else {
        let t = s.drop_last();
        let x = s.last() as int;
        lemma_seq_sum_counts(t, f);
        let a = |m: int| count_in(t, m) * f(m);
        let b = |m: int| if m == x { f(x) } else { 0nat };
        let lhs = |m: int| count_in(s, m) * f(m);
        let rhs = |m: int| a(m) + b(m);
        assert forall|m: int| 0 <= m < 65536 implies #[trigger] lhs(m) == rhs(m) by {
            assert(t.push(s.last()) =~= s);
            crate::board::moves::rules::lemma_count_push(t, s.last(), m);
            let c = count_in(t, m);
            let v = f(m);
            assert((c + 1) * v == c * v + v) by (nonlinear_arith);
        }
        lemma_code_sum_ext(lhs, rhs, 65536);
        lemma_code_sum_add(a, b, 65536);
        lemma_code_sum_point(x, f(x), 65536);
    }
}

pub(crate) proof fn lemma_seq_sum_concat(a: Seq<u16>, b: Seq<u16>, f: spec_fn(int) -> nat)
    ensures
        seq_sum(a + b, f) == seq_sum(a, f) + seq_sum(b, f),
    decreases b.len(),
{
    if b.len() == 0 {
        assert(a + b =~= a);
    } else {
        lemma_seq_sum_concat(a, b.drop_last(), f);
        assert((a + b).drop_last() =~= a + b.drop_last());
    }
}

pub(crate) proof fn lemma_seq_sum_ones(s: Seq<u16>)
    ensures
        seq_sum(s, |m: int| 1nat) == s.len(),
    decreases s.len(),
{
    if s.len() > 0 {
        lemma_seq_sum_ones(s.drop_last());
    }
}

/// The perft sum over the codes below `n` is the weighted sum of the children's counts.
pub(crate) proof fn lemma_perft_sum(p: Position, depth: nat, n: int)
    requires
        depth > 0,
    ensures
        perft_sum(p, depth, n) == code_sum(
            |m: int| legal_count(p, p.side_to_move, m) * perft_nodes(after_move(p, m), (depth - 1) as nat),
            n,
        ),
    decreases n,
{
    if n > 0 {
        lemma_perft_sum(p, depth, n - 1);
    }
}

/// The number of leaves below `p` is the sum, over the generated legal moves
/// in any order, of the leaves below each child.
pub(crate) proof fn lemma_perft_children(p: Position, depth: nat, s: Seq<u16>)
    requires
        depth > 0,
        forall|m: int| #[trigger] count_in(s, m) == legal_count(p, p.side_to_move, m),
    ensures
        perft_nodes(p, depth) == seq_sum(s, |m: int| perft_nodes(after_move(p, m), (depth - 1) as nat)),
{
    let f = |m: int| perft_nodes(after_move(p, m), (depth - 1) as nat);
    lemma_seq_sum_counts(s, f);
    lemma_perft_sum(p, depth, 65536);
    lemma_code_sum_ext(
        |m: int| count_in(s, m) * f(m),
        |m: int| legal_count(p, p.side_to_move, m) * perft_nodes(after_move(p, m), (depth - 1) as nat),
        65536,
    );
}

/// Counts the leaves of the legal move tree below the board, leaving it as it was.
fn count_nodes(board: &mut Board, depth: u32) -> (r: u64)
    requires
        depth >= 1,
        well_formed(old(board)@),
        old(board).half_move_clock + depth <= 0xffff,
        old(board).full_move_clock + depth <= 0xffff,
        perft_nodes(old(board)@, depth as nat) <= u64::MAX,
    ensures
        r == perft_nodes(old(board)@, depth as nat),
        final(board)@ == old(board)@,
        final(board).past() == old(board).past(),
    decreases depth,
{
    let ghost p = board@;
    let ghost past = board.past();
    let mut moves: Vec<Move> = Vec::new();
    let side = board.side_to_move;
    MoveGenerator::get_all_moves(board, side, &mut moves);
    let ghost s = codes(moves@);
    proof {
        assert(moves@.skip(0) =~= moves@);
        lemma_perft_children(p, depth as nat, s);
    }
    let ghost f = |m: int| perft_nodes(after_move(p, m), (depth - 1) as nat);
    if depth == 1 {
        proof {
            assert forall|m: int| #[trigger] f(m) == 1nat by {}
            assert(f =~= |m: int| 1nat);
            lemma_seq_sum_ones(s);
        }
        return moves.len() as u64;
    }
    let mut nodes: u64 = 0;
    let mut i: usize = 0;
    while i < moves.len()
        invariant
            board@ == p,
            board.past() == past,
            depth >= 2,
            side == p.side_to_move,
            well_formed(p),
            p.half_move_clock + depth <= 0xffff,
            p.full_move_clock + depth <= 0xffff,
            0 <= i <= moves@.len(),
            s == codes(moves@),
            forall|m: int| #[trigger] count_in(s, m) == legal_count(p, side, m),
            seq_sum(s, f) == perft_nodes(p, depth as nat),
            forall|m: int| #[trigger] f(m) == perft_nodes(after_move(p, m), (depth - 1) as nat),
            perft_nodes(p, depth as nat) <= u64::MAX,
            nodes == seq_sum(s.take(i as int), f),
        decreases moves.len() - i,
    {
        let mv = moves[i];
        let ghost m = mv.0 as int;
        proof {
            assert(s[i as int] == mv.0);
            lemma_count_member(s, i as int);
            lemma_pseudo_playable(p, side, m);
            lemma_after_move_well_formed(p, side, m);
            assert(s.take(i + 1) =~= s.take(i as int).push(mv.0));
            assert(s.take(i + 1).drop_last() =~= s.take(i as int));
            assert(s =~= s.take(i + 1) + s.skip(i + 1));
            lemma_seq_sum_concat(s.take(i + 1), s.skip(i + 1), f);
            assert(seq_sum(s.take(i + 1), f) == seq_sum(s.take(i as int), f) + f(m));
            assert(f(m) <= perft_nodes(p, depth as nat));
            assert(p.half_move_clock < 0xffff);
        }
        board.make_move(&mv);
        assert(board@ == after_move(p, m));
        assert(perft_nodes(board@, (depth - 1) as nat) == f(m));
        let n = count_nodes(board, depth - 1);
        board.unmake_move();
        nodes = nodes + n;
        i = i + 1;
    }
    proof {
        assert(s.take(moves@.len() as int) =~= s);
    }
    nodes
}

/// Counts the leaf nodes of the legal move tree to `depth`.
pub fn perft(board: &Board, depth: u32) -> (r: u64)
    requires
        well_formed(board@),
        board.half_move_clock + depth <= 0xffff,
        board.full_move_clock + depth <= 0xffff,
        perft_nodes(board@, depth as nat) <= u64::MAX,
    ensures
        r == perft_nodes(board@, depth as nat),
{
    if depth == 0 {
        return 1;
    }
    let mut work = Board {
        pieces: board.pieces,
        colors: board.colors,
        side_to_move: board.side_to_move,
        castling_rights: board.castling_rights,
        en_passant_sq: board.en_passant_sq,
        half_move_clock: board.half_move_clock,
        full_move_clock: board.full_move_clock,
        history: Vec::new(),
    };
    assert(work@ == board@);
    count_nodes(&mut work, depth)
}


/// The moves of a list of (move, count) pairs.
pub open spec fn pair_moves(pairs: Seq<(Move, u64)>) -> Seq<Move> {
    pairs.map_values(|x: (Move, u64)| x.0)
}

/// The map holding, for each pair in turn, the count under the move's UCI text.
pub open spec fn counts_by_name(pairs: Seq<(Move, u64)>) -> Map<Seq<char>, u64>
    decreases pairs.len(),
{
    if pairs.len() == 0 {
        Map::empty()
    } else {
        counts_by_name(pairs.drop_last()).insert(uci_text(pairs.last().0.0 as int), pairs.last().1)
    }
}

/// The leaves below each legal move of the side to move, in the order the
/// generator yields the moves.
pub fn divide_moves(board: &Board, depth: u32) -> (r: Vec<(Move, u64)>)
    requires
        depth >= 1,
        well_formed(board@),
        board.half_move_clock + depth <= 0xffff,
        board.full_move_clock + depth <= 0xffff,
        perft_nodes(board@, depth as nat) <= u64::MAX,
    ensures
        appends(Seq::empty(), pair_moves(r@), |m: int| legal_count(board@, board@.side_to_move, m)),
        grouped(pair_moves(r@)),
        keys_rise(pair_moves(r@), |m: int| legal_key(board@, board@.side_to_move, m), 0, 73728),
        forall|i: int|
            0 <= i < r@.len() ==> (#[trigger] r@[i]).1 == perft_nodes(
                after_move(board@, r@[i].0.0 as int),
                (depth - 1) as nat,
            ),
{
    let ghost p = board@;
    let mut work = Board {
        pieces: board.pieces,
        colors: board.colors,
        side_to_move: board.side_to_move,
        castling_rights: board.castling_rights,
        en_passant_sq: board.en_passant_sq,
        half_move_clock: board.half_move_clock,
        full_move_clock: board.full_move_clock,
        history: Vec::new(),
    };
    assert(work@ == p);
    let mut moves: Vec<Move> = Vec::new();
    let side = work.side_to_move;
    MoveGenerator::get_all_moves(&mut work, side, &mut moves);
    let ghost s = codes(moves@);
    let ghost f = |m: int| perft_nodes(after_move(p, m), (depth - 1) as nat);
    proof {
        assert(moves@.skip(0) =~= moves@);
        assert(added(Seq::empty(), moves@) =~= moves@);
        lemma_perft_children(p, depth as nat, s);
    }
    let mut result: Vec<(Move, u64)> = Vec::new();
    let mut i: usize = 0;
    while i < moves.len()
        invariant
            work@ == p,
            side == p.side_to_move,
            well_formed(p),
            p.half_move_clock + depth <= 0xffff,
            p.full_move_clock + depth <= 0xffff,
            depth >= 1,
            0 <= i <= moves@.len(),
            s == codes(moves@),
            forall|m: int| #[trigger] count_in(s, m) == legal_count(p, side, m),
            seq_sum(s, f) == perft_nodes(p, depth as nat),
            forall|m: int| #[trigger] f(m) == perft_nodes(after_move(p, m), (depth - 1) as nat),
            perft_nodes(p, depth as nat) <= u64::MAX,
            pair_moves(result@) == moves@.take(i as int),
            forall|j: int| 0 <= j < result@.len() ==> (#[trigger] result@[j]).1 == f(result@[j].0.0 as int),
        decreases moves.len() - i,
    {
        let mv = moves[i];
        let ghost m = mv.0 as int;
        proof {
            assert(s[i as int] == mv.0);
            lemma_count_member(s, i as int);
            lemma_pseudo_playable(p, side, m);
            lemma_after_move_well_formed(p, side, m);
            assert(s =~= s.take(i + 1) + s.skip(i + 1));
            lemma_seq_sum_concat(s.take(i + 1), s.skip(i + 1), f);
            assert(s.take(i + 1).drop_last() =~= s.take(i as int));
            assert(seq_sum(s.take(i + 1), f) == seq_sum(s.take(i as int), f) + f(m));
        }
        let nodes = if depth == 1 {
            1
        } else {
            work.make_move(&mv);
            assert(work@ == after_move(p, m));
            let n = count_nodes(&mut work, depth - 1);
            work.unmake_move();
            n
        };
        let ghost before = result@;
        result.push((mv, nodes));
        proof {
            assert(pair_moves(result@) =~= pair_moves(before).push(mv));
            assert(moves@.take(i + 1) =~= moves@.take(i as int).push(mv));
        }
        i = i + 1;
    }
    proof {
        assert(moves@.take(moves@.len() as int) =~= moves@);
    }
    result
}

/// The leaves below each legal move of the side to move, keyed by the move in UCI notation.
pub fn divide_map(board: &Board, depth: u32) -> (r: StringHashMap<u64>)
    requires
        depth >= 1,
        well_formed(board@),
        board.half_move_clock + depth <= 0xffff,
        board.full_move_clock + depth <= 0xffff,
        perft_nodes(board@, depth as nat) <= u64::MAX,
    ensures
        exists|pairs: Seq<(Move, u64)>|
            #![trigger counts_by_name(pairs)]
            r@ == counts_by_name(pairs) && appends(
                Seq::empty(),
                pair_moves(pairs),
                |m: int| legal_count(board@, board@.side_to_move, m),
            ) && grouped(pair_moves(pairs)) && keys_rise(
                pair_moves(pairs),
                |m: int| legal_key(board@, board@.side_to_move, m),
                0,
                73728,
            ) && (forall|i: int|
                0 <= i < pairs.len() ==> (#[trigger] pairs[i]).1 == perft_nodes(
                    after_move(board@, pairs[i].0.0 as int),
                    (depth - 1) as nat,
                )) && (ep_clear(board@) ==> names_distinct(pairs)) && (names_distinct(pairs) ==> map_total(r@)
                == perft_nodes(board@, depth as nat)),
{
    let counts = divide_moves(board, depth);
    let mut result: StringHashMap<u64> = StringHashMap::new();
    let mut i: usize = 0;
    while i < counts.len()
        invariant
            0 <= i <= counts@.len(),
            result@ == counts_by_name(counts@.take(i as int)),
        decreases counts.len() - i,
    {
        let (mv, nodes) = counts[i];
        result.insert(mv.to_uci(), nodes);
        proof {
            assert(counts@.take(i + 1).drop_last() =~= counts@.take(i as int));
        }
        i = i + 1;
    }
    proof {
        assert(counts@.take(counts@.len() as int) =~= counts@);
        if ep_clear(board@) {
            lemma_divide_names_distinct(board@, counts@);
        }
        if names_distinct(counts@) {
            lemma_divide_map_total(board@, depth as nat, counts@);
        }
    }
    result
}


/// The counts of a list of (move, count) pairs, added up.
pub open spec fn pairs_total(pairs: Seq<(Move, u64)>) -> nat
    decreases pairs.len(),
{
    if pairs.len() == 0 {
        0
    } else {
        pairs_total(pairs.drop_last()) + pairs.last().1 as nat
    }
}

/// Dividing a perft count by the first move loses nothing: the counts below
/// each legal move add up to the perft count of the position.
pub proof fn lemma_divide_total(p: Position, depth: nat, pairs: Seq<(Move, u64)>)
    requires
        depth >= 1,
        appends(Seq::empty(), pair_moves(pairs), |m: int| legal_count(p, p.side_to_move, m)),
        forall|i: int|
            0 <= i < pairs.len() ==> (#[trigger] pairs[i]).1 == perft_nodes(
                after_move(p, pairs[i].0.0 as int),
                (depth - 1) as nat,
            ),
    ensures
        pairs_total(pairs) == perft_nodes(p, depth),
{
    let f = |m: int| perft_nodes(after_move(p, m), (depth - 1) as nat);
    let s = codes(pair_moves(pairs));
    assert(pair_moves(pairs).skip(0) =~= pair_moves(pairs));
    lemma_pairs_total_sum(pairs, f);
    lemma_perft_children(p, depth, s);
}

/// The values of a map of counts, added up.
pub open spec fn map_total(m: Map<Seq<char>, u64>) -> nat {
    m.dom().fold(0nat, |acc: nat, k: Seq<char>| acc + m[k] as nat)
}

/// No two pairs name the same move in UCI notation.
pub open spec fn names_distinct(pairs: Seq<(Move, u64)>) -> bool {
    forall|i: int, j: int|
        0 <= i < j < pairs.len() ==> uci_text((#[trigger] pairs[i]).0.0 as int) != uci_text(
            (#[trigger] pairs[j]).0.0 as int,
        )
}

/// The values of the divide map add up to the perft count of the position,
/// when the moves' UCI names are distinct.
pub proof fn lemma_divide_map_total(p: Position, depth: nat, pairs: Seq<(Move, u64)>)
    requires
        depth >= 1,
        appends(Seq::empty(), pair_moves(pairs), |m: int| legal_count(p, p.side_to_move, m)),
        forall|i: int|
            0 <= i < pairs.len() ==> (#[trigger] pairs[i]).1 == perft_nodes(
                after_move(p, pairs[i].0.0 as int),
                (depth - 1) as nat,
            ),
        names_distinct(pairs),
    ensures
        map_total(counts_by_name(pairs)) == perft_nodes(p, depth),
{
    lemma_divide_total(p, depth, pairs);
    lemma_map_total_pairs(pairs);
}

/// The legal moves of a well-formed position whose en passant square holds no
/// piece have distinct UCI names.
pub proof fn lemma_divide_names_distinct(p: Position, pairs: Seq<(Move, u64)>)
    requires
        well_formed(p),
        ep_clear(p),
        appends(Seq::empty(), pair_moves(pairs), |m: int| legal_count(p, p.side_to_move, m)),
    ensures
        names_distinct(pairs),
{
    let s = codes(pair_moves(pairs));
    assert(pair_moves(pairs).skip(0) =~= pair_moves(pairs));
    assert forall|i: int, j: int| 0 <= i < j < pairs.len() implies uci_text((#[trigger] pairs[i]).0.0 as int)
        != uci_text((#[trigger] pairs[j]).0.0 as int) by {
        assert(s[i] == pairs[i].0.0 && s[j] == pairs[j].0.0);
        if uci_text(pairs[i].0.0 as int) == uci_text(pairs[j].0.0 as int) {
            lemma_count_member(s, i);
            lemma_count_member(s, j);
            lemma_same_name_same_move(p, p.side_to_move, s[i] as int, s[j] as int);
            lemma_count_two(s, i, j);
            lemma_legal_at_most_one(p, p.side_to_move, s[i] as int);
        }
    }
}

/// The names a map of counts holds are those of its pairs; it is finite.
proof fn lemma_counts_dom(pairs: Seq<(Move, u64)>)
    ensures
        counts_by_name(pairs).dom().finite(),
        forall|k: Seq<char>| #[trigger] counts_by_name(pairs).dom().contains(k) ==> exists|i: int|
            0 <= i < pairs.len() && uci_text(pairs[i].0.0 as int) == k,
    decreases pairs.len(),
{
    if pairs.len() > 0 {
        let q = pairs.drop_last();
        lemma_counts_dom(q);
        assert forall|k: Seq<char>| #[trigger] counts_by_name(pairs).dom().contains(k) implies exists|i: int|
            0 <= i < pairs.len() && uci_text(pairs[i].0.0 as int) == k by {
            if k == uci_text(pairs.last().0.0 as int) {
                assert(pairs[pairs.len() - 1] == pairs.last());
            } else {
                assert(counts_by_name(q).dom().contains(k));
                let i = choose|i: int| 0 <= i < q.len() && uci_text(q[i].0.0 as int) == k;
                assert(pairs[i] == q[i]);
            }
        }
    }
}

/// Folding the values of two maps that agree on a set gives the same total.
proof fn lemma_fold_agree(s: Set<Seq<char>>, m1: Map<Seq<char>, u64>, m2: Map<Seq<char>, u64>)
    requires
        s.finite(),
        forall|k: Seq<char>| s.contains(k) ==> m1[k] == m2[k],
    ensures
        s.fold(0nat, |acc: nat, k: Seq<char>| acc + m1[k] as nat) == s.fold(
            0nat,
            |acc: nat, k: Seq<char>| acc + m2[k] as nat,
        ),
    decreases s.len(),
{
    let f1 = |acc: nat, k: Seq<char>| acc + m1[k] as nat;
    let f2 = |acc: nat, k: Seq<char>| acc + m2[k] as nat;
    assert(vstd::set::fold::is_fun_commutative(f1));
    assert(vstd::set::fold::is_fun_commutative(f2));
    if s.len() == 0 {
        assert(s =~= Set::empty());
        vstd::set::fold::lemma_fold_empty(0nat, f1);
        vstd::set::fold::lemma_fold_empty(0nat, f2);
    } else {
        let a = s.choose();
        let r = s.remove(a);
        assert(r.insert(a) =~= s);
        lemma_fold_agree(r, m1, m2);
        vstd::set::fold::lemma_fold_insert(r, 0nat, f1, a);
        vstd::set::fold::lemma_fold_insert(r, 0nat, f2, a);
    }
}

/// With distinct names, the map's values add up to the pairs' counts.
proof fn lemma_map_total_pairs(pairs: Seq<(Move, u64)>)
    requires
        names_distinct(pairs),
    ensures
        map_total(counts_by_name(pairs)) == pairs_total(pairs),
    decreases pairs.len(),
{
    let m = counts_by_name(pairs);
    let f = |acc: nat, k: Seq<char>| acc + m[k] as nat;
    assert(vstd::set::fold::is_fun_commutative(f));
    if pairs.len() == 0 {
        assert(m.dom() =~= Set::empty());
        vstd::set::fold::lemma_fold_empty(0nat, f);
    } else {
        let q = pairs.drop_last();
        assert forall|i: int, j: int| 0 <= i < j < q.len() implies uci_text((#[trigger] q[i]).0.0 as int)
            != uci_text((#[trigger] q[j]).0.0 as int) by {
            assert(q[i] == pairs[i] && q[j] == pairs[j]);
        }
        lemma_map_total_pairs(q);
        lemma_counts_dom(q);
        let mq = counts_by_name(q);
        let name = uci_text(pairs.last().0.0 as int);
        if mq.dom().contains(name) {
            let i = choose|i: int| 0 <= i < q.len() && uci_text(q[i].0.0 as int) == name;
            assert(q[i] == pairs[i]);
            assert(pairs[pairs.len() - 1] == pairs.last());
            assert(false);
        }
        assert(m.dom() =~= mq.dom().insert(name));
        lemma_fold_agree(mq.dom(), m, mq);
        vstd::set::fold::lemma_fold_insert(mq.dom(), 0nat, f, name);
    }
}

proof fn lemma_pairs_total_sum(pairs: Seq<(Move, u64)>, f: spec_fn(int) -> nat)
    requires
        forall|i: int| 0 <= i < pairs.len() ==> (#[trigger] pairs[i]).1 == f(pairs[i].0.0 as int),
    ensures
        pairs_total(pairs) == seq_sum(codes(pair_moves(pairs)), f),
    decreases pairs.len(),
{
    if pairs.len() > 0 {
        let q = pairs.drop_last();
        assert forall|i: int| 0 <= i < q.len() implies (#[trigger] q[i]).1 == f(q[i].0.0 as int) by {
            assert(q[i] == pairs[i]);
        }
        lemma_pairs_total_sum(q, f);
        assert(codes(pair_moves(pairs)).drop_last() =~= codes(pair_moves(q)));
        assert(pairs[pairs.len() - 1] == pairs.last());
    }
}

} // verus!

//! How generated moves are counted, and the order in which a side visits the
//! squares of a bitboard.
use vstd::prelude::*;
use crate::bitboard::{bit, lemma_mask_test};
use crate::board::Color;
use super::{Move, codes, move_from};
use super::rules::{count_in, lemma_count_concat, lemma_count_push};
use super::legal::lemma_count_member;

verus! {

/// `new` is `old` followed by moves among which each code `m` occurs `n(m)` times.
pub open spec fn appends(old: Seq<Move>, new: Seq<Move>, n: spec_fn(int) -> nat) -> bool {
    &&& new.len() >= old.len()
    &&& new.subrange(0, old.len() as int) == old
    &&& forall|m: int| #[trigger] count_in(codes(new.skip(old.len() as int)), m) == n(m)
}

pub open spec fn indicator(b: bool) -> nat {
    if b {
        1
    } else {
        0
    }
}

pub(crate) proof fn lemma_appends_refl(a: Seq<Move>)
    ensures
        appends(a, a, |m: int| 0nat),
{
    assert(a.subrange(0, a.len() as int) =~= a);
    assert(codes(a.skip(a.len() as int)) =~= Seq::<u16>::empty());
}

pub(crate) proof fn lemma_appends_push(a: Seq<Move>, b: Seq<Move>, n: spec_fn(int) -> nat, mv: Move)
    requires
        appends(a, b, n),
    ensures
        appends(a, b.push(mv), |m: int| n(m) + indicator(m == mv.0 as int)),
{
    assert(b.push(mv).subrange(0, a.len() as int) =~= b.subrange(0, a.len() as int));
    assert(b.push(mv).skip(a.len() as int) =~= b.skip(a.len() as int).push(mv));
    assert(codes(b.push(mv).skip(a.len() as int)) =~= codes(b.skip(a.len() as int)).push(mv.0));
    assert forall|m: int|
        #[trigger] count_in(codes(b.push(mv).skip(a.len() as int)), m) == n(m) + indicator(
            m == mv.0 as int,
        ) by {
        lemma_count_push(codes(b.skip(a.len() as int)), mv.0, m);
    }
}

pub(crate) proof fn lemma_appends_trans(
    a: Seq<Move>,
    b: Seq<Move>,
    c: Seq<Move>,
    n1: spec_fn(int) -> nat,
    n2: spec_fn(int) -> nat,
)
    requires
        appends(a, b, n1),
        appends(b, c, n2),
    ensures
        appends(a, c, |m: int| n1(m) + n2(m)),
{
    assert(c.subrange(0, a.len() as int) =~= c.subrange(0, b.len() as int).subrange(
        0,
        a.len() as int,
    ));
    assert(c.skip(a.len() as int) =~= b.skip(a.len() as int) + c.skip(b.len() as int));
    assert(codes(c.skip(a.len() as int)) =~= codes(b.skip(a.len() as int)) + codes(
        c.skip(b.len() as int),
    ));
    assert forall|m: int| #[trigger] count_in(codes(c.skip(a.len() as int)), m) == n1(m) + n2(m) by {
        lemma_count_concat(codes(b.skip(a.len() as int)), codes(c.skip(b.len() as int)), m);
    }
}

pub(crate) proof fn lemma_appends_ext(a: Seq<Move>, b: Seq<Move>, n1: spec_fn(int) -> nat, n2: spec_fn(int) -> nat)
    requires
        appends(a, b, n1),
        forall|m: int| #[trigger] n1(m) == n2(m),
    ensures
        appends(a, b, n2),
{
    assert forall|m: int| #[trigger] count_in(codes(b.skip(a.len() as int)), m) == n2(m) by {
        assert(n1(m) == n2(m));
    }
}

/// Where square `s` comes in the order in which side `c` visits its pieces:
/// from a1 upward for White; for Black as seen from Black's side of the board,
/// rank 8 first, each rank from the a-file on.
pub open spec fn walk_key(c: Color, s: int) -> int {
    match c {
        Color::White => s,
        Color::Black => (7 - s / 8) * 8 + s % 8,
    }
}

/// `r` holds the squares of `bb`, each once, in the order in which side `c`
/// visits them.
pub open spec fn walk_of(r: Seq<u16>, bb: u64, c: Color) -> bool {
    &&& forall|j: int| 0 <= j < r.len() ==> bit(bb, #[trigger] r[j] as int)
    &&& forall|s: int| bit(bb, s) ==> exists|j: int| 0 <= j < r.len() && #[trigger] r[j] as int == s
    &&& forall|i: int, j: int|
        0 <= i < j < r.len() ==> walk_key(c, #[trigger] r[i] as int) < walk_key(c, #[trigger] r[j] as int)
}

/// Square `s` is among the first `j` squares of `r`.
pub open spec fn walked(r: Seq<u16>, j: int, s: int) -> bool {
    exists|t: int| 0 <= t < j && #[trigger] r[t] as int == s
}

/// The squares of `bb` in the order in which side `c` visits them.
pub fn walk_squares(bb: u64, c: Color) -> (r: Vec<u16>)
    ensures
        walk_of(r@, bb, c),
{
    let mut r: Vec<u16> = Vec::new();
    let mut k: u16 = 0;
    while k < 64
        invariant
            k <= 64,
            forall|j: int| 0 <= j < r@.len() ==> bit(bb, #[trigger] r@[j] as int) && walk_key(c, r@[j] as int) < k,
            forall|s: int| bit(bb, s) && walk_key(c, s) < k ==> exists|j: int| 0 <= j < r@.len() && #[trigger] r@[j] as int == s,
            forall|i: int, j: int|
                0 <= i < j < r@.len() ==> walk_key(c, #[trigger] r@[i] as int) < walk_key(c, #[trigger] r@[j] as int),
        decreases 64 - k,
    {
        let sq: u16 = match c {
            Color::White => k,
            Color::Black => (7 - k / 8) * 8 + k % 8,
        };
        assert(0 <= sq < 64 && walk_key(c, sq as int) == k);
        assert forall|s: int| 0 <= s < 64 && walk_key(c, s) == k implies s == sq by {}
        let ghost r0 = r@;
        proof {
            lemma_mask_test(bb, sq as int);
        }
        if bb & (1u64 << sq) != 0 {
            r.push(sq);
            assert forall|s: int| bit(bb, s) && walk_key(c, s) < k + 1 implies exists|j: int|
                0 <= j < r@.len() && #[trigger] r@[j] as int == s by {
                if walk_key(c, s) == k {
                    assert(r@[r0.len() as int] as int == s);
                } else {
                    let j = choose|j: int| 0 <= j < r0.len() && #[trigger] r0[j] as int == s;
                    assert(r@[j] as int == s);
                }
            }
        }
        k = k + 1;
    }
    r
}

/// One more square of a walk.
pub(crate) proof fn lemma_walk_step(r: Seq<u16>, bb: u64, c: Color, j: int)
    requires
        walk_of(r, bb, c),
        0 <= j < r.len(),
    ensures
        !walked(r, j, r[j] as int),
        forall|s: int| #[trigger] walked(r, j + 1, s) == (walked(r, j, s) || s == r[j] as int),
        0 <= r[j] < 64,
{
    if walked(r, j, r[j] as int) {
        let t = choose|t: int| 0 <= t < j && #[trigger] r[t] as int == r[j] as int;
        assert(walk_key(c, r[t] as int) < walk_key(c, r[j] as int));
    }
    assert forall|s: int| #[trigger] walked(r, j + 1, s) == (walked(r, j, s) || s == r[j] as int) by {
        if walked(r, j + 1, s) {
            let t = choose|t: int| 0 <= t < j + 1 && #[trigger] r[t] as int == s;
            if t < j {
                assert(walked(r, j, s));
            }
        }
        if s == r[j] as int {
            assert(r[j] as int == s);
        }
        if walked(r, j, s) {
            let t = choose|t: int| 0 <= t < j && #[trigger] r[t] as int == s;
            assert(0 <= t < j + 1);
        }
    }
    assert(bit(bb, r[j] as int));
}

/// A whole walk visits exactly the squares of the bitboard.
pub(crate) proof fn lemma_walk_end(r: Seq<u16>, bb: u64, c: Color)
    requires
        walk_of(r, bb, c),
    ensures
        forall|s: int| #[trigger] walked(r, r.len() as int, s) == bit(bb, s),
{
    assert forall|s: int| #[trigger] walked(r, r.len() as int, s) == bit(bb, s) by {
        if walked(r, r.len() as int, s) {
            let t = choose|t: int| 0 <= t < r.len() && #[trigger] r[t] as int == s;
            assert(bit(bb, r[t] as int));
        }
        if bit(bb, s) {
            let t = choose|t: int| 0 <= t < r.len() && #[trigger] r[t] as int == s;
            assert(0 <= t < r.len() && r[t] as int == s);
        }
    }
}

/// A walk starts at the first square of the bitboard in its order.
pub(crate) proof fn lemma_walk_first(r: Seq<u16>, bb: u64, c: Color, s: int)
    requires
        walk_of(r, bb, c),
        r.len() > 0,
        bit(bb, s),
    ensures
        walk_key(c, r[0] as int) <= walk_key(c, s),
{
    let t = choose|t: int| 0 <= t < r.len() && #[trigger] r[t] as int == s;
    if t > 0 {
        assert(walk_key(c, r[0] as int) < walk_key(c, r[t] as int));
    }
}

/// The moves of `s` come in strictly rising order of `key`, every key within
/// `lo..hi`.
pub open spec fn keys_rise(s: Seq<Move>, key: spec_fn(int) -> int, lo: int, hi: int) -> bool {
    &&& forall|i: int| 0 <= i < s.len() ==> lo <= key(#[trigger] s[i].0 as int) < hi
    &&& forall|i: int, j: int| 0 <= i < j < s.len() ==> key(#[trigger] s[i].0 as int) < key(#[trigger] s[j].0 as int)
}

/// Every move of `s` starts on `from`.
pub open spec fn all_from(s: Seq<Move>, from: int) -> bool {
    forall|i: int| 0 <= i < s.len() ==> move_from(#[trigger] s[i].0 as int) == from
}

/// The moves added to `a` in making `b`.
pub open spec fn added(a: Seq<Move>, b: Seq<Move>) -> Seq<Move> {
    b.skip(a.len() as int)
}

pub(crate) proof fn lemma_rise_none(a: Seq<Move>, key: spec_fn(int) -> int, lo: int, hi: int)
    ensures
        keys_rise(added(a, a), key, lo, hi),
        all_from(added(a, a), 0),
{
    assert(added(a, a).len() == 0);
}

pub(crate) proof fn lemma_rise_push(a: Seq<Move>, b: Seq<Move>, key: spec_fn(int) -> int, lo: int, mid: int, hi: int, mv: Move)
    requires
        b.len() >= a.len(),
        lo <= mid,
        keys_rise(added(a, b), key, lo, mid),
        mid <= key(mv.0 as int) < hi,
    ensures
        keys_rise(added(a, b.push(mv)), key, lo, hi),
        added(a, b.push(mv)) == added(a, b).push(mv),
{
    let x = added(a, b);
    assert(added(a, b.push(mv)) =~= x.push(mv));
    let y = x.push(mv);
    assert forall|i: int| 0 <= i < y.len() implies lo <= key(#[trigger] y[i].0 as int) < hi by {
        if i < x.len() {
            assert(y[i] == x[i]);
        }
    }
    assert forall|i: int, j: int| 0 <= i < j < y.len() implies key(#[trigger] y[i].0 as int) < key(
        #[trigger] y[j].0 as int,
    ) by {
        assert(y[i] == x[i]);
        if j < x.len() {
            assert(y[j] == x[j]);
        }
    }
}

pub(crate) proof fn lemma_rise_trans(
    a: Seq<Move>,
    b: Seq<Move>,
    c: Seq<Move>,
    key: spec_fn(int) -> int,
    lo: int,
    mid: int,
    hi: int,
)
    requires
        b.len() >= a.len(),
        c.len() >= b.len(),
        c.subrange(0, b.len() as int) == b,
        lo <= mid <= hi,
        keys_rise(added(a, b), key, lo, mid),
        keys_rise(added(b, c), key, mid, hi),
    ensures
        keys_rise(added(a, c), key, lo, hi),
        added(a, c) == added(a, b) + added(b, c),
{
    assert(added(a, c) =~= added(a, b) + added(b, c)) by {
        assert forall|i: int| 0 <= i < b.len() - a.len() implies added(a, c)[i] == added(a, b)[i] by {
            assert(c[a.len() + i] == c.subrange(0, b.len() as int)[a.len() + i]);
        }
    }
    let x = added(a, b);
    let y = added(b, c);
    assert forall|i: int, j: int| 0 <= i < j < (x + y).len() implies key(#[trigger] (x + y)[i].0 as int) < key(
        #[trigger] (x + y)[j].0 as int,
    ) by {
        if j < x.len() {
            assert((x + y)[i] == x[i] && (x + y)[j] == x[j]);
            assert(key(x[i].0 as int) < key(x[j].0 as int));
        } else if i < x.len() {
            assert((x + y)[i] == x[i] && (x + y)[j] == y[j - x.len()]);
            assert(key(x[i].0 as int) < mid);
            assert(mid <= key(y[j - x.len()].0 as int));
        } else {
            assert((x + y)[i] == y[i - x.len()] && (x + y)[j] == y[j - x.len()]);
            assert(key(y[i - x.len()].0 as int) < key(y[j - x.len()].0 as int));
        }
    }
    assert forall|i: int| 0 <= i < (x + y).len() implies lo <= key(#[trigger] (x + y)[i].0 as int) < hi by {
        if i < x.len() {
            assert((x + y)[i] == x[i]);
            assert(lo <= key(x[i].0 as int) < mid);
        } else {
            assert((x + y)[i] == y[i - x.len()]);
            assert(mid <= key(y[i - x.len()].0 as int) < hi);
        }
    }
}

/// Keys that differ from others by a constant on the moves of `s` rise alike.
pub(crate) proof fn lemma_rise_shift(s: Seq<Move>, k1: spec_fn(int) -> int, k2: spec_fn(int) -> int, d: int, lo: int, hi: int)
    requires
        keys_rise(s, k1, lo, hi),
        forall|i: int| 0 <= i < s.len() ==> k2(#[trigger] s[i].0 as int) == k1(s[i].0 as int) + d,
    ensures
        keys_rise(s, k2, lo + d, hi + d),
{
    assert forall|i: int, j: int| 0 <= i < j < s.len() implies k2(#[trigger] s[i].0 as int) < k2(#[trigger] s[j].0 as int) by {
        assert(k1(s[i].0 as int) < k1(s[j].0 as int));
    }
    assert forall|i: int| 0 <= i < s.len() implies lo + d <= k2(#[trigger] s[i].0 as int) < hi + d by {
        assert(lo <= k1(s[i].0 as int) < hi);
    }
}

/// Wider bounds hold too.
pub(crate) proof fn lemma_rise_widen(s: Seq<Move>, key: spec_fn(int) -> int, lo: int, hi: int, lo2: int, hi2: int)
    requires
        keys_rise(s, key, lo, hi),
        lo2 <= lo,
        hi <= hi2,
    ensures
        keys_rise(s, key, lo2, hi2),
{
}

/// The moves of one more square, keyed from `base` on, follow moves keyed
/// below `lo <= base`.
pub(crate) proof fn lemma_rise_square(
    a: Seq<Move>,
    b: Seq<Move>,
    c: Seq<Move>,
    inner: spec_fn(int) -> int,
    key: spec_fn(int) -> int,
    lo: int,
    base: int,
    width: int,
)
    requires
        c.len() >= b.len(),
        c.subrange(0, b.len() as int) == b,
        b.len() >= a.len(),
        0 <= lo <= base,
        0 <= width,
        keys_rise(added(a, b), key, 0, lo),
        keys_rise(added(b, c), inner, 0, width),
        forall|i: int|
            0 <= i < added(b, c).len() ==> key(#[trigger] added(b, c)[i].0 as int) == inner(added(b, c)[i].0 as int) + base,
    ensures
        keys_rise(added(a, c), key, 0, base + width),
        c.len() >= a.len(),
{
    lemma_rise_shift(added(b, c), inner, key, base, 0, width);
    lemma_rise_widen(added(b, c), key, base, base + width, lo, base + width);
    lemma_rise_trans(a, b, c, key, 0, lo, base + width);
}

/// Moves keyed by their place in `s`, from `base` on, rise.
pub(crate) proof fn lemma_rise_index(s: Seq<Move>, key: spec_fn(int) -> int, base: int)
    requires
        forall|i: int| 0 <= i < s.len() ==> key(#[trigger] s[i].0 as int) == base + i,
    ensures
        keys_rise(s, key, base, base + s.len()),
{
    assert forall|i: int, j: int| 0 <= i < j < s.len() implies key(#[trigger] s[i].0 as int) < key(#[trigger] s[j].0 as int) by {
        assert(key(s[i].0 as int) == base + i);
        assert(key(s[j].0 as int) == base + j);
    }
}

pub(crate) proof fn lemma_from_trans(a: Seq<Move>, b: Seq<Move>, c: Seq<Move>, from: int)
    requires
        b.len() >= a.len(),
        c.len() >= b.len(),
        c.subrange(0, b.len() as int) == b,
        all_from(added(a, b), from),
        all_from(added(b, c), from),
    ensures
        all_from(added(a, c), from),
{
    assert(added(a, c) =~= added(a, b) + added(b, c)) by {
        assert forall|i: int| 0 <= i < b.len() - a.len() implies added(a, c)[i] == added(a, b)[i] by {
            assert(c[a.len() + i] == c.subrange(0, b.len() as int)[a.len() + i]);
        }
    }
    let x = added(a, b);
    let y = added(b, c);
    assert forall|i: int| 0 <= i < (x + y).len() implies move_from(#[trigger] (x + y)[i].0 as int) == from by {
        if i < x.len() {
            assert((x + y)[i] == x[i]);
        } else {
            assert((x + y)[i] == y[i - x.len()]);
        }
    }
}

/// Keys equal on every move rise alike.
pub(crate) proof fn lemma_rise_ext(s: Seq<Move>, k1: spec_fn(int) -> int, k2: spec_fn(int) -> int, lo: int, hi: int)
    requires
        keys_rise(s, k1, lo, hi),
        forall|m: int| #[trigger] k1(m) == k2(m),
    ensures
        keys_rise(s, k2, lo, hi),
{
    lemma_rise_shift(s, k1, k2, 0, lo, hi);
}

pub(crate) proof fn lemma_prefix_trans(a: Seq<Move>, b: Seq<Move>, c: Seq<Move>)
    requires
        b.len() >= a.len(),
        b.subrange(0, a.len() as int) == a,
        c.len() >= b.len(),
        c.subrange(0, b.len() as int) == b,
    ensures
        c.subrange(0, a.len() as int) == a,
{
    assert(c.subrange(0, a.len() as int) =~= a) by {
        assert forall|i: int| 0 <= i < a.len() implies c.subrange(0, a.len() as int)[i] == a[i] by {
            assert(c.subrange(0, b.len() as int)[i] == b[i]);
            assert(b.subrange(0, a.len() as int)[i] == a[i]);
        }
    }
}

/// Keyed moves that follow one another rise across the join.
pub(crate) proof fn lemma_rise_concat(x: Seq<Move>, y: Seq<Move>, key: spec_fn(int) -> int, lo: int, mid: int, hi: int)
    requires
        lo <= mid <= hi,
        keys_rise(x, key, lo, mid),
        keys_rise(y, key, mid, hi),
    ensures
        keys_rise(x + y, key, lo, hi),
{
    assert forall|i: int, j: int| 0 <= i < j < (x + y).len() implies key(#[trigger] (x + y)[i].0 as int) < key(
        #[trigger] (x + y)[j].0 as int,
    ) by {
        if j < x.len() {
            assert((x + y)[i] == x[i] && (x + y)[j] == x[j]);
        } else if i < x.len() {
            assert((x + y)[i] == x[i] && (x + y)[j] == y[j - x.len()]);
            assert(key(x[i].0 as int) < mid);
            assert(mid <= key(y[j - x.len()].0 as int));
        } else {
            assert((x + y)[i] == y[i - x.len()] && (x + y)[j] == y[j - x.len()]);
            assert(key(y[i - x.len()].0 as int) < key(y[j - x.len()].0 as int));
        }
    }
    assert forall|i: int| 0 <= i < (x + y).len() implies lo <= key(#[trigger] (x + y)[i].0 as int) < hi by {
        if i < x.len() {
            assert((x + y)[i] == x[i]);
        } else {
            assert((x + y)[i] == y[i - x.len()]);
        }
    }
}

/// A move keyed from `mid` on follows moves keyed below it.
pub(crate) proof fn lemma_rise_append(x: Seq<Move>, key: spec_fn(int) -> int, lo: int, mid: int, hi: int, mv: Move)
    requires
        lo <= mid,
        keys_rise(x, key, lo, mid),
        mid <= key(mv.0 as int) < hi,
    ensures
        keys_rise(x.push(mv), key, lo, hi),
{
    assert(keys_rise(seq![mv], key, mid, hi));
    assert(x.push(mv) =~= x + seq![mv]);
    lemma_rise_concat(x, seq![mv], key, lo, mid, hi);
}

/// A code counted in a sequence stands at some place of it.
pub(crate) proof fn lemma_count_found(s: Seq<u16>, m: int) -> (i: int)
    requires
        count_in(s, m) >= 1,
    ensures
        0 <= i < s.len(),
        s[i] as int == m,
    decreases s.len(),
{
    if s.last() as int == m {
        (s.len() - 1) as int
    } else {
        lemma_count_found(s.drop_last(), m)
    }
}

/// Two sequences holding the same moves, each in strictly rising order of
/// one key, are the same sequence.
pub proof fn lemma_rise_unique(s1: Seq<Move>, s2: Seq<Move>, key: spec_fn(int) -> int, lo: int, hi: int)
    requires
        forall|m: int| #[trigger] count_in(codes(s1), m) == count_in(codes(s2), m),
        keys_rise(s1, key, lo, hi),
        keys_rise(s2, key, lo, hi),
    ensures
        s1 == s2,
    decreases s1.len() + s2.len(),
{
    if s1.len() == 0 || s2.len() == 0 {
        if s1.len() > 0 {
            let m = codes(s1)[s1.len() - 1] as int;
            lemma_count_member(codes(s1), s1.len() - 1);
            assert(codes(s2).len() == 0);
            assert(count_in(codes(s2), m) == 0);
            assert(false);
        }
        if s2.len() > 0 {
            let m = codes(s2)[s2.len() - 1] as int;
            lemma_count_member(codes(s2), s2.len() - 1);
            assert(codes(s1).len() == 0);
            assert(count_in(codes(s1), m) == 0);
            assert(false);
        }
        assert(s1 =~= s2);
    } else {
        let n1 = s1.len() - 1;
        let n2 = s2.len() - 1;
        let x1 = s1[n1];
        let x2 = s2[n2];
        lemma_count_member(codes(s1), n1);
        lemma_count_member(codes(s2), n2);
        assert(codes(s1)[n1] == x1.0);
        assert(codes(s2)[n2] == x2.0);
        let j2 = lemma_count_found(codes(s2), x1.0 as int);
        let j1 = lemma_count_found(codes(s1), x2.0 as int);
        assert(codes(s2)[j2] == s2[j2].0);
        assert(codes(s1)[j1] == s1[j1].0);
        if j2 < n2 {
            assert(key(s2[j2].0 as int) < key(x2.0 as int));
        }
        if j1 < n1 {
            assert(key(s1[j1].0 as int) < key(x1.0 as int));
        }
        assert(x1 == x2);
        let t1 = s1.drop_last();
        let t2 = s2.drop_last();
        assert(codes(t1) =~= codes(s1).drop_last());
        assert(codes(t2) =~= codes(s2).drop_last());
        assert forall|m: int| #[trigger] count_in(codes(t1), m) == count_in(codes(t2), m) by {
            assert(count_in(codes(s1), m) == count_in(codes(t1), m) + if codes(s1).last() as int == m {
                1nat
            } else {
                0nat
            });
            assert(count_in(codes(s2), m) == count_in(codes(t2), m) + if codes(s2).last() as int == m {
                1nat
            } else {
                0nat
            });
        }
        assert forall|i: int, j: int| 0 <= i < j < t1.len() implies key(#[trigger] t1[i].0 as int) < key(#[trigger] t1[j].0 as int) by {
            assert(key(s1[i].0 as int) < key(s1[j].0 as int));
        }
        assert forall|i: int, j: int| 0 <= i < j < t2.len() implies key(#[trigger] t2[i].0 as int) < key(#[trigger] t2[j].0 as int) by {
            assert(key(s2[i].0 as int) < key(s2[j].0 as int));
        }
        assert forall|i: int| 0 <= i < t1.len() implies lo <= key(#[trigger] t1[i].0 as int) < hi by {
            assert(lo <= key(s1[i].0 as int) < hi);
        }
        assert forall|i: int| 0 <= i < t2.len() implies lo <= key(#[trigger] t2[i].0 as int) < hi by {
            assert(lo <= key(s2[i].0 as int) < hi);
        }
        lemma_rise_unique(t1, t2, key, lo, hi);
        assert(s1 =~= t1.push(x1));
        assert(s2 =~= t2.push(x2));
    }
}

} // verus!

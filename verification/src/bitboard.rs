//! Bit-level facts about 64-square bitboards.
//!
//! Square `s` (0 = a1, 63 = h8) is present in a bitboard `bb` exactly when bit
//! `s` of `bb` is set. Everything the move generator proves about occupancy is
//! stated through [`bit`].
use vstd::prelude::*;
use vstd::std_specs::bits::{u64_trailing_zeros, axiom_u64_trailing_zeros};

verus! {

/// Is square `sq` set in `bb`?
pub open spec fn bit(bb: u64, sq: int) -> bool {
    0 <= sq < 64 && (bb >> (sq as u64)) & 1u64 == 1u64
}

/// The bitboard holding exactly square `sq`.
pub open spec fn single(sq: int) -> u64 {
    1u64 << (sq as u64)
}

pub(crate) proof fn lemma_bit_or(a: u64, b: u64, s: int)
    ensures
        bit(a | b, s) == (bit(a, s) || bit(b, s)),
{
    if 0 <= s < 64 {
        let t = s as u64;
        assert(((a | b) >> t) & 1u64 == 1u64 <==> ((a >> t) & 1u64 == 1u64 || (b >> t) & 1u64
            == 1u64)) by (bit_vector);
    }
}

pub(crate) proof fn lemma_bit_and(a: u64, b: u64, s: int)
    ensures
        bit(a & b, s) == (bit(a, s) && bit(b, s)),
{
    if 0 <= s < 64 {
        let t = s as u64;
        assert(((a & b) >> t) & 1u64 == 1u64 <==> ((a >> t) & 1u64 == 1u64 && (b >> t) & 1u64
            == 1u64)) by (bit_vector);
    }
}

pub(crate) proof fn lemma_bit_single(t: int, s: int)
    requires
        0 <= t < 64,
    ensures
        bit(single(t), s) == (s == t),
{
    if 0 <= s < 64 {
        let a = t as u64;
        let b = s as u64;
        assert(a < 64 && b < 64 ==> (((1u64 << a) >> b) & 1u64 == 1u64 <==> a == b))
            by (bit_vector);
    }
}

/// Testing a square with a mask: `bb & (1 << t) != 0` says that `t` is set.
pub(crate) proof fn lemma_mask_test(bb: u64, t: int)
    requires
        0 <= t < 64,
    ensures
        (bb & single(t) != 0) == bit(bb, t),
{
    let a = t as u64;
    assert(a < 64 ==> ((bb & (1u64 << a) != 0) <==> (bb >> a) & 1u64 == 1u64)) by (bit_vector);
}

/// Clearing a square with `bb & !(1 << t)`.
pub(crate) proof fn lemma_bit_clear(bb: u64, t: int, s: int)
    requires
        0 <= t < 64,
    ensures
        bit(bb & !single(t), s) == (bit(bb, s) && s != t),
{
    if 0 <= s < 64 {
        let a = t as u64;
        let b = s as u64;
        assert(a < 64 && b < 64 ==> (((bb & !(1u64 << a)) >> b) & 1u64 == 1u64 <==> ((bb >> b)
            & 1u64 == 1u64 && a != b))) by (bit_vector);
    }
}

/// Setting a square with `bb | (1 << t)`.
pub(crate) proof fn lemma_bit_set(bb: u64, t: int, s: int)
    requires
        0 <= t < 64,
    ensures
        bit(bb | single(t), s) == (bit(bb, s) || s == t),
{
    lemma_bit_or(bb, single(t), s);
    lemma_bit_single(t, s);
}

/// Two bitboards with the same squares are equal.
pub(crate) proof fn lemma_bits_ext(a: u64, b: u64)
    requires
        forall|s: int| 0 <= s < 64 ==> bit(a, s) == bit(b, s),
    ensures
        a == b,
{
    if a != b {
        let d = a ^ b;
        assert(a != b ==> a ^ b != 0) by (bit_vector);
        axiom_u64_trailing_zeros(d);
        let z = u64_trailing_zeros(d) as u64;
        assert(z < 64 && ((a ^ b) >> z) & 1u64 == 1u64 ==> (((a >> z) & 1u64 == 1u64) != ((b >> z)
            & 1u64 == 1u64))) by (bit_vector);
        assert(bit(a, z as int) == bit(b, z as int));
    }
}

/// A bitboard with no square set is zero.
pub(crate) proof fn lemma_empty_is_zero(a: u64)
    ensures
        (a == 0) == (forall|s: int| 0 <= s < 64 ==> !bit(a, s)),
{
    if a == 0 {
        assert forall|s: int| 0 <= s < 64 implies !bit(a, s) by {
            let t = s as u64;
            assert((0u64 >> t) & 1u64 == 0u64) by (bit_vector);
        }
    }
    if forall|s: int| 0 <= s < 64 ==> !bit(a, s) {
        assert forall|s: int| 0 <= s < 64 implies !bit(0u64, s) by {
            let t = s as u64;
            assert((0u64 >> t) & 1u64 == 0u64) by (bit_vector);
        }
        lemma_bits_ext(a, 0);
    }
}

/// The lowest square of a non-empty bitboard, and what `x & (x - 1)` leaves.
pub(crate) proof fn lemma_lowest_bit(x: u64)
    requires
        x != 0,
    ensures
        u64_trailing_zeros(x) < 64,
        bit(x, u64_trailing_zeros(x) as int),
        forall|s: int| 0 <= s < u64_trailing_zeros(x) ==> !bit(x, s),
        forall|s: int|
            #![trigger bit(x & ((x - 1) as u64), s)]
            bit(x & ((x - 1) as u64), s) == (bit(x, s) && s != u64_trailing_zeros(x)),
{
    axiom_u64_trailing_zeros(x);
    let z = u64_trailing_zeros(x) as u64;
    assert forall|s: int| 0 <= s < u64_trailing_zeros(x) implies !bit(x, s) by {
        let t = s as u64;
        assert((x >> t) & 1u64 == 0u64);
    }
    assert forall|s: int| #![trigger bit(x & ((x - 1) as u64), s)]
        bit(x & ((x - 1) as u64), s) == (bit(x, s) && s != u64_trailing_zeros(x)) by {
        if 0 <= s < 64 {
            let t = s as u64;
            if t < z {
                assert((x >> t) & 1u64 == 0u64);
                assert(x != 0 && (x >> t) & 1u64 == 0u64 && (x >> z) & 1u64 == 1u64 && t < z && z
                    < 64 && x << ((64 - z) as u64) == 0 ==> ((x & ((x - 1) as u64)) >> t) & 1u64 == 0u64)
                    by (bit_vector);
            } else if t == z {
                assert(x != 0 && (x >> z) & 1u64 == 1u64 && z < 64 && x << ((64 - z) as u64) == 0 ==> ((x
                    & ((x - 1) as u64)) >> z) & 1u64 == 0u64) by (bit_vector);
            } else {
                assert(x != 0 && (x >> z) & 1u64 == 1u64 && z < t && t < 64 && x << ((64 - z) as u64)
                    == 0 ==> ((x & ((x - 1) as u64)) >> t) & 1u64 == (x >> t) & 1u64) by (bit_vector);
            }
        }
    }
}

} // verus!

//! Candidate-set bitmasks.
//!
//! Each cell of a board carries a `u16` whose low nine bits record which of
//! the digits 1 through 9 are still possible there. This module defines the
//! mathematical view of such masks (population count, single-candidate
//! masks, the submask order) and proves the bit-level facts the solver
//! relies on.

use vstd::prelude::*;

verus! {

/// The mask with all nine candidate bits set: every digit is still possible.
pub const FULL_MASK: u16 = 0x1ff;

/// The number of bits set in `v`.
pub open spec fn count(v: u16) -> nat
    decreases v,
    via count_decreases
{
    if v == 0 {
        0
    } else {
        ((v & 1) as nat) + count(v >> 1)
    }
}

#[via_fn]
proof fn count_decreases(v: u16) {
    assert(v != 0 ==> (v >> 1) < v) by (bit_vector);
}

/// A mask with exactly one candidate: the cell is resolved.
pub open spec fn is_single(v: u16) -> bool {
    count(v) == 1
}

/// `x` keeps only candidates that `a` also has.
pub open spec fn submask(x: u16, a: u16) -> bool {
    x & a == x
}

/// A well-formed candidate set uses only the nine digit bits.
pub open spec fn in_range(v: u16) -> bool {
    v <= FULL_MASK
}

/// A mask has no bits exactly when it is zero.
pub proof fn lemma_count_zero(v: u16)
    ensures
        count(v) == 0 <==> v == 0,
    decreases v,
{
    if v != 0 {
        if v & 1 == 0 {
            assert(v >> 1 != 0) by (bit_vector)
                requires
                    v != 0,
                    v & 1 == 0,
            ;
            assert((v >> 1) < v) by (bit_vector)
                requires
                    v != 0,
            ;
            lemma_count_zero(v >> 1);
        }
    }
}

/// A mask has exactly one bit exactly when the classic power-of-two test
/// `v != 0 && v & (v - 1) == 0` accepts it.
pub proof fn lemma_single_trick(v: u16)
    ensures
        is_single(v) <==> (v != 0 && v & (((v - 1) as u16)) == 0),
    decreases v,
{
    if v == 0 {
    } else if v & 1 == 1 {
        assert(count(v) == 1 + count(v >> 1));
        lemma_count_zero(v >> 1);
        assert((v & 1 == 1 && v >> 1 == 0) <==> v == 1) by (bit_vector);
        assert(v == 1 ==> v & ((v - 1) as u16) == 0) by (bit_vector);
        assert((v & 1 == 1 && v != 1) ==> v & ((v - 1) as u16) != 0) by (bit_vector);
    } else {
        assert((v >> 1) < v) by (bit_vector)
            requires
                v != 0,
        ;
        lemma_single_trick(v >> 1);
        assert(v & 1 == 0) by (bit_vector)
            requires
                v & 1 != 1,
        ;
        assert(count(v) == count(v >> 1));
        assert(v != 0 && v & 1 == 0 ==> v >> 1 != 0) by (bit_vector);
        assert(v & 1 == 0 ==> ((v & ((v - 1) as u16) == 0) <==> ((v >> 1) & (((v >> 1) - 1) as u16) == 0)))
            by (bit_vector)
            requires
                v != 0,
        ;
    }
}

/// Keeping only candidates of `a` never adds bits, and removing some bit of
/// `a` strictly lowers the bit count.
pub proof fn lemma_count_and(a: u16, b: u16)
    ensures
        count(a & b) <= count(a),
        a & b != a ==> count(a & b) < count(a),
    decreases a,
{
    if a == 0 {
        assert(a & b == 0) by (bit_vector)
            requires
                a == 0,
        ;
    } else {
        assert((a >> 1) < a) by (bit_vector)
            requires
                a != 0,
        ;
        lemma_count_and(a >> 1, b >> 1);
        assert((a & b) >> 1 == (a >> 1) & (b >> 1)) by (bit_vector);
        assert(((a & b) & 1) <= (a & 1)) by (bit_vector);
        if a & b == 0 {
            lemma_count_zero(a);
        } else {
            assert(count(a & b) == (((a & b) & 1) as nat) + count((a >> 1) & (b >> 1)));
            if a & b != a {
                assert(((a & b) & 1) != (a & 1) || (a >> 1) & (b >> 1) != (a >> 1))
                    by (bit_vector)
                    requires
                        a & b != a,
                ;
            }
        }
    }
}

/// A submask never has more bits, and a proper submask has strictly fewer.
pub proof fn lemma_submask_count(x: u16, a: u16)
    requires
        submask(x, a),
    ensures
        count(x) <= count(a),
        x != a ==> count(x) < count(a),
{
    lemma_count_and(a, x);
    assert(a & x == x) by (bit_vector)
        requires
            x & a == x,
    ;
}

/// The submask order is transitive.
pub proof fn lemma_submask_trans(x: u16, a: u16, b: u16)
    requires
        submask(x, a),
        submask(a, b),
    ensures
        submask(x, b),
{
    assert(x & b == x) by (bit_vector)
        requires
            x & a == x,
            a & b == a,
    ;
}

/// A submask of a resolved cell's mask is that mask itself or empty.
pub proof fn lemma_submask_of_single(x: u16, s: u16)
    requires
        is_single(s),
        submask(x, s),
    ensures
        x == s || x == 0,
{
    lemma_single_trick(s);
    assert(x == s || x == 0) by (bit_vector)
        requires
            s != 0,
            s & ((s - 1) as u16) == 0,
            x & s == x,
    ;
}

/// A mask never has more bits than its value.
pub proof fn lemma_count_bound(v: u16)
    ensures
        count(v) <= v,
    decreases v,
{
    if v != 0 {
        assert((v >> 1) < v) by (bit_vector)
            requires
                v != 0,
        ;
        lemma_count_bound(v >> 1);
        assert((v & 1) + (v >> 1) <= v) by (bit_vector);
    }
}

/// A mask below `1 << k` has at most `k` bits.
pub proof fn lemma_count_width(v: u16, k: u16)
    requires
        k < 16,
        v < (1u16 << k),
    ensures
        count(v) <= k,
    decreases k,
{
    if v != 0 {
        assert(k >= 1) by (bit_vector)
            requires
                v != 0,
                k < 16,
                v < (1u16 << k),
        ;
        assert((v >> 1) < (1u16 << ((k - 1) as u16))) by (bit_vector)
            requires
                1 <= k < 16,
                v < (1u16 << k),
        ;
        lemma_count_width(v >> 1, (k - 1) as u16);
        assert((v & 1) <= 1) by (bit_vector);
    }
}

/// A well-formed candidate set has at most nine candidates.
pub proof fn lemma_count_in_range(v: u16)
    requires
        in_range(v),
    ensures
        count(v) <= 9,
{
    assert(v < (1u16 << 9)) by (bit_vector)
        requires
            v <= 0x1ff,
    ;
    lemma_count_width(v, 9);
}

/// The number of candidates still possible, computed bit by bit.
pub fn count_candidates(v: u16) -> (n: u32)
    ensures
        n == count(v),
{
    let mut x = v;
    let mut n: u32 = 0;
    proof {
        lemma_count_bound(v);
    }
    while x != 0
        invariant
            n + count(x) == count(v),
            count(v) <= 0xffff,
        decreases x,
    {
        proof {
            lemma_count_bound(x);
            assert((x >> 1) < x) by (bit_vector)
                requires
                    x != 0,
            ;
        }
        n = n + (x & 1) as u32;
        x = x >> 1;
    }
    n
}

/// Shifting a lone bit into the nine digit positions yields a well-formed
/// resolved mask.
pub proof fn lemma_shift_single(k: u16)
    requires
        k < 9,
    ensures
        is_single(1u16 << k),
        in_range(1u16 << k),
{
    lemma_single_trick(1u16 << k);
    assert((1u16 << k) != 0 && (1u16 << k) & ((((1u16 << k) - 1) as u16)) == 0 && (1u16 << k)
        <= 0x1ff) by (bit_vector)
        requires
            k < 9,
    ;
}

/// A resolved mask is not empty.
pub proof fn lemma_single_nonzero(v: u16)
    requires
        is_single(v),
    ensures
        v != 0,
{
    if v == 0 {
        assert(count(0u16) == 0);
    }
}

/// A mask disjoint from `x` that keeps all of `x`'s bits after `v`'s are
/// removed.
pub proof fn lemma_mask_keep(x: u16, w: u16, v: u16)
    requires
        x & w == x,
        x & v == 0,
    ensures
        x & (w & !v) == x,
{
    assert(x & (w & !v) == x) by (bit_vector)
        requires
            x & w == x,
            x & v == 0,
    ;
}

/// Clearing bits yields a submask that is disjoint from what was cleared.
pub proof fn lemma_clear_bits(w: u16, v: u16)
    ensures
        submask(w & !v, w),
        (w & !v) & v == 0,
{
    assert((w & !v) & w == (w & !v) && (w & !v) & v == 0) by (bit_vector);
}

/// A submask of a well-formed candidate set is well-formed.
pub proof fn lemma_submask_in_range(x: u16, a: u16)
    requires
        submask(x, a),
        in_range(a),
    ensures
        in_range(x),
{
    assert(x <= 0x1ff) by (bit_vector)
        requires
            x & a == x,
            a <= 0x1ff,
    ;
}

/// Disjoint nonempty masks differ.
pub proof fn lemma_disjoint_ne(x: u16, y: u16)
    requires
        x & y == 0,
        x != 0,
    ensures
        x != y,
{
    assert(x != y) by (bit_vector)
        requires
            x & y == 0,
            x != 0,
    ;
}

/// Two resolved masks that share no candidate are different, and two
/// different resolved masks share no candidate.
pub proof fn lemma_singles_disjoint(x: u16, y: u16)
    requires
        is_single(x),
        is_single(y),
    ensures
        x & y == 0 <==> x != y,
{
    lemma_single_trick(x);
    lemma_single_trick(y);
    assert((x & y == 0) <==> x != y) by (bit_vector)
        requires
            x != 0,
            x & ((x - 1) as u16) == 0,
            y != 0,
            y & ((y - 1) as u16) == 0,
    ;
}

} // verus!

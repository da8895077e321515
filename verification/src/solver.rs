//! Constraint propagation and backtracking search.
//!
//! Propagation eliminates a resolved cell's digit from its peers' candidate
//! sets, cascading whenever a peer is reduced to a single candidate, and
//! reports a contradiction as soon as any cell's candidate set becomes
//! empty. Search branches on an unresolved cell with the fewest remaining
//! candidates, each branch working on its own copy of the board, and
//! collects every complete, valid board reachable that way.

use vstd::prelude::*;

use crate::board::{complete, is_peer, valid, wf_cells, Board};
use crate::masks::{
    count, count_candidates, in_range, is_single, lemma_clear_bits, lemma_count_in_range,
    lemma_count_zero, lemma_disjoint_ne, lemma_mask_keep, lemma_shift_single,
    lemma_single_nonzero, lemma_singles_disjoint, lemma_submask_count, lemma_submask_in_range,
    lemma_submask_of_single, lemma_submask_trans, submask,
};

verus! {

/// Every cell of `g` keeps only candidates that `b` still allows.
pub open spec fn refines(g: Seq<u16>, b: Seq<u16>) -> bool {
    &&& g.len() == 81
    &&& b.len() == 81
    &&& forall|c: int| 0 <= c < 81 ==> submask(#[trigger] g[c], b[c])
}

/// `g` is a solution of the puzzle `b`: complete, valid, and consistent
/// with every candidate set of `b`.
pub open spec fn solution_of(g: Seq<u16>, b: Seq<u16>) -> bool {
    &&& complete(g)
    &&& valid(g)
    &&& refines(g, b)
}

/// What propagation from a cell resolved to `v` guarantees of a peer's
/// candidate set `w`: a resolved peer holds a different digit; an
/// unresolved peer no longer offers `v`'s digit and is not empty.
pub open spec fn peer_ok(v: u16, w: u16) -> bool {
    if is_single(w) {
        w != v
    } else {
        w & v == 0 && w != 0
    }
}

/// If the cell at `i` is resolved, all of its peers have been cleaned of
/// its digit.
pub open spec fn clean_at(s: Seq<u16>, i: int) -> bool {
    is_single(s[i]) ==> forall|p: int| #[trigger] is_peer(i, p) ==> peer_ok(s[i], s[p])
}

/// The fixpoint of elimination: every resolved cell's digit is gone from
/// all of its peers.
pub open spec fn propagated(s: Seq<u16>) -> bool {
    forall|i: int| 0 <= i < 81 ==> #[trigger] clean_at(s, i)
}

/// The candidate bits in the first `n` cells, summed.
pub open spec fn bits_upto(s: Seq<u16>, n: int) -> nat
    decreases n,
{
    if n <= 0 {
        0
    } else {
        bits_upto(s, n - 1) + count(s[n - 1])
    }
}

/// The candidate bits of the whole board, summed: the measure that strictly
/// falls at every cascade step and every search branch.
pub open spec fn total_bits(s: Seq<u16>) -> nat {
    bits_upto(s, s.len() as int)
}

proof fn lemma_bits_le(s1: Seq<u16>, s2: Seq<u16>, n: int)
    requires
        forall|c: int| 0 <= c < n ==> count(#[trigger] s2[c]) <= count(s1[c]),
    ensures
        bits_upto(s2, n) <= bits_upto(s1, n),
    decreases n,
{
    if n > 0 {
        lemma_bits_le(s1, s2, n - 1);
    }
}

proof fn lemma_bits_lt(s1: Seq<u16>, s2: Seq<u16>, n: int, k: int)
    requires
        forall|c: int| 0 <= c < n ==> count(#[trigger] s2[c]) <= count(s1[c]),
        0 <= k < n,
        count(s2[k]) < count(s1[k]),
    ensures
        bits_upto(s2, n) < bits_upto(s1, n),
    decreases n,
{
    if k == n - 1 {
        lemma_bits_le(s1, s2, n - 1);
    } else {
        lemma_bits_lt(s1, s2, n - 1, k);
    }
}

/// Refinement bounds every cell's candidate count, so it bounds the total.
pub proof fn lemma_refines_total(b: Seq<u16>, a: Seq<u16>)
    requires
        refines(b, a),
    ensures
        total_bits(b) <= total_bits(a),
        forall|c: int| 0 <= c < 81 ==> count(#[trigger] b[c]) <= count(a[c]),
{
    assert forall|c: int| 0 <= c < 81 implies count(#[trigger] b[c]) <= count(a[c]) by {
        lemma_submask_count(b[c], a[c]);
    }
    lemma_bits_le(a, b, 81);
}

/// Refinement is reflexive.
pub proof fn lemma_refines_refl(s: Seq<u16>)
    requires
        s.len() == 81,
    ensures
        refines(s, s),
{
    assert forall|c: int| 0 <= c < 81 implies submask(#[trigger] s[c], s[c]) by {
        let x = s[c];
        assert(x & x == x) by (bit_vector);
    }
}

/// Refinement is transitive.
pub proof fn lemma_refines_trans(g: Seq<u16>, a: Seq<u16>, b: Seq<u16>)
    requires
        refines(g, a),
        refines(a, b),
    ensures
        refines(g, b),
{
    assert forall|c: int| 0 <= c < 81 implies submask(#[trigger] g[c], b[c]) by {
        lemma_submask_trans(g[c], a[c], b[c]);
    }
}

/// A complete board at the elimination fixpoint is valid: every pair of
/// resolved peers was checked against each other.
pub proof fn lemma_propagated_complete_valid(s: Seq<u16>)
    requires
        s.len() == 81,
        propagated(s),
        complete(s),
    ensures
        valid(s),
{
    assert forall|i: int, p: int|
        #[trigger] is_peer(i, p) && is_single(s[i]) && is_single(s[p]) implies s[i] != s[p] by {
        assert(clean_at(s, i));
    }
}

/// A complete board has exactly one refinement that is itself complete:
/// the board itself.
pub proof fn lemma_refinement_of_complete(g: Seq<u16>, s: Seq<u16>)
    requires
        complete(s),
        complete(g),
        refines(g, s),
    ensures
        g == s,
{
    assert forall|c: int| 0 <= c < 81 implies g[c] == s[c] by {
        lemma_submask_of_single(g[c], s[c]);
        if g[c] == 0 {
            assert(count(0u16) == 0);
        }
    }
    assert(g =~= s);
}

/// What propagation promised of a peer survives any further shrinking that
/// keeps the peer nonempty and leaves resolved cells alone.
proof fn lemma_peer_ok_shrink(vj: u16, w1: u16, w2: u16)
    requires
        peer_ok(vj, w1),
        submask(w2, w1),
        w2 != 0,
        is_single(w1) ==> w2 == w1,
    ensures
        peer_ok(vj, w2),
{
    if !is_single(w1) {
        assert(w2 & vj == 0) by (bit_vector)
            requires
                w2 & w1 == w2,
                w1 & vj == 0,
        ;
        if is_single(w2) {
            lemma_disjoint_ne(w2, vj);
        }
    }
}

/// A solution resolves `index` to the board's digit there, and cannot use
/// that digit at any peer of `index`.
proof fn lemma_solution_elimination(g: Seq<u16>, s: Seq<u16>, index: int, p: int)
    requires
        complete(g),
        valid(g),
        refines(g, s),
        0 <= index < 81,
        is_single(s[index]),
        is_peer(index, p),
    ensures
        g[index] == s[index],
        g[p] & s[index] == 0,
{
    lemma_submask_of_single(g[index], s[index]);
    lemma_single_nonzero(g[index]);
    assert(g[p] != g[index]);
    lemma_singles_disjoint(g[p], g[index]);
}

/// Eliminate the resolved digit of cell `index` from every peer's
/// candidate set, cascading through any peer this resolves in turn.
/// Returns `false` as soon as some candidate set would become empty or a
/// resolved peer already holds the same digit; `false` means the board has
/// no solution. On success the cell is clean, every already-clean cell
/// stays clean, and every solution of the board coming in is still a
/// solution of the board going out.
pub fn remove_non_possibilities(board: &mut Board, index: usize) -> (ok: bool)
    requires
        old(board).wf(),
        index < 81,
        is_single(old(board)@[index as int]),
    ensures
        final(board).wf(),
        refines(final(board)@, old(board)@),
        forall|c: int|
            0 <= c < 81 && is_single(#[trigger] old(board)@[c]) ==> final(board)@[c] == old(
                board,
            )@[c],
        forall|c: int| 0 <= c < 81 ==> count(#[trigger] final(board)@[c]) <= count(old(board)@[c]),
        ok ==> forall|c: int|
            0 <= c < 81 && #[trigger] old(board)@[c] != 0 ==> final(board)@[c] != 0,
        ok ==> clean_at(final(board)@, index as int),
        ok ==> forall|j: int|
            0 <= j < 81 && #[trigger] clean_at(old(board)@, j) ==> clean_at(final(board)@, j),
        forall|g: Seq<u16>|
            #[trigger] solution_of(g, old(board)@) ==> ok && refines(g, final(board)@),
        clean_at(old(board)@, index as int) ==> ok && final(board)@ == old(board)@,
    decreases total_bits(old(board)@),
{
    let ghost e = board@;
    proof {
        lemma_refines_refl(e);
    }
    let rel = get_relevant_cells(index);
    let n = rel.len();
    for k in 0..n
        invariant
            index < 81,
            n == rel@.len(),
            forall|m: int| 0 <= m < rel@.len() ==> is_peer(index as int, #[trigger] rel@[m] as int),
            forall|q: usize| #[trigger] is_peer(index as int, q as int) ==> rel@.contains(q),
            forall|m1: int, m2: int| 0 <= m1 < m2 < rel@.len() ==> rel@[m1] < rel@[m2],
            e == old(board)@,
            e.len() == 81,
            wf_cells(e),
            is_single(e[index as int]),
            board.wf(),
            refines(board@, e),
            forall|c: int| 0 <= c < 81 && is_single(#[trigger] e[c]) ==> board@[c] == e[c],
            forall|c: int| 0 <= c < 81 && #[trigger] e[c] != 0 ==> board@[c] != 0,
            forall|j: int| 0 <= j < 81 && #[trigger] clean_at(e, j) ==> clean_at(board@, j),
            forall|g: Seq<u16>| #[trigger] solution_of(g, e) ==> refines(g, board@),
            forall|m: int|
                0 <= m < k ==> peer_ok(board@[index as int], board@[#[trigger] rel@[m] as int]),
            clean_at(e, index as int) ==> board@ == e,
    {
        let p = rel[k];
        proof {
            assert(is_peer(index as int, p as int));
        }
        if !board.is_cell_known(p) {
            let v = board.cells[index];
            let w = board.cells[p];
            let cleared = w & !v;
            let ghost pre = board@;
            proof {
                lemma_clear_bits(w, v);
                lemma_submask_in_range(cleared, w);
            }
            board.cells[p] = cleared;
            proof {
                // The board still refines the entry state.
                assert forall|c: int| 0 <= c < 81 implies submask(#[trigger] board@[c], e[c]) by {
                    if c == p as int {
                        lemma_submask_trans(cleared, w, e[c]);
                    } else {
                        assert(submask(pre[c], e[c]));
                    }
                }
                // A solution never uses the candidate being cleared.
                assert forall|g: Seq<u16>| #[trigger] solution_of(g, e) implies refines(
                    g,
                    board@,
                ) by {
                    assert(refines(g, pre));
                    lemma_solution_elimination(g, pre, index as int, p as int);
                    lemma_mask_keep(g[p as int], w, v);
                    assert forall|c: int| 0 <= c < 81 implies submask(
                        #[trigger] g[c],
                        board@[c],
                    ) by {
                        if c != p as int {
                            assert(submask(g[c], pre[c]));
                        }
                    }
                }
                // If the entry state was already clean at `index`, nothing
                // changes here.
                if clean_at(e, index as int) {
                    assert(pre == e);
                    assert(peer_ok(e[index as int], e[p as int]));
                    assert(!is_single(e[p as int]));
                    assert(cleared == w) by (bit_vector)
                        requires
                            cleared == w & !v,
                            w & v == 0,
                    ;
                    assert(board@ =~= e);
                }
            }
            if cleared == 0 {
                proof {
                    assert forall|g: Seq<u16>| #[trigger] solution_of(g, e) implies false by {
                        assert(refines(g, board@));
                        assert(submask(g[p as int], 0u16));
                        let gp = g[p as int];
                        assert(gp == 0) by (bit_vector)
                            requires
                                gp & 0 == gp,
                        ;
                        lemma_single_nonzero(g[p as int]);
                    }
                    if clean_at(e, index as int) {
                        assert(board@[p as int] != 0);
                        assert(false);
                    }
                    lemma_refines_total(board@, e);
                }
                return false;
            }
            if Board::is_cell_known_by_value(cleared) {
                let ghost mid = board@;
                proof {
                    // The total candidate count fell strictly: cell `p`
                    // went from at least two candidates down to one.
                    assert(w != 0) by (bit_vector)
                        requires
                            cleared == w & !v,
                            cleared != 0,
                    ;
                    lemma_count_zero(w);
                    assert(!is_single(w));
                    lemma_submask_count(w, e[p as int]);
                    lemma_refines_total(mid, e);
                    assert(count(mid[p as int]) < count(e[p as int]));
                    lemma_bits_lt(e, mid, 81, p as int);
                    if clean_at(e, index as int) {
                        assert(false);
                    }
                }
                let sub_ok = remove_non_possibilities(board, p);
                if !sub_ok {
                    proof {
                        lemma_refines_trans(board@, mid, e);
                        assert forall|c: int|
                            0 <= c < 81 && is_single(#[trigger] e[c]) implies board@[c]
                            == e[c] by {
                            assert(mid[c] == e[c]);
                        }
                        assert forall|g: Seq<u16>| #[trigger] solution_of(g, e) implies false by {
                            assert(refines(g, mid));
                            assert(solution_of(g, mid));
                        }
                        lemma_refines_total(board@, e);
                    }
                    return false;
                }
                proof {
                    lemma_refines_trans(board@, mid, e);
                    // Resolved cells of the entry state kept their values.
                    assert forall|c: int|
                        0 <= c < 81 && is_single(#[trigger] e[c]) implies board@[c] == e[c] by {
                        assert(mid[c] == e[c]);
                    }
                    // Nothing that was nonempty became empty.
                    assert forall|c: int|
                        0 <= c < 81 && #[trigger] e[c] != 0 implies board@[c] != 0 by {
                        assert(mid[c] != 0);
                    }
                    // Clean cells stayed clean: the masking step kept every
                    // cell other than `p` clean, and the recursive call
                    // cleaned `p` itself.
                    assert forall|j: int|
                        0 <= j < 81 && #[trigger] clean_at(e, j) implies clean_at(board@, j) by {
                        if j == p as int {
                            assert(clean_at(board@, j));
                        } else {
                            assert(clean_at(pre, j));
                            if is_single(mid[j]) {
                                assert(mid[j] == pre[j]);
                                assert forall|q: int| #[trigger] is_peer(j, q) implies peer_ok(
                                    mid[j],
                                    mid[q],
                                ) by {
                                    if q == p as int {
                                        lemma_peer_ok_shrink(pre[j], w, cleared);
                                    } else {
                                        assert(peer_ok(pre[j], pre[q]));
                                    }
                                }
                                assert(clean_at(mid, j));
                            } else {
                                assert(clean_at(mid, j));
                            }
                            assert(clean_at(board@, j));
                        }
                    }
                    // Solutions survive.
                    assert forall|g: Seq<u16>| #[trigger] solution_of(g, e) implies refines(
                        g,
                        board@,
                    ) by {
                        assert(refines(g, mid));
                        assert(solution_of(g, mid));
                    }
                    // Peers handled so far are still settled.
                    assert(board@[index as int] == mid[index as int]);
                    assert forall|m: int| 0 <= m < k + 1 implies peer_ok(
                        board@[index as int],
                        board@[#[trigger] rel@[m] as int],
                    ) by {
                        let q = rel@[m] as int;
                        if m < k {
                            assert(rel@[m] < rel@[k as int]);
                            assert(peer_ok(mid[index as int], mid[q]));
                            if is_single(mid[q]) {
                                lemma_single_nonzero(mid[q]);
                                assert(board@[q] == mid[q]);
                            } else {
                                assert(mid[q] != 0);
                            }
                            lemma_peer_ok_shrink(mid[index as int], mid[q], board@[q]);
                        } else {
                            assert(board@[q] == cleared);
                            lemma_disjoint_ne(cleared, v);
                        }
                    }
                }
            } else {
                proof {
                    // `p` stayed unresolved: every invariant is direct.
                    assert forall|j: int|
                        0 <= j < 81 && #[trigger] clean_at(e, j) implies clean_at(board@, j) by {
                        assert(clean_at(pre, j));
                        if is_single(board@[j]) {
                            assert(j != p as int);
                            assert(board@[j] == pre[j]);
                            assert forall|q: int| #[trigger] is_peer(j, q) implies peer_ok(
                                board@[j],
                                board@[q],
                            ) by {
                                if q == p as int {
                                    lemma_peer_ok_shrink(pre[j], w, cleared);
                                } else {
                                    assert(peer_ok(pre[j], pre[q]));
                                }
                            }
                        }
                    }
                    assert forall|m: int| 0 <= m < k + 1 implies peer_ok(
                        board@[index as int],
                        board@[#[trigger] rel@[m] as int],
                    ) by {
                        let q = rel@[m] as int;
                        if m < k {
                            assert(rel@[m] < rel@[k as int]);
                            assert(peer_ok(pre[index as int], pre[q]));
                        } else {
                            assert(board@[q] == cleared);
                        }
                    }
                }
            }
        } else {
            if board.cells[p] == board.cells[index] {
                proof {
                    assert forall|g: Seq<u16>| #[trigger] solution_of(g, e) implies false by {
                        assert(refines(g, board@));
                        lemma_submask_of_single(g[p as int], board@[p as int]);
                        lemma_single_nonzero(g[p as int]);
                        lemma_submask_of_single(g[index as int], board@[index as int]);
                        lemma_single_nonzero(g[index as int]);
                        assert(g[p as int] == g[index as int]);
                        assert(g[p as int] != g[index as int]);
                    }
                    if clean_at(e, index as int) {
                        assert(board@ == e);
                        assert(peer_ok(e[index as int], e[p as int]));
                        assert(false);
                    }
                    lemma_refines_total(board@, e);
                }
                return false;
            }
            proof {
                assert forall|m: int| 0 <= m < k + 1 implies peer_ok(
                    board@[index as int],
                    board@[#[trigger] rel@[m] as int],
                ) by {
                    if m == k {
                        assert(is_single(board@[rel@[m] as int]));
                    }
                }
            }
        }
    }
    proof {
        // Every peer of `index` appears in the list, so `index` is clean.
        assert forall|q: int| #[trigger] is_peer(index as int, q) implies peer_ok(
            board@[index as int],
            board@[q],
        ) by {
            assert(0 <= q < 81);
            assert(is_peer(index as int, (q as usize) as int));
            assert(rel@.contains(q as usize));
            let m = choose|m: int| 0 <= m < rel@.len() && rel@[m] == q as usize;
            assert(peer_ok(board@[index as int], board@[rel@[m] as int]));
        }
        assert(clean_at(board@, index as int));
        lemma_refines_total(board@, e);
    }
    true
}

/// Run elimination from every resolved cell, in index order, cascading;
/// `false` reports a contradiction, which means the board has no solution.
///
/// On success the board is at the elimination fixpoint (`propagated`), so
/// a second run returns `true` and changes nothing: elimination is
/// idempotent. No cell ever gains candidates: propagation is monotonically
/// non-increasing, cell by cell.
pub fn remove_all_non_possibilities(board: &mut Board) -> (ok: bool)
    requires
        old(board).wf(),
    ensures
        final(board).wf(),
        refines(final(board)@, old(board)@),
        forall|c: int|
            0 <= c < 81 && is_single(#[trigger] old(board)@[c]) ==> final(board)@[c] == old(
                board,
            )@[c],
        forall|c: int| 0 <= c < 81 ==> count(#[trigger] final(board)@[c]) <= count(old(board)@[c]),
        ok ==> propagated(final(board)@),
        forall|g: Seq<u16>|
            #[trigger] solution_of(g, old(board)@) ==> ok && refines(g, final(board)@),
        propagated(old(board)@) ==> ok && final(board)@ == old(board)@,
{
    let ghost e = board@;
    proof {
        lemma_refines_refl(e);
    }
    for i in 0..81usize
        invariant
            e == old(board)@,
            e.len() == 81,
            wf_cells(e),
            board.wf(),
            refines(board@, e),
            forall|c: int| 0 <= c < 81 && is_single(#[trigger] e[c]) ==> board@[c] == e[c],
            forall|j: int| 0 <= j < i ==> #[trigger] clean_at(board@, j),
            forall|j: int| 0 <= j < 81 && #[trigger] clean_at(e, j) ==> clean_at(board@, j),
            forall|g: Seq<u16>| #[trigger] solution_of(g, e) ==> refines(g, board@),
            propagated(e) ==> board@ == e,
    {
        if board.is_cell_known(i) {
            let ghost mid = board@;
            proof {
                if propagated(e) {
                    assert(clean_at(e, i as int));
                }
            }
            let sub_ok = remove_non_possibilities(board, i);
            if !sub_ok {
                proof {
                    lemma_refines_trans(board@, mid, e);
                    assert forall|c: int|
                        0 <= c < 81 && is_single(#[trigger] e[c]) implies board@[c] == e[c] by {
                        assert(mid[c] == e[c]);
                    }
                    assert forall|g: Seq<u16>| #[trigger] solution_of(g, e) implies false by {
                        assert(refines(g, mid));
                        assert(solution_of(g, mid));
                    }
                    if propagated(e) {
                        assert(clean_at(mid, i as int));
                        assert(false);
                    }
                    lemma_refines_total(board@, e);
                }
                return false;
            }
            proof {
                lemma_refines_trans(board@, mid, e);
                assert forall|c: int|
                    0 <= c < 81 && is_single(#[trigger] e[c]) implies board@[c] == e[c] by {
                    assert(mid[c] == e[c]);
                }
                assert forall|j: int| 0 <= j < i + 1 implies #[trigger] clean_at(board@, j) by {
                    if j < i {
                        assert(clean_at(mid, j));
                    }
                }
                assert forall|j: int|
                    0 <= j < 81 && #[trigger] clean_at(e, j) implies clean_at(board@, j) by {
                    assert(clean_at(mid, j));
                }
                assert forall|g: Seq<u16>| #[trigger] solution_of(g, e) implies refines(
                    g,
                    board@,
                ) by {
                    assert(refines(g, mid));
                    assert(solution_of(g, mid));
                }
                if propagated(e) {
                    assert(clean_at(mid, i as int));
                    assert(board@ == e);
                }
            }
        } else {
            proof {
                assert forall|j: int| 0 <= j < i + 1 implies #[trigger] clean_at(board@, j) by {
                    if j == i as int {
                        assert(!is_single(board@[j]));
                    }
                }
            }
        }
    }
    proof {
        lemma_refines_total(board@, e);
    }
    true
}

/// The fixed set of the 20 other cells sharing `index`'s row, column or
/// box, in increasing order.
pub fn get_relevant_cells(index: usize) -> (r: Vec<usize>)
    requires
        index < 81,
    ensures
        forall|k: int| 0 <= k < r@.len() ==> is_peer(index as int, #[trigger] r@[k] as int),
        forall|p: usize| #[trigger] is_peer(index as int, p as int) ==> r@.contains(p),
        forall|k1: int, k2: int| 0 <= k1 < k2 < r@.len() ==> r@[k1] < r@[k2],
{
    let mut r: Vec<usize> = Vec::new();
    let row = index / 9;
    let col = index % 9;
    let bx = (row / 3) * 3 + col / 3;
    for p in 0..81usize
        invariant
            index < 81,
            row == index / 9,
            col == index % 9,
            bx == (row / 3) * 3 + col / 3,
            forall|k: int| 0 <= k < r@.len() ==> is_peer(index as int, #[trigger] r@[k] as int),
            forall|q: usize| q < p && #[trigger] is_peer(index as int, q as int) ==> r@.contains(q),
            forall|k: int| 0 <= k < r@.len() ==> #[trigger] r@[k] < p,
            forall|k1: int, k2: int| 0 <= k1 < k2 < r@.len() ==> r@[k1] < r@[k2],
    {
        let ghost old_r = r@;
        if p != index {
            let prow = p / 9;
            let pcol = p % 9;
            let pbx = (prow / 3) * 3 + pcol / 3;
            if prow == row || pcol == col || pbx == bx {
                r.push(p);
                proof {
                    assert(r@[r@.len() - 1] == p);
                    assert(is_peer(index as int, p as int));
                }
            }
        }
        proof {
            assert forall|q: usize| q < p + 1 && #[trigger] is_peer(index as int, q as int)
                implies r@.contains(q) by {
                if q < p {
                    let k = choose|k: int| 0 <= k < old_r.len() && old_r[k] == q;
                    assert(r@[k] == q);
                } else {
                    assert(q == p);
                    assert(r@[r@.len() - 1] == q);
                }
            }
        }
    }
    r
}

/// The unresolved cell with the fewest remaining candidates, ties broken
/// by lowest index; `None` exactly when every cell is resolved.
pub fn get_best_guess(board: &Board) -> (r: Option<usize>)
    requires
        board.wf(),
    ensures
        match r {
            Some(i) => {
                &&& i < 81
                &&& !is_single(board@[i as int])
                &&& forall|j: int|
                    0 <= j < 81 && !is_single(#[trigger] board@[j]) ==> count(board@[i as int])
                        <= count(board@[j])
                &&& forall|j: int|
                    0 <= j < i as int ==> is_single(#[trigger] board@[j]) || count(board@[j])
                        > count(board@[i as int])
            },
            None => complete(board@),
        },
{
    let mut best: usize = 81;
    let mut best_count: u32 = 10;
    for i in 0..81usize
        invariant
            board@.len() == 81,
            board.wf(),
            best <= 81,
            best_count <= 10,
            best == 81 ==> best_count == 10 && (forall|j: int|
                0 <= j < i ==> is_single(#[trigger] board@[j])),
            best < 81 ==> {
                &&& (best as int) < i
                &&& best_count == count(board@[best as int])
                &&& !is_single(board@[best as int])
                &&& forall|j: int|
                    0 <= j < i && !is_single(#[trigger] board@[j]) ==> best_count <= count(
                        board@[j],
                    )
                &&& forall|j: int|
                    0 <= j < best as int ==> is_single(#[trigger] board@[j]) || count(board@[j])
                        > best_count
            },
    {
        proof {
            lemma_count_in_range(board@[i as int]);
        }
        let cnt = count_candidates(board.cells[i]);
        if cnt != 1 && cnt < best_count {
            best = i;
            best_count = cnt;
        }
    }
    if best == 81 {
        None
    } else {
        Some(best)
    }
}

/// The resolved masks for each candidate still offered by `val`, in
/// increasing digit order.
pub fn get_guess_options(val: &u16) -> (r: Vec<u16>)
    requires
        in_range(*val),
    ensures
        forall|k: int|
            0 <= k < r@.len() ==> is_single(#[trigger] r@[k]) && submask(r@[k], *val),
        forall|m: u16| is_single(m) && #[trigger] submask(m, *val) ==> r@.contains(m),
        forall|k1: int, k2: int| 0 <= k1 < k2 < r@.len() ==> r@[k1] < r@[k2],
{
    let mut r: Vec<u16> = Vec::new();
    proof {
        assert(1u16 << 0 == 1) by (bit_vector);
        assert(count(0u16) == 0);
    }
    for d in 0..9u16
        invariant
            in_range(*val),
            forall|k: int|
                0 <= k < r@.len() ==> is_single(#[trigger] r@[k]) && submask(r@[k], *val),
            forall|k: int| 0 <= k < r@.len() ==> #[trigger] r@[k] < (1u16 << d),
            forall|m: u16|
                is_single(m) && #[trigger] submask(m, *val) && m < (1u16 << d) ==> r@.contains(m),
            forall|k1: int, k2: int| 0 <= k1 < k2 < r@.len() ==> r@[k1] < r@[k2],
    {
        let ghost old_r = r@;
        let bit: u16 = 1u16 << d;
        if *val & bit == bit {
            proof {
                lemma_shift_single(d);
                assert(bit & *val == bit) by (bit_vector)
                    requires
                        *val & bit == bit,
                ;
            }
            r.push(bit);
            proof {
                assert(r@[r@.len() - 1] == bit);
                assert(submask(bit, *val));
                assert forall|k: int| 0 <= k < r@.len() implies #[trigger] r@[k] < (1u16 << (
                (d + 1) as u16)) by {
                    if k < r@.len() - 1 {
                        assert(old_r[k] < (1u16 << d));
                    }
                    assert((1u16 << d) < (1u16 << ((d + 1) as u16))) by (bit_vector)
                        requires
                            d < 9,
                    ;
                }
            }
        } else {
            proof {
                assert((1u16 << d) < (1u16 << ((d + 1) as u16))) by (bit_vector)
                    requires
                        d < 9,
                ;
            }
        }
        proof {
            assert forall|m: u16|
                is_single(m) && #[trigger] submask(m, *val) && m < (1u16 << ((d + 1) as u16))
                implies r@.contains(m) by {
                crate::masks::lemma_single_trick(m);
                if m < (1u16 << d) {
                    let k = choose|k: int| 0 <= k < old_r.len() && old_r[k] == m;
                    assert(r@[k] == m);
                } else {
                    assert(m == (1u16 << d)) by (bit_vector)
                        requires
                            m != 0,
                            m & ((m - 1) as u16) == 0,
                            !(m < (1u16 << d)),
                            m < (1u16 << ((d + 1) as u16)),
                            d < 9,
                    ;
                    assert(*val & m == m) by (bit_vector)
                        requires
                            m & *val == m,
                    ;
                    assert(r@[r@.len() - 1] == m);
                }
            }
        }
    }
    proof {
        assert forall|m: u16| is_single(m) && #[trigger] submask(m, *val) implies m < (1u16 << 9)
        by {
            assert(m < (1u16 << 9)) by (bit_vector)
                requires
                    m & *val == m,
                    *val <= 0x1ff,
            ;
        }
    }
    r
}

/// A complete valid board is already at the elimination fixpoint.
pub proof fn lemma_complete_valid_propagated(s: Seq<u16>)
    requires
        s.len() == 81,
        complete(s),
        valid(s),
    ensures
        propagated(s),
{
    assert forall|i: int| 0 <= i < 81 implies #[trigger] clean_at(s, i) by {
        if is_single(s[i]) {
            assert forall|p: int| #[trigger] is_peer(i, p) implies peer_ok(s[i], s[p]) by {
                assert(is_single(s[p]));
                assert(s[i] != s[p]);
            }
        }
    }
}

/// The solutions of a board at the elimination fixpoint: if it is already
/// complete it is its own sole solution; otherwise guess each remaining
/// candidate of a cell with fewest candidates, each guess on its own copy,
/// and collect the solutions of every surviving branch.
fn get_solutions(board: &Board) -> (r: Vec<Board>)
    requires
        board.wf(),
        propagated(board@),
    ensures
        forall|k: int|
            0 <= k < r@.len() ==> (#[trigger] r@[k]).wf() && solution_of(r@[k]@, board@),
        forall|k1: int, k2: int| 0 <= k1 < k2 < r@.len() ==> r@[k1]@ != r@[k2]@,
        forall|g: Seq<u16>|
            #[trigger] solution_of(g, board@) ==> exists|k: int|
                0 <= k < r@.len() && r@[k]@ == g,
    decreases total_bits(board@),
{
    let ghost b0 = board@;
    let mut rtn: Vec<Board> = Vec::new();
    if board.is_full() {
        proof {
            lemma_propagated_complete_valid(b0);
            lemma_refines_refl(b0);
        }
        rtn.push(board.duplicate());
        proof {
            assert(rtn@[0]@ == b0);
            assert forall|g: Seq<u16>| #[trigger] solution_of(g, b0) implies exists|k: int|
                0 <= k < rtn@.len() && rtn@[k]@ == g by {
                lemma_refinement_of_complete(g, b0);
                assert(rtn@[0]@ == g);
            }
        }
        return rtn;
    }
    let gi = match get_best_guess(board) {
        Some(i) => i,
        None => {
            proof {
                assert(false);
            }
            0
        },
    };
    let cell = board.cells[gi];
    let options = get_guess_options(&cell);
    let n = options.len();
    for k in 0..n
        invariant
            b0 == board@,
            b0.len() == 81,
            wf_cells(b0),
            propagated(b0),
            gi < 81,
            !is_single(b0[gi as int]),
            cell == b0[gi as int],
            n == options@.len(),
            forall|m: int|
                0 <= m < options@.len() ==> is_single(#[trigger] options@[m]) && submask(
                    options@[m],
                    cell,
                ),
            forall|m: u16| is_single(m) && #[trigger] submask(m, cell) ==> options@.contains(m),
            forall|m1: int, m2: int| 0 <= m1 < m2 < options@.len() ==> options@[m1] < options@[m2],
            forall|idx: int|
                0 <= idx < rtn@.len() ==> (#[trigger] rtn@[idx]).wf() && solution_of(
                    rtn@[idx]@,
                    b0,
                ),
            forall|idx: int|
                0 <= idx < rtn@.len() && (k as int) < options@.len() ==> (
                #[trigger] rtn@[idx]@)[gi as int] < options@[k as int],
            forall|i1: int, i2: int| 0 <= i1 < i2 < rtn@.len() ==> rtn@[i1]@ != rtn@[i2]@,
            forall|g: Seq<u16>|
                #[trigger] solution_of(g, b0) && (exists|m: int|
                    0 <= m < k && g[gi as int] == options@[m]) ==> exists|idx: int|
                    0 <= idx < rtn@.len() && rtn@[idx]@ == g,
    {
        let guess = options[k];
        let mut gb = board.duplicate();
        gb.cells[gi] = guess;
        let ghost pre = gb@;
        proof {
            lemma_single_nonzero(guess);
            lemma_submask_in_range(guess, b0[gi as int]);
            lemma_refines_refl(b0);
            // the speculative board refines the parent
            assert forall|c: int| 0 <= c < 81 implies submask(#[trigger] pre[c], b0[c]) by {
                if c != gi as int {
                    assert(submask(b0[c], b0[c]));
                }
            }
            // every cell but the guessed one is still clean
            assert forall|j: int| 0 <= j < 81 && j != gi as int implies clean_at(pre, j) by {
                if is_single(pre[j]) {
                    assert(clean_at(b0, j));
                    assert forall|q: int| #[trigger] is_peer(j, q) implies peer_ok(
                        pre[j],
                        pre[q],
                    ) by {
                        if q == gi as int {
                            assert(peer_ok(b0[j], b0[gi as int]));
                            lemma_peer_ok_shrink(b0[j], b0[gi as int], guess);
                        } else {
                            assert(peer_ok(b0[j], b0[q]));
                        }
                    }
                }
            }
        }
        let ok = remove_non_possibilities(&mut gb, gi);
        let ghost post = gb@;
        proof {
            lemma_refines_trans(post, pre, b0);
            // any solution with this guess at `gi` is a solution of the
            // speculative board
            assert forall|g: Seq<u16>|
                solution_of(g, b0) && g[gi as int] == guess implies #[trigger] solution_of(
                g,
                pre,
            ) by {
                let ggi = g[gi as int];
                assert(ggi & ggi == ggi) by (bit_vector);
                assert forall|c: int| 0 <= c < 81 implies submask(#[trigger] g[c], pre[c]) by {
                    if c != gi as int {
                        assert(submask(g[c], b0[c]));
                    }
                }
            }
        }
        if ok {
            proof {
                assert(post[gi as int] == guess);
                // the propagated guess board is at the fixpoint again
                assert forall|j: int| 0 <= j < 81 implies #[trigger] clean_at(post, j) by {
                    if j == gi as int {
                        assert(clean_at(post, gi as int));
                    } else {
                        assert(clean_at(pre, j));
                    }
                }
            }
            if gb.is_full() {
                proof {
                    lemma_propagated_complete_valid(post);
                }
                let ghost old_rtn = rtn@;
                rtn.push(gb);
                proof {
                    assert(rtn@[rtn@.len() - 1]@ == post);
                    assert(solution_of(post, b0));
                    assert((rtn@[rtn@.len() - 1]@)[gi as int] == options@[k as int]);
                    assert forall|idx: int|
                        0 <= idx < rtn@.len() && k + 1 < n implies (#[trigger] rtn@[idx]@)[gi
                        as int] < options@[k + 1] by {
                        if idx < rtn@.len() - 1 {
                            assert(rtn@[idx] == old_rtn[idx]);
                            assert((rtn@[idx]@)[gi as int] < options@[k as int]);
                        }
                        assert(options@[k as int] < options@[k + 1]);
                    }
                    assert forall|i1: int, i2: int|
                        0 <= i1 < i2 < rtn@.len() implies rtn@[i1]@ != rtn@[i2]@ by {
                        if i2 == rtn@.len() - 1 {
                            assert(rtn@[i1] == old_rtn[i1]);
                            assert((rtn@[i1]@)[gi as int] < options@[k as int]);
                            assert((rtn@[i2]@)[gi as int] == options@[k as int]);
                        } else {
                            assert(rtn@[i1] == old_rtn[i1]);
                            assert(rtn@[i2] == old_rtn[i2]);
                        }
                    }
                    assert forall|g: Seq<u16>|
                        #[trigger] solution_of(g, b0) && (exists|m: int|
                            0 <= m < k + 1 && g[gi as int] == options@[m]) implies exists|idx: int|
                        0 <= idx < rtn@.len() && rtn@[idx]@ == g by {
                        let m = choose|m: int| 0 <= m < k + 1 && g[gi as int] == options@[m];
                        if m < k {
                            let idx = choose|idx: int|
                                0 <= idx < old_rtn.len() && old_rtn[idx]@ == g;
                            assert(rtn@[idx]@ == g);
                        } else {
                            assert(solution_of(g, pre));
                            assert(refines(g, post));
                            lemma_refinement_of_complete(g, post);
                            assert(rtn@[rtn@.len() - 1]@ == g);
                        }
                    }
                }
            } else {
                proof {
                    // strictly fewer candidates: the guessed cell lost at
                    // least one, and propagation only removed more
                    lemma_single_nonzero(guess);
                    let bgi = b0[gi as int];
                    assert(bgi != 0) by (bit_vector)
                        requires
                            guess & bgi == guess,
                            guess != 0,
                    ;
                    lemma_count_zero(b0[gi as int]);
                    lemma_submask_count(guess, b0[gi as int]);
                    assert forall|c: int|
                        0 <= c < 81 implies count(#[trigger] pre[c]) <= count(b0[c]) by {
                        lemma_submask_count(pre[c], b0[c]);
                    }
                    lemma_bits_lt(b0, pre, 81, gi as int);
                    lemma_refines_total(post, pre);
                    lemma_bits_le(pre, post, 81);
                }
                let mut sub = get_solutions(&gb);
                let ghost subs = sub@;
                let ghost old_rtn = rtn@;
                rtn.append(&mut sub);
                proof {
                    assert(rtn@ == old_rtn + subs);
                    let ghost ol = old_rtn.len() as int;
                    assert forall|idx: int|
                        0 <= idx < rtn@.len() implies (#[trigger] rtn@[idx]).wf() && solution_of(
                        rtn@[idx]@,
                        b0,
                    ) && ((rtn@[idx]@)[gi as int] < options@[k as int] || (rtn@[idx]@)[gi as int]
                        == options@[k as int]) by {
                        if idx < ol {
                            assert(rtn@[idx] == old_rtn[idx]);
                            assert((rtn@[idx]@)[gi as int] < options@[k as int]);
                        } else {
                            let x = subs[idx - ol];
                            assert(rtn@[idx] == x);
                            assert(solution_of(x@, post));
                            lemma_refines_trans(x@, post, b0);
                            lemma_submask_of_single(x@[gi as int], post[gi as int]);
                            lemma_single_nonzero(x@[gi as int]);
                            assert((x@)[gi as int] == options@[k as int]);
                        }
                    }
                    assert forall|idx: int|
                        0 <= idx < rtn@.len() && k + 1 < n implies (#[trigger] rtn@[idx]@)[gi
                        as int] < options@[k + 1] by {
                        assert(options@[k as int] < options@[k + 1]);
                    }
                    assert forall|i1: int, i2: int|
                        0 <= i1 < i2 < rtn@.len() implies rtn@[i1]@ != rtn@[i2]@ by {
                        if i1 < ol && i2 >= ol {
                            assert(rtn@[i1] == old_rtn[i1]);
                            assert((rtn@[i1]@)[gi as int] < options@[k as int]);
                            let x = subs[i2 - ol];
                            assert(rtn@[i2] == x);
                            assert(solution_of(x@, post));
                            lemma_submask_of_single(x@[gi as int], post[gi as int]);
                            lemma_single_nonzero(x@[gi as int]);
                            assert((rtn@[i2]@)[gi as int] == options@[k as int]);
                        } else if i1 >= ol {
                            assert(rtn@[i1] == subs[i1 - ol]);
                            assert(rtn@[i2] == subs[i2 - ol]);
                            assert(subs[i1 - ol]@ != subs[i2 - ol]@);
                        } else {
                            assert(rtn@[i1] == old_rtn[i1]);
                            assert(rtn@[i2] == old_rtn[i2]);
                            assert(old_rtn[i1]@ != old_rtn[i2]@);
                        }
                    }
                    assert forall|g: Seq<u16>|
                        #[trigger] solution_of(g, b0) && (exists|m: int|
                            0 <= m < k + 1 && g[gi as int] == options@[m]) implies exists|idx: int|
                        0 <= idx < rtn@.len() && rtn@[idx]@ == g by {
                        let m = choose|m: int| 0 <= m < k + 1 && g[gi as int] == options@[m];
                        if m < k {
                            let idx = choose|idx: int|
                                0 <= idx < old_rtn.len() && old_rtn[idx]@ == g;
                            assert(rtn@[idx]@ == g);
                        } else {
                            assert(solution_of(g, pre));
                            assert(refines(g, post));
                            assert(solution_of(g, post));
                            let j = choose|j: int| 0 <= j < subs.len() && subs[j]@ == g;
                            assert(rtn@[ol + j]@ == g);
                        }
                    }
                }
            }
        } else {
            proof {
                // a failing branch has no solutions: nothing to collect
                assert forall|idx: int|
                    0 <= idx < rtn@.len() && k + 1 < n implies (#[trigger] rtn@[idx]@)[gi as int]
                    < options@[k + 1] by {
                    assert((rtn@[idx]@)[gi as int] < options@[k as int]);
                    assert(options@[k as int] < options@[k + 1]);
                }
                assert forall|g: Seq<u16>|
                    #[trigger] solution_of(g, b0) && (exists|m: int|
                        0 <= m < k + 1 && g[gi as int] == options@[m]) implies exists|idx: int|
                    0 <= idx < rtn@.len() && rtn@[idx]@ == g by {
                    let m = choose|m: int| 0 <= m < k + 1 && g[gi as int] == options@[m];
                    if m == k {
                        assert(solution_of(g, pre));
                        assert(false);
                    }
                }
            }
        }
    }
    proof {
        // every solution picks one of the candidates at the branch cell
        assert forall|g: Seq<u16>| #[trigger] solution_of(g, b0) implies exists|idx: int|
            0 <= idx < rtn@.len() && rtn@[idx]@ == g by {
            assert(submask(g[gi as int], b0[gi as int]));
            assert(options@.contains(g[gi as int]));
            let m = choose|m: int| 0 <= m < options@.len() && options@[m] == g[gi as int];
            assert(g[gi as int] == options@[m]);
        }
    }
    rtn
}

/// All solutions of the board: propagate to a fixpoint, then search. The
/// result holds exactly the complete valid boards consistent with the
/// input's candidate sets, each exactly once; in particular a board that
/// is already complete and valid is returned unchanged as the sole
/// solution, and a contradictory board yields no solutions.
pub fn solve(board: &Board) -> (r: Vec<Board>)
    requires
        board.wf(),
    ensures
        forall|k: int|
            0 <= k < r@.len() ==> (#[trigger] r@[k]).wf() && solution_of(r@[k]@, board@),
        forall|k1: int, k2: int| 0 <= k1 < k2 < r@.len() ==> r@[k1]@ != r@[k2]@,
        forall|g: Seq<u16>|
            #[trigger] solution_of(g, board@) ==> exists|k: int|
                0 <= k < r@.len() && r@[k]@ == g,
        complete(board@) && valid(board@) ==> r@.len() == 1 && r@[0]@ == board@,
{
    let ghost b0 = board@;
    let mut sb = board.duplicate();
    let ok = remove_all_non_possibilities(&mut sb);
    if !ok {
        proof {
            if complete(b0) && valid(b0) {
                lemma_complete_valid_propagated(b0);
                assert(false);
            }
        }
        return Vec::new();
    }
    let r = get_solutions(&sb);
    proof {
        assert forall|k: int|
            0 <= k < r@.len() implies (#[trigger] r@[k]).wf() && solution_of(r@[k]@, b0) by {
            lemma_refines_trans(r@[k]@, sb@, b0);
        }
        assert forall|g: Seq<u16>| #[trigger] solution_of(g, b0) implies exists|k: int|
            0 <= k < r@.len() && r@[k]@ == g by {
            assert(refines(g, sb@));
            assert(solution_of(g, sb@));
        }
        if complete(b0) && valid(b0) {
            lemma_complete_valid_propagated(b0);
            assert(sb@ == b0);
            lemma_refines_refl(b0);
            assert(solution_of(b0, b0));
            let k0 = choose|k: int| 0 <= k < r@.len() && r@[k]@ == b0;
            assert(r@.len() >= 1);
            assert forall|k: int| 0 <= k < r@.len() implies r@[k]@ == b0 by {
                lemma_refinement_of_complete(r@[k]@, b0);
            }
            if r@.len() >= 2 {
                assert(r@[0]@ == r@[1]@);
                assert(false);
            }
        }
    }
    r
}

} // verus!

//! The recursive uncover solver.
//!
//! Given a partially revealed board, the solver weighs every legal pair of a
//! hidden cell and a still-unplaced digit: it reveals the digit there,
//! canonicalizes the child board and recurses, or, once only five hidden
//! cells would remain, scores the child at the line stage. Each hidden cell
//! accumulates the tier distributions of its children, and the cell with the
//! greatest expected payout is recommended. Results are memoized per
//! canonical board under its compressed key.
//!
//! `uncover_choice` and `uncover_dist` are the mathematical model of that
//! search; the executable solver is proved to return exactly their values,
//! so repeated calls on one board always return one answer, memoized or not.

use crate::HIDDEN;
use crate::board::{
    Board, cells_ok, complement_of, digit_count, lemma_digit_count_remove, lemma_place_digit,
    remaining_count,
};
use crate::canon::{canon_spec, canon_transform, compress_spec, lemma_cells_ok_apply};
use crate::digit_set::digits_of;
use crate::lines::{
    best_line, compute_best_line, dist_ev, dist_of, dist_sum, fact, lemma_best_line_props,
    lemma_entry_le_sum, lemma_ev_bounds, lemma_fact_bound, lemma_line_tally_sum,
    lemma_sum_pos_entry, line_tally, zero16,
};
use crate::transform::source_index;
use std::collections::HashMap;
use vstd::prelude::*;

verus! {

broadcast use vstd::std_specs::hash::group_hash_axioms;

/// Distribution a child board contributes to its parent's cell: a board with
/// five hidden cells is scored by the best line it could cash in, and any
/// other board by recursing on its canonical form.
pub open spec fn child_dist(s: Seq<u8>, rem: Set<u8>) -> Seq<int>
    decreases remaining_count(rem), 4int, 0int,
{
    if remaining_count(rem) == 5 {
        line_tally(s, rem)[best_line(line_tally(s, rem))]
    } else {
        uncover_dist(canon_spec(s), rem)
    }
}

/// Distribution accumulated at the hidden cell `i` over the digits `d..9` of
/// `rem`, each placed at `i` in turn.
pub open spec fn cell_dist_digits(s: Seq<u8>, rem: Set<u8>, i: int, d: int) -> Seq<int>
    decreases remaining_count(rem), 1int, 9int - d,
    via cell_dist_digits_decreases
{
    if d < 0 || d >= 9 {
        zero16()
    } else if rem.contains(d as u8) {
        Seq::new(
            16,
            |t: int|
                child_dist(s.update(i, d as u8), rem.remove(d as u8))[t] + cell_dist_digits(
                    s,
                    rem,
                    i,
                    d + 1,
                )[t],
        )
    } else {
        cell_dist_digits(s, rem, i, d + 1)
    }
}

#[via_fn]
proof fn cell_dist_digits_decreases(s: Seq<u8>, rem: Set<u8>, i: int, d: int) {
    if 0 <= d < 9 && rem.contains(d as u8) {
        lemma_digit_count_remove(rem, d as u8, 9);
    }
}

/// Distribution accumulated at the hidden cell `i` over every remaining
/// digit.
pub open spec fn cell_dist(s: Seq<u8>, rem: Set<u8>, i: int) -> Seq<int>
    decreases remaining_count(rem), 1int, 10int,
{
    cell_dist_digits(s, rem, i, 0)
}

/// Per-cell distribution of the uncover search: revealed cells accumulate
/// nothing.
pub open spec fn cell_dist_or_zero(s: Seq<u8>, rem: Set<u8>, i: int) -> Seq<int>
    decreases remaining_count(rem), 1int, 11int,
{
    if 0 <= i < 9 && s[i] == HIDDEN {
        cell_dist(s, rem, i)
    } else {
        zero16()
    }
}

/// First-wins fold of the hidden cell with the strictly greatest expected
/// payout, scanning cells `i..9`; 9 and 0 stand for no cell seen yet.
pub open spec fn best_cell_from(s: Seq<u8>, rem: Set<u8>, i: int, bi: int, bv: int) -> int
    decreases remaining_count(rem), 2int, 9int - i,
{
    if i < 0 || i >= 9 {
        bi
    } else if dist_ev(cell_dist_or_zero(s, rem, i)) > bv {
        best_cell_from(s, rem, i + 1, i, dist_ev(cell_dist_or_zero(s, rem, i)))
    } else {
        best_cell_from(s, rem, i + 1, bi, bv)
    }
}

/// The cell the uncover solver recommends on board `s`: the hidden cell with
/// the greatest expected payout, earliest cell winning exact ties.
pub open spec fn uncover_choice(s: Seq<u8>, rem: Set<u8>) -> int
    decreases remaining_count(rem), 2int, 10int,
{
    best_cell_from(s, rem, 0, 9, 0)
}

/// The distribution of outcomes over the sixteen payout tiers for optimal
/// play from board `s`: the distribution of the recommended cell.
pub open spec fn uncover_dist(s: Seq<u8>, rem: Set<u8>) -> Seq<int>
    decreases remaining_count(rem), 3int, 0int,
{
    cell_dist_or_zero(s, rem, uncover_choice(s, rem))
}

/// Combined distribution over all nine cells of a fully hidden board, used
/// to compute the payout odds before any cell is revealed.
pub open spec fn aggregate_cells(s: Seq<u8>, rem: Set<u8>, i: int) -> Seq<int>
    decreases remaining_count(rem), 5int, 9int - i,
{
    if i < 0 || i >= 9 {
        zero16()
    } else {
        Seq::new(
            16,
            |t: int| cell_dist_or_zero(s, rem, i)[t] + aggregate_cells(s, rem, i + 1)[t],
        )
    }
}

/// Combined distribution of the whole-board precomputation.
pub open spec fn aggregate_dist(s: Seq<u8>, rem: Set<u8>) -> Seq<int> {
    aggregate_cells(s, rem, 0)
}

/// Expected payout of the all-zero distribution is zero.
proof fn lemma_zero16_ev(t: int)
    ensures
        crate::lines::dist_ev_from(zero16(), t) == 0,
    decreases 16 - t,
{
    if 0 <= t < 16 {
        lemma_zero16_ev(t + 1);
    }
}

proof fn lemma_zero16_sum2(t: int)
    ensures
        crate::lines::dist_sum_from(zero16(), t) == 0,
    decreases 16 - t,
{
    if 0 <= t < 16 {
        lemma_zero16_sum2(t + 1);
    }
}

proof fn lemma_vec_sum_split(a: Seq<int>, b: Seq<int>, c: Seq<int>, t: int)
    requires
        forall|u: int| 0 <= u < 16 ==> #[trigger] c[u] == a[u] + b[u],
    ensures
        crate::lines::dist_sum_from(c, t) == crate::lines::dist_sum_from(a, t)
            + crate::lines::dist_sum_from(b, t),
    decreases 16 - t,
{
    if 0 <= t < 16 {
        lemma_vec_sum_split(a, b, c, t + 1);
    }
}

/// Distributions that agree on all sixteen buckets have equal bucket sums.
proof fn lemma_sum_congruence(a: Seq<int>, b: Seq<int>, t: int)
    requires
        forall|u: int| 0 <= u < 16 ==> #[trigger] a[u] == b[u],
    ensures
        crate::lines::dist_sum_from(a, t) == crate::lines::dist_sum_from(b, t),
    decreases 16 - t,
{
    if 0 <= t < 16 {
        lemma_sum_congruence(a, b, t + 1);
    }
}

/// A well-formed board with at least one digit remaining has a hidden cell.
pub proof fn lemma_exists_hidden(s: Seq<u8>)
    requires
        cells_ok(s),
        remaining_count(complement_of(s)) >= 1,
    ensures
        exists|i: int| 0 <= i < 9 && s[i] == HIDDEN,
{
    if forall|i: int| 0 <= i < 9 ==> #[trigger] s[i] != HIDDEN {
        crate::lines::lemma_full_remaining(s);
    }
}

/// The distribution of every hidden cell of the uncover search counts one
/// outcome per ordering of the remaining digits: it sums to the factorial of
/// their number, and its buckets are nonnegative.
pub proof fn lemma_cell_dist_digits_sum(s: Seq<u8>, rem: Set<u8>, i: int, d: int)
    requires
        cells_ok(s),
        rem == complement_of(s),
        0 <= i < 9,
        s[i] == HIDDEN,
        0 <= d <= 9,
        6 <= remaining_count(rem) <= 9,
    ensures
        dist_sum(cell_dist_digits(s, rem, i, d)) == (remaining_count(rem) - digit_count(rem, d))
            * fact((remaining_count(rem) - 1) as nat),
        forall|t: int| 0 <= t < 16 ==> #[trigger] cell_dist_digits(s, rem, i, d)[t] >= 0,
    decreases remaining_count(rem), 1int, 9int - d,
{
    let c = remaining_count(rem);
    if d >= 9 {
        lemma_zero16_sum2(0);
        assert((c - c) * fact((c - 1) as nat) == 0) by (nonlinear_arith);
    } else {
        lemma_cell_dist_digits_sum(s, rem, i, d + 1);
        if rem.contains(d as u8) {
            lemma_place_digit(s, i, d as u8);
            lemma_digit_count_remove(rem, d as u8, 9);
            lemma_child_dist_sum(s.update(i, d as u8), rem.remove(d as u8));
            lemma_vec_sum_split(
                child_dist(s.update(i, d as u8), rem.remove(d as u8)),
                cell_dist_digits(s, rem, i, d + 1),
                cell_dist_digits(s, rem, i, d),
                0,
            );
            assert(digit_count(rem, d + 1) == digit_count(rem, d) + 1);
            assert(fact((c - 1) as nat) + (c - digit_count(rem, d) - 1) * fact((c - 1) as nat) == (
            c - digit_count(rem, d)) * fact((c - 1) as nat)) by (nonlinear_arith);
        } else {
            assert(digit_count(rem, d + 1) == digit_count(rem, d));
        }
    }
}

/// A child board's distribution sums to the factorial of its remaining
/// digits, whether it is scored at the line stage or by recursion.
pub proof fn lemma_child_dist_sum(s: Seq<u8>, rem: Set<u8>)
    requires
        cells_ok(s),
        rem == complement_of(s),
        5 <= remaining_count(rem) <= 8,
    ensures
        dist_sum(child_dist(s, rem)) == fact(remaining_count(rem)),
        forall|t: int| 0 <= t < 16 ==> #[trigger] child_dist(s, rem)[t] >= 0,
    decreases remaining_count(rem), 4int, 0int,
{
    let c = remaining_count(rem);
    if c == 5 {
        let tal = line_tally(s, rem);
        assert forall|l: int| 0 <= l < 8 implies dist_sum(#[trigger] tal[l]) == fact(c)
            && forall|t: int| 0 <= t < 16 ==> #[trigger] tal[l][t] >= 0 by {
            lemma_line_tally_sum(s, rem, l);
        }
        lemma_fact_bound(c);
        lemma_sum_pos_entry(tal[0], 0);
        lemma_ev_bounds(tal[0], 0);
        lemma_best_line_props(tal);
    } else {
        let ct = canon_transform(s);
        lemma_cells_ok_apply(ct, s);
        lemma_uncover_props(canon_spec(s), rem);
    }
}

/// What the uncover solver's model guarantees on any well-formed board of
/// the uncover stage: the recommended cell is a hidden cell of the board,
/// and the distribution of outcomes counts exactly one outcome for every
/// ordering of the remaining digits.
pub proof fn lemma_uncover_props(s: Seq<u8>, rem: Set<u8>)
    requires
        cells_ok(s),
        rem == complement_of(s),
        6 <= remaining_count(rem) <= 8,
    ensures
        0 <= uncover_choice(s, rem) < 9,
        s[uncover_choice(s, rem)] == HIDDEN,
        dist_sum(uncover_dist(s, rem)) == fact(remaining_count(rem)),
        forall|t: int| 0 <= t < 16 ==> #[trigger] uncover_dist(s, rem)[t] >= 0,
        uncover_dist(s, rem) == cell_dist(s, rem, uncover_choice(s, rem)),
    decreases remaining_count(rem), 3int, 0int,
{
    let c = remaining_count(rem);
    lemma_exists_hidden(s);
    let i0 = choose|i: int| 0 <= i < 9 && s[i] == HIDDEN;
    assert(dist_ev(cell_dist_or_zero(s, rem, i0)) > 0) by {
        lemma_cell_dist_digits_sum(s, rem, i0, 0);
        assert(digit_count(rem, 0) == 0);
        assert(c * fact((c - 1) as nat) == fact(c));
        lemma_fact_bound(c);
        assert(dist_sum(cell_dist(s, rem, i0)) == fact(c));
        lemma_sum_pos_entry(cell_dist(s, rem, i0), 0);
        lemma_ev_bounds(cell_dist(s, rem, i0), 0);
    }
    lemma_best_cell_props(s, rem, 0, 9, 0);
    let ch = uncover_choice(s, rem);
    assert(ch != 9);
    assert(0 <= ch < 9);
    assert(dist_ev(cell_dist_or_zero(s, rem, ch)) > 0);
    if s[ch] != HIDDEN {
        lemma_zero16_ev(0);
    }
    assert(s[ch] == HIDDEN);
    lemma_cell_dist_digits_sum(s, rem, ch, 0);
    assert(digit_count(rem, 0) == 0);
    assert(c * fact((c - 1) as nat) == fact(c));
}

/// The first-wins fold over the cells returns a cell with positive expected
/// payout whenever some cell has one, and that cell's payout dominates every
/// cell, strictly so before it.
proof fn lemma_best_cell_props(s: Seq<u8>, rem: Set<u8>, i: int, bi: int, bv: int)
    requires
        0 <= i <= 9,
        bi == 9 ==> bv == 0 && (forall|j: int|
            0 <= j < i ==> dist_ev(#[trigger] cell_dist_or_zero(s, rem, j)) <= 0),
        bi != 9 ==> 0 <= bi < i && bi < 9 && bv == dist_ev(cell_dist_or_zero(s, rem, bi)) && bv > 0
            && (forall|j: int|
            0 <= j < i ==> dist_ev(#[trigger] cell_dist_or_zero(s, rem, j)) <= bv) && (forall|
            j: int,
        | 0 <= j < bi ==> dist_ev(#[trigger] cell_dist_or_zero(s, rem, j)) < bv),
    ensures
        ({
            let r = best_cell_from(s, rem, i, bi, bv);
            &&& (r == 9 ==> forall|j: int|
                0 <= j < 9 ==> dist_ev(#[trigger] cell_dist_or_zero(s, rem, j)) <= 0)
            &&& (r != 9 ==> 0 <= r < 9 && dist_ev(cell_dist_or_zero(s, rem, r)) > 0 && (forall|
                j: int,
            |
                0 <= j < 9 ==> dist_ev(#[trigger] cell_dist_or_zero(s, rem, j)) <= dist_ev(
                    cell_dist_or_zero(s, rem, r),
                )) && (forall|j: int|
                0 <= j < r ==> dist_ev(#[trigger] cell_dist_or_zero(s, rem, j)) < dist_ev(
                    cell_dist_or_zero(s, rem, r),
                )))
        }),
    decreases 9 - i,
{
    if i < 9 {
        if dist_ev(cell_dist_or_zero(s, rem, i)) > bv {
            lemma_best_cell_props(s, rem, i + 1, i, dist_ev(cell_dist_or_zero(s, rem, i)));
        } else {
            lemma_best_cell_props(s, rem, i + 1, bi, bv);
        }
    }
}


/// The fully hidden board.
pub open spec fn hidden_board() -> Seq<u8> {
    Seq::new(9, |i: int| HIDDEN)
}

/// On a fully hidden board, every cell contributes one outcome per ordering
/// of all nine digits, so the combined distribution over the cells from `i`
/// on sums to `(9 - i)` times 9-factorial.
proof fn lemma_aggregate_sum(s: Seq<u8>, rem: Set<u8>, i: int)
    requires
        cells_ok(s),
        rem == complement_of(s),
        remaining_count(rem) == 9,
        forall|j: int| 0 <= j < 9 ==> #[trigger] s[j] == HIDDEN,
        0 <= i <= 9,
    ensures
        dist_sum(aggregate_cells(s, rem, i)) == (9 - i) * fact(9),
        forall|t: int| 0 <= t < 16 ==> #[trigger] aggregate_cells(s, rem, i)[t] >= 0,
    decreases 9 - i,
{
    if i >= 9 {
        lemma_zero16_sum2(0);
    } else {
        lemma_aggregate_sum(s, rem, i + 1);
        lemma_cell_dist_digits_sum(s, rem, i, 0);
        assert(digit_count(rem, 0) == 0);
        assert(9 * fact(8) == fact(9));
        assert(cell_dist(s, rem, i) == cell_dist_digits(s, rem, i, 0));
        assert(cell_dist_or_zero(s, rem, i) == cell_dist(s, rem, i));
        lemma_vec_sum_split(
            cell_dist_or_zero(s, rem, i),
            aggregate_cells(s, rem, i + 1),
            aggregate_cells(s, rem, i),
            0,
        );
        assert(fact(9) + (8 - i) * fact(9) == (9 - i) * fact(9)) by (nonlinear_arith);
    }
}

/// One memoized result: the recommended cell on the canonical board the key
/// stands for, and its tier distribution.
struct MemoEntry {
    choice: usize,
    dist: [u32; 16],
}

/// The entry under key `k` records exactly the model's answer for the board
/// `s`: a well-formed uncover-stage board whose compressed key is `k`.
spec fn entry_for(k: u32, e: MemoEntry, s: Seq<u8>) -> bool {
    &&& cells_ok(s)
    &&& 6 <= remaining_count(complement_of(s)) <= 8
    &&& compress_spec(s) == k
    &&& e.choice == uncover_choice(s, complement_of(s))
    &&& e.choice < 9
    &&& forall|t: int|
        0 <= t < 16 ==> #[trigger] e.dist@[t] == uncover_dist(s, complement_of(s))[t]
}

/// Every memo entry is the model's answer for some board with its key; the
/// compressed key is collision-free over such boards, so it is the answer for
/// every board that compresses to the key.
spec fn entry_ok(k: u32, e: MemoEntry) -> bool {
    exists|s: Seq<u8>| entry_for(k, e, s)
}

/// The memoizing uncover solver: a table from the compressed key of each
/// canonical board it has solved to the result of that computation.
pub struct Solver {
    memo: HashMap<u32, MemoEntry>,
}

/// Adds a child's distribution into a cell's accumulator, bucket by bucket.
fn add_row(row: &mut [u32; 16], dist: &[u32; 16])
    requires
        forall|t: int| 0 <= t < 16 ==> #[trigger] old(row)@[t] + dist@[t] <= u32::MAX,
    ensures
        forall|t: int| 0 <= t < 16 ==> #[trigger] final(row)@[t] == old(row)@[t] + dist@[t],
{
    let mut t: usize = 0;
    while t < 16
        invariant
            t <= 16,
            forall|u: int| 0 <= u < 16 ==> #[trigger] old(row)@[u] + dist@[u] <= u32::MAX,
            forall|u: int| 0 <= u < t ==> #[trigger] row@[u] == old(row)@[u] + dist@[u],
            forall|u: int| t <= u < 16 ==> #[trigger] row@[u] == old(row)@[u],
        decreases 16 - t,
    {
        row[t] = row[t] + dist[t];
        t = t + 1;
    }
}

impl Solver {
    /// The solver invariant: every memoized entry is the model's answer for
    /// the canonical board its key stands for.
    pub closed spec fn wf(&self) -> bool {
        forall|k: u32| self.memo@.dom().contains(k) ==> entry_ok(k, #[trigger] self.memo@[k])
    }

    /// A solver with an empty memo table.
    pub fn new() -> (s: Solver)
        ensures
            s.wf(),
    {
        Solver { memo: HashMap::new() }
    }

    /// Recommends which hidden cell to reveal next on a board with six to
    /// eight hidden cells, and returns the exact distribution over the
    /// sixteen payout tiers of optimal play from that board: one outcome per
    /// ordering of the remaining digits. The recommended cell is always a
    /// hidden cell of the given board, and the answer is a function of the
    /// board alone, so repeating the call returns the same answer whether it
    /// is served from the memo table or recomputed.
    pub fn compute_best_uncover(&mut self, board: &Board) -> (r: (usize, [u32; 16]))
        requires
            old(self).wf(),
            board.wf(),
            6 <= board.remaining() <= 8,
        ensures
            final(self).wf(),
            r.0 < 9,
            board.state@[r.0 as int] == HIDDEN,
            r.0 as int == source_index(
                canon_transform(board.state@),
                uncover_choice(canon_spec(board.state@), digits_of(board.unused_nums)),
            ),
            forall|t: int|
                0 <= t < 16 ==> #[trigger] r.1@[t] == uncover_dist(
                    canon_spec(board.state@),
                    digits_of(board.unused_nums),
                )[t],
            dist_sum(dist_of(r.1@)) == fact(board.remaining()),
        decreases board.remaining(),
    {
        let ghost s0 = board.state@;
        let ghost rem0 = digits_of(board.unused_nums);
        let ghost c = remaining_count(rem0);
        let n = board.remaining_digits();
        let (cb, inv_t) = board.simplify();
        let ghost cs = cb.state@;
        let ghost ct = canon_transform(s0);
        proof {
            lemma_cells_ok_apply(ct, s0);
            assert(rem0 == complement_of(cs));
            lemma_uncover_props(cs, rem0);
            crate::transform::lemma_source_range(ct);
        }
        let key = cb.compress();
        let mut hit = false;
        let mut hit_choice: usize = 0;
        let mut hit_dist: [u32; 16] = [0u32; 16];
        if let Some(e) = self.memo.get(&key) {
            hit = true;
            hit_choice = e.choice;
            hit_dist = e.dist;
            proof {
                assert(self.memo@.contains_key(key) && self.memo@[key] == *e);
                assert(entry_ok(key, *e));
                let se = choose|s: Seq<u8>| entry_for(key, *e, s);
                crate::canon::lemma_revealed_remaining(se);
                crate::canon::lemma_revealed_remaining(cs);
                crate::canon::lemma_compress_injective(se, cs);
                assert(se == cs);
                assert(complement_of(cs) == rem0);
                assert(hit_choice == uncover_choice(cs, rem0));
                assert(forall|t: int|
                    0 <= t < 16 ==> #[trigger] hit_dist@[t] == uncover_dist(cs, rem0)[t]);
            }
        }
        if hit {
            let out_i = inv_t.apply_to_index(hit_choice);
            proof {
                lemma_sum_congruence(dist_of(hit_dist@), uncover_dist(cs, rem0), 0);
                assert(cs[hit_choice as int] == s0[source_index(ct, hit_choice as int)]);
            }
            return (out_i, hit_dist);
        }
        let mut result: [[u32; 16]; 9] = [[0u32; 16]; 9];
        let mut i: usize = 0;
        while i < 9
            invariant
                i <= 9,
                self.wf(),
                board.wf(),
                cb.wf(),
                cb.state@ == cs,
                cs == canon_spec(s0),
                s0 == board.state@,
                digits_of(cb.unused_nums) == rem0,
                rem0 == digits_of(board.unused_nums),
                rem0 == complement_of(cs),
                cells_ok(cs),
                c == remaining_count(rem0),
                6 <= c <= 8,
                n == c,
                forall|j: int, t: int|
                    0 <= j < i && 0 <= t < 16 ==> #[trigger] result@[j]@[t] == cell_dist_or_zero(
                        cs,
                        rem0,
                        j,
                    )[t],
                forall|j: int, t: int|
                    i <= j < 9 && 0 <= t < 16 ==> #[trigger] result@[j]@[t] == 0,
            decreases 9 - i,
        {
            if cb.state[i] == HIDDEN {
                let mut row: [u32; 16] = [0u32; 16];
                let mut d: u8 = 0;
                proof {
                    lemma_cell_dist_digits_sum(cs, rem0, i as int, 0);
                }
                while d < 9
                    invariant
                        d <= 9,
                        i < 9,
                        cs[i as int] == HIDDEN,
                        self.wf(),
                        board.wf(),
                        cb.wf(),
                        cb.state@ == cs,
                        cs == canon_spec(s0),
                        s0 == board.state@,
                        digits_of(cb.unused_nums) == rem0,
                        rem0 == digits_of(board.unused_nums),
                        rem0 == complement_of(cs),
                        cells_ok(cs),
                        c == remaining_count(rem0),
                        6 <= c <= 8,
                        n == c,
                        forall|t: int|
                            0 <= t < 16 ==> #[trigger] row@[t] + cell_dist_digits(
                                cs,
                                rem0,
                                i as int,
                                d as int,
                            )[t] == cell_dist(cs, rem0, i as int)[t],
                    decreases 9 - d,
                {
                    if cb.unused_nums.contains(d) {
                        let child = cb.child(i, d);
                        let ghost child_s = cs.update(i as int, d);
                        let ghost child_rem = rem0.remove(d);
                        proof {
                            lemma_place_digit(cs, i as int, d);
                            lemma_digit_count_remove(rem0, d, 9);
                            assert(child.state@ =~= child_s);
                            assert(remaining_count(child_rem) == c - 1);
                        }
                        let dist: [u32; 16];
                        if n == 6 {
                            let lr = compute_best_line(&child);
                            dist = lr.1;
                            proof {
                                assert(child_dist(child_s, child_rem) == line_tally(
                                    child_s,
                                    child_rem,
                                )[best_line(line_tally(child_s, child_rem))]);
                                lemma_child_dist_sum(child_s, child_rem);
                                assert(forall|t: int|
                                    0 <= t < 16 ==> #[trigger] dist@[t] == child_dist(
                                        child_s,
                                        child_rem,
                                    )[t]);
                            }
                        } else {
                            let ur = self.compute_best_uncover(&child);
                            dist = ur.1;
                            proof {
                                assert(child_dist(child_s, child_rem) == uncover_dist(
                                    canon_spec(child_s),
                                    child_rem,
                                ));
                                assert(forall|t: int|
                                    0 <= t < 16 ==> #[trigger] dist@[t] == child_dist(
                                        child_s,
                                        child_rem,
                                    )[t]);
                            }
                        }
                        proof {
                            lemma_child_dist_sum(child_s, child_rem);
                            lemma_cell_dist_digits_sum(cs, rem0, i as int, d as int);
                            lemma_cell_dist_digits_sum(cs, rem0, i as int, d as int + 1);
                            lemma_fact_bound(c);
                            assert forall|t: int| 0 <= t < 16 implies #[trigger] row@[t] + dist@[t]
                                <= u32::MAX by {
                                assert(cell_dist_digits(cs, rem0, i as int, d as int)[t]
                                    == child_dist(child_s, child_rem)[t] + cell_dist_digits(
                                    cs,
                                    rem0,
                                    i as int,
                                    d as int + 1,
                                )[t]);
                                assert(row@[t] + dist@[t] == cell_dist(cs, rem0, i as int)[t]
                                    - cell_dist_digits(cs, rem0, i as int, d as int + 1)[t]);
                                lemma_cell_dist_digits_sum(cs, rem0, i as int, 0);
                                assert(digit_count(rem0, 0) == 0);
                                assert(c * fact((c - 1) as nat) == fact(c));
                                assert(cell_dist(cs, rem0, i as int) == cell_dist_digits(
                                    cs,
                                    rem0,
                                    i as int,
                                    0,
                                ));
                                lemma_entry_le_sum(cell_dist_digits(cs, rem0, i as int, 0), 0, t);
                            }
                        }
                        add_row(&mut row, &dist);
                        proof {
                            assert forall|t: int| 0 <= t < 16 implies #[trigger] row@[t]
                                + cell_dist_digits(cs, rem0, i as int, d as int + 1)[t]
                                == cell_dist(cs, rem0, i as int)[t] by {
                                assert(cell_dist_digits(cs, rem0, i as int, d as int)[t]
                                    == child_dist(child_s, child_rem)[t] + cell_dist_digits(
                                    cs,
                                    rem0,
                                    i as int,
                                    d as int + 1,
                                )[t]);
                            }
                        }
                    } else {
                        proof {
                            assert(forall|t: int|
                                0 <= t < 16 ==> #[trigger] cell_dist_digits(
                                    cs,
                                    rem0,
                                    i as int,
                                    d as int,
                                )[t] == cell_dist_digits(cs, rem0, i as int, d as int + 1)[t]);
                        }
                    }
                    d = d + 1;
                }
                result[i] = row;
                proof {
                    assert(forall|t: int|
                        0 <= t < 16 ==> #[trigger] cell_dist_digits(cs, rem0, i as int, 9)[t]
                            == 0);
                    assert(forall|t: int|
                        0 <= t < 16 ==> #[trigger] result@[i as int]@[t] == cell_dist_or_zero(
                            cs,
                            rem0,
                            i as int,
                        )[t]);
                }
            } else {
                proof {
                    assert(forall|t: int|
                        0 <= t < 16 ==> #[trigger] cell_dist_or_zero(cs, rem0, i as int)[t] == 0);
                }
            }
            i = i + 1;
        }
        proof {
            assert forall|j: int, t: int| 0 <= j < 9 && 0 <= t < 16 implies 0
                <= #[trigger] cell_dist_or_zero(cs, rem0, j)[t] <= 362880 by {
                lemma_fact_bound(c);
                if cs[j] == HIDDEN {
                    lemma_cell_dist_digits_sum(cs, rem0, j, 0);
                    assert(digit_count(rem0, 0) == 0);
                    assert(c * fact((c - 1) as nat) == fact(c));
                    assert(cell_dist(cs, rem0, j) == cell_dist_digits(cs, rem0, j, 0));
                    lemma_entry_le_sum(cell_dist_digits(cs, rem0, j, 0), 0, t);
                }
            }
        }
        let mut max_i: usize = 9;
        let mut max: u64 = 0;
        let mut l: usize = 0;
        while l < 9
            invariant
                l <= 9,
                cells_ok(cs),
                rem0 == complement_of(cs),
                c == remaining_count(rem0),
                6 <= c <= 8,
                forall|j: int, t: int|
                    0 <= j < 9 && 0 <= t < 16 ==> #[trigger] result@[j]@[t] == cell_dist_or_zero(
                        cs,
                        rem0,
                        j,
                    )[t],
                forall|j: int, t: int|
                    0 <= j < 9 && 0 <= t < 16 ==> 0 <= #[trigger] cell_dist_or_zero(cs, rem0, j)[t]
                        <= 362880,
                uncover_choice(cs, rem0) == best_cell_from(cs, rem0, l as int, max_i as int, max as int),
                max_i == 9 || max_i < l,
                max_i == 9 ==> max == 0,
                max_i != 9 ==> max_i < 9 && max == dist_ev(cell_dist_or_zero(cs, rem0, max_i as int)),
            decreases 9 - l,
        {
            let row = result[l];
            let total = crate::lines::row_ev(&row, Ghost(cell_dist_or_zero(cs, rem0, l as int)));
            if total > max {
                max_i = l;
                max = total;
            }
            l = l + 1;
        }
        proof {
            assert(max_i as int == uncover_choice(cs, rem0));
            assert(max_i < 9);
        }
        let dist_out = result[max_i];
        let ghost memo_pre = self.memo@;
        proof {
            assert(forall|k: u32| memo_pre.dom().contains(k) ==> entry_ok(k, #[trigger] memo_pre[k]));
        }
        self.memo.insert(key, MemoEntry { choice: max_i, dist: dist_out });
        proof {
            assert(forall|t: int|
                0 <= t < 16 ==> #[trigger] dist_out@[t] == uncover_dist(cs, rem0)[t]);
            assert(self.memo@ == memo_pre.insert(key, MemoEntry { choice: max_i, dist: dist_out }));
            assert forall|k: u32| self.memo@.dom().contains(k) implies entry_ok(
                k,
                #[trigger] self.memo@[k],
            ) by {
                if k != key {
                    assert(memo_pre.dom().contains(k));
                    assert(self.memo@[k] == memo_pre[k]);
                } else {
                    assert(entry_for(key, self.memo@[k], cs));
                }
            }
            lemma_sum_congruence(dist_of(dist_out@), uncover_dist(cs, rem0), 0);
        }
        let out_i = inv_t.apply_to_index(max_i);
        proof {
            assert(cs[max_i as int] == s0[source_index(ct, max_i as int)]);
        }
        (out_i, dist_out)
    }

    /// Solves the fully hidden board: combines the distributions of all nine
    /// cells into the distribution of payouts over every way the game can
    /// play out, and returns the total number of outcomes together with it.
    /// Dividing the distribution by the total yields the payout odds before
    /// any cell is revealed.
    pub fn compute_full_distribution(&mut self) -> (r: (usize, [u32; 16]))
        requires
            old(self).wf(),
        ensures
            final(self).wf(),
            forall|t: int|
                0 <= t < 16 ==> #[trigger] r.1@[t] == aggregate_dist(
                    hidden_board(),
                    complement_of(hidden_board()),
                )[t],
            r.0 == dist_sum(dist_of(r.1@)),
            r.0 == 9 * fact(9),
    {
        let board = Board::starting();
        let ghost cs = board.state@;
        let ghost rem0 = digits_of(board.unused_nums);
        proof {
            assert(cs =~= hidden_board());
            assert(rem0 == complement_of(cs));
            lemma_aggregate_sum(cs, rem0, 0);
            lemma_fact_bound(9);
        }
        let mut combined: [u32; 16] = [0u32; 16];
        let mut i: usize = 0;
        while i < 9
            invariant
                i <= 9,
                self.wf(),
                board.wf(),
                board.state@ == cs,
                cs == hidden_board(),
                digits_of(board.unused_nums) == rem0,
                rem0 == complement_of(cs),
                cells_ok(cs),
                remaining_count(rem0) == 9,
                forall|j: int| 0 <= j < 9 ==> #[trigger] cs[j] == HIDDEN,
                forall|t: int|
                    0 <= t < 16 ==> #[trigger] combined@[t] + aggregate_cells(cs, rem0, i as int)[t]
                        == aggregate_dist(cs, rem0)[t],
            decreases 9 - i,
        {
            let mut row: [u32; 16] = [0u32; 16];
            let mut d: u8 = 0;
            proof {
                lemma_cell_dist_digits_sum(cs, rem0, i as int, 0);
            }
            while d < 9
                invariant
                    d <= 9,
                    i < 9,
                    cs[i as int] == HIDDEN,
                    self.wf(),
                    board.wf(),
                    board.state@ == cs,
                    digits_of(board.unused_nums) == rem0,
                    rem0 == complement_of(cs),
                    cells_ok(cs),
                    remaining_count(rem0) == 9,
                    forall|t: int|
                        0 <= t < 16 ==> #[trigger] row@[t] + cell_dist_digits(
                            cs,
                            rem0,
                            i as int,
                            d as int,
                        )[t] == cell_dist(cs, rem0, i as int)[t],
                decreases 9 - d,
            {
                if board.unused_nums.contains(d) {
                    let child = board.child(i, d);
                    let ghost child_s = cs.update(i as int, d);
                    let ghost child_rem = rem0.remove(d);
                    proof {
                        lemma_place_digit(cs, i as int, d);
                        lemma_digit_count_remove(rem0, d, 9);
                        assert(child.state@ =~= child_s);
                        assert(remaining_count(child_rem) == 8);
                    }
                    let ur = self.compute_best_uncover(&child);
                    let dist = ur.1;
                    proof {
                        assert(child_dist(child_s, child_rem) == uncover_dist(
                            canon_spec(child_s),
                            child_rem,
                        ));
                        assert(forall|t: int|
                            0 <= t < 16 ==> #[trigger] dist@[t] == child_dist(
                                child_s,
                                child_rem,
                            )[t]);
                        lemma_child_dist_sum(child_s, child_rem);
                        lemma_cell_dist_digits_sum(cs, rem0, i as int, d as int);
                        lemma_cell_dist_digits_sum(cs, rem0, i as int, d as int + 1);
                        lemma_fact_bound(9);
                        assert forall|t: int| 0 <= t < 16 implies #[trigger] row@[t] + dist@[t]
                            <= u32::MAX by {
                            assert(cell_dist_digits(cs, rem0, i as int, d as int)[t] == child_dist(
                                child_s,
                                child_rem,
                            )[t] + cell_dist_digits(cs, rem0, i as int, d as int + 1)[t]);
                            assert(row@[t] + dist@[t] == cell_dist(cs, rem0, i as int)[t]
                                - cell_dist_digits(cs, rem0, i as int, d as int + 1)[t]);
                            lemma_cell_dist_digits_sum(cs, rem0, i as int, 0);
                            assert(digit_count(rem0, 0) == 0);
                            assert(9 * fact(8) == fact(9));
                            assert(cell_dist(cs, rem0, i as int) == cell_dist_digits(
                                cs,
                                rem0,
                                i as int,
                                0,
                            ));
                            lemma_entry_le_sum(cell_dist_digits(cs, rem0, i as int, 0), 0, t);
                        }
                    }
                    add_row(&mut row, &dist);
                    proof {
                        assert forall|t: int| 0 <= t < 16 implies #[trigger] row@[t]
                            + cell_dist_digits(cs, rem0, i as int, d as int + 1)[t] == cell_dist(
                            cs,
                            rem0,
                            i as int,
                        )[t] by {
                            assert(cell_dist_digits(cs, rem0, i as int, d as int)[t] == child_dist(
                                child_s,
                                child_rem,
                            )[t] + cell_dist_digits(cs, rem0, i as int, d as int + 1)[t]);
                        }
                    }
                } else {
                    proof {
                        assert(forall|t: int|
                            0 <= t < 16 ==> #[trigger] cell_dist_digits(
                                cs,
                                rem0,
                                i as int,
                                d as int,
                            )[t] == cell_dist_digits(cs, rem0, i as int, d as int + 1)[t]);
                    }
                }
                d = d + 1;
            }
            proof {
                assert(forall|t: int|
                    0 <= t < 16 ==> #[trigger] cell_dist_digits(cs, rem0, i as int, 9)[t] == 0);
                lemma_aggregate_sum(cs, rem0, i as int);
                lemma_aggregate_sum(cs, rem0, i as int + 1);
                lemma_cell_dist_digits_sum(cs, rem0, i as int, 0);
                assert(digit_count(rem0, 0) == 0);
                assert(9 * fact(8) == fact(9));
                lemma_fact_bound(9);
                assert forall|t: int| 0 <= t < 16 implies #[trigger] combined@[t] + row@[t]
                    <= u32::MAX by {
                    assert(aggregate_cells(cs, rem0, i as int)[t] == cell_dist_or_zero(
                        cs,
                        rem0,
                        i as int,
                    )[t] + aggregate_cells(cs, rem0, i as int + 1)[t]);
                    assert(combined@[t] + row@[t] == aggregate_dist(cs, rem0)[t] - aggregate_cells(
                        cs,
                        rem0,
                        i as int + 1,
                    )[t]);
                    assert(aggregate_dist(cs, rem0) == aggregate_cells(cs, rem0, 0));
                    lemma_aggregate_sum(cs, rem0, 0);
                    lemma_entry_le_sum(aggregate_cells(cs, rem0, 0), 0, t);
                    assert(dist_sum(aggregate_cells(cs, rem0, 0)) == 9 * fact(9));
                }
            }
            add_row(&mut combined, &row);
            proof {
                assert forall|t: int| 0 <= t < 16 implies #[trigger] combined@[t]
                    + aggregate_cells(cs, rem0, i as int + 1)[t] == aggregate_dist(cs, rem0)[t] by {
                    assert(aggregate_cells(cs, rem0, i as int)[t] == cell_dist_or_zero(
                        cs,
                        rem0,
                        i as int,
                    )[t] + aggregate_cells(cs, rem0, i as int + 1)[t]);
                }
            }
            i = i + 1;
        }
        proof {
            assert(forall|t: int|
                0 <= t < 16 ==> #[trigger] aggregate_cells(cs, rem0, 9)[t] == 0);
            assert(forall|t: int|
                0 <= t < 16 ==> #[trigger] combined@[t] == aggregate_dist(cs, rem0)[t]);
            lemma_sum_congruence(dist_of(combined@), aggregate_dist(cs, rem0), 0);
            assert(aggregate_dist(cs, rem0) == aggregate_cells(cs, rem0, 0));
            assert(dist_sum(dist_of(combined@)) == 9 * fact(9));
        }
        let mut total: usize = 0;
        let mut t: usize = 0;
        while t < 16
            invariant
                t <= 16,
                forall|u: int|
                    0 <= u < 16 ==> #[trigger] combined@[u] == aggregate_dist(
                        hidden_board(),
                        complement_of(hidden_board()),
                    )[u],
                dist_sum(dist_of(combined@)) == 9 * fact(9),
                total + crate::lines::dist_sum_from(dist_of(combined@), t as int) == dist_sum(
                    dist_of(combined@),
                ),
            decreases 16 - t,
        {
            proof {
                lemma_fact_bound(9);
                crate::lines::lemma_sum_nonneg(dist_of(combined@), t as int + 1);
                assert(crate::lines::dist_sum_from(dist_of(combined@), t as int) == dist_of(
                    combined@,
                )[t as int] + crate::lines::dist_sum_from(dist_of(combined@), t as int + 1));
            }
            total = total + (combined[t] as usize);
            t = t + 1;
        }
        (total, combined)
    }
}

} // verus!

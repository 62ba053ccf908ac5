//! The eight lines of the board and the final-stage permutation solver.
//!
//! Once a board reaches the line-choice stage, every ordering of the
//! remaining digits into the hidden cells is enumerated; each completed board
//! contributes, for every line, one outcome in the payout tier of that line's
//! digit sum. `line_tally` is the mathematical model of that enumeration, and
//! `compute_best_line` picks the line with the greatest expected payout.

use crate::HIDDEN;
use crate::board::{
    Board, cells_ok, complement_of, digit_count, lemma_digit_count_bound,
    lemma_digit_count_remove, lemma_place_digit, remaining_count,
};
use crate::digit_set::{DigitSet, digits_of};
use crate::payout::{payout_amount, payout_amount_spec, tier_of_sum, tier_of_sum_spec};
use vstd::prelude::*;

verus! {

/// Cell `k` (0, 1 or 2) of line `l`: the three bottom-to-top rows, the main
/// diagonal, the three left-to-right columns, and the anti-diagonal, in the
/// fixed order the solver reports line indices in.
pub open spec fn line_cell(l: int, k: int) -> int {
    if l == 0 {
        6 + k
    } else if l == 1 {
        3 + k
    } else if l == 2 {
        k
    } else if l == 3 {
        4 * k
    } else if l == 4 {
        3 * k
    } else if l == 5 {
        1 + 3 * k
    } else if l == 6 {
        2 + 3 * k
    } else {
        2 + 2 * k
    }
}

/// Digit sum of line `l` on the fully revealed board `s`.
pub open spec fn line_sum(s: Seq<u8>, l: int) -> int {
    s[line_cell(l, 0)] + s[line_cell(l, 1)] + s[line_cell(l, 2)]
}

/// The three cells of line `l`.
pub fn line_cells(l: usize) -> (r: (usize, usize, usize))
    requires
        l < 8,
    ensures
        r.0 == line_cell(l as int, 0),
        r.1 == line_cell(l as int, 1),
        r.2 == line_cell(l as int, 2),
        r.0 < 9 && r.1 < 9 && r.2 < 9,
{
    match l {
        0 => (6, 7, 8),
        1 => (3, 4, 5),
        2 => (0, 1, 2),
        3 => (0, 4, 8),
        4 => (0, 3, 6),
        5 => (1, 4, 7),
        6 => (2, 5, 8),
        _ => (2, 4, 6),
    }
}

/// A 16-bucket distribution of `u32` counts, as mathematical integers.
pub open spec fn dist_of(arr: Seq<u32>) -> Seq<int> {
    Seq::new(16, |t: int| arr[t] as int)
}

/// The all-zero 16-bucket distribution.
pub open spec fn zero16() -> Seq<int> {
    Seq::new(16, |t: int| 0int)
}

/// Bucket-wise sum of two 16-bucket distributions.
pub open spec fn vec_add(a: Seq<int>, b: Seq<int>) -> Seq<int> {
    Seq::new(16, |t: int| a[t] + b[t])
}

/// The all-zero per-line tally.
pub open spec fn mat_zero() -> Seq<Seq<int>> {
    Seq::new(8, |l: int| zero16())
}

/// Line-wise, bucket-wise sum of two per-line tallies.
pub open spec fn mat_add(a: Seq<Seq<int>>, b: Seq<Seq<int>>) -> Seq<Seq<int>> {
    Seq::new(8, |l: int| vec_add(a[l], b[l]))
}

/// Tally of a fully revealed board: each line contributes one outcome in the
/// tier of its digit sum.
pub open spec fn tally_full(s: Seq<u8>) -> Seq<Seq<int>> {
    Seq::new(
        8,
        |l: int|
            Seq::new(
                16,
                |t: int|
                    if t == tier_of_sum_spec(line_sum(s, l)) {
                        1int
                    } else {
                        0int
                    },
            ),
    )
}

/// First hidden cell of `s` at or after `i`, or 9 when every cell from `i` on
/// is revealed.
pub open spec fn first_hidden_from(s: Seq<u8>, i: int) -> int
    decreases 9 - i,
{
    if i < 0 || i >= 9 {
        9
    } else if s[i] == HIDDEN {
        i
    } else {
        first_hidden_from(s, i + 1)
    }
}

/// First hidden cell of `s`, or 9 when the board is fully revealed.
pub open spec fn first_hidden(s: Seq<u8>) -> int {
    first_hidden_from(s, 0)
}

/// Per-line tally of all orderings of the digits of `rem` into the hidden
/// cells of `s`: a fully revealed board tallies itself, and otherwise every
/// remaining digit is placed in the first hidden cell in turn.
pub open spec fn line_tally(s: Seq<u8>, rem: Set<u8>) -> Seq<Seq<int>>
    decreases remaining_count(rem), 10int,
{
    let i = first_hidden(s);
    if i == 9 {
        tally_full(s)
    } else {
        line_tally_digits(s, rem, i, 0)
    }
}

/// Tally over the digits `d..9` of `rem` placed into the hidden cell `i`.
pub open spec fn line_tally_digits(s: Seq<u8>, rem: Set<u8>, i: int, d: int) -> Seq<Seq<int>>
    decreases remaining_count(rem), 9int - d,
    via line_tally_digits_decreases
{
    if d < 0 || d >= 9 {
        mat_zero()
    } else if rem.contains(d as u8) {
        mat_add(
            line_tally(s.update(i, d as u8), rem.remove(d as u8)),
            line_tally_digits(s, rem, i, d + 1),
        )
    } else {
        line_tally_digits(s, rem, i, d + 1)
    }
}

#[via_fn]
proof fn line_tally_digits_decreases(s: Seq<u8>, rem: Set<u8>, i: int, d: int) {
    if 0 <= d < 9 && rem.contains(d as u8) {
        lemma_digit_count_remove(rem, d as u8, 9);
    }
}

/// Factorial, for counting the orderings of the remaining digits.
pub open spec fn fact(n: nat) -> nat
    decreases n,
{
    if n == 0 {
        1
    } else {
        n * fact((n - 1) as nat)
    }
}

/// Sum of the buckets of a distribution from bucket `t` on.
pub open spec fn dist_sum_from(dist: Seq<int>, t: int) -> int
    decreases 16 - t,
{
    if t < 0 || t >= 16 {
        0
    } else {
        dist[t] + dist_sum_from(dist, t + 1)
    }
}

/// Sum of the 16 buckets of a distribution.
pub open spec fn dist_sum(dist: Seq<int>) -> int {
    dist_sum_from(dist, 0)
}

/// Expected payout of a distribution, summed from bucket `t` on: each bucket
/// weighs its count by the monetary value of its tier.
pub open spec fn dist_ev_from(dist: Seq<int>, t: int) -> int
    decreases 16 - t,
{
    if t < 0 || t >= 16 {
        0
    } else {
        dist[t] * payout_amount_spec(t + 1) + dist_ev_from(dist, t + 1)
    }
}

/// Expected payout of a distribution: the dot product of the bucket counts
/// with the tier values (not yet divided by the number of outcomes).
pub open spec fn dist_ev(dist: Seq<int>) -> int {
    dist_ev_from(dist, 0)
}

/// All buckets of every line of a tally are nonnegative.
pub open spec fn tally_nonneg(m: Seq<Seq<int>>) -> bool {
    forall|l: int, t: int| 0 <= l < 8 && 0 <= t < 16 ==> #[trigger] m[l][t] >= 0
}

proof fn lemma_vec_add_sum(a: Seq<int>, b: Seq<int>, t: int)
    ensures
        dist_sum_from(vec_add(a, b), t) == dist_sum_from(a, t) + dist_sum_from(b, t),
    decreases 16 - t,
{
    if 0 <= t < 16 {
        lemma_vec_add_sum(a, b, t + 1);
    }
}

proof fn lemma_unit_sum(dist: Seq<int>, k: int, t: int)
    requires
        forall|u: int| 0 <= u < 16 ==> #[trigger] dist[u] == (if u == k {
            1int
        } else {
            0int
        }),
        0 <= t <= 16,
    ensures
        dist_sum_from(dist, t) == if t <= k < 16 {
            1int
        } else {
            0int
        },
    decreases 16 - t,
{
    if t < 16 {
        lemma_unit_sum(dist, k, t + 1);
    }
}

proof fn lemma_zero16_sum(t: int)
    ensures
        dist_sum_from(zero16(), t) == 0,
    decreases 16 - t,
{
    if 0 <= t < 16 {
        lemma_zero16_sum(t + 1);
    }
}

/// A fully revealed well-formed board has every line sum in 3..=21: the three
/// cells hold distinct digits in 0..=8.
pub proof fn lemma_line_sum_range(s: Seq<u8>, l: int)
    requires
        cells_ok(s),
        forall|i: int| 0 <= i < 9 ==> #[trigger] s[i] != HIDDEN,
        0 <= l < 8,
    ensures
        3 <= line_sum(s, l) <= 21,
        0 <= tier_of_sum_spec(line_sum(s, l)) < 16,
{
    let a = line_cell(l, 0);
    let b = line_cell(l, 1);
    let c = line_cell(l, 2);
    assert(0 <= a < 9 && 0 <= b < 9 && 0 <= c < 9);
    assert(a != b && a != c && b != c);
    assert(s[a] < 9 && s[b] < 9 && s[c] < 9);
    assert(s[a] != s[b] && s[a] != s[c] && s[b] != s[c]);
}

/// A board with a hidden cell still has a digit unplaced.
proof fn lemma_prefix_le(s: Seq<u8>, n: int)
    requires
        0 <= n,
    ensures
        crate::canon::revealed_prefix(s, n) <= n,
    decreases n,
{
    if n > 0 {
        lemma_prefix_le(s, n - 1);
    }
}

/// Revealing one hidden cell raises the revealed count of a covering prefix
/// by one.
proof fn lemma_revealed_prefix_update(s: Seq<u8>, i: int, d: u8, n: int)
    requires
        s.len() == 9,
        0 <= i < 9,
        0 <= n <= 9,
        s[i] == HIDDEN,
        d != HIDDEN,
    ensures
        crate::canon::revealed_prefix(s.update(i, d), n) == crate::canon::revealed_prefix(s, n) + (
        if i < n {
            1int
        } else {
            0int
        }),
    decreases n,
{
    if n > 0 {
        lemma_revealed_prefix_update(s, i, d, n - 1);
    }
}

proof fn lemma_hidden_prefix(s: Seq<u8>, i: int, n: int)
    requires
        0 <= i < n,
        s[i] == HIDDEN,
    ensures
        crate::canon::revealed_prefix(s, n) <= n - 1,
    decreases n,
{
    if n - 1 == i {
        lemma_prefix_le(s, n - 1);
    } else {
        lemma_hidden_prefix(s, i, n - 1);
    }
}

/// A well-formed board with a hidden cell has at least one remaining digit.
pub proof fn lemma_hidden_remaining(s: Seq<u8>, i: int)
    requires
        cells_ok(s),
        0 <= i < 9,
        s[i] == HIDDEN,
    ensures
        remaining_count(complement_of(s)) >= 1,
{
    crate::canon::lemma_revealed_remaining(s);
    lemma_hidden_prefix(s, i, 9);
}

/// A well-formed board with no hidden cell has no remaining digit.
pub proof fn lemma_full_remaining(s: Seq<u8>)
    requires
        cells_ok(s),
        forall|i: int| 0 <= i < 9 ==> #[trigger] s[i] != HIDDEN,
    ensures
        remaining_count(complement_of(s)) == 0,
{
    crate::canon::lemma_revealed_remaining(s);
    assert(crate::canon::revealed_prefix(s, 9) == 9) by {
        lemma_prefix_full(s, 9);
    }
}

proof fn lemma_prefix_full(s: Seq<u8>, n: int)
    requires
        0 <= n <= 9,
        forall|i: int| 0 <= i < 9 ==> #[trigger] s[i] != HIDDEN,
    ensures
        crate::canon::revealed_prefix(s, n) == n,
    decreases n,
{
    if n > 0 {
        lemma_prefix_full(s, n - 1);
    }
}

/// Properties of the first hidden cell: it is hidden, everything before it is
/// revealed, and 9 means the board is fully revealed.
pub proof fn lemma_first_hidden(s: Seq<u8>, i: int)
    requires
        0 <= i <= 9,
    ensures
        i <= first_hidden_from(s, i) <= 9,
        first_hidden_from(s, i) < 9 ==> s[first_hidden_from(s, i)] == HIDDEN,
        forall|j: int| i <= j < first_hidden_from(s, i) ==> #[trigger] s[j] != HIDDEN,
    decreases 9 - i,
{
    if i < 9 && s[i] != HIDDEN {
        lemma_first_hidden(s, i + 1);
    }
}

/// The per-line outcome count of the enumeration: every line of the tally of
/// a well-formed board sums to the factorial of the number of remaining
/// digits, one outcome per ordering.
pub proof fn lemma_line_tally_sum(s: Seq<u8>, rem: Set<u8>, l: int)
    requires
        cells_ok(s),
        rem == complement_of(s),
        0 <= l < 8,
    ensures
        dist_sum(line_tally(s, rem)[l]) == fact(remaining_count(rem)),
        forall|t: int| 0 <= t < 16 ==> #[trigger] line_tally(s, rem)[l][t] >= 0,
    decreases remaining_count(rem), 10int,
{
    let i = first_hidden(s);
    lemma_first_hidden(s, 0);
    if i == 9 {
        lemma_full_remaining(s);
        lemma_line_sum_range(s, l);
        lemma_unit_sum(tally_full(s)[l], tier_of_sum_spec(line_sum(s, l)), 0);
    } else {
        lemma_hidden_remaining(s, i);
        let c = remaining_count(rem);
        lemma_line_tally_digits_sum(s, rem, i, 0, l);
        assert(digit_count(rem, 0) == 0);
        assert(dist_sum(line_tally_digits(s, rem, i, 0)[l]) == (c - 0) * fact((c - 1) as nat));
        assert(c * fact((c - 1) as nat) == fact(c)) by {
            assert(fact(c) == c * fact((c - 1) as nat));
        }
    }
}

/// Tally over the digit suffix `d..9`: the sum of each line is the number of
/// those digits still remaining times the orderings below each.
proof fn lemma_line_tally_digits_sum(s: Seq<u8>, rem: Set<u8>, i: int, d: int, l: int)
    requires
        cells_ok(s),
        rem == complement_of(s),
        0 <= i < 9,
        s[i] == HIDDEN,
        first_hidden(s) == i,
        0 <= d <= 9,
        0 <= l < 8,
        remaining_count(rem) >= 1,
    ensures
        dist_sum(line_tally_digits(s, rem, i, d)[l]) == (remaining_count(rem) - digit_count(
            rem,
            d,
        )) * fact((remaining_count(rem) - 1) as nat),
        forall|t: int| 0 <= t < 16 ==> #[trigger] line_tally_digits(s, rem, i, d)[l][t] >= 0,
    decreases remaining_count(rem), 9int - d,
{
    let c = remaining_count(rem);
    if d >= 9 {
        lemma_zero16_sum(0);
        assert(digit_count(rem, 9) == c);
        assert((c - c) * fact((c - 1) as nat) == 0) by (nonlinear_arith);
    } else {
        lemma_line_tally_digits_sum(s, rem, i, d + 1, l);
        if rem.contains(d as u8) {
            lemma_place_digit(s, i, d as u8);
            lemma_digit_count_remove(rem, d as u8, 9);
            lemma_line_tally_sum(s.update(i, d as u8), rem.remove(d as u8), l);
            lemma_vec_add_sum(
                line_tally(s.update(i, d as u8), rem.remove(d as u8))[l],
                line_tally_digits(s, rem, i, d + 1)[l],
                0,
            );
            assert(remaining_count(rem.remove(d as u8)) == c - 1);
            assert(digit_count(rem, d + 1) == digit_count(rem, d) + 1);
            assert(fact((c - 1) as nat) + (c - digit_count(rem, d) - 1) * fact((c - 1) as nat) == (
            c - digit_count(rem, d)) * fact((c - 1) as nat)) by (nonlinear_arith);
        } else {
            assert(digit_count(rem, d + 1) == digit_count(rem, d));
        }
    }
}

/// A nonnegative distribution's bucket never exceeds the distribution's sum.
pub proof fn lemma_entry_le_sum(dist: Seq<int>, t: int, t0: int)
    requires
        forall|u: int| 0 <= u < 16 ==> #[trigger] dist[u] >= 0,
        0 <= t <= t0 < 16,
    ensures
        dist[t0] <= dist_sum_from(dist, t),
        dist_sum_from(dist, t) >= 0,
    decreases 16 - t,
{
    if t < t0 {
        lemma_entry_le_sum(dist, t + 1, t0);
    } else {
        lemma_sum_nonneg(dist, t + 1);
    }
}

pub proof fn lemma_sum_nonneg(dist: Seq<int>, t: int)
    requires
        forall|u: int| 0 <= u < 16 ==> #[trigger] dist[u] >= 0,
    ensures
        dist_sum_from(dist, t) >= 0,
    decreases 16 - t,
{
    if 0 <= t < 16 {
        lemma_sum_nonneg(dist, t + 1);
    }
}

/// The expected payout of a nonnegative distribution is nonnegative, and a
/// distribution with a positive bucket has a positive expected payout.
pub proof fn lemma_ev_bounds(dist: Seq<int>, t: int)
    requires
        forall|u: int| 0 <= u < 16 ==> #[trigger] dist[u] >= 0,
        0 <= t <= 16,
    ensures
        dist_ev_from(dist, t) >= 0,
        forall|u: int|
            t <= u < 16 && #[trigger] dist[u] > 0 ==> dist_ev_from(dist, t) > 0,
    decreases 16 - t,
{
    if t < 16 {
        lemma_ev_bounds(dist, t + 1);
        assert(payout_amount_spec(t + 1) >= 36);
        assert(dist[t] * payout_amount_spec(t + 1) >= 0) by (nonlinear_arith)
            requires
                dist[t] >= 0,
        ;
        if dist[t] > 0 {
            assert(dist[t] * payout_amount_spec(t + 1) > 0) by (nonlinear_arith)
                requires
                    dist[t] > 0,
                    payout_amount_spec(t + 1) >= 36,
            ;
        }
    }
}

/// `fact` of at most nine digits stays between 1 and 9-factorial.
pub proof fn lemma_fact_bound(n: nat)
    requires
        n <= 9,
    ensures
        1 <= fact(n) <= 362880,
{
    reveal_with_fuel(fact, 11);
    if n == 0 {
        assert(fact(0) == 1);
    } else if n == 1 {
        assert(fact(1) == 1);
    } else if n == 2 {
        assert(fact(2) == 2);
    } else if n == 3 {
        assert(fact(3) == 6);
    } else if n == 4 {
        assert(fact(4) == 24);
    } else if n == 5 {
        assert(fact(5) == 120);
    } else if n == 6 {
        assert(fact(6) == 720);
    } else if n == 7 {
        assert(fact(7) == 5040);
    } else if n == 8 {
        assert(fact(8) == 40320);
    } else {
        assert(n == 9);
        assert(fact(9) == 362880);
    }
}


proof fn lemma_vec_sub_sum(a: Seq<int>, b: Seq<int>, t: int)
    ensures
        dist_sum_from(Seq::new(16, |u: int| a[u] - b[u]), t) == dist_sum_from(a, t)
            - dist_sum_from(b, t),
    decreases 16 - t,
{
    if 0 <= t < 16 {
        lemma_vec_sub_sum(a, b, t + 1);
    }
}

/// A nonnegative distribution with a positive sum has a positive bucket.
pub proof fn lemma_sum_pos_entry(dist: Seq<int>, t: int)
    requires
        forall|u: int| 0 <= u < 16 ==> #[trigger] dist[u] >= 0,
        0 <= t <= 16,
        dist_sum_from(dist, t) > 0,
    ensures
        exists|u: int| t <= u < 16 && #[trigger] dist[u] > 0,
    decreases 16 - t,
{
    if t < 16 && dist[t] <= 0 {
        lemma_sum_pos_entry(dist, t + 1);
    }
}

/// Counting digits below a larger bound never counts fewer.
proof fn lemma_digit_count_mono(rem: Set<u8>, a: int, b: int)
    requires
        a <= b,
    ensures
        digit_count(rem, a) <= digit_count(rem, b),
    decreases b - a,
{
    if a < b {
        lemma_digit_count_mono(rem, a, b - 1);
    }
}

/// Adds to `acc`, line by line and bucket by bucket, the tally of all
/// orderings of the remaining digits into the hidden cells of `state`.
fn line_tally_acc(state: [u8; 9], rem: &mut DigitSet, acc: &mut [[u32; 16]; 8])
    requires
        cells_ok(state@),
        digits_of(*old(rem)) == complement_of(state@),
        forall|l: int, t: int|
            0 <= l < 8 && 0 <= t < 16 ==> #[trigger] old(acc)@[l]@[t] + fact(
                remaining_count(digits_of(*old(rem))),
            ) <= u32::MAX,
    ensures
        digits_of(*final(rem)) == digits_of(*old(rem)),
        forall|l: int, t: int|
            0 <= l < 8 && 0 <= t < 16 ==> #[trigger] final(acc)@[l]@[t] == old(acc)@[l]@[t]
                + line_tally(state@, digits_of(*old(rem)))[l][t],
    decreases 9 - crate::canon::revealed_prefix(state@, 9),
{
    let ghost r0 = digits_of(*rem);
    let ghost tal = line_tally(state@, r0);
    let mut i: usize = 0;
    while i < 9 && state[i] != HIDDEN
        invariant
            i <= 9,
            first_hidden(state@) == first_hidden_from(state@, i as int),
        decreases 9 - i,
    {
        i = i + 1;
    }
    if i == 9 {
        proof {
            assert(forall|j: int| 0 <= j < 9 ==> #[trigger] state@[j] != HIDDEN) by {
                lemma_first_hidden(state@, 0);
            }
            lemma_full_remaining(state@);
        }
        let mut l: usize = 0;
        while l < 8
            invariant
                l <= 8,
                first_hidden(state@) == 9,
                cells_ok(state@),
                forall|j: int| 0 <= j < 9 ==> #[trigger] state@[j] != HIDDEN,
                tal == line_tally(state@, r0),
                forall|j: int, t: int|
                    0 <= j < l && 0 <= t < 16 ==> #[trigger] acc@[j]@[t] == old(acc)@[j]@[t]
                        + tal[j][t],
                forall|j: int, t: int|
                    l <= j < 8 && 0 <= t < 16 ==> #[trigger] acc@[j]@[t] == old(acc)@[j]@[t],
                forall|j: int, t: int|
                    0 <= j < 8 && 0 <= t < 16 ==> #[trigger] old(acc)@[j]@[t] + 1 <= u32::MAX,
            decreases 8 - l,
        {
            let (a, b, c) = line_cells(l);
            proof {
                lemma_line_sum_range(state@, l as int);
            }
            let sum = state[a] as usize + state[b] as usize + state[c] as usize;
            let tier = tier_of_sum(sum);
            let mut row: [u32; 16] = acc[l];
            row[tier] = row[tier] + 1;
            acc[l] = row;
            l = l + 1;
        }
    } else {
        proof {
            lemma_first_hidden(state@, 0);
            lemma_hidden_remaining(state@, i as int);
        }
        let ghost c = remaining_count(r0);
        let mut d: u8 = 0;
        while d < 9
            invariant
                d <= 9,
                i < 9,
                state@[i as int] == HIDDEN,
                first_hidden(state@) == i,
                cells_ok(state@),
                digits_of(*rem) == r0,
                r0 == complement_of(state@),
                c == remaining_count(r0),
                c >= 1,
                tal == line_tally(state@, r0),
                forall|l: int, t: int|
                    0 <= l < 8 && 0 <= t < 16 ==> #[trigger] old(acc)@[l]@[t] + fact(c)
                        <= u32::MAX,
                forall|l: int, t: int|
                    0 <= l < 8 && 0 <= t < 16 ==> #[trigger] acc@[l]@[t] + line_tally_digits(
                        state@,
                        r0,
                        i as int,
                        d as int,
                    )[l][t] == old(acc)@[l]@[t] + tal[l][t],
                forall|l: int, t: int|
                    0 <= l < 8 && 0 <= t < 16 ==> old(acc)@[l]@[t] <= #[trigger] acc@[l]@[t],
            decreases 9 - d,
        {
            if rem.contains(d) {
                let mut st2 = state;
                st2[i] = d;
                proof {
                    lemma_place_digit(state@, i as int, d);
                    lemma_digit_count_remove(r0, d, 9);
                    lemma_digit_count_mono(r0, d as int + 1, 9);
                    assert(digit_count(r0, d as int + 1) == digit_count(r0, d as int) + 1);
                    // the overflow budget of the recursive call: what the loop has
                    // already accumulated plus one more block of orderings stays
                    // within what one full tally adds.
                    let m = c - digit_count(r0, d as int);
                    assert(m >= 1);
                    assert forall|l: int, t: int|
                        0 <= l < 8 && 0 <= t < 16 implies #[trigger] acc@[l]@[t] + fact(
                        (c - 1) as nat,
                    ) <= u32::MAX by {
                        lemma_line_tally_sum(state@, r0, l);
                        lemma_line_tally_digits_sum(state@, r0, i as int, d as int, l);
                        let consumed = Seq::new(
                            16,
                            |u: int| tal[l][u] - line_tally_digits(state@, r0, i as int, d as int)[l][u],
                        );
                        lemma_vec_sub_sum(
                            tal[l],
                            line_tally_digits(state@, r0, i as int, d as int)[l],
                            0,
                        );
                        assert(dist_sum(consumed) == fact(c) - m * fact((c - 1) as nat));
                        assert forall|u: int| 0 <= u < 16 implies #[trigger] consumed[u] >= 0 by {
                            assert(acc@[l]@[u] + line_tally_digits(state@, r0, i as int, d as int)[l][u]
                                == old(acc)@[l]@[u] + tal[l][u]);
                            assert(old(acc)@[l]@[u] <= acc@[l]@[u]);
                        }
                        lemma_entry_le_sum(consumed, 0, t);
                        assert(acc@[l]@[t] - old(acc)@[l]@[t] == consumed[t]);
                        assert(consumed[t] + fact((c - 1) as nat) <= fact(c)) by (nonlinear_arith)
                            requires
                                consumed[t] <= fact(c) - m * fact((c - 1) as nat),
                                m >= 1,
                                c >= 1,
                                fact(c) == c * fact((c - 1) as nat),
                                fact((c - 1) as nat) >= 0,
                        ;
                    }
                }
                proof {
                    lemma_revealed_prefix_update(state@, i as int, d, 9);
                    lemma_prefix_le(st2@, 9);
                    lemma_prefix_le(state@, 9);
                    lemma_hidden_prefix(state@, i as int, 9);
                }
                rem.remove(d);
                line_tally_acc(st2, rem, acc);
                rem.insert(d);
                proof {
                    assert(digits_of(*rem) =~= r0);
                    assert forall|l: int, t: int|
                        0 <= l < 8 && 0 <= t < 16 implies #[trigger] acc@[l]@[t]
                        + line_tally_digits(state@, r0, i as int, d as int + 1)[l][t] == old(
                        acc,
                    )@[l]@[t] + tal[l][t] by {
                        assert(line_tally_digits(state@, r0, i as int, d as int)[l][t]
                            == line_tally(st2@, r0.remove(d))[l][t] + line_tally_digits(
                            state@,
                            r0,
                            i as int,
                            d as int + 1,
                        )[l][t]);
                    }
                    assert forall|l: int, t: int|
                        0 <= l < 8 && 0 <= t < 16 implies old(acc)@[l]@[t] <= #[trigger] acc@[l]@[t] by {
                        lemma_line_tally_sum(st2@, r0.remove(d), l);
                    }
                }
            } else {
                proof {
                    assert(forall|l: int, t: int|
                        0 <= l < 8 && 0 <= t < 16 ==> line_tally_digits(
                            state@,
                            r0,
                            i as int,
                            d as int,
                        )[l][t] == #[trigger] line_tally_digits(
                            state@,
                            r0,
                            i as int,
                            d as int + 1,
                        )[l][t]);
                }
            }
            d = d + 1;
        }
        proof {
            assert(forall|l: int, t: int|
                0 <= l < 8 && 0 <= t < 16 ==> #[trigger] line_tally_digits(
                    state@,
                    r0,
                    i as int,
                    9,
                )[l][t] == 0);
        }
    }
}

/// Enumerates every ordering of the remaining digits into the hidden cells
/// and returns, for each of the eight lines, the exact distribution of
/// outcomes over the sixteen payout tiers.
pub fn compute_best_line_rec(board: &Board) -> (out: [[u32; 16]; 8])
    requires
        board.wf(),
    ensures
        forall|l: int, t: int|
            0 <= l < 8 && 0 <= t < 16 ==> #[trigger] out@[l]@[t] == line_tally(
                board.state@,
                digits_of(board.unused_nums),
            )[l][t],
{
    let mut acc: [[u32; 16]; 8] = [[0u32; 16]; 8];
    let mut rem = board.unused_nums.duplicate();
    proof {
        lemma_digit_count_bound(digits_of(rem), 9);
        lemma_fact_bound(remaining_count(digits_of(rem)));
    }
    line_tally_acc(board.state, &mut rem, &mut acc);
    acc
}

/// First-wins fold of the line with the strictly greatest expected payout,
/// scanning lines `l..8` with `bi` the best line seen so far and `bv` its
/// expected payout (9 and 0 before any line has been seen).
pub open spec fn best_line_from(tal: Seq<Seq<int>>, l: int, bi: int, bv: int) -> int
    decreases 8 - l,
{
    if l < 0 || l >= 8 {
        bi
    } else if dist_ev(tal[l]) > bv {
        best_line_from(tal, l + 1, l, dist_ev(tal[l]))
    } else {
        best_line_from(tal, l + 1, bi, bv)
    }
}

/// The line with the greatest expected payout, earliest line winning ties.
pub open spec fn best_line(tal: Seq<Seq<int>>) -> int {
    best_line_from(tal, 0, 9, 0)
}


/// Expected payout of one line's distribution, as held in a row of the tally
/// array.
pub(crate) fn row_ev(row: &[u32; 16], Ghost(spec_row): Ghost<Seq<int>>) -> (total: u64)
    requires
        forall|t: int| 0 <= t < 16 ==> #[trigger] row@[t] == spec_row[t],
        forall|t: int| 0 <= t < 16 ==> #[trigger] spec_row[t] <= 362880,
    ensures
        total == dist_ev(spec_row),
{
    let mut total: u64 = 0;
    let mut t: usize = 0;
    while t < 16
        invariant
            t <= 16,
            forall|u: int| 0 <= u < 16 ==> #[trigger] row@[u] == spec_row[u],
            forall|u: int| 0 <= u < 16 ==> #[trigger] spec_row[u] <= 362880,
            total <= t * 3628800000,
            total + dist_ev_from(spec_row, t as int) == dist_ev(spec_row),
        decreases 16 - t,
    {
        let v = payout_amount(t + 1);
        total = total + (row[t] as u64) * (v as u64);
        t = t + 1;
    }
    total
}

/// Picks the line with the greatest expected payout from a completed tally
/// and returns its index and its exact tier distribution. The earliest line
/// wins exact ties, though the payout table makes ties unexpected.
pub fn compute_best_line(board: &Board) -> (r: (usize, [u32; 16]))
    requires
        board.wf(),
    ensures
        ({
            let tal = line_tally(board.state@, digits_of(board.unused_nums));
            &&& r.0 < 8
            &&& r.0 == best_line(tal)
            &&& forall|t: int| 0 <= t < 16 ==> #[trigger] r.1@[t] == tal[r.0 as int][t]
            &&& forall|l: int| 0 <= l < 8 ==> dist_ev(#[trigger] tal[l]) <= dist_ev(tal[r.0 as int])
            &&& forall|l: int| 0 <= l < r.0 ==> dist_ev(#[trigger] tal[l]) < dist_ev(tal[r.0 as int])
            &&& dist_sum(dist_of(r.1@)) == fact(board.remaining())
        }),
{
    let ghost tal = line_tally(board.state@, digits_of(board.unused_nums));
    let data = compute_best_line_rec(board);
    proof {
        lemma_digit_count_bound(digits_of(board.unused_nums), 9);
        lemma_fact_bound(remaining_count(digits_of(board.unused_nums)));
        assert forall|l: int, t: int| 0 <= l < 8 && 0 <= t < 16 implies #[trigger] tal[l][t]
            <= 362880 && tal[l][t] >= 0 by {
            lemma_line_tally_sum(board.state@, digits_of(board.unused_nums), l);
            lemma_entry_le_sum(tal[l], 0, t);
        }
    }
    let mut max_i: usize = 9;
    let mut max: u64 = 0;
    let mut l: usize = 0;
    while l < 8
        invariant
            l <= 8,
            tal == line_tally(board.state@, digits_of(board.unused_nums)),
            forall|j: int, t: int|
                0 <= j < 8 && 0 <= t < 16 ==> #[trigger] data@[j]@[t] == tal[j][t],
            forall|j: int, t: int|
                0 <= j < 8 && 0 <= t < 16 ==> #[trigger] tal[j][t] <= 362880 && tal[j][t] >= 0,
            best_line(tal) == best_line_from(tal, l as int, max_i as int, max as int),
            max_i == 9 || max_i < l,
            max_i == 9 ==> max == 0 && forall|j: int| 0 <= j < l ==> dist_ev(#[trigger] tal[j])
                <= 0,
            max_i != 9 ==> max_i < 8 && max == dist_ev(tal[max_i as int]) && max > 0 && (forall|
                j: int,
            | 0 <= j < l ==> dist_ev(#[trigger] tal[j]) <= max) && (forall|j: int|
                0 <= j < max_i ==> dist_ev(#[trigger] tal[j]) < max),
        decreases 8 - l,
    {
        let row = data[l];
        let total = row_ev(&row, Ghost(tal[l as int]));
        if total > max {
            max_i = l;
            max = total;
        }
        l = l + 1;
    }
    proof {
        lemma_line_tally_sum(board.state@, digits_of(board.unused_nums), 0);
        lemma_fact_bound(remaining_count(digits_of(board.unused_nums)));
        assert(dist_sum(tal[0]) > 0);
        lemma_sum_pos_entry(tal[0], 0);
        lemma_ev_bounds(tal[0], 0);
        assert(dist_ev(tal[0]) > 0);
        assert(max_i != 9);
        lemma_line_tally_sum(board.state@, digits_of(board.unused_nums), max_i as int);
        lemma_dist_of_congruence(data@[max_i as int]@, tal[max_i as int], 0);
    }
    (max_i, data[max_i])
}

/// A `u32` distribution that agrees bucket for bucket with an integer
/// distribution has the same bucket sum.
proof fn lemma_dist_of_congruence(arr: Seq<u32>, b: Seq<int>, t: int)
    requires
        forall|u: int| 0 <= u < 16 ==> #[trigger] arr[u] == b[u],
    ensures
        dist_sum_from(dist_of(arr), t) == dist_sum_from(b, t),
    decreases 16 - t,
{
    if 0 <= t < 16 {
        lemma_dist_of_congruence(arr, b, t + 1);
    }
}


proof fn lemma_best_line_props_from(tal: Seq<Seq<int>>, l: int, bi: int, bv: int)
    requires
        0 <= l <= 8,
        bi == 9 ==> bv == 0 && (forall|j: int| 0 <= j < l ==> dist_ev(#[trigger] tal[j]) <= 0),
        bi != 9 ==> 0 <= bi < l && bi < 8 && bv == dist_ev(tal[bi]) && bv > 0 && (forall|j: int|
            0 <= j < l ==> dist_ev(#[trigger] tal[j]) <= bv) && (forall|j: int|
            0 <= j < bi ==> dist_ev(#[trigger] tal[j]) < bv),
    ensures
        ({
            let r = best_line_from(tal, l, bi, bv);
            &&& (r == 9 ==> forall|j: int| 0 <= j < 8 ==> dist_ev(#[trigger] tal[j]) <= 0)
            &&& (r != 9 ==> 0 <= r < 8 && dist_ev(tal[r]) > 0 && (forall|j: int|
                0 <= j < 8 ==> dist_ev(#[trigger] tal[j]) <= dist_ev(tal[r])) && (forall|j: int|
                0 <= j < r ==> dist_ev(#[trigger] tal[j]) < dist_ev(tal[r])))
        }),
    decreases 8 - l,
{
    if l < 8 {
        if dist_ev(tal[l]) > bv {
            lemma_best_line_props_from(tal, l + 1, l, dist_ev(tal[l]));
        } else {
            lemma_best_line_props_from(tal, l + 1, bi, bv);
        }
    }
}

/// The line the fold picks is a real line whose expected payout dominates
/// every line, strictly dominates the lines before it, and is positive, as
/// long as some line's expected payout is positive.
pub proof fn lemma_best_line_props(tal: Seq<Seq<int>>)
    requires
        dist_ev(tal[0]) > 0,
    ensures
        0 <= best_line(tal) < 8,
        dist_ev(tal[best_line(tal)]) > 0,
        forall|j: int| 0 <= j < 8 ==> dist_ev(#[trigger] tal[j]) <= dist_ev(tal[best_line(tal)]),
        forall|j: int|
            0 <= j < best_line(tal) ==> dist_ev(#[trigger] tal[j]) < dist_ev(tal[best_line(tal)]),
{
    lemma_best_line_props_from(tal, 0, 9, 0);
}

} // verus!

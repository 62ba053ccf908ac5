//! Canonicalization and state compression.
//!
//! Every board belongs to an orbit of up to eight symmetry-equivalent boards.
//! The canonical representative is the orbit member whose cell sequence is
//! lexicographically least, ties among transforms broken by a fixed order of
//! the eight transforms (first wins). The hidden sentinel is larger than any
//! digit, so the least revealed corner, or failing that the least revealed
//! edge, is steered to the reference cells, and fully hidden boards keep the
//! identity transform.
//!
//! A canonical board with at most four revealed cells is then packed into a
//! 32-bit key: the top 9 bits are the reveal mask, the next 7 bits stay zero,
//! and the low 16 bits hold up to four 4-bit digit fields for the revealed
//! cells in scan order. The key is an opaque fingerprint for memoization and
//! is never decompressed.

use crate::HIDDEN;
use crate::board::{Board, cell_ok, cells_ok, complement_of, digit_count, lemma_digit_count_remove, remaining_count};
use crate::digit_set::digits_of;
use crate::transform::{
    Transform, apply_spec, compose, inverse_spec, lemma_apply_contains, lemma_apply_identity,
    lemma_compose_apply, lemma_compose_cancel, lemma_source_inverse, lemma_source_range,
    source_index,
};
use vstd::prelude::*;

verus! {

/// The fixed order in which the eight transforms compete for the canonical
/// representative; earlier transforms win ties.
pub open spec fn transform_order(k: int) -> Transform {
    if k == 1 {
        Transform::RotateLeft
    } else if k == 2 {
        Transform::RotateRight
    } else if k == 3 {
        Transform::Rotate180
    } else if k == 4 {
        Transform::FlipHorizontal
    } else if k == 5 {
        Transform::FlipVertical
    } else if k == 6 {
        Transform::FlipMainDiagonal
    } else if k == 7 {
        Transform::FlipAntiDiagonal
    } else {
        Transform::Identity
    }
}

/// The transform at position `k` of the fixed order.
pub fn transform_at(k: usize) -> (t: Transform)
    requires
        k < 8,
    ensures
        t == transform_order(k as int),
{
    match k {
        1 => Transform::RotateLeft,
        2 => Transform::RotateRight,
        3 => Transform::Rotate180,
        4 => Transform::FlipHorizontal,
        5 => Transform::FlipVertical,
        6 => Transform::FlipMainDiagonal,
        7 => Transform::FlipAntiDiagonal,
        _ => Transform::Identity,
    }
}

/// Board `a` comes strictly before board `b` when compared cell by cell from
/// index `i` on.
pub open spec fn lex_lt_from(a: Seq<u8>, b: Seq<u8>, i: int) -> bool
    decreases 9 - i,
{
    if i < 0 || i >= 9 {
        false
    } else if a[i] < b[i] {
        true
    } else if a[i] > b[i] {
        false
    } else {
        lex_lt_from(a, b, i + 1)
    }
}

/// Board `a` comes strictly before board `b` in cell-by-cell order.
pub open spec fn lex_lt(a: Seq<u8>, b: Seq<u8>) -> bool {
    lex_lt_from(a, b, 0)
}

/// Two 9-cell boards that precede each other in neither direction agree on
/// every cell from `i` on.
proof fn lemma_lex_total_from(a: Seq<u8>, b: Seq<u8>, i: int)
    requires
        a.len() == 9,
        b.len() == 9,
        0 <= i,
        !lex_lt_from(a, b, i),
        !lex_lt_from(b, a, i),
    ensures
        forall|j: int| i <= j < 9 ==> a[j] == b[j],
    decreases 9 - i,
{
    if i < 9 {
        lemma_lex_total_from(a, b, i + 1);
    }
}

/// Lexicographic order is total: boards that precede each other in neither
/// direction are equal.
pub proof fn lemma_lex_total(a: Seq<u8>, b: Seq<u8>)
    requires
        a.len() == 9,
        b.len() == 9,
        !lex_lt(a, b),
        !lex_lt(b, a),
    ensures
        a == b,
{
    lemma_lex_total_from(a, b, 0);
    assert(a =~= b);
}

/// Folds the remaining transforms into the best one found so far, keeping the
/// earlier transform when neither board is strictly smaller.
pub open spec fn canon_from(s: Seq<u8>, k: int, best: Transform) -> Transform
    decreases 8 - k,
{
    if k < 1 || k >= 8 {
        best
    } else {
        canon_from(
            s,
            k + 1,
            if lex_lt(apply_spec(transform_order(k), s), apply_spec(best, s)) {
                transform_order(k)
            } else {
                best
            },
        )
    }
}

/// The transform that carries `s` to its canonical representative.
pub open spec fn canon_transform(s: Seq<u8>) -> Transform {
    canon_from(s, 1, Transform::Identity)
}

/// The canonical representative of the orbit of `s`: the lexicographically
/// least of the eight transformed boards.
pub open spec fn canon_spec(s: Seq<u8>) -> Seq<u8> {
    apply_spec(canon_transform(s), s)
}

proof fn lemma_canon_from(s: Seq<u8>, k: int, best: Transform)
    requires
        s.len() == 9,
        1 <= k <= 8,
    ensures
        !lex_lt(apply_spec(best, s), apply_spec(canon_from(s, k, best), s)),
        forall|j: int|
            k <= j < 8 ==> !lex_lt(
                apply_spec(#[trigger] transform_order(j), s),
                apply_spec(canon_from(s, k, best), s),
            ),
        canon_from(s, k, best) == best || exists|j: int|
            k <= j < 8 && canon_from(s, k, best) == #[trigger] transform_order(j),
    decreases 8 - k,
{
    lemma_lex_irrefl_from(apply_spec(best, s), 0);
    if k < 8 {
        let next = if lex_lt(apply_spec(transform_order(k), s), apply_spec(best, s)) {
            transform_order(k)
        } else {
            best
        };
        lemma_canon_from(s, k + 1, next);
        let r = canon_from(s, k, best);
        assert(r == canon_from(s, k + 1, next));
        if lex_lt(apply_spec(best, s), apply_spec(r, s)) {
            if lex_lt(apply_spec(transform_order(k), s), apply_spec(best, s)) {
                lemma_lex_trans(apply_spec(next, s), apply_spec(best, s), apply_spec(r, s));
            }
        }
        if lex_lt(apply_spec(transform_order(k), s), apply_spec(r, s)) {
            if !lex_lt(apply_spec(transform_order(k), s), apply_spec(best, s)) {
                lemma_lex_not_lt_trans(
                    apply_spec(best, s),
                    apply_spec(transform_order(k), s),
                    apply_spec(r, s),
                );
            }
        }
    }
}

/// No board strictly precedes itself.
proof fn lemma_lex_irrefl_from(a: Seq<u8>, i: int)
    ensures
        !lex_lt_from(a, a, i),
    decreases 9 - i,
{
    if 0 <= i < 9 {
        lemma_lex_irrefl_from(a, i + 1);
    }
}

/// Strict lexicographic order from `i` is transitive.
proof fn lemma_lex_trans_from(a: Seq<u8>, b: Seq<u8>, c: Seq<u8>, i: int)
    requires
        lex_lt_from(a, b, i),
        lex_lt_from(b, c, i),
    ensures
        lex_lt_from(a, c, i),
    decreases 9 - i,
{
    if 0 <= i < 9 && a[i] == b[i] && b[i] == c[i] {
        lemma_lex_trans_from(a, b, c, i + 1);
    }
}

proof fn lemma_lex_trans(a: Seq<u8>, b: Seq<u8>, c: Seq<u8>)
    requires
        lex_lt(a, b),
        lex_lt(b, c),
    ensures
        lex_lt(a, c),
{
    lemma_lex_trans_from(a, b, c, 0);
}

/// If `a` does not precede `b` but `b` strictly precedes `c`, then `a` does
/// not precede `c` cannot fail: `a` preceding `c` would force `a` to precede
/// `b` or equal it.
proof fn lemma_lex_not_lt_trans_from(a: Seq<u8>, b: Seq<u8>, c: Seq<u8>, i: int)
    requires
        !lex_lt_from(b, a, i),
        lex_lt_from(b, c, i),
    ensures
        lex_lt_from(a, c, i) ==> lex_lt_from(b, a, i) || lex_lt_from(a, c, i) == lex_lt_from(
            b,
            c,
            i,
        ),
        !lex_lt_from(a, c, i) ==> !lex_lt_from(b, c, i) || lex_lt_from(b, a, i),
    decreases 9 - i,
{
    if 0 <= i < 9 {
        if a[i] == b[i] && b[i] == c[i] {
            lemma_lex_not_lt_trans_from(a, b, c, i + 1);
        }
    }
}

proof fn lemma_lex_not_lt_trans(a: Seq<u8>, b: Seq<u8>, c: Seq<u8>)
    requires
        !lex_lt(b, a),
        lex_lt(b, c),
    ensures
        lex_lt(a, c),
{
    lemma_lex_not_lt_trans_from(a, b, c, 0);
}

/// Every transform stands somewhere in the fixed order.
proof fn lemma_order_covers(t: Transform)
    ensures
        exists|k: int| 0 <= k < 8 && #[trigger] transform_order(k) == t,
{
    match t {
        Transform::Identity => assert(transform_order(0) == t),
        Transform::RotateLeft => assert(transform_order(1) == t),
        Transform::RotateRight => assert(transform_order(2) == t),
        Transform::Rotate180 => assert(transform_order(3) == t),
        Transform::FlipHorizontal => assert(transform_order(4) == t),
        Transform::FlipVertical => assert(transform_order(5) == t),
        Transform::FlipMainDiagonal => assert(transform_order(6) == t),
        Transform::FlipAntiDiagonal => assert(transform_order(7) == t),
    }
}

/// The canonical representative is least in its whole orbit, and is itself a
/// transformed copy of the board.
pub proof fn lemma_canon_min(s: Seq<u8>)
    requires
        s.len() == 9,
    ensures
        forall|t: Transform| !lex_lt(apply_spec(t, s), canon_spec(s)),
        canon_spec(s) == apply_spec(canon_transform(s), s),
    {
    lemma_canon_from(s, 1, Transform::Identity);
    assert forall|t: Transform| !lex_lt(apply_spec(t, s), canon_spec(s)) by {
        lemma_order_covers(t);
        let k = choose|k: int| 0 <= k < 8 && #[trigger] transform_order(k) == t;
        if k == 0 {
            assert(!lex_lt(apply_spec(Transform::Identity, s), canon_spec(s)));
        }
    }
}

/// Canonicalization is invariant under the symmetry group: a board and any
/// transformed copy of it share one canonical representative.
pub proof fn lemma_canonical_invariant(s: Seq<u8>, u: Transform)
    requires
        s.len() == 9,
    ensures
        canon_spec(apply_spec(u, s)) == canon_spec(s),
{
    let x = apply_spec(u, s);
    assert(x.len() == 9);
    lemma_canon_min(s);
    lemma_canon_min(x);
    let tx = canon_transform(x);
    let ts = canon_transform(s);
    // canon(x) is a member of the orbit of s.
    lemma_compose_apply(tx, u, s);
    assert(canon_spec(x) == apply_spec(compose(tx, u), s));
    // canon(s) is a member of the orbit of x.
    lemma_compose_apply(compose(ts, inverse_spec(u)), u, s);
    lemma_compose_cancel(ts, u);
    assert(apply_spec(compose(ts, inverse_spec(u)), x) == apply_spec(
        compose(compose(ts, inverse_spec(u)), u),
        s,
    )) by {
        lemma_compose_apply(compose(ts, inverse_spec(u)), u, s);
    }
    assert(compose(compose(ts, inverse_spec(u)), u) == ts) by {
        lemma_compose_cancel(ts, u);
    }
    assert(apply_spec(compose(ts, inverse_spec(u)), x) == canon_spec(s));
    // each is no larger than the other, so they are equal.
    assert(!lex_lt(canon_spec(s), canon_spec(x)));
    assert(!lex_lt(canon_spec(x), canon_spec(s)));
    lemma_lex_total(canon_spec(x), canon_spec(s));
}

/// A board and any transformed copy of it compress, after canonicalization,
/// to the same 32-bit key, so symmetry-equivalent boards share one memo slot.
pub proof fn lemma_canonical_key_invariant(s: Seq<u8>, u: Transform)
    requires
        s.len() == 9,
    ensures
        compress_spec(canon_spec(apply_spec(u, s))) == compress_spec(canon_spec(s)),
{
    lemma_canonical_invariant(s, u);
}

/// The canonical representative is a fixed point: canonicalizing it again
/// changes nothing.
pub proof fn lemma_canonical_idempotent(s: Seq<u8>)
    requires
        s.len() == 9,
    ensures
        canon_spec(canon_spec(s)) == canon_spec(s),
{
    lemma_canonical_invariant(s, canon_transform(s));
}

/// A transform of a well-formed cell sequence is well-formed and has the same
/// complement of unplaced digits.
pub proof fn lemma_cells_ok_apply(t: Transform, s: Seq<u8>)
    requires
        cells_ok(s),
    ensures
        cells_ok(apply_spec(t, s)),
        complement_of(apply_spec(t, s)) == complement_of(s),
{
    let x = apply_spec(t, s);
    lemma_source_range(t);
    lemma_source_inverse(t);
    assert(cells_ok(x)) by {
        assert forall|i: int, j: int|
            0 <= i < 9 && 0 <= j < 9 && i != j && x[i] != HIDDEN implies x[i] != x[j] by {
            assert(x[i] == s[source_index(t, i)]);
            assert(x[j] == s[source_index(t, j)]);
            assert(source_index(inverse_spec(t), source_index(t, i)) == i);
            assert(source_index(inverse_spec(t), source_index(t, j)) == j);
        }
    }
    assert(complement_of(x) =~= complement_of(s)) by {
        assert forall|d: u8| true implies (complement_of(x).contains(d) <==> complement_of(
            s,
        ).contains(d)) by {
            lemma_apply_contains(t, s, d);
        }
    }
}

/// Cell-by-cell comparison of two boards.
fn lex_less(a: &[u8; 9], b: &[u8; 9]) -> (r: bool)
    ensures
        r == lex_lt(a@, b@),
{
    let mut i: usize = 0;
    while i < 9
        invariant
            i <= 9,
            lex_lt(a@, b@) == lex_lt_from(a@, b@, i as int),
        decreases 9 - i,
    {
        if a[i] < b[i] {
            return true;
        }
        if a[i] > b[i] {
            return false;
        }
        i = i + 1;
    }
    false
}

impl Board {
    /// Canonicalizes the board: returns the symmetry-equivalent board in the
    /// canonical orientation together with the transform that undoes the
    /// canonicalization, for translating cell indices back to this board's
    /// coordinates.
    pub fn simplify(&self) -> (r: (Board, Transform))
        requires
            self.wf(),
        ensures
            r.0.wf(),
            r.0.state@ == canon_spec(self.state@),
            digits_of(r.0.unused_nums) == digits_of(self.unused_nums),
            r.0.remaining() == self.remaining(),
            r.1 == inverse_spec(canon_transform(self.state@)),
    {
        let s = &self.state;
        let mut best = Transform::Identity;
        let mut best_board: [u8; 9] = self.state;
        proof {
            lemma_apply_identity(s@);
            assert(best_board@ == apply_spec(best, s@));
        }
        let mut k: usize = 1;
        while k < 8
            invariant
                1 <= k <= 8,
                best_board@ == apply_spec(best, s@),
                canon_transform(s@) == canon_from(s@, k as int, best),
                s@ == self.state@,
            decreases 8 - k,
        {
            let cand = transform_at(k).apply(s);
            if lex_less(&cand, &best_board) {
                best = transform_at(k);
                best_board = cand;
            }
            k = k + 1;
        }
        proof {
            assert(canon_transform(s@) == best);
            lemma_cells_ok_apply(best, s@);
        }
        let out = Board { state: best_board, unused_nums: self.unused_nums.duplicate() };
        (out, best.inverse())
    }
}

/// Number of revealed cells among the first `n` cells of `s`.
pub open spec fn revealed_prefix(s: Seq<u8>, n: int) -> nat
    decreases n,
{
    if n <= 0 {
        0
    } else {
        revealed_prefix(s, n - 1) + (if s[n - 1] != HIDDEN {
            1nat
        } else {
            0nat
        })
    }
}

/// The digits revealed among the first `n` cells of `s`.
pub open spec fn present_prefix(s: Seq<u8>, n: int) -> Set<u8> {
    Set::new(|d: u8| d < 9 && exists|i: int| 0 <= i < n && s[i] == d)
}

proof fn lemma_digit_count_none(a: Set<u8>, d: int)
    requires
        forall|e: u8| e < d ==> !a.contains(e),
    ensures
        digit_count(a, d) == 0,
    decreases d,
{
    if d > 0 {
        lemma_digit_count_none(a, d - 1);
    }
}

proof fn lemma_digit_count_insert(a: Set<u8>, x: u8, d: int)
    requires
        !a.contains(x),
        x < d,
        d <= 9,
    ensures
        digit_count(a.insert(x), d) == digit_count(a, d) + 1,
{
    lemma_digit_count_remove(a.insert(x), x, d);
    assert(a.insert(x).remove(x) =~= a);
}

/// On a board without repeated digits, the revealed cells of a prefix and the
/// distinct digits they show are equal in number.
proof fn lemma_present_prefix_count(s: Seq<u8>, n: int)
    requires
        cells_ok(s),
        0 <= n <= 9,
    ensures
        digit_count(present_prefix(s, n), 9) == revealed_prefix(s, n),
    decreases n,
{
    if n == 0 {
        lemma_digit_count_none(present_prefix(s, 0), 9);
    } else {
        lemma_present_prefix_count(s, n - 1);
        let v = s[n - 1];
        if v == HIDDEN {
            assert(present_prefix(s, n) =~= present_prefix(s, n - 1));
        } else {
            assert(present_prefix(s, n) =~= present_prefix(s, n - 1).insert(v));
            assert(!present_prefix(s, n - 1).contains(v));
            lemma_digit_count_insert(present_prefix(s, n - 1), v, 9);
        }
    }
}

proof fn lemma_count_partition(a: Set<u8>, b: Set<u8>, d: int)
    requires
        forall|e: u8| e < d ==> (a.contains(e) <==> !b.contains(e)),
        0 <= d,
    ensures
        digit_count(a, d) + digit_count(b, d) == d,
    decreases d,
{
    if d > 0 {
        lemma_count_partition(a, b, d - 1);
    }
}

/// On a well-formed cell sequence, the revealed cells and the unplaced digits
/// together account for all nine digits.
pub proof fn lemma_revealed_remaining(s: Seq<u8>)
    requires
        cells_ok(s),
    ensures
        revealed_prefix(s, 9) + remaining_count(complement_of(s)) == 9,
{
    lemma_present_prefix_count(s, 9);
    lemma_count_partition(present_prefix(s, 9), complement_of(s), 9);
}

proof fn lemma_revealed_prefix_mono(s: Seq<u8>, m: int, n: int)
    requires
        m <= n,
    ensures
        revealed_prefix(s, m) <= revealed_prefix(s, n),
    decreases n - m,
{
    if m < n {
        lemma_revealed_prefix_mono(s, m, n - 1);
    }
}

/// Accumulator form of the compressed key: scans the cells from `pos` on with
/// `num` digit fields already written into `acc`.
pub open spec fn compress_from(s: Seq<u8>, pos: int, num: int, acc: u32) -> u32
    decreases 9 - pos,
{
    if pos < 0 || pos >= 9 {
        acc
    } else if s[pos] != HIDDEN {
        compress_from(
            s,
            pos + 1,
            num + 1,
            if num < 4 {
                acc | (1u32 << ((31 - pos) as u32)) | ((s[pos] as u32) << ((12 - 4 * num) as u32))
            } else {
                acc | (1u32 << ((31 - pos) as u32))
            },
        )
    } else {
        compress_from(s, pos + 1, num, acc)
    }
}

/// The 32-bit key of a canonical board: a 9-bit reveal mask in the top bits
/// and up to four 4-bit digit fields, for the first four revealed cells in
/// scan order, in the low 16 bits.
pub open spec fn compress_spec(s: Seq<u8>) -> u32 {
    compress_from(s, 0, 0, 0)
}

impl Board {
    /// Packs the board into its 32-bit memoization key. Only meaningful on a
    /// canonicalized board with at most four revealed cells; the key is an
    /// opaque fingerprint and is never decompressed.
    pub fn compress(&self) -> (k: u32)
        requires
            self.wf(),
            self.remaining() >= 5,
        ensures
            k == compress_spec(self.state@),
    {
        let s = &self.state;
        let mut out: u32 = 0;
        let mut num: u32 = 0;
        let mut pos: usize = 0;
        proof {
            lemma_revealed_remaining(s@);
        }
        while pos < 9
            invariant
                pos <= 9,
                s@ == self.state@,
                revealed_prefix(s@, 9) <= 4,
                num == revealed_prefix(s@, pos as int),
                compress_spec(s@) == compress_from(s@, pos as int, num as int, out),
            decreases 9 - pos,
        {
            proof {
                lemma_revealed_prefix_mono(s@, pos as int + 1, 9);
            }
            if s[pos] != HIDDEN {
                out = out | (1u32 << ((31 - pos) as u32)) | ((s[pos] as u32) << (12 - 4 * num));
                num = num + 1;
            }
            pos = pos + 1;
        }
        out
    }

    /// Canonicalizes the board and packs the canonical board into its 32-bit
    /// key, returning the key and the transform that translates canonical
    /// cell indices back to this board's coordinates.
    pub fn simplify_compress(&self) -> (r: (u32, Transform))
        requires
            self.wf(),
            self.remaining() >= 5,
        ensures
            r.0 == compress_spec(canon_spec(self.state@)),
            r.1 == inverse_spec(canon_transform(self.state@)),
    {
        let (b, t) = self.simplify();
        (b.compress(), t)
    }
}


/// Whether the key `k` marks cell `pos` as revealed.
pub open spec fn mask_bit(k: u32, pos: int) -> bool {
    (k >> ((31 - pos) as u32)) & 1 == 1
}

/// Digit field `r` of the key `k`: the digit recorded for the revealed cell
/// of scan rank `r`.
pub open spec fn nibble(k: u32, r: int) -> u32 {
    (k >> ((12 - 4 * r) as u32)) & 15
}

/// Position of the revealed cell of rank `r`, counting from `pos`, or 9 when
/// fewer than `r + 1` revealed cells remain.
pub open spec fn rank_position(s: Seq<u8>, pos: int, r: int) -> int
    decreases 9 - pos,
{
    if pos < 0 || pos >= 9 {
        9
    } else if s[pos] != HIDDEN {
        if r == 0 {
            pos
        } else {
            rank_position(s, pos + 1, r - 1)
        }
    } else {
        rank_position(s, pos + 1, r)
    }
}

proof fn bv_mask_after_mask_or(a: u32, sm: u32, sj: u32)
    requires
        23 <= sm <= 31,
        23 <= sj <= 31,
    ensures
        ((a | (1u32 << sm)) >> sj) & 1 == (if sj == sm {
            1u32
        } else {
            (a >> sj) & 1
        }),
{
    assert(((a | (1u32 << sm)) >> sj) & 1 == (if sj == sm {
        1u32
    } else {
        (a >> sj) & 1
    })) by (bit_vector)
        requires
            23 <= sm <= 31,
            23 <= sj <= 31,
    ;
}

proof fn bv_nibble_after_mask_or(a: u32, sm: u32, sr: u32)
    requires
        23 <= sm <= 31,
        sr <= 12,
    ensures
        ((a | (1u32 << sm)) >> sr) & 15 == (a >> sr) & 15,
{
    assert(((a | (1u32 << sm)) >> sr) & 15 == (a >> sr) & 15) by (bit_vector)
        requires
            23 <= sm <= 31,
            sr <= 12,
    ;
}

proof fn bv_mask_after_digit_or(a: u32, d: u32, sn: u32, sj: u32)
    requires
        d < 16,
        sn <= 12,
        23 <= sj <= 31,
    ensures
        ((a | (d << sn)) >> sj) & 1 == (a >> sj) & 1,
{
    assert(((a | (d << sn)) >> sj) & 1 == (a >> sj) & 1) by (bit_vector)
        requires
            d < 16,
            sn <= 12,
            23 <= sj <= 31,
    ;
}

proof fn bv_nibble_after_digit_or(a: u32, d: u32, sn: u32, sr: u32)
    requires
        d < 16,
        sn <= 12,
        sr <= 12,
        sn % 4 == 0,
        sr % 4 == 0,
    ensures
        sr == sn && (a >> sn) & 15 == 0 ==> ((a | (d << sn)) >> sn) & 15 == d,
        sr != sn ==> ((a | (d << sn)) >> sr) & 15 == (a >> sr) & 15,
{
    assert((sr == sn && (a >> sn) & 15 == 0 ==> ((a | (d << sn)) >> sn) & 15 == d) && (sr != sn
        ==> ((a | (d << sn)) >> sr) & 15 == (a >> sr) & 15)) by (bit_vector)
        requires
            d < 16,
            sn <= 12,
            sr <= 12,
            sn % 4 == 0,
            sr % 4 == 0,
    ;
}

proof fn bv_zero_bits(x: u32)
    requires
        x <= 31,
    ensures
        (0u32 >> x) & 1 == 0,
        (0u32 >> x) & 15 == 0,
{
    assert((0u32 >> x) & 1 == 0 && (0u32 >> x) & 15 == 0) by (bit_vector);
}

/// What the scan writes into the key: the mask bit of every cell from `pos`
/// on records whether it is revealed, and the digit fields from rank `num`
/// on record the digits of the revealed cells in scan order.
proof fn lemma_compress_from_bits(s: Seq<u8>, pos: int, num: int, acc: u32)
    requires
        s.len() == 9,
        forall|i: int| 0 <= i < 9 ==> cell_ok(#[trigger] s[i]),
        0 <= pos <= 9,
        0 <= num,
        num + revealed_prefix(s, 9) <= 4 + revealed_prefix(s, pos),
        forall|r: int| num <= r < 4 ==> #[trigger] nibble(acc, r) == 0,
        forall|j: int| pos <= j < 9 ==> !#[trigger] mask_bit(acc, j),
    ensures
        forall|j: int|
            0 <= j < 9 ==> (#[trigger] mask_bit(compress_from(s, pos, num, acc), j) == if j < pos {
                mask_bit(acc, j)
            } else {
                s[j] != HIDDEN
            }),
        forall|r: int|
            0 <= r < 4 ==> #[trigger] nibble(compress_from(s, pos, num, acc), r) == (if r < num {
                nibble(acc, r)
            } else if rank_position(s, pos, r - num) < 9 {
                s[rank_position(s, pos, r - num)] as u32
            } else {
                0
            }),
    decreases 9 - pos,
{
    lemma_revealed_prefix_mono(s, pos, 9);
    if pos >= 9 {
        assert(compress_from(s, pos, num, acc) == acc);
        assert forall|r: int|
            0 <= r < 4 implies #[trigger] nibble(compress_from(s, pos, num, acc), r) == (if r
            < num {
            nibble(acc, r)
        } else if rank_position(s, pos, r - num) < 9 {
            s[rank_position(s, pos, r - num)] as u32
        } else {
            0
        }) by {
            if r >= num {
                assert(rank_position(s, pos, r - num) == 9);
                assert(nibble(acc, r) == 0);
            }
        }
    } else {
        lemma_revealed_prefix_mono(s, pos + 1, 9);
        if s[pos] != HIDDEN {
            assert(revealed_prefix(s, pos + 1) == revealed_prefix(s, pos) + 1);
            assert(num < 4);
            let d = s[pos] as u32;
            let sm = (31 - pos) as u32;
            let sn = (12 - 4 * num) as u32;
            let acc1 = acc | (1u32 << sm);
            let acc2 = acc1 | (d << sn);
            assert(compress_from(s, pos, num, acc) == compress_from(s, pos + 1, num + 1, acc2));
            assert forall|r: int| num + 1 <= r < 4 implies #[trigger] nibble(acc2, r) == 0 by {
                let sr = (12 - 4 * r) as u32;
                bv_nibble_after_mask_or(acc, sm, sr);
                bv_nibble_after_digit_or(acc1, d, sn, sr);
                assert(sr != sn);
                assert(nibble(acc, r) == 0);
                assert((acc1 >> sr) & 15 == (acc >> sr) & 15);
                assert(nibble(acc1, r) == nibble(acc, r));
                assert((acc2 >> sr) & 15 == (acc1 >> sr) & 15);
                assert(nibble(acc2, r) == nibble(acc1, r));
            }
            assert forall|j: int| pos + 1 <= j < 9 implies !#[trigger] mask_bit(acc2, j) by {
                let sj = (31 - j) as u32;
                bv_mask_after_mask_or(acc, sm, sj);
                bv_mask_after_digit_or(acc1, d, sn, sj);
                assert(sj != sm);
                assert((acc1 >> sj) & 1 == (acc >> sj) & 1);
                assert((acc2 >> sj) & 1 == (acc1 >> sj) & 1);
                assert(!mask_bit(acc, j));
            }
            lemma_compress_from_bits(s, pos + 1, num + 1, acc2);
            let f = compress_from(s, pos, num, acc);
            assert forall|j: int|
                0 <= j < 9 implies (#[trigger] mask_bit(f, j) == if j < pos {
                mask_bit(acc, j)
            } else {
                s[j] != HIDDEN
            }) by {
                let sj = (31 - j) as u32;
                bv_mask_after_mask_or(acc, sm, sj);
                bv_mask_after_digit_or(acc1, d, sn, sj);
                assert((sj == sm) == (j == pos));
                assert((acc2 >> sj) & 1 == (acc1 >> sj) & 1);
                assert(mask_bit(acc2, j) == mask_bit(acc1, j));
                if j <= pos {
                    assert(mask_bit(f, j) == mask_bit(acc2, j));
                    if j == pos {
                        assert((acc1 >> sj) & 1 == 1);
                        assert(mask_bit(acc1, j));
                    } else {
                        assert((acc1 >> sj) & 1 == (acc >> sj) & 1);
                        assert(mask_bit(acc1, j) == mask_bit(acc, j));
                    }
                }
            }
            assert forall|r: int|
                0 <= r < 4 implies #[trigger] nibble(f, r) == (if r < num {
                nibble(acc, r)
            } else if rank_position(s, pos, r - num) < 9 {
                s[rank_position(s, pos, r - num)] as u32
            } else {
                0
            }) by {
                let sr = (12 - 4 * r) as u32;
                bv_nibble_after_mask_or(acc, sm, sr);
                bv_nibble_after_digit_or(acc1, d, sn, sr);
                assert((sr == sn) == (r == num));
                assert((acc1 >> sr) & 15 == (acc >> sr) & 15);
                assert(nibble(acc1, r) == nibble(acc, r));
                if r < num {
                    assert(nibble(f, r) == nibble(acc2, r));
                    assert((acc2 >> sr) & 15 == (acc1 >> sr) & 15);
                    assert(nibble(acc2, r) == nibble(acc1, r));
                } else if r == num {
                    assert(nibble(f, r) == nibble(acc2, r));
                    assert(nibble(acc, num) == 0);
                    assert((acc1 >> sn) & 15 == 0);
                    assert((acc2 >> sn) & 15 == d);
                    assert(nibble(acc2, num) == d);
                    assert(rank_position(s, pos, 0) == pos);
                } else {
                    assert(rank_position(s, pos, r - num) == rank_position(
                        s,
                        pos + 1,
                        r - num - 1,
                    ));
                }
            }
        } else {
            lemma_compress_from_bits(s, pos + 1, num, acc);
            let f = compress_from(s, pos, num, acc);
            assert(f == compress_from(s, pos + 1, num, acc));
            assert forall|j: int|
                0 <= j < 9 implies (#[trigger] mask_bit(f, j) == if j < pos {
                mask_bit(acc, j)
            } else {
                s[j] != HIDDEN
            }) by {
                assert(mask_bit(compress_from(s, pos + 1, num, acc), j) == if j < pos + 1 {
                    mask_bit(acc, j)
                } else {
                    s[j] != HIDDEN
                });
            }
            assert forall|r: int|
                0 <= r < 4 implies #[trigger] nibble(f, r) == (if r < num {
                nibble(acc, r)
            } else if rank_position(s, pos, r - num) < 9 {
                s[rank_position(s, pos, r - num)] as u32
            } else {
                0
            }) by {
                assert(nibble(compress_from(s, pos + 1, num, acc), r) == (if r < num {
                    nibble(acc, r)
                } else if rank_position(s, pos + 1, r - num) < 9 {
                    s[rank_position(s, pos + 1, r - num)] as u32
                } else {
                    0
                }));
                if r >= num {
                    assert(rank_position(s, pos, r - num) == rank_position(s, pos + 1, r - num));
                }
            }
        }
    }
}

/// Two well-formed boards with at most four revealed cells and one compressed
/// key are the same board: within its domain the packing is collision-free.
pub proof fn lemma_compress_injective(s1: Seq<u8>, s2: Seq<u8>)
    requires
        cells_ok(s1),
        cells_ok(s2),
        revealed_prefix(s1, 9) <= 4,
        revealed_prefix(s2, 9) <= 4,
        compress_spec(s1) == compress_spec(s2),
    ensures
        s1 == s2,
{
    assert forall|r: int| 0 <= r < 4 implies #[trigger] nibble(0u32, r) == 0 by {
        bv_zero_bits(((12 - 4 * r) as u32));
    }
    assert forall|j: int| 0 <= j < 9 implies !#[trigger] mask_bit(0u32, j) by {
        bv_zero_bits(((31 - j) as u32));
    }
    lemma_compress_from_bits(s1, 0, 0, 0);
    lemma_compress_from_bits(s2, 0, 0, 0);
    let k = compress_spec(s1);
    assert forall|j: int| 0 <= j < 9 implies (s1[j] == HIDDEN) == (#[trigger] s2[j] == HIDDEN) by {
        assert(mask_bit(k, j) == (s1[j] != HIDDEN));
        assert(mask_bit(k, j) == (s2[j] != HIDDEN));
    }
    assert forall|j: int| 0 <= j < 9 implies s1[j] == #[trigger] s2[j] by {
        if s1[j] != HIDDEN {
            let r = revealed_prefix(s1, j) as int;
            lemma_rank_of_position(s1, 0, j);
            lemma_rank_position_same(s1, s2, 0, r);
            lemma_revealed_prefix_same(s1, s2, j);
            lemma_rank_of_position(s2, 0, j);
            lemma_revealed_prefix_mono(s1, j + 1, 9);
            assert(revealed_prefix(s1, j + 1) == revealed_prefix(s1, j) + 1);
            assert(r < 4);
            assert(nibble(k, r) == s1[j] as u32);
            assert(nibble(k, r) == s2[j] as u32);
        }
    }
    assert(s1 =~= s2);
}

/// The revealed cell at `j` has, counting from `pos`, exactly the rank of
/// the revealed cells between `pos` and `j`.
proof fn lemma_rank_of_position(s: Seq<u8>, pos: int, j: int)
    requires
        0 <= pos <= j < 9,
        s[j] != HIDDEN,
    ensures
        rank_position(s, pos, revealed_prefix(s, j) - revealed_prefix(s, pos)) == j,
        revealed_prefix(s, j) >= revealed_prefix(s, pos),
    decreases j - pos,
{
    if pos < j {
        lemma_rank_of_position(s, pos + 1, j);
    }
}

/// Boards with one reveal pattern have their ranked cells at one place.
proof fn lemma_rank_position_same(s1: Seq<u8>, s2: Seq<u8>, pos: int, r: int)
    requires
        forall|i: int| 0 <= i < 9 ==> ((s1[i] == HIDDEN) == (#[trigger] s2[i] == HIDDEN)),
    ensures
        rank_position(s1, pos, r) == rank_position(s2, pos, r),
    decreases 9 - pos,
{
    if 0 <= pos < 9 {
        lemma_rank_position_same(s1, s2, pos + 1, r);
        lemma_rank_position_same(s1, s2, pos + 1, r - 1);
    }
}

/// Boards with one reveal pattern count their revealed prefixes alike.
proof fn lemma_revealed_prefix_same(s1: Seq<u8>, s2: Seq<u8>, n: int)
    requires
        forall|i: int| 0 <= i < 9 ==> ((s1[i] == HIDDEN) == (#[trigger] s2[i] == HIDDEN)),
        n <= 9,
    ensures
        revealed_prefix(s1, n) == revealed_prefix(s2, n),
    decreases n,
{
    if n > 0 {
        lemma_revealed_prefix_same(s1, s2, n - 1);
    }
}

} // verus!

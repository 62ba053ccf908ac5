//! The 9-cell board: revealed digits, hidden cells, and the set of digits not
//! yet placed. A well-formed board holds each digit at most once and keeps
//! `unused_nums` exactly the complement of the digits on the board.

use crate::HIDDEN;
use crate::digit_set::{DigitSet, digits_of};
use vstd::prelude::*;

verus! {

/// A cell is either the sentinel for a hidden cell or a digit 0..=8.
pub open spec fn cell_ok(v: u8) -> bool {
    v == HIDDEN || v < 9
}

/// Digit `d` stands revealed somewhere on the board `s`.
pub open spec fn on_board(s: Seq<u8>, d: u8) -> bool {
    exists|i: int| 0 <= i < 9 && s[i] == d
}

/// The nine cells are each a digit or hidden, and no digit appears twice.
pub open spec fn cells_ok(s: Seq<u8>) -> bool {
    &&& s.len() == 9
    &&& forall|i: int| 0 <= i < 9 ==> cell_ok(#[trigger] s[i])
    &&& forall|i: int, j: int|
        0 <= i < 9 && 0 <= j < 9 && i != j && s[i] != HIDDEN ==> #[trigger] s[i] != #[trigger] s[j]
}

/// The digits in 0..=8 that do not stand on the board `s`.
pub open spec fn complement_of(s: Seq<u8>) -> Set<u8> {
    Set::new(|d: u8| d < 9 && !on_board(s, d))
}

/// How many of the digits below `d` the set `rem` holds.
pub open spec fn digit_count(rem: Set<u8>, d: int) -> nat
    decreases d,
{
    if d <= 0 {
        0
    } else {
        digit_count(rem, d - 1) + (if rem.contains((d - 1) as u8) {
            1nat
        } else {
            0nat
        })
    }
}

/// How many of the nine digits of the game the set `rem` holds.
pub open spec fn remaining_count(rem: Set<u8>) -> nat {
    digit_count(rem, 9)
}

/// A partially revealed board together with the digits still unplaced.
pub struct Board {
    /// The nine cells in row-major order; `HIDDEN` marks an unrevealed cell.
    pub state: [u8; 9],
    /// The digits 0..=8 that do not stand on the board yet.
    pub unused_nums: DigitSet,
}

/// Why a cell array was rejected as a board.
#[derive(Clone, Copy, Debug, PartialEq, Eq, Structural)]
pub enum BoardError {
    /// Some cell holds a value that is neither a digit 0..=8 nor the hidden
    /// sentinel.
    CellOutOfRange,
    /// Some digit stands revealed on two different cells.
    DuplicateDigit,
}

impl Board {
    /// The board invariant: cells are digits or hidden, no digit repeats, and
    /// the unused set is exactly the complement of the revealed digits.
    pub open spec fn wf(&self) -> bool {
        &&& cells_ok(self.state@)
        &&& digits_of(self.unused_nums) == complement_of(self.state@)
    }

    /// Number of digits still unplaced; equals the number of hidden cells on
    /// a well-formed board.
    pub open spec fn remaining(&self) -> nat {
        remaining_count(digits_of(self.unused_nums))
    }

    /// Builds the board with the given cells, rejecting any array that
    /// violates the board invariant; the unused digits are computed as the
    /// complement of the revealed ones.
    pub fn try_new(cells: [u8; 9]) -> (r: Result<Board, BoardError>)
        ensures
            match r {
                Ok(b) => cells_ok(cells@) && b.wf() && b.state@ =~= cells@,
                Err(e) => !cells_ok(cells@) && (e == BoardError::CellOutOfRange <==> exists|i: int|
                    0 <= i < 9 && !cell_ok(#[trigger] cells@[i])),
            },
    {
        let mut i: usize = 0;
        while i < 9
            invariant
                i <= 9,
                forall|j: int| 0 <= j < i ==> cell_ok(#[trigger] cells@[j]),
            decreases 9 - i,
        {
            if cells[i] != HIDDEN && cells[i] >= 9 {
                return Err(BoardError::CellOutOfRange);
            }
            i = i + 1;
        }
        let mut seen: [bool; 9] = [false; 9];
        let mut i: usize = 0;
        while i < 9
            invariant
                i <= 9,
                forall|j: int| 0 <= j < i ==> cell_ok(#[trigger] cells@[j]),
                forall|j: int| 0 <= j < 9 ==> cell_ok(#[trigger] cells@[j]),
                forall|d: u8| d < 9 ==> (#[trigger] seen@[d as int] == exists|j: int|
                    0 <= j < i && cells@[j] == d),
                forall|j: int, k: int|
                    0 <= j < i && 0 <= k < i && j != k && cells@[j] != HIDDEN ==> #[trigger] cells@[j]
                        != #[trigger] cells@[k],
            decreases 9 - i,
        {
            let v = cells[i];
            if v != HIDDEN {
                if seen[v as usize] {
                    proof {
                        let j = choose|j: int| 0 <= j < i && cells@[j] == v;
                        assert(cells@[j] == cells@[i as int]);
                    }
                    return Err(BoardError::DuplicateDigit);
                }
                seen[v as usize] = true;
            }
            i = i + 1;
        }
        let mut unused = DigitSet::empty();
        let mut d: u8 = 0;
        while d < 9
            invariant
                d <= 9,
                forall|j: int| 0 <= j < 9 ==> cell_ok(#[trigger] cells@[j]),
                forall|e: u8| e < 9 ==> (#[trigger] seen@[e as int] == on_board(cells@, e)),
                digits_of(unused) =~= Set::new(|e: u8| e < d && !on_board(cells@, e)),
            decreases 9 - d,
        {
            if !seen[d as usize] {
                unused.insert(d);
            }
            d = d + 1;
        }
        let b = Board { state: cells, unused_nums: unused };
        proof {
            assert(digits_of(b.unused_nums) =~= complement_of(cells@));
        }
        Ok(b)
    }

    /// The fully hidden board at the start of a game, with all nine digits
    /// still unplaced.
    pub fn starting() -> (b: Board)
        ensures
            b.wf(),
            forall|i: int| 0 <= i < 9 ==> b.state@[i] == HIDDEN,
            b.remaining() == 9,
    {
        let b = Board { state: [HIDDEN; 9], unused_nums: DigitSet::full() };
        proof {
            assert(digits_of(b.unused_nums) =~= complement_of(b.state@));
            assert(b.remaining() == 9) by {
                reveal_with_fuel(digit_count, 10);
            }
        }
        b
    }

    /// The board after revealing digit `d` at the hidden cell `pos`; this
    /// board is left untouched.
    pub fn child(&self, pos: usize, d: u8) -> (c: Board)
        requires
            self.wf(),
            pos < 9,
            self.state@[pos as int] == HIDDEN,
            digits_of(self.unused_nums).contains(d),
        ensures
            c.wf(),
            c.state@ =~= self.state@.update(pos as int, d),
            digits_of(c.unused_nums) == digits_of(self.unused_nums).remove(d),
            c.remaining() + 1 == self.remaining(),
    {
        let mut st = self.state;
        st[pos] = d;
        let mut un = self.unused_nums.duplicate();
        un.remove(d);
        let c = Board { state: st, unused_nums: un };
        proof {
            let s0 = self.state@;
            let s1 = c.state@;
            assert(d < 9 && !on_board(s0, d));
            assert(cells_ok(s1)) by {
                assert forall|i: int, j: int|
                    0 <= i < 9 && 0 <= j < 9 && i != j && s1[i] != HIDDEN implies s1[i]
                    != s1[j] by {
                    if i != pos as int && j != pos as int {
                        assert(s1[i] == s0[i] && s1[j] == s0[j]);
                    }
                }
            }
            assert(digits_of(c.unused_nums) =~= complement_of(s1)) by {
                assert forall|e: u8| #[trigger]
                    complement_of(s1).contains(e) implies digits_of(c.unused_nums).contains(
                    e,
                ) by {
                    assert(!on_board(s1, e));
                    assert(forall|i: int|
                        0 <= i < 9 && i != pos as int ==> s1[i] == #[trigger] s0[i]);
                    if on_board(s0, e) {
                        let w = choose|i: int| 0 <= i < 9 && s0[i] == e;
                        assert(w == pos as int);
                        assert(s0[w] == HIDDEN);
                    }
                    assert(s1[pos as int] == d);
                    assert(e != d);
                }
                assert forall|e: u8| #[trigger]
                    digits_of(c.unused_nums).contains(e) implies complement_of(s1).contains(
                    e,
                ) by {
                    assert(digits_of(self.unused_nums).contains(e) && e != d);
                    assert(!on_board(s0, e));
                    if on_board(s1, e) {
                        let w = choose|i: int| 0 <= i < 9 && s1[i] == e;
                        assert(w == pos as int);
                    }
                }
            }
            lemma_digit_count_remove(digits_of(self.unused_nums), d, 9);
        }
        c
    }

    /// Number of digits still unplaced, counted from the unused set.
    pub fn remaining_digits(&self) -> (n: usize)
        ensures
            n == self.remaining(),
    {
        let mut n: usize = 0;
        let mut d: u8 = 0;
        while d < 9
            invariant
                d <= 9,
                n == digit_count(digits_of(self.unused_nums), d as int),
            decreases 9 - d,
        {
            proof {
                lemma_digit_count_bound(digits_of(self.unused_nums), d as int);
            }
            if self.unused_nums.contains(d) {
                n = n + 1;
            }
            d = d + 1;
        }
        n
    }

    /// A copy of this board.
    pub fn duplicate(&self) -> (c: Board)
        ensures
            c.state@ =~= self.state@,
            digits_of(c.unused_nums) == digits_of(self.unused_nums),
    {
        Board { state: self.state, unused_nums: self.unused_nums.duplicate() }
    }
}

/// Smallest of four cell values; the hidden sentinel is larger than every
/// digit, so this picks the least revealed value when one exists.
pub fn min_4(x1: u8, x2: u8, x3: u8, x4: u8) -> (m: u8)
    ensures
        m <= x1 && m <= x2 && m <= x3 && m <= x4,
        m == x1 || m == x2 || m == x3 || m == x4,
{
    let a = if x1 <= x2 {
        x1
    } else {
        x2
    };
    let b = if x3 <= x4 {
        x3
    } else {
        x4
    };
    if a <= b {
        a
    } else {
        b
    }
}

/// Revealing an unplaced digit at a hidden cell keeps the cells well-formed
/// and removes exactly that digit from the complement.
pub proof fn lemma_place_digit(s: Seq<u8>, i: int, d: u8)
    requires
        cells_ok(s),
        0 <= i < 9,
        s[i] == HIDDEN,
        complement_of(s).contains(d),
    ensures
        cells_ok(s.update(i, d)),
        complement_of(s.update(i, d)) == complement_of(s).remove(d),
{
    let s1 = s.update(i, d);
    assert(d < 9 && !on_board(s, d));
    assert(cells_ok(s1)) by {
        assert forall|p: int, q: int|
            0 <= p < 9 && 0 <= q < 9 && p != q && s1[p] != HIDDEN implies s1[p] != s1[q] by {
            if p != i && q != i {
                assert(s1[p] == s[p] && s1[q] == s[q]);
            }
        }
    }
    assert(complement_of(s1) =~= complement_of(s).remove(d)) by {
        assert(s1[i] == d);
        assert forall|e: u8| #[trigger]
            complement_of(s1).contains(e) implies complement_of(s).remove(d).contains(e) by {
            assert(!on_board(s1, e));
            if on_board(s, e) {
                let w = choose|p: int| 0 <= p < 9 && s[p] == e;
                if w != i {
                    assert(s1[w] == e);
                    assert(on_board(s1, e));
                }
                assert(w == i);
                assert(s[w] == HIDDEN);
            }
            assert(e != d);
        }
        assert forall|e: u8| #[trigger]
            complement_of(s).remove(d).contains(e) implies complement_of(s1).contains(e) by {
            assert(!on_board(s, e) && e != d);
            if on_board(s1, e) {
                let w = choose|p: int| 0 <= p < 9 && s1[p] == e;
                if w != i {
                    assert(s[w] == e);
                    assert(on_board(s, e));
                }
                assert(w == i);
            }
        }
    }
}

/// Removing a digit below `d` from a set lowers its digit count by one.
pub proof fn lemma_digit_count_remove(rem: Set<u8>, x: u8, d: int)
    requires
        rem.contains(x),
        x < d,
        d <= 9,
    ensures
        digit_count(rem.remove(x), d) + 1 == digit_count(rem, d),
    decreases d,
{
    if x == d - 1 {
        lemma_digit_count_same(rem.remove(x), rem, d - 1);
    } else {
        lemma_digit_count_remove(rem, x, d - 1);
    }
}

/// Sets that agree on the digits below `d` have the same digit count.
pub proof fn lemma_digit_count_same(a: Set<u8>, b: Set<u8>, d: int)
    requires
        forall|e: u8| e < d ==> (a.contains(e) <==> b.contains(e)),
    ensures
        digit_count(a, d) == digit_count(b, d),
    decreases d,
{
    if d > 0 {
        lemma_digit_count_same(a, b, d - 1);
    }
}

/// A digit count never exceeds the number of digits counted.
pub proof fn lemma_digit_count_bound(rem: Set<u8>, d: int)
    requires
        0 <= d,
    ensures
        digit_count(rem, d) <= d,
    decreases d,
{
    if d > 0 {
        lemma_digit_count_bound(rem, d - 1);
    }
}

} // verus!

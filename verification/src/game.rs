//! Bookkeeping for one player's session of three tickets.
//!
//! A session is a history of moves: for each ticket, four chosen positions
//! with the four numbers revealed there, then the payout the player entered.
//! `index` counts the numbers revealed so far across the session (four per
//! ticket); a position at `index` without a number there means the player has
//! chosen a cell but not yet told the game which number appeared.

use crate::HIDDEN;
use crate::board::{Board, cells_ok};
use crate::payout::{Payout, payout_amount_spec, payout_index};
use vstd::prelude::*;

verus! {

/// The move a game is waiting for, or has just recorded.
#[derive(Clone, Copy, Debug, PartialEq, Eq, Structural)]
pub enum Action {
    /// No move has been made yet.
    Start,
    /// A cell of the board is being (or was) chosen.
    ChoosePosition(u8),
    /// The number under the chosen cell is being (or was) entered.
    RevealNumber(u8),
    /// The ticket's payout is being (or was) entered.
    EnterPayout(Payout),
    /// All three tickets are finished.
    Done,
}

/// One player's history of positions, numbers and payouts across a session
/// of three tickets.
pub struct Game {
    /// Numbers revealed so far over the whole session.
    pub index: u8,
    /// Chosen cell (0..=8) of each reveal, `HIDDEN` where not chosen yet.
    pub position_history: [u8; 12],
    /// Number (0..=8) seen at each reveal, `HIDDEN` where not entered yet.
    pub number_history: [u8; 12],
    /// Payout entered at the end of each of the three tickets.
    pub payout_history: [Payout; 3],
}

impl Game {
    /// First move slot of the ticket the game is currently on: reveals come
    /// in groups of four, and a full group whose payout is still missing
    /// belongs to the ticket being finished.
    pub open spec fn ticket_start(&self) -> int {
        let i = self.index as int;
        if i > 0 && i % 4 == 0 && self.payout_history@[i / 4 - 1] == Payout::NoPayout {
            i - 4
        } else {
            i - i % 4
        }
    }

    /// The game invariant: every recorded move is a digit, slots beyond the
    /// current one are blank, and within each ticket's four slots no position
    /// and no number repeats.
    pub open spec fn wf(&self) -> bool {
        &&& self.index <= 12
        &&& forall|j: int| 0 <= j < self.index ==> #[trigger] self.number_history@[j] < 9
        &&& forall|j: int| 0 <= j < self.index ==> #[trigger] self.position_history@[j] < 9
        &&& forall|j: int| self.index < j < 12 ==> #[trigger] self.number_history@[j] == HIDDEN
        &&& forall|j: int| self.index < j < 12 ==> #[trigger] self.position_history@[j] == HIDDEN
        &&& (self.index < 12 ==> self.number_history@[self.index as int] == HIDDEN)
        &&& (self.index < 12 ==> self.position_history@[self.index as int] == HIDDEN
            || self.position_history@[self.index as int] < 9)
        &&& forall|j: int, k: int|
            0 <= j < k < 12 && j / 4 == k / 4 && self.position_history@[j] != HIDDEN
                && self.position_history@[k] != HIDDEN ==> #[trigger] self.position_history@[j]
                != #[trigger] self.position_history@[k]
        &&& forall|j: int, k: int|
            0 <= j < k < 12 && j / 4 == k / 4 && self.number_history@[j] != HIDDEN
                && self.number_history@[k] != HIDDEN ==> #[trigger] self.number_history@[j]
                != #[trigger] self.number_history@[k]
    }

    /// A fresh session: nothing chosen, nothing revealed, no payouts.
    pub fn new() -> (g: Game)
        ensures
            g.wf(),
            g.index == 0,
            forall|j: int| 0 <= j < 12 ==> g.position_history@[j] == HIDDEN,
            forall|j: int| 0 <= j < 12 ==> g.number_history@[j] == HIDDEN,
            forall|j: int| 0 <= j < 3 ==> g.payout_history@[j] == Payout::NoPayout,
    {
        Game {
            index: 0,
            position_history: [HIDDEN; 12],
            number_history: [HIDDEN; 12],
            payout_history: [Payout::NoPayout; 3],
        }
    }

    /// The move the game expects next.
    pub open spec fn next_action_spec(&self) -> Action {
        let i = self.index as int;
        if i == 12 && self.payout_history@[2] != Payout::NoPayout {
            Action::Done
        } else if i > 0 && i % 4 == 0 && self.payout_history@[i / 4 - 1] == Payout::NoPayout {
            Action::EnterPayout(Payout::NoPayout)
        } else if self.position_history@[i] != HIDDEN {
            Action::RevealNumber(HIDDEN)
        } else {
            Action::ChoosePosition(HIDDEN)
        }
    }

    /// Which move the game expects next; the payload of the returned action
    /// is a placeholder.
    pub fn next_action(&self) -> (a: Action)
        requires
            self.wf(),
        ensures
            a == self.next_action_spec(),
    {
        let i = self.index as usize;
        if i == 12 && !matches!(self.payout_history[2], Payout::NoPayout) {
            Action::Done
        } else if i > 0 && i % 4 == 0 && matches!(
            self.payout_history[i / 4 - 1],
            Payout::NoPayout,
        ) {
            Action::EnterPayout(Payout::NoPayout)
        } else if self.position_history[i] != HIDDEN {
            Action::RevealNumber(HIDDEN)
        } else {
            Action::ChoosePosition(HIDDEN)
        }
    }

    /// The move most recently recorded, with its payload.
    pub open spec fn last_action_spec(&self) -> Action {
        let i = self.index as int;
        if i > 0 && i % 4 == 0 && self.payout_history@[i / 4 - 1] != Payout::NoPayout && (i == 12
            || self.position_history@[i] == HIDDEN) {
            Action::EnterPayout(self.payout_history@[i / 4 - 1])
        } else if i < 12 && self.position_history@[i] != HIDDEN {
            Action::ChoosePosition(self.position_history@[i])
        } else if i == 0 {
            Action::Start
        } else {
            Action::RevealNumber(self.number_history@[i - 1])
        }
    }

    /// Which move was taken last.
    pub fn last_action(&self) -> (a: Action)
        requires
            self.wf(),
        ensures
            a == self.last_action_spec(),
    {
        let i = self.index as usize;
        if i > 0 && i % 4 == 0 && !matches!(self.payout_history[i / 4 - 1], Payout::NoPayout) && (i
            == 12 || self.position_history[i] == HIDDEN) {
            Action::EnterPayout(self.payout_history[i / 4 - 1])
        } else if i < 12 && self.position_history[i] != HIDDEN {
            Action::ChoosePosition(self.position_history[i])
        } else if i == 0 {
            Action::Start
        } else {
            Action::RevealNumber(self.number_history[i - 1])
        }
    }

    /// Records the cell the player chose to reveal next.
    pub fn set_position(&mut self, position: u8)
        requires
            old(self).wf(),
            old(self).next_action_spec() matches Action::ChoosePosition(_),
            position < 9,
            forall|j: int|
                old(self).index as int - old(self).index as int % 4 <= j < old(self).index as int
                    ==> #[trigger] old(self).position_history@[j] != position,
        ensures
            final(self).wf(),
            final(self).position_history@ == old(self).position_history@.update(
                old(self).index as int,
                position,
            ),
            final(self).index == old(self).index,
            final(self).number_history@ == old(self).number_history@,
            final(self).payout_history@ == old(self).payout_history@,
    {
        self.position_history[self.index as usize] = position;
        proof {
            let i = old(self).index as int;
            assert forall|j: int, k: int|
                0 <= j < k < 12 && j / 4 == k / 4 && self.position_history@[j] != HIDDEN
                    && self.position_history@[k] != HIDDEN implies #[trigger] self.position_history@[j]
                != #[trigger] self.position_history@[k] by {
                if k == i && j != i {
                    lemma_group_window(i, j);
                } else if j == i && k != i {
                    lemma_group_window(i, k);
                }
            }
        }
    }

    /// Records the number revealed at the chosen cell and moves to the next
    /// slot.
    pub fn set_number(&mut self, number: u8)
        requires
            old(self).wf(),
            old(self).next_action_spec() matches Action::RevealNumber(_),
            number < 9,
            forall|j: int|
                old(self).index as int - old(self).index as int % 4 <= j < old(self).index as int
                    ==> #[trigger] old(self).number_history@[j] != number,
        ensures
            final(self).wf(),
            final(self).number_history@ == old(self).number_history@.update(
                old(self).index as int,
                number,
            ),
            final(self).index == old(self).index + 1,
            final(self).position_history@ == old(self).position_history@,
            final(self).payout_history@ == old(self).payout_history@,
    {
        self.number_history[self.index as usize] = number;
        self.index = self.index + 1;
        proof {
            let i = old(self).index as int;
            assert forall|j: int, k: int|
                0 <= j < k < 12 && j / 4 == k / 4 && self.number_history@[j] != HIDDEN
                    && self.number_history@[k] != HIDDEN implies #[trigger] self.number_history@[j]
                != #[trigger] self.number_history@[k] by {
                if k == i && j != i {
                    lemma_group_window(i, j);
                } else if j == i && k != i {
                    lemma_group_window(i, k);
                }
            }
        }
    }

    /// Records the payout of the ticket just finished.
    pub fn set_payout(&mut self, payout: Payout)
        requires
            old(self).wf(),
            old(self).index > 0,
            old(self).index % 4 == 0,
        ensures
            final(self).wf(),
            final(self).payout_history@ == old(self).payout_history@.update(
                old(self).index as int / 4 - 1,
                payout,
            ),
            final(self).index == old(self).index,
            final(self).position_history@ == old(self).position_history@,
            final(self).number_history@ == old(self).number_history@,
    {
        self.payout_history[self.index as usize / 4 - 1] = payout;
    }

    /// Undoes the most recent move: an entered payout is cleared, a chosen
    /// position is withdrawn, or the last revealed number is taken back
    /// together with its slot. At the start of the session nothing changes.
    pub fn undo(&mut self)
        requires
            old(self).wf(),
        ensures
            final(self).wf(),
            ({
                let i = old(self).index as int;
                match old(self).last_action_spec() {
                    Action::EnterPayout(_) => final(self).index == old(self).index
                        && final(self).payout_history@ == old(self).payout_history@.update(
                        i / 4 - 1,
                        Payout::NoPayout,
                    ) && final(self).position_history@ == old(self).position_history@
                        && final(self).number_history@ == old(self).number_history@,
                    Action::ChoosePosition(_) => final(self).index == old(self).index
                        && final(self).position_history@ == old(self).position_history@.update(
                        i,
                        HIDDEN,
                    ) && final(self).number_history@ == old(self).number_history@
                        && final(self).payout_history@ == old(self).payout_history@,
                    Action::RevealNumber(_) => final(self).index as int == i - 1
                        && final(self).number_history@ == old(self).number_history@.update(
                        i - 1,
                        HIDDEN,
                    ) && final(self).position_history@ == old(self).position_history@
                        && final(self).payout_history@ == old(self).payout_history@,
                    _ => *final(self) == *old(self),
                }
            }),
            old(self).last_action_spec() == Action::Start || game_measure(final(self))
                < game_measure(old(self)),
    {
        let i = self.index as usize;
        match self.last_action() {
            Action::EnterPayout(_) => {
                self.payout_history[i / 4 - 1] = Payout::NoPayout;
            },
            Action::ChoosePosition(_) => {
                self.position_history[i] = HIDDEN;
            },
            Action::RevealNumber(_) => {
                self.number_history[i - 1] = HIDDEN;
                self.index = self.index - 1;
            },
            _ => {},
        }
    }

    /// Resets the current ticket: undoes moves until the last recorded move
    /// is the previous ticket's payout, or the start of the session.
    pub fn reset(&mut self)
        requires
            old(self).wf(),
        ensures
            final(self).wf(),
            final(self).last_action_spec() == Action::Start || final(self).last_action_spec()
                matches Action::EnterPayout(_),
    {
        self.undo();
        loop
            invariant
                self.wf(),
            decreases game_measure(self),
        {
            let a = self.last_action();
            if matches!(a, Action::Done | Action::ChoosePosition(_) | Action::RevealNumber(_)) {
                self.undo();
            } else {
                return ;
            }
        }
    }

    /// First move slot of the current ticket.
    fn ticket_start_exec(&self) -> (s: usize)
        requires
            self.wf(),
        ensures
            s == self.ticket_start(),
            s <= self.index,
    {
        let i = self.index as usize;
        if i > 0 && i % 4 == 0 && matches!(self.payout_history[i / 4 - 1], Payout::NoPayout) {
            i - 4
        } else {
            i - i % 4
        }
    }

    /// The numbers revealed during the current ticket, in the order they
    /// were entered.
    pub fn used_numbers(&self) -> (r: Vec<u8>)
        requires
            self.wf(),
        ensures
            r@.len() == self.index as int - self.ticket_start(),
            forall|k: int|
                0 <= k < r@.len() ==> #[trigger] r@[k] == self.number_history@[self.ticket_start()
                    + k],
    {
        let start = self.ticket_start_exec();
        let mut r: Vec<u8> = Vec::new();
        let mut k = start;
        while k < self.index as usize
            invariant
                self.wf(),
                start == self.ticket_start(),
                start <= k <= self.index,
                r@.len() == k - start,
                forall|j: int|
                    0 <= j < r@.len() ==> #[trigger] r@[j] == self.number_history@[start + j],
            decreases self.index as int - k,
        {
            r.push(self.number_history[k]);
            k = k + 1;
        }
        r
    }

    /// The cells revealed during the current ticket, in the order they were
    /// chosen.
    pub fn used_positions(&self) -> (r: Vec<u8>)
        requires
            self.wf(),
        ensures
            r@.len() == self.index as int - self.ticket_start(),
            forall|k: int|
                0 <= k < r@.len() ==> #[trigger] r@[k] == self.position_history@[
                self.ticket_start() + k],
    {
        let start = self.ticket_start_exec();
        let mut r: Vec<u8> = Vec::new();
        let mut k = start;
        while k < self.index as usize
            invariant
                self.wf(),
                start == self.ticket_start(),
                start <= k <= self.index,
                r@.len() == k - start,
                forall|j: int|
                    0 <= j < r@.len() ==> #[trigger] r@[j] == self.position_history@[start + j],
            decreases self.index as int - k,
        {
            r.push(self.position_history[k]);
            k = k + 1;
        }
        r
    }

    /// Sum of the payouts entered so far in this session.
    pub fn total_payout(&self) -> (total: u16)
        ensures
            total == payout_amount_spec(payout_index(self.payout_history@[0]))
                + payout_amount_spec(payout_index(self.payout_history@[1])) + payout_amount_spec(
                payout_index(self.payout_history@[2]),
            ),
    {
        let mut total: u16 = 0;
        total = total + self.payout_history[0].value();
        total = total + self.payout_history[1].value();
        total = total + self.payout_history[2].value();
        total
    }

    /// The current ticket's board: the numbers revealed this ticket stand at
    /// the cells they were revealed on, every other cell is hidden, and the
    /// unplaced digits are the complement.
    #[verifier::rlimit(50)]
    pub fn as_board(&self) -> (b: Board)
        requires
            self.wf(),
        ensures
            b.wf(),
            forall|k: int|
                0 <= k < self.index as int - self.ticket_start() ==> #[trigger] b.state@[
                self.position_history@[self.ticket_start() + k] as int] == self.number_history@[
                self.ticket_start() + k],
            forall|p: int|
                0 <= p < 9 && (forall|k: int|
                    0 <= k < self.index as int - self.ticket_start()
                        ==> #[trigger] self.position_history@[self.ticket_start() + k] != p)
                    ==> #[trigger] b.state@[p] == HIDDEN,
            b.remaining() + (self.index as int - self.ticket_start()) == 9,
    {
        let start = self.ticket_start_exec();
        let ghost ts = self.ticket_start();
        let mut cells: [u8; 9] = [HIDDEN; 9];
        let mut k = start;
        while k < self.index as usize
            invariant
                self.wf(),
                start == ts,
                ts == self.ticket_start(),
                start <= k <= self.index,
                forall|j: int|
                    ts <= j < k ==> #[trigger] cells@[self.position_history@[j] as int]
                        == self.number_history@[j],
                forall|p: int|
                    0 <= p < 9 && (forall|j: int|
                        ts <= j < k ==> #[trigger] self.position_history@[j] != p) ==> cells@[p]
                        == HIDDEN,
                forall|p: int|
                    0 <= p < 9 && #[trigger] cells@[p] != HIDDEN ==> exists|j: int|
                        ts <= j < k && self.position_history@[j] == p && cells@[p]
                            == self.number_history@[j],
            decreases self.index as int - k,
        {
            let p = self.position_history[k];
            let v = self.number_history[k];
            cells[p as usize] = v;
            proof {
                assert(self.index as int - ts <= 4);
                assert forall|j: int| ts <= j < k + 1 implies #[trigger] cells@[
                    self.position_history@[j] as int] == self.number_history@[j] by {
                    if j < k {
                        assert(self.position_history@[j] != self.position_history@[k as int]);
                    }
                }
            }
            k = k + 1;
        }
        proof {
            assert(cells_ok(cells@)) by {
                assert forall|a: int, b_: int|
                    0 <= a < 9 && 0 <= b_ < 9 && a != b_ && cells@[a] != HIDDEN implies cells@[a]
                    != cells@[b_] by {
                    if cells@[b_] != HIDDEN {
                        let ja = choose|j: int|
                            ts <= j < k && self.position_history@[j] == a && cells@[a]
                                == self.number_history@[j];
                        let jb = choose|j: int|
                            ts <= j < k && self.position_history@[j] == b_ && cells@[b_]
                                == self.number_history@[j];
                        assert(ja != jb);
                        assert(ja / 4 == jb / 4);
                    }
                }
            }
        }
        let b = match Board::try_new(cells) {
            Ok(b) => b,
            Err(_) => {
                proof {
                    assert(false);
                }
                Board::starting()
            },
        };
        proof {
            assert(b.state@ == cells@);
            lemma_board_of_window(self, b.state@, k as int);
            crate::canon::lemma_revealed_remaining(b.state@);
            assert forall|p: int|
                0 <= p < 9 && (forall|k2: int|
                    0 <= k2 < self.index as int - ts ==> #[trigger] self.position_history@[ts + k2]
                        != p) implies #[trigger] b.state@[p] == HIDDEN by {
                assert forall|j: int|
                    ts <= j < k implies #[trigger] self.position_history@[j] != p by {
                    assert(self.position_history@[ts + (j - ts)] != p);
                }
            }
        }
        b
    }
}

/// Termination measure for undoing: each undone move lowers it.
pub open spec fn game_measure(g: &Game) -> int {
    let posbit: int = if g.index < 12 && g.position_history@[g.index as int] != HIDDEN {
        1
    } else {
        0
    };
    let p0: int = if g.payout_history@[0] != Payout::NoPayout {
        1
    } else {
        0
    };
    let p1: int = if g.payout_history@[1] != Payout::NoPayout {
        1
    } else {
        0
    };
    let p2: int = if g.payout_history@[2] != Payout::NoPayout {
        1
    } else {
        0
    };
    3 * (g.index as int) + posbit + p0 + p1 + p2
}

/// The number of hidden cells of the current ticket's board is nine less the
/// reveals made this ticket: the revealed cells are as many as the window's
/// slots because positions within a ticket are distinct.
proof fn lemma_board_of_window(g: &Game, s: Seq<u8>, k: int)
    requires
        g.wf(),
        cells_ok(s),
        k == g.index as int,
        forall|j: int|
            g.ticket_start() <= j < k ==> #[trigger] s[g.position_history@[j] as int]
                == g.number_history@[j],
        forall|p: int|
            0 <= p < 9 && (forall|j: int|
                g.ticket_start() <= j < k ==> #[trigger] g.position_history@[j] != p) ==> s[p]
                == HIDDEN,
        forall|p: int|
            0 <= p < 9 && #[trigger] s[p] != HIDDEN ==> exists|j: int|
                g.ticket_start() <= j < k && g.position_history@[j] == p && s[p]
                    == g.number_history@[j],
    ensures
        crate::canon::revealed_prefix(s, 9) == k - g.ticket_start(),
{
    let ts = g.ticket_start();
    lemma_window_cells_all(g, s, k, 9);
    lemma_count_slots_full(g, ts, k);
}

/// Every slot of the window chose a cell of the board, so all of them count.
proof fn lemma_count_slots_full(g: &Game, j: int, k: int)
    requires
        g.wf(),
        g.ticket_start() <= j <= k,
        k == g.index as int,
    ensures
        count_slots_in(g, j, k, 9) == k - j,
    decreases k - j,
{
    if j < k {
        lemma_count_slots_full(g, j + 1, k);
        assert(g.position_history@[j] < 9);
    }
}

/// Counts the revealed cells of `s` below `p` against the window slots whose
/// position lies below `p`.
proof fn lemma_window_cells_all(g: &Game, s: Seq<u8>, k: int, p: int)
    requires
        g.wf(),
        cells_ok(s),
        k == g.index as int,
        g.ticket_start() <= k,
        forall|j: int|
            g.ticket_start() <= j < k ==> #[trigger] s[g.position_history@[j] as int]
                == g.number_history@[j],
        forall|p0: int|
            0 <= p0 < 9 && (forall|j: int|
                g.ticket_start() <= j < k ==> #[trigger] g.position_history@[j] != p0) ==> s[p0]
                == HIDDEN,
        0 <= p <= 9,
    ensures
        crate::canon::revealed_prefix(s, p) == count_slots_below(g, k, p),
    decreases p,
{
    if p == 0 {
        lemma_count_slots_zero(g, g.ticket_start(), k);
    } else {
        lemma_window_cells_all(g, s, k, p - 1);
        lemma_count_slots_step(g, g.ticket_start(), k, p);
        if s[p - 1] != HIDDEN {
            assert(exists|j: int|
                g.ticket_start() <= j < k && #[trigger] g.position_history@[j] == p - 1) by {
                if forall|j: int|
                    g.ticket_start() <= j < k ==> #[trigger] g.position_history@[j] != p - 1 {
                    assert(s[p - 1] == HIDDEN);
                }
            }
        } else {
            assert(forall|j: int|
                g.ticket_start() <= j < k ==> #[trigger] g.position_history@[j] != p - 1) by {
                assert forall|j: int|
                    g.ticket_start() <= j < k implies #[trigger] g.position_history@[j] != p
                    - 1 by {
                    if g.position_history@[j] == p - 1 {
                        assert(s[p - 1] == g.number_history@[j]);
                        assert(g.number_history@[j] < 9);
                    }
                }
            }
        }
    }
}

/// Number of window slots whose chosen position lies below cell `p`, counted
/// slot by slot.
spec fn count_slots_in(g: &Game, j: int, k: int, p: int) -> int
    decreases k - j,
{
    if j >= k {
        0
    } else {
        count_slots_in(g, j + 1, k, p) + (if g.position_history@[j] < p {
            1int
        } else {
            0int
        })
    }
}

/// Number of window slots whose chosen position lies below cell `p`.
spec fn count_slots_below(g: &Game, k: int, p: int) -> int {
    count_slots_in(g, g.ticket_start(), k, p)
}

/// Counting the slots below `p` grows by one exactly when some slot chose
/// cell `p - 1`: within a ticket the chosen positions are distinct.
proof fn lemma_count_slots_step(g: &Game, j: int, k: int, p: int)
    requires
        g.wf(),
        g.ticket_start() <= j <= k,
        k == g.index as int,
        1 <= p <= 9,
    ensures
        count_slots_in(g, j, k, p) == count_slots_in(g, j, k, p - 1) + (if exists|j0: int|
            j <= j0 < k && #[trigger] g.position_history@[j0] == p - 1 {
            1int
        } else {
            0int
        }),
    decreases k - j,
{
    if j < k {
        lemma_count_slots_step(g, j + 1, k, p);
        if g.position_history@[j as int] == p - 1 {
            assert forall|j0: int| j + 1 <= j0 < k implies #[trigger] g.position_history@[j0] != p
                - 1 by {
                assert(j / 4 == j0 / 4) by {
                    assert(g.ticket_start() <= j < j0 < g.index as int);
                    lemma_window_same_group(g, j, j0);
                }
            }
        }
    }
}

/// A slot in the same ticket group as slot `i` and before it lies in the
/// window that starts the group.
proof fn lemma_group_window(i: int, j: int)
    requires
        0 <= j < i,
        j / 4 == i / 4,
    ensures
        i - i % 4 <= j,
{
    assert(j >= 4 * (j / 4) && i % 4 == i - 4 * (i / 4)) by (nonlinear_arith);
}

/// No chosen position lies below cell 0.
proof fn lemma_count_slots_zero(g: &Game, j: int, k: int)
    ensures
        count_slots_in(g, j, k, 0) == 0,
    decreases k - j,
{
    if j < k {
        lemma_count_slots_zero(g, j + 1, k);
    }
}

/// Two slots of the current window belong to the same ticket group.
proof fn lemma_window_same_group(g: &Game, a: int, b: int)
    requires
        g.ticket_start() <= a <= b < g.index as int,
        g.index <= 12,
    ensures
        a / 4 == b / 4,
{
    let ts = g.ticket_start();
    assert(b < ts + 4);
    assert(ts % 4 == 0);
}

} // verus!

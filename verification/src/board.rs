//! The 3x3 grid state machine: cell storage, move application,
//! terminal-condition detection, and enumeration of legal moves.

use vstd::prelude::*;
use crate::mark::{Mark, reverse_of};
use crate::outcome::Outcome;

verus! {

/// The cell at row `i`, column `j` of a board stored in row-major order.
pub open spec fn at3(s: Seq<Option<Mark>>, i: int, j: int) -> Option<Mark> {
    s[i * 3 + j]
}

/// Some row, column or diagonal is completely filled with `m`.
pub open spec fn wins(s: Seq<Option<Mark>>, m: Mark) -> bool {
    ||| (s[0] == Some(m) && s[1] == Some(m) && s[2] == Some(m))
    ||| (s[3] == Some(m) && s[4] == Some(m) && s[5] == Some(m))
    ||| (s[6] == Some(m) && s[7] == Some(m) && s[8] == Some(m))
    ||| (s[0] == Some(m) && s[3] == Some(m) && s[6] == Some(m))
    ||| (s[1] == Some(m) && s[4] == Some(m) && s[7] == Some(m))
    ||| (s[2] == Some(m) && s[5] == Some(m) && s[8] == Some(m))
    ||| (s[0] == Some(m) && s[4] == Some(m) && s[8] == Some(m))
    ||| (s[2] == Some(m) && s[4] == Some(m) && s[6] == Some(m))
}

/// Every cell is occupied.
pub open spec fn full(s: Seq<Option<Mark>>) -> bool {
    forall|k: int| 0 <= k < 9 ==> s[k] is Some
}

/// The terminal state of a grid: a victory if some line is complete
/// (a complete line of X takes precedence, as move application checks
/// X first), a draw if the grid is full without a line, and `None`
/// while the game is undecided.
pub open spec fn outcome_of(s: Seq<Option<Mark>>) -> Option<Outcome> {
    if wins(s, Mark::Cross) {
        Some(Outcome::Victory(Mark::Cross))
    } else if wins(s, Mark::Nought) {
        Some(Outcome::Victory(Mark::Nought))
    } else if full(s) {
        Some(Outcome::Draw)
    } else {
        None
    }
}

/// The number of empty cells among the first `k`.
pub open spec fn empties_upto(s: Seq<Option<Mark>>, k: int) -> nat
    decreases k,
{
    if k <= 0 {
        0
    } else {
        empties_upto(s, k - 1) + (if s[k - 1] is None { 1nat } else { 0nat })
    }
}

/// The number of empty cells of a full-size grid.
pub open spec fn empties(s: Seq<Option<Mark>>) -> nat {
    empties_upto(s, 9)
}

/// The legal moves among the first `k` cells, as (row, column) pairs
/// in row-major order.
pub open spec fn options_upto(s: Seq<Option<Mark>>, k: int) -> Seq<(usize, usize)>
    decreases k,
{
    if k <= 0 {
        Seq::empty()
    } else if s[k - 1] is None {
        options_upto(s, k - 1).push(((((k - 1) / 3) as usize), (((k - 1) % 3) as usize)))
    } else {
        options_upto(s, k - 1)
    }
}

/// All legal moves of a grid in row-major order.
pub open spec fn options_of(s: Seq<Option<Mark>>) -> Seq<(usize, usize)> {
    options_upto(s, 9)
}

/// `p` is a legal move on `s`: in range and aimed at an empty cell.
pub open spec fn is_option(s: Seq<Option<Mark>>, p: (usize, usize)) -> bool {
    p.0 < 3 && p.1 < 3 && s[p.0 * 3 + p.1] is None
}

/// Occupying an empty cell lowers the empty-cell count by one.
pub proof fn lemma_empties_update(s: Seq<Option<Mark>>, p: int, m: Mark, k: int)
    requires
        0 <= p < s.len(),
        s[p] is None,
        0 <= k <= s.len(),
    ensures
        empties_upto(s.update(p, Some(m)), k) + (if p < k { 1nat } else { 0nat })
            == empties_upto(s, k),
    decreases k,
{
    if k > 0 {
        lemma_empties_update(s, p, m, k - 1);
    }
}

/// The legal-move list holds exactly the in-range empty positions.
pub proof fn lemma_options_membership(s: Seq<Option<Mark>>, k: int)
    requires
        0 <= k <= 9,
    ensures
        forall|p: (usize, usize)| #[trigger] options_upto(s, k).contains(p)
            ==> p.0 < 3 && p.1 < 3 && p.0 * 3 + p.1 < k && s[p.0 * 3 + p.1] is None,
        forall|i: usize, j: usize|
            i < 3 && j < 3 && i * 3 + j < k && s[i * 3 + j] is None
            ==> #[trigger] options_upto(s, k).contains((i, j)),
    decreases k,
{
    if k > 0 {
        lemma_options_membership(s, k - 1);
        let prev = options_upto(s, k - 1);
        if s[k - 1] is None {
            let q = ((((k - 1) / 3) as usize), (((k - 1) % 3) as usize));
            let cur = prev.push(q);
            assert forall|p: (usize, usize)| #[trigger] cur.contains(p)
                implies p.0 < 3 && p.1 < 3 && p.0 * 3 + p.1 < k && s[p.0 * 3 + p.1] is None
            by {
                let n = choose|n: int| 0 <= n < cur.len() && cur[n] == p;
                if n < prev.len() {
                    assert(prev.contains(p));
                } else {
                    assert(p == q);
                    assert(p.0 * 3 + p.1 == k - 1);
                }
            };
            assert forall|i: usize, j: usize|
                i < 3 && j < 3 && i * 3 + j < k && s[i * 3 + j] is None
                implies #[trigger] cur.contains((i, j))
            by {
                if i * 3 + j < k - 1 {
                    assert(prev.contains((i, j)));
                    let n = choose|n: int| 0 <= n < prev.len() && prev[n] == (i, j);
                    assert(cur[n] == (i, j));
                } else {
                    assert(i * 3 + j == k - 1);
                    assert(i == q.0 && j == q.1);
                    assert(cur[cur.len() - 1] == (i, j));
                }
            };
        }
    }
}

/// The legal-move list ascends strictly in row-major cell order, and
/// every listed cell index is below `k`.
pub proof fn lemma_options_sorted(s: Seq<Option<Mark>>, k: int)
    requires
        0 <= k <= 9,
    ensures
        forall|n: int| 0 <= n < options_upto(s, k).len()
            ==> (#[trigger] options_upto(s, k)[n]).0 * 3 + options_upto(s, k)[n].1 < k,
        forall|n1: int, n2: int| 0 <= n1 < n2 < options_upto(s, k).len()
            ==> (#[trigger] options_upto(s, k)[n1]).0 * 3 + options_upto(s, k)[n1].1
                < (#[trigger] options_upto(s, k)[n2]).0 * 3 + options_upto(s, k)[n2].1,
    decreases k,
{
    if k > 0 {
        lemma_options_sorted(s, k - 1);
        let prev = options_upto(s, k - 1);
        if s[k - 1] is None {
            let q = ((((k - 1) / 3) as usize), (((k - 1) % 3) as usize));
            let cur = prev.push(q);
            assert(q.0 * 3 + q.1 == k - 1);
            assert(forall|n: int| 0 <= n < prev.len() ==> cur[n] == prev[n]);
            assert(cur[cur.len() - 1] == q);
        }
    }
}

/// The 3x3 board: cells in row-major order, the cached terminal
/// outcome, and the mark whose turn is next.
pub struct Board {
    pub tiles: Vec<Option<Mark>>,
    pub outcome: Option<Outcome>,
    pub turn: Mark,
}

/// Structural equality of board values.
pub open spec fn board_like(a: Board, b: Board) -> bool {
    a.tiles@ == b.tiles@ && a.outcome == b.outcome && a.turn == b.turn
}

impl Board {
    /// The grid has nine cells and the cached outcome is the terminal
    /// state of those cells: set if and only if some line is complete
    /// or the grid is full.
    pub open spec fn wf(self) -> bool {
        self.tiles@.len() == 9 && self.outcome == outcome_of(self.tiles@)
    }

    /// An all-empty board whose first mover is `start`.
    pub fn empty(start: Mark) -> (r: Board)
        ensures
            r.wf(),
            r.tiles@.len() == 9,
            forall|k: int| 0 <= k < 9 ==> r.tiles@[k] is None,
            r.outcome is None,
            r.turn == start,
    {
        let mut tiles: Vec<Option<Mark>> = Vec::new();
        let mut k: usize = 0;
        while k < 9
            invariant
                k <= 9,
                tiles@.len() == k,
                forall|n: int| 0 <= n < k ==> tiles@[n] is None,
            decreases 9 - k,
        {
            tiles.push(None);
            k += 1;
        }
        Board { tiles, outcome: None, turn: start }
    }

    /// The number of occupied cells.
    pub fn count(&self) -> (r: usize)
        requires
            self.tiles@.len() == 9,
        ensures
            r + empties(self.tiles@) == 9,
    {
        let mut r: usize = 0;
        let mut k: usize = 0;
        while k < 9
            invariant
                k <= 9,
                self.tiles@.len() == 9,
                r + empties_upto(self.tiles@, k as int) == k,
            decreases 9 - k,
        {
            match self.tiles[k] {
                Some(_) => {
                    r += 1;
                },
                None => {},
            }
            k += 1;
        }
        r
    }

    /// The cached terminal outcome, absent while the game is undecided.
    pub fn get_outcome(&self) -> (r: &Option<Outcome>)
        ensures
            *r == self.outcome,
    {
        &self.outcome
    }

    /// The mark whose turn is next.
    pub fn get_turn(&self) -> (r: &Mark)
        ensures
            *r == self.turn,
    {
        &self.turn
    }

    /// An identical copy of this board.
    pub fn duplicate(&self) -> (r: Board)
        requires
            self.tiles@.len() == 9,
        ensures
            board_like(r, *self),
            r.tiles@.len() == 9,
    {
        let mut tiles: Vec<Option<Mark>> = Vec::new();
        let mut k: usize = 0;
        while k < 9
            invariant
                k <= 9,
                self.tiles@.len() == 9,
                tiles@.len() == k,
                forall|n: int| 0 <= n < k ==> tiles@[n] == self.tiles@[n],
            decreases 9 - k,
        {
            tiles.push(self.tiles[k]);
            k += 1;
        }
        proof {
            assert(tiles@ =~= self.tiles@);
        }
        Board { tiles, outcome: self.outcome, turn: self.turn }
    }

    /// The cell at index `k` holds `m`.
    fn cell_is(&self, k: usize, m: Mark) -> (r: bool)
        requires
            self.tiles@.len() == 9,
            k < 9,
        ensures
            r == (self.tiles@[k as int] == Some(m)),
    {
        match self.tiles[k] {
            Some(x) => x == m,
            None => false,
        }
    }

    /// Some row, column or diagonal is completely filled with `m`.
    fn has_line(&self, m: Mark) -> (r: bool)
        requires
            self.tiles@.len() == 9,
        ensures
            r == wins(self.tiles@, m),
    {
        (self.cell_is(0, m) && self.cell_is(1, m) && self.cell_is(2, m))
            || (self.cell_is(3, m) && self.cell_is(4, m) && self.cell_is(5, m))
            || (self.cell_is(6, m) && self.cell_is(7, m) && self.cell_is(8, m))
            || (self.cell_is(0, m) && self.cell_is(3, m) && self.cell_is(6, m))
            || (self.cell_is(1, m) && self.cell_is(4, m) && self.cell_is(7, m))
            || (self.cell_is(2, m) && self.cell_is(5, m) && self.cell_is(8, m))
            || (self.cell_is(0, m) && self.cell_is(4, m) && self.cell_is(8, m))
            || (self.cell_is(2, m) && self.cell_is(4, m) && self.cell_is(6, m))
    }

    /// Every cell is occupied.
    fn is_full(&self) -> (r: bool)
        requires
            self.tiles@.len() == 9,
        ensures
            r == full(self.tiles@),
    {
        let mut k: usize = 0;
        while k < 9
            invariant
                k <= 9,
                self.tiles@.len() == 9,
                forall|n: int| 0 <= n < k ==> self.tiles@[n] is Some,
            decreases 9 - k,
        {
            match self.tiles[k] {
                None => {
                    return false;
                },
                Some(_) => {},
            }
            k += 1;
        }
        true
    }

    /// Place `mark` on the empty cell `pos`, recompute the terminal
    /// state, and pass the turn to the other mark.
    pub fn set(&mut self, pos: (usize, usize), mark: Mark)
        requires
            old(self).wf(),
            is_option(old(self).tiles@, pos),
        ensures
            final(self).wf(),
            final(self).tiles@ == old(self).tiles@.update(pos.0 * 3 + pos.1, Some(mark)),
            final(self).turn == reverse_of(mark),
            final(self).outcome == outcome_of(final(self).tiles@),
    {
        let k = pos.0 * 3 + pos.1;
        self.tiles.set(k, Some(mark));
        if self.has_line(Mark::Cross) {
            self.outcome = Some(Outcome::Victory(Mark::Cross));
        } else if self.has_line(Mark::Nought) {
            self.outcome = Some(Outcome::Victory(Mark::Nought));
        } else if self.is_full() {
            self.outcome = Some(Outcome::Draw);
        } else {
            self.outcome = None;
        }
        self.turn = mark.reverse();
    }

    /// All currently-empty cell coordinates in row-major order.
    pub fn get_options(&self) -> (r: Vec<(usize, usize)>)
        requires
            self.tiles@.len() == 9,
        ensures
            r@ == options_of(self.tiles@),
            forall|n: int| 0 <= n < r@.len() ==> is_option(self.tiles@, r@[n]),
            forall|p: (usize, usize)| is_option(self.tiles@, p) ==> r@.contains(p),
    {
        let mut r: Vec<(usize, usize)> = Vec::new();
        let mut k: usize = 0;
        while k < 9
            invariant
                k <= 9,
                self.tiles@.len() == 9,
                r@ == options_upto(self.tiles@, k as int),
            decreases 9 - k,
        {
            match self.tiles[k] {
                None => {
                    r.push((k / 3, k % 3));
                },
                Some(_) => {},
            }
            k += 1;
        }
        proof {
            lemma_options_membership(self.tiles@, 9);
            assert forall|n: int| 0 <= n < r@.len() implies is_option(self.tiles@, r@[n]) by {
                assert(r@.contains(r@[n]));
            };
        }
        r
    }
}

/// The two board values are equal in every field.
pub(crate) fn boards_eq(a: &Board, b: &Board) -> (r: bool)
    requires
        a.tiles@.len() == 9,
        b.tiles@.len() == 9,
    ensures
        r == board_like(*a, *b),
{
    let mut k: usize = 0;
    while k < 9
        invariant
            k <= 9,
            a.tiles@.len() == 9,
            b.tiles@.len() == 9,
            forall|n: int| 0 <= n < k ==> a.tiles@[n] == b.tiles@[n],
        decreases 9 - k,
    {
        let same = match (a.tiles[k], b.tiles[k]) {
            (None, None) => true,
            (Some(x), Some(y)) => x == y,
            _ => false,
        };
        if !same {
            assert(a.tiles@[k as int] != b.tiles@[k as int]);
            return false;
        }
        k += 1;
    }
    proof {
        assert(a.tiles@ =~= b.tiles@);
    }
    let outcome_same = match (a.outcome, b.outcome) {
        (None, None) => true,
        (Some(Outcome::Draw), Some(Outcome::Draw)) => true,
        (Some(Outcome::Victory(x)), Some(Outcome::Victory(y))) => x == y,
        _ => false,
    };
    outcome_same && a.turn == b.turn
}

} // verus!

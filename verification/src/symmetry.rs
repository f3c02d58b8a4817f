//! The eight images of a board under the dihedral group of the square,
//! generated by alternating transposition and column reversal, and the
//! proof that these transformations never alter the terminal state.

use vstd::prelude::*;
use crate::mark::Mark;
use crate::board::{Board, at3, wins, full, outcome_of};

verus! {

/// The grid mirrored along the main diagonal: row `i`, column `j`
/// reads what was at row `j`, column `i`.
pub open spec fn transpose_of(s: Seq<Option<Mark>>) -> Seq<Option<Mark>> {
    Seq::new(9, |k: int| s[(k % 3) * 3 + k / 3])
}

/// Every column reversed: row `i`, column `j` reads what was at row
/// `2 - i`, column `j`.
pub open spec fn revcols_of(s: Seq<Option<Mark>>) -> Seq<Option<Mark>> {
    Seq::new(9, |k: int| s[(2 - k / 3) * 3 + k % 3])
}

/// The board after `n + 1` steps of the alternating walk
/// transpose, reverse-columns, transpose, ... started at `s`.
/// The eight states for `n` in `[0, 8)` enumerate the full group;
/// the last one returns to `s`.
pub open spec fn orbit_elem(s: Seq<Option<Mark>>, n: int) -> Seq<Option<Mark>>
    decreases n,
{
    if n <= 0 {
        transpose_of(s)
    } else if n % 2 == 1 {
        revcols_of(orbit_elem(s, n - 1))
    } else {
        transpose_of(orbit_elem(s, n - 1))
    }
}

/// The source row of the cell that lands at row `i`, column `j` of the
/// `n`-th orbit image.
pub open spec fn sig_r(n: int, i: int, j: int) -> int {
    if n == 0 {
        j
    } else if n == 1 {
        j
    } else if n == 2 {
        i
    } else if n == 3 {
        2 - i
    } else if n == 4 {
        2 - j
    } else if n == 5 {
        2 - j
    } else if n == 6 {
        2 - i
    } else {
        i
    }
}

/// The source column of the cell that lands at row `i`, column `j` of
/// the `n`-th orbit image.
pub open spec fn sig_c(n: int, i: int, j: int) -> int {
    if n == 0 {
        i
    } else if n == 1 {
        2 - i
    } else if n == 2 {
        2 - j
    } else if n == 3 {
        2 - j
    } else if n == 4 {
        2 - i
    } else if n == 5 {
        i
    } else if n == 6 {
        j
    } else {
        j
    }
}

/// The walk step that undoes step `n`.
pub open spec fn inverse_step(n: int) -> int {
    if n == 1 {
        5
    } else if n == 5 {
        1
    } else {
        n
    }
}

pub proof fn lemma_transpose_cells(s: Seq<Option<Mark>>)
    requires
        s.len() == 9,
    ensures
        transpose_of(s).len() == 9,
        forall|i: int, j: int| 0 <= i < 3 && 0 <= j < 3
            ==> #[trigger] at3(transpose_of(s), i, j) == at3(s, j, i),
{
    assert forall|i: int, j: int| 0 <= i < 3 && 0 <= j < 3
        implies #[trigger] at3(transpose_of(s), i, j) == at3(s, j, i)
    by {
        let k = i * 3 + j;
        assert(k / 3 == i && k % 3 == j);
        assert(transpose_of(s)[k] == s[(k % 3) * 3 + k / 3]);
    };
}

pub proof fn lemma_revcols_cells(s: Seq<Option<Mark>>)
    requires
        s.len() == 9,
    ensures
        revcols_of(s).len() == 9,
        forall|i: int, j: int| 0 <= i < 3 && 0 <= j < 3
            ==> #[trigger] at3(revcols_of(s), i, j) == at3(s, 2 - i, j),
{
    assert forall|i: int, j: int| 0 <= i < 3 && 0 <= j < 3
        implies #[trigger] at3(revcols_of(s), i, j) == at3(s, 2 - i, j)
    by {
        let k = i * 3 + j;
        assert(k / 3 == i && k % 3 == j);
        assert(revcols_of(s)[k] == s[(2 - k / 3) * 3 + k % 3]);
    };
}

/// Transposition preserves complete lines, fullness, and therefore the
/// terminal state.
pub proof fn lemma_outcome_transpose(s: Seq<Option<Mark>>)
    requires
        s.len() == 9,
    ensures
        transpose_of(s).len() == 9,
        forall|m: Mark| #[trigger] wins(transpose_of(s), m) == wins(s, m),
        full(transpose_of(s)) == full(s),
        outcome_of(transpose_of(s)) == outcome_of(s),
{
    let t = transpose_of(s);
    assert(t[0] == s[0] && t[1] == s[3] && t[2] == s[6]);
    assert(t[3] == s[1] && t[4] == s[4] && t[5] == s[7]);
    assert(t[6] == s[2] && t[7] == s[5] && t[8] == s[8]);
    assert forall|m: Mark| #[trigger] wins(t, m) == wins(s, m) by {};
    assert(full(t) == full(s)) by {
        if full(s) {
            assert forall|k: int| 0 <= k < 9 implies t[k] is Some by {
                assert(s[(k % 3) * 3 + k / 3] is Some);
            };
        }
        if full(t) {
            assert forall|k: int| 0 <= k < 9 implies s[k] is Some by {
                assert(t[(k % 3) * 3 + k / 3] is Some);
                assert(t[(k % 3) * 3 + k / 3] == s[k]);
            };
        }
    };
}

/// Column reversal preserves complete lines, fullness, and therefore
/// the terminal state.
pub proof fn lemma_outcome_revcols(s: Seq<Option<Mark>>)
    requires
        s.len() == 9,
    ensures
        revcols_of(s).len() == 9,
        forall|m: Mark| #[trigger] wins(revcols_of(s), m) == wins(s, m),
        full(revcols_of(s)) == full(s),
        outcome_of(revcols_of(s)) == outcome_of(s),
{
    let t = revcols_of(s);
    assert(t[0] == s[6] && t[1] == s[7] && t[2] == s[8]);
    assert(t[3] == s[3] && t[4] == s[4] && t[5] == s[5]);
    assert(t[6] == s[0] && t[7] == s[1] && t[8] == s[2]);
    assert forall|m: Mark| #[trigger] wins(t, m) == wins(s, m) by {};
    assert(full(t) == full(s)) by {
        if full(s) {
            assert forall|k: int| 0 <= k < 9 implies t[k] is Some by {
                assert(s[(2 - k / 3) * 3 + k % 3] is Some);
            };
        }
        if full(t) {
            assert forall|k: int| 0 <= k < 9 implies s[k] is Some by {
                assert(t[(2 - k / 3) * 3 + k % 3] is Some);
                assert(t[(2 - k / 3) * 3 + k % 3] == s[k]);
            };
        }
    };
}

/// No image of a board under the eight-element symmetry group changes
/// its terminal classification: a win stays a win for the same mark,
/// a draw stays a draw, an undecided board stays undecided.
pub proof fn lemma_symmetry_preserves_outcome(s: Seq<Option<Mark>>, n: int)
    requires
        s.len() == 9,
        0 <= n < 8,
    ensures
        orbit_elem(s, n).len() == 9,
        outcome_of(orbit_elem(s, n)) == outcome_of(s),
    decreases n,
{
    if n == 0 {
        lemma_outcome_transpose(s);
    } else {
        lemma_symmetry_preserves_outcome(s, n - 1);
        let prev = orbit_elem(s, n - 1);
        if n % 2 == 1 {
            lemma_outcome_revcols(prev);
        } else {
            lemma_outcome_transpose(prev);
        }
    }
}

/// Closed form of each orbit image: cell (i, j) of image `n` is cell
/// (sig_r(n, i, j), sig_c(n, i, j)) of the original.
pub proof fn lemma_orbit_cells(s: Seq<Option<Mark>>, n: int)
    requires
        s.len() == 9,
        0 <= n < 8,
    ensures
        orbit_elem(s, n).len() == 9,
        forall|i: int, j: int| 0 <= i < 3 && 0 <= j < 3
            ==> #[trigger] at3(orbit_elem(s, n), i, j) == at3(s, sig_r(n, i, j), sig_c(n, i, j)),
    decreases n,
{
    if n == 0 {
        lemma_transpose_cells(s);
    } else {
        lemma_orbit_cells(s, n - 1);
        let prev = orbit_elem(s, n - 1);
        if n % 2 == 1 {
            lemma_revcols_cells(prev);
            assert forall|i: int, j: int| 0 <= i < 3 && 0 <= j < 3
                implies #[trigger] at3(orbit_elem(s, n), i, j)
                    == at3(s, sig_r(n, i, j), sig_c(n, i, j))
            by {
                assert(at3(revcols_of(prev), i, j) == at3(prev, 2 - i, j));
                assert(at3(prev, 2 - i, j) == at3(s, sig_r(n - 1, 2 - i, j), sig_c(n - 1, 2 - i, j)));
            };
        } else {
            lemma_transpose_cells(prev);
            assert forall|i: int, j: int| 0 <= i < 3 && 0 <= j < 3
                implies #[trigger] at3(orbit_elem(s, n), i, j)
                    == at3(s, sig_r(n, i, j), sig_c(n, i, j))
            by {
                assert(at3(transpose_of(prev), i, j) == at3(prev, j, i));
                assert(at3(prev, j, i) == at3(s, sig_r(n - 1, j, i), sig_c(n - 1, j, i)));
            };
        }
    }
}

/// The eighth step of the walk returns to the original board: the
/// alternating sequence is a closed walk over the group.
pub proof fn lemma_orbit_identity(s: Seq<Option<Mark>>)
    requires
        s.len() == 9,
    ensures
        orbit_elem(s, 7) == s,
{
    lemma_orbit_cells(s, 7);
    assert forall|k: int| 0 <= k < 9 implies orbit_elem(s, 7)[k] == s[k] by {
        let i = k / 3;
        let j = k % 3;
        assert(at3(orbit_elem(s, 7), i, j) == at3(s, sig_r(7, i, j), sig_c(7, i, j)));
    };
    assert(orbit_elem(s, 7) =~= s);
}

/// Every step of the walk has an undoing step: whenever `t` is an
/// image of `s`, `s` is also an image of `t`.
pub proof fn lemma_orbit_inverse(s: Seq<Option<Mark>>, n: int)
    requires
        s.len() == 9,
        0 <= n < 8,
    ensures
        0 <= inverse_step(n) < 8,
        orbit_elem(orbit_elem(s, n), inverse_step(n)) == s,
{
    let t = orbit_elem(s, n);
    let n2 = inverse_step(n);
    lemma_orbit_cells(s, n);
    lemma_orbit_cells(t, n2);
    assert forall|k: int| 0 <= k < 9 implies orbit_elem(t, n2)[k] == s[k] by {
        let i = k / 3;
        let j = k % 3;
        assert(at3(orbit_elem(t, n2), i, j) == at3(t, sig_r(n2, i, j), sig_c(n2, i, j)));
        assert(at3(t, sig_r(n2, i, j), sig_c(n2, i, j))
            == at3(s, sig_r(n, sig_r(n2, i, j), sig_c(n2, i, j)),
                   sig_c(n, sig_r(n2, i, j), sig_c(n2, i, j))));
        assert(sig_r(n, sig_r(n2, i, j), sig_c(n2, i, j)) == i);
        assert(sig_c(n, sig_r(n2, i, j), sig_c(n2, i, j)) == j);
    };
    assert(orbit_elem(t, n2) =~= s);
}

/// The walk step equal to step `g2` taken after step `g1`.
pub open spec fn compose_step(g1: int, g2: int) -> int {
    if g1 == 0 {
        if g2 == 0 {
            7
        } else if g2 == 1 {
            6
        } else if g2 == 2 {
            5
        } else if g2 == 3 {
            4
        } else if g2 == 4 {
            3
        } else if g2 == 5 {
            2
        } else if g2 == 6 {
            1
        } else {
            0
        }
    } else if g1 == 1 {
        if g2 == 0 {
            2
        } else if g2 == 1 {
            3
        } else if g2 == 2 {
            4
        } else if g2 == 3 {
            5
        } else if g2 == 4 {
            6
        } else if g2 == 5 {
            7
        } else if g2 == 6 {
            0
        } else {
            1
        }
    } else if g1 == 2 {
        if g2 == 0 {
            1
        } else if g2 == 1 {
            0
        } else if g2 == 2 {
            7
        } else if g2 == 3 {
            6
        } else if g2 == 4 {
            5
        } else if g2 == 5 {
            4
        } else if g2 == 6 {
            3
        } else {
            2
        }
    } else if g1 == 3 {
        if g2 == 0 {
            4
        } else if g2 == 1 {
            5
        } else if g2 == 2 {
            6
        } else if g2 == 3 {
            7
        } else if g2 == 4 {
            0
        } else if g2 == 5 {
            1
        } else if g2 == 6 {
            2
        } else {
            3
        }
    } else if g1 == 4 {
        if g2 == 0 {
            3
        } else if g2 == 1 {
            2
        } else if g2 == 2 {
            1
        } else if g2 == 3 {
            0
        } else if g2 == 4 {
            7
        } else if g2 == 5 {
            6
        } else if g2 == 6 {
            5
        } else {
            4
        }
    } else if g1 == 5 {
        if g2 == 0 {
            6
        } else if g2 == 1 {
            7
        } else if g2 == 2 {
            0
        } else if g2 == 3 {
            1
        } else if g2 == 4 {
            2
        } else if g2 == 5 {
            3
        } else if g2 == 6 {
            4
        } else {
            5
        }
    } else if g1 == 6 {
        if g2 == 0 {
            5
        } else if g2 == 1 {
            4
        } else if g2 == 2 {
            3
        } else if g2 == 3 {
            2
        } else if g2 == 4 {
            1
        } else if g2 == 5 {
            0
        } else if g2 == 6 {
            7
        } else {
            6
        }
    } else {
        if g2 == 0 {
            0
        } else if g2 == 1 {
            1
        } else if g2 == 2 {
            2
        } else if g2 == 3 {
            3
        } else if g2 == 4 {
            4
        } else if g2 == 5 {
            5
        } else if g2 == 6 {
            6
        } else {
            7
        }
    }
}

/// The walk step whose image is the transposition of step `h`'s image.
pub open spec fn step_t(h: int) -> int {
    if h == 0 {
        7
    } else if h == 1 {
        2
    } else if h == 2 {
        1
    } else if h == 3 {
        4
    } else if h == 4 {
        3
    } else if h == 5 {
        6
    } else if h == 6 {
        5
    } else {
        0
    }
}

/// The walk step whose image is the column reversal of step `h`'s
/// image.
pub open spec fn step_r(h: int) -> int {
    if h == 0 {
        1
    } else if h == 1 {
        0
    } else if h == 2 {
        3
    } else if h == 3 {
        2
    } else if h == 4 {
        5
    } else if h == 5 {
        4
    } else if h == 6 {
        7
    } else {
        6
    }
}

proof fn lemma_step_transpose(s: Seq<Option<Mark>>, h: int)
    requires
        s.len() == 9,
        0 <= h < 8,
    ensures
        0 <= step_t(h) < 8,
        transpose_of(orbit_elem(s, h)) == orbit_elem(s, step_t(h)),
{
    lemma_orbit_cells(s, h);
    lemma_orbit_cells(s, step_t(h));
    lemma_transpose_cells(orbit_elem(s, h));
    assert forall|k: int| 0 <= k < 9
        implies transpose_of(orbit_elem(s, h))[k] == orbit_elem(s, step_t(h))[k]
    by {
        let i = k / 3;
        let j = k % 3;
        assert(at3(transpose_of(orbit_elem(s, h)), i, j) == at3(orbit_elem(s, h), j, i));
        assert(at3(orbit_elem(s, h), j, i) == at3(s, sig_r(h, j, i), sig_c(h, j, i)));
        assert(at3(orbit_elem(s, step_t(h)), i, j)
            == at3(s, sig_r(step_t(h), i, j), sig_c(step_t(h), i, j)));
        assert(sig_r(h, j, i) == sig_r(step_t(h), i, j));
        assert(sig_c(h, j, i) == sig_c(step_t(h), i, j));
    };
    assert(transpose_of(orbit_elem(s, h)) =~= orbit_elem(s, step_t(h)));
}

proof fn lemma_step_revcols(s: Seq<Option<Mark>>, h: int)
    requires
        s.len() == 9,
        0 <= h < 8,
    ensures
        0 <= step_r(h) < 8,
        revcols_of(orbit_elem(s, h)) == orbit_elem(s, step_r(h)),
{
    lemma_orbit_cells(s, h);
    lemma_orbit_cells(s, step_r(h));
    lemma_revcols_cells(orbit_elem(s, h));
    assert forall|k: int| 0 <= k < 9
        implies revcols_of(orbit_elem(s, h))[k] == orbit_elem(s, step_r(h))[k]
    by {
        let i = k / 3;
        let j = k % 3;
        assert(at3(revcols_of(orbit_elem(s, h)), i, j) == at3(orbit_elem(s, h), 2 - i, j));
        assert(at3(orbit_elem(s, h), 2 - i, j) == at3(s, sig_r(h, 2 - i, j), sig_c(h, 2 - i, j)));
        assert(at3(orbit_elem(s, step_r(h)), i, j)
            == at3(s, sig_r(step_r(h), i, j), sig_c(step_r(h), i, j)));
        assert(sig_r(h, 2 - i, j) == sig_r(step_r(h), i, j));
        assert(sig_c(h, 2 - i, j) == sig_c(step_r(h), i, j));
    };
    assert(revcols_of(orbit_elem(s, h)) =~= orbit_elem(s, step_r(h)));
}

/// The group is closed: two walk steps in a row are one walk step, so
/// an image of an image of `s` is itself an image of `s`.
pub proof fn lemma_orbit_compose(s: Seq<Option<Mark>>, g1: int, g2: int)
    requires
        s.len() == 9,
        0 <= g1 < 8,
        0 <= g2 < 8,
    ensures
        0 <= compose_step(g1, g2) < 8,
        orbit_elem(orbit_elem(s, g1), g2) == orbit_elem(s, compose_step(g1, g2)),
    decreases g2,
{
    let t = orbit_elem(s, g1);
    if g2 == 0 {
        lemma_step_transpose(s, g1);
        assert(compose_step(g1, 0) == step_t(g1));
    } else if g2 % 2 == 1 {
        lemma_orbit_compose(s, g1, g2 - 1);
        lemma_step_revcols(s, compose_step(g1, g2 - 1));
        assert(compose_step(g1, g2) == step_r(compose_step(g1, g2 - 1)));
    } else {
        lemma_orbit_compose(s, g1, g2 - 1);
        lemma_step_transpose(s, compose_step(g1, g2 - 1));
        assert(compose_step(g1, g2) == step_t(compose_step(g1, g2 - 1)));
    }
}

impl Board {
    /// Mirror the grid along the main diagonal; the cached outcome and
    /// the turn are left as they are.
    fn transpose(&mut self)
        requires
            old(self).tiles@.len() == 9,
        ensures
            final(self).tiles@ == transpose_of(old(self).tiles@),
            final(self).tiles@.len() == 9,
            final(self).outcome == old(self).outcome,
            final(self).turn == old(self).turn,
    {
        let orig = self.duplicate();
        let mut k: usize = 0;
        while k < 9
            invariant
                k <= 9,
                self.tiles@.len() == 9,
                orig.tiles@ == old(self).tiles@,
                orig.tiles@.len() == 9,
                self.outcome == old(self).outcome,
                self.turn == old(self).turn,
                forall|n: int| 0 <= n < k
                    ==> self.tiles@[n] == transpose_of(old(self).tiles@)[n],
            decreases 9 - k,
        {
            let m = (k % 3) * 3 + k / 3;
            let v = orig.tiles[m];
            self.tiles.set(k, v);
            k += 1;
        }
        proof {
            assert(self.tiles@ =~= transpose_of(old(self).tiles@));
        }
    }

    /// Reverse the order of every column (flip the grid top to
    /// bottom); the cached outcome and the turn are left as they are.
    fn reverse_columns(&mut self)
        requires
            old(self).tiles@.len() == 9,
        ensures
            final(self).tiles@ == revcols_of(old(self).tiles@),
            final(self).tiles@.len() == 9,
            final(self).outcome == old(self).outcome,
            final(self).turn == old(self).turn,
    {
        let orig = self.duplicate();
        let mut k: usize = 0;
        while k < 9
            invariant
                k <= 9,
                self.tiles@.len() == 9,
                orig.tiles@ == old(self).tiles@,
                orig.tiles@.len() == 9,
                self.outcome == old(self).outcome,
                self.turn == old(self).turn,
                forall|n: int| 0 <= n < k
                    ==> self.tiles@[n] == revcols_of(old(self).tiles@)[n],
            decreases 9 - k,
        {
            let m = (2 - k / 3) * 3 + k % 3;
            let v = orig.tiles[m];
            self.tiles.set(k, v);
            k += 1;
        }
        proof {
            assert(self.tiles@ =~= revcols_of(old(self).tiles@));
        }
    }

    /// The eight images of this board under the symmetry group, in the
    /// order of the alternating walk; the eighth equals the original.
    pub(crate) fn get_permutations(&self) -> (r: Vec<Board>)
        requires
            self.tiles@.len() == 9,
        ensures
            r@.len() == 8,
            forall|n: int| 0 <= n < 8 ==> {
                &&& (#[trigger] r@[n]).tiles@ == orbit_elem(self.tiles@, n)
                &&& r@[n].tiles@.len() == 9
                &&& r@[n].outcome == self.outcome
                &&& r@[n].turn == self.turn
            },
    {
        let mut state = self.duplicate();
        let mut r: Vec<Board> = Vec::new();
        let mut n: usize = 0;
        while n < 8
            invariant
                n <= 8,
                r@.len() == n,
                self.tiles@.len() == 9,
                state.tiles@.len() == 9,
                state.outcome == self.outcome,
                state.turn == self.turn,
                state.tiles@ == if n == 0 {
                    self.tiles@
                } else {
                    orbit_elem(self.tiles@, n - 1)
                },
                forall|m: int| 0 <= m < n ==> {
                    &&& (#[trigger] r@[m]).tiles@ == orbit_elem(self.tiles@, m)
                    &&& r@[m].tiles@.len() == 9
                    &&& r@[m].outcome == self.outcome
                    &&& r@[m].turn == self.turn
                },
            decreases 8 - n,
        {
            if n % 2 == 0 {
                state.transpose();
            } else {
                state.reverse_columns();
            }
            r.push(state.duplicate());
            n += 1;
        }
        r
    }
}

} // verus!

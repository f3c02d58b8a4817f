//! Recursive outcome deduction: the minimax value of a position, the
//! proof that it is invariant under the symmetry group, and the
//! executable search that evaluates only one move per symmetry class
//! yet is proved to return the unpruned minimax value.

use vstd::prelude::*;
use crate::mark::{Mark, reverse_of};
use crate::outcome::{Outcome, RelativeOutcome, ro_le, max_ro, flip_of, relative_of};
use crate::board::{
    Board, board_like, outcome_of, full, empties, is_option, options_of,
    lemma_empties_update, lemma_options_membership, lemma_options_sorted,
};
use crate::symmetry::{
    transpose_of, revcols_of, orbit_elem, inverse_step, compose_step,
    lemma_outcome_transpose, lemma_outcome_revcols, lemma_symmetry_preserves_outcome,
    lemma_orbit_identity, lemma_orbit_inverse, lemma_orbit_compose,
};

verus! {

/// The row-major cell index of a (row, column) position.
pub open spec fn pidx(p: (usize, usize)) -> int {
    p.0 * 3 + p.1
}

/// The grid after `m` moves at `p`.
pub open spec fn child_of(s: Seq<Option<Mark>>, m: Mark, p: (usize, usize)) -> Seq<Option<Mark>> {
    s.update(pidx(p), Some(m))
}

/// The game-theoretic value of grid `s` for the mover `m`: the result
/// `m` can force with optimal play. On a terminal grid it is the
/// terminal outcome seen from `m`'s side; otherwise it is the best,
/// over every legal move with no pruning, of the flipped value the
/// opponent can force on the resulting child.
pub open spec fn value_of(s: Seq<Option<Mark>>, m: Mark) -> RelativeOutcome
    decreases empties(s), 10int,
{
    if s.len() != 9 {
        RelativeOutcome::Loss
    } else {
        match outcome_of(s) {
            Some(o) => relative_of(o, m),
            None => best_from(s, m, 0),
        }
    }
}

/// The best value `m` can reach with a move at cell `k` or later;
/// `Loss` when no such move exists.
pub open spec fn best_from(s: Seq<Option<Mark>>, m: Mark, k: int) -> RelativeOutcome
    decreases empties(s), 9 - k,
    via best_from_decreases
{
    if s.len() != 9 || k < 0 || k >= 9 {
        RelativeOutcome::Loss
    } else if s[k] is None {
        max_ro(
            flip_of(value_of(s.update(k, Some(m)), reverse_of(m))),
            best_from(s, m, k + 1),
        )
    } else {
        best_from(s, m, k + 1)
    }
}

#[via_fn]
proof fn best_from_decreases(s: Seq<Option<Mark>>, m: Mark, k: int) {
    if s.len() == 9 && 0 <= k < 9 && s[k] is None {
        lemma_empties_update(s, k, m, 9);
    }
}

/// The value the mover `m` secures by playing at cell `n` of `s`.
pub open spec fn mv(s: Seq<Option<Mark>>, m: Mark, n: int) -> RelativeOutcome {
    flip_of(value_of(s.update(n, Some(m)), reverse_of(m)))
}

/// The value the mover `m` secures by playing at position `p` of `s`.
pub open spec fn move_value(s: Seq<Option<Mark>>, m: Mark, p: (usize, usize)) -> RelativeOutcome {
    mv(s, m, pidx(p))
}

/// `best_from(s, m, k)` is an upper bound of the values of the moves at
/// cell `k` or later, is attained by one of them when any exists, and
/// is `Loss` when none does.
proof fn lemma_best_from_bounds(s: Seq<Option<Mark>>, m: Mark, k: int)
    requires
        s.len() == 9,
        0 <= k <= 9,
    ensures
        forall|n: int| k <= n < 9 && s[n] is None ==> ro_le(#[trigger] mv(s, m, n), best_from(s, m, k)),
        (exists|n: int| k <= n < 9 && s[n] is None) ==> exists|n: int|
            k <= n < 9 && s[n] is None && #[trigger] mv(s, m, n) == best_from(s, m, k),
        (forall|n: int| k <= n < 9 ==> s[n] is Some) ==> best_from(s, m, k) == RelativeOutcome::Loss,
    decreases 9 - k,
{
    if k < 9 {
        lemma_best_from_bounds(s, m, k + 1);
        if s[k] is None {
            let here = mv(s, m, k);
            let rest = best_from(s, m, k + 1);
            assert(best_from(s, m, k) == max_ro(here, rest));
            if exists|n: int| k + 1 <= n < 9 && s[n] is None {
                let w = choose|n: int|
                    k + 1 <= n < 9 && s[n] is None && mv(s, m, n) == best_from(s, m, k + 1);
                if max_ro(here, rest) == rest && rest != here {
                    assert(mv(s, m, w) == best_from(s, m, k));
                } else {
                    assert(mv(s, m, k) == best_from(s, m, k));
                }
            } else {
                assert(forall|n: int| k + 1 <= n < 9 ==> s[n] is Some);
                assert(rest == RelativeOutcome::Loss);
                assert(max_ro(here, rest) == here);
                assert(mv(s, m, k) == best_from(s, m, k));
            }
        }
    }
}

/// On an undecided grid, the minimax value is an upper bound of every
/// legal move's value and is attained by some legal move.
pub proof fn lemma_value_bounds(s: Seq<Option<Mark>>, m: Mark)
    requires
        s.len() == 9,
        outcome_of(s) is None,
    ensures
        forall|n: int| 0 <= n < 9 && s[n] is None ==> ro_le(#[trigger] mv(s, m, n), value_of(s, m)),
        exists|n: int| 0 <= n < 9 && s[n] is None && #[trigger] mv(s, m, n) == value_of(s, m),
{
    lemma_best_from_bounds(s, m, 0);
    assert(value_of(s, m) == best_from(s, m, 0));
    assert(!full(s));
    let e = choose|n: int| 0 <= n < 9 && !(s[n] is Some);
    assert(s[e] is None);
}

/// The row-major index of the transposed position.
pub open spec fn t_idx(k: int) -> int {
    (k % 3) * 3 + k / 3
}

/// The row-major index of the column-reversed position.
pub open spec fn r_idx(k: int) -> int {
    (2 - k / 3) * 3 + k % 3
}

proof fn lemma_t_idx(k: int)
    requires
        0 <= k < 9,
    ensures
        0 <= t_idx(k) < 9,
        t_idx(t_idx(k)) == k,
        forall|s: Seq<Option<Mark>>| s.len() == 9 ==> #[trigger] transpose_of(s)[k] == s[t_idx(k)],
{
}

proof fn lemma_r_idx(k: int)
    requires
        0 <= k < 9,
    ensures
        0 <= r_idx(k) < 9,
        r_idx(r_idx(k)) == k,
        forall|s: Seq<Option<Mark>>| s.len() == 9 ==> #[trigger] revcols_of(s)[k] == s[r_idx(k)],
{
}

/// Playing at cell `k` and then transposing is the same as transposing
/// and then playing at the transposed cell.
proof fn lemma_update_transpose(s: Seq<Option<Mark>>, k: int, m: Mark)
    requires
        s.len() == 9,
        0 <= k < 9,
    ensures
        transpose_of(s.update(k, Some(m))) == transpose_of(s).update(t_idx(k), Some(m)),
{
    lemma_t_idx(k);
    assert forall|n: int| 0 <= n < 9 implies transpose_of(s.update(k, Some(m)))[n]
        == transpose_of(s).update(t_idx(k), Some(m))[n]
    by {
        lemma_t_idx(n);
        if t_idx(n) == k {
            assert(n == t_idx(k));
        }
        if n == t_idx(k) {
            assert(t_idx(n) == k);
        }
    };
    assert(transpose_of(s.update(k, Some(m))) =~= transpose_of(s).update(t_idx(k), Some(m)));
}

/// Playing at cell `k` and then reversing columns is the same as
/// reversing columns and then playing at the reflected cell.
proof fn lemma_update_revcols(s: Seq<Option<Mark>>, k: int, m: Mark)
    requires
        s.len() == 9,
        0 <= k < 9,
    ensures
        revcols_of(s.update(k, Some(m))) == revcols_of(s).update(r_idx(k), Some(m)),
{
    lemma_r_idx(k);
    assert forall|n: int| 0 <= n < 9 implies revcols_of(s.update(k, Some(m)))[n]
        == revcols_of(s).update(r_idx(k), Some(m))[n]
    by {
        lemma_r_idx(n);
        if r_idx(n) == k {
            assert(n == r_idx(k));
        }
        if n == r_idx(k) {
            assert(r_idx(n) == k);
        }
    };
    assert(revcols_of(s.update(k, Some(m))) =~= revcols_of(s).update(r_idx(k), Some(m)));
}

/// Transposing a grid does not change its minimax value.
proof fn lemma_value_transpose(s: Seq<Option<Mark>>, m: Mark)
    requires
        s.len() == 9,
    ensures
        value_of(transpose_of(s), m) == value_of(s, m),
    decreases empties(s),
{
    lemma_outcome_transpose(s);
    let t = transpose_of(s);
    let m2 = reverse_of(m);
    if outcome_of(s) is None {
        lemma_value_bounds(s, m);
        lemma_value_bounds(t, m);
        let n1 = choose|n: int| 0 <= n < 9 && s[n] is None && #[trigger] mv(s, m, n) == value_of(s, m);
        lemma_t_idx(n1);
        let n1t = t_idx(n1);
        lemma_t_idx(n1t);
        assert(t[n1t] == s[n1]);
        lemma_update_transpose(s, n1, m);
        lemma_empties_update(s, n1, m, 9);
        lemma_value_transpose(s.update(n1, Some(m)), m2);
        assert(mv(t, m, n1t) == mv(s, m, n1));
        assert(ro_le(value_of(s, m), value_of(t, m)));
        let n2 = choose|n: int| 0 <= n < 9 && t[n] is None && #[trigger] mv(t, m, n) == value_of(t, m);
        lemma_t_idx(n2);
        let n2s = t_idx(n2);
        lemma_t_idx(n2s);
        assert(t[n2] == s[n2s]);
        lemma_update_transpose(s, n2s, m);
        lemma_empties_update(s, n2s, m, 9);
        lemma_value_transpose(s.update(n2s, Some(m)), m2);
        assert(mv(t, m, n2) == mv(s, m, n2s));
        assert(ro_le(value_of(t, m), value_of(s, m)));
    }
}

/// Reversing the columns of a grid does not change its minimax value.
proof fn lemma_value_revcols(s: Seq<Option<Mark>>, m: Mark)
    requires
        s.len() == 9,
    ensures
        value_of(revcols_of(s), m) == value_of(s, m),
    decreases empties(s),
{
    lemma_outcome_revcols(s);
    let t = revcols_of(s);
    let m2 = reverse_of(m);
    if outcome_of(s) is None {
        lemma_value_bounds(s, m);
        lemma_value_bounds(t, m);
        let n1 = choose|n: int| 0 <= n < 9 && s[n] is None && #[trigger] mv(s, m, n) == value_of(s, m);
        lemma_r_idx(n1);
        let n1t = r_idx(n1);
        lemma_r_idx(n1t);
        assert(t[n1t] == s[n1]);
        lemma_update_revcols(s, n1, m);
        lemma_empties_update(s, n1, m, 9);
        lemma_value_revcols(s.update(n1, Some(m)), m2);
        assert(mv(t, m, n1t) == mv(s, m, n1));
        assert(ro_le(value_of(s, m), value_of(t, m)));
        let n2 = choose|n: int| 0 <= n < 9 && t[n] is None && #[trigger] mv(t, m, n) == value_of(t, m);
        lemma_r_idx(n2);
        let n2s = r_idx(n2);
        lemma_r_idx(n2s);
        assert(t[n2] == s[n2s]);
        lemma_update_revcols(s, n2s, m);
        lemma_empties_update(s, n2s, m, 9);
        lemma_value_revcols(s.update(n2s, Some(m)), m2);
        assert(mv(t, m, n2) == mv(s, m, n2s));
        assert(ro_le(value_of(t, m), value_of(s, m)));
    }
}

/// Boards related by the symmetry group have the same minimax value:
/// the search may evaluate any one member of a symmetry class in place
/// of another.
pub proof fn lemma_value_orbit(s: Seq<Option<Mark>>, n: int, m: Mark)
    requires
        s.len() == 9,
        0 <= n < 8,
    ensures
        orbit_elem(s, n).len() == 9,
        value_of(orbit_elem(s, n), m) == value_of(s, m),
    decreases n,
{
    if n == 0 {
        lemma_value_transpose(s, m);
    } else {
        lemma_value_orbit(s, n - 1, m);
        let prev = orbit_elem(s, n - 1);
        if n % 2 == 1 {
            lemma_value_revcols(prev, m);
        } else {
            lemma_value_transpose(prev, m);
        }
    }
}

/// The move `q` on `s` is symmetry-equivalent to the move `p`: some
/// group image of `p`'s child is `q`'s child.
pub open spec fn linked(s: Seq<Option<Mark>>, m: Mark, p: (usize, usize), q: (usize, usize)) -> bool {
    exists|g: int| 0 <= g < 8 && orbit_elem(child_of(s, m, p), g) == child_of(s, m, q)
}

/// Symmetry-equivalence of moves is symmetric: each walk step has an
/// undoing step.
proof fn lemma_linked_symmetric(s: Seq<Option<Mark>>, m: Mark, p: (usize, usize), q: (usize, usize))
    requires
        s.len() == 9,
        pidx(p) < 9,
        linked(s, m, p, q),
    ensures
        linked(s, m, q, p),
{
    let g = choose|g: int| 0 <= g < 8 && orbit_elem(child_of(s, m, p), g) == child_of(s, m, q);
    lemma_orbit_inverse(child_of(s, m, p), g);
    assert(orbit_elem(child_of(s, m, q), inverse_step(g)) == child_of(s, m, p));
}

/// Symmetry-equivalence of moves is transitive: the group is closed
/// under composition of walk steps.
proof fn lemma_linked_trans(
    s: Seq<Option<Mark>>,
    m: Mark,
    a: (usize, usize),
    b: (usize, usize),
    c: (usize, usize),
)
    requires
        s.len() == 9,
        pidx(a) < 9,
        linked(s, m, a, b),
        linked(s, m, b, c),
    ensures
        linked(s, m, a, c),
{
    let g1 = choose|g: int| 0 <= g < 8 && orbit_elem(child_of(s, m, a), g) == child_of(s, m, b);
    let g2 = choose|g: int| 0 <= g < 8 && orbit_elem(child_of(s, m, b), g) == child_of(s, m, c);
    lemma_orbit_compose(child_of(s, m, a), g1, g2);
    assert(orbit_elem(child_of(s, m, a), compose_step(g1, g2)) == child_of(s, m, c));
}

/// An entry of the pruned move list: a legal move of the parent paired
/// with the board it produces.
pub open spec fn emitted_ok(s: Seq<Option<Mark>>, m: Mark, e: ((usize, usize), Board)) -> bool {
    &&& is_option(s, e.0)
    &&& e.1.tiles@ == child_of(s, m, e.0)
    &&& e.1.tiles@.len() == 9
    &&& e.1.turn == reverse_of(m)
    &&& e.1.wf()
}

/// No board of `perms` equals a board of `seen`.
fn disjoint(perms: &Vec<Board>, seen: &Vec<Board>) -> (r: bool)
    requires
        forall|k: int| 0 <= k < perms@.len() ==> (#[trigger] perms@[k]).tiles@.len() == 9,
        forall|i: int| 0 <= i < seen@.len() ==> (#[trigger] seen@[i]).tiles@.len() == 9,
    ensures
        r == forall|k: int, i: int| 0 <= k < perms@.len() && 0 <= i < seen@.len()
            ==> !board_like(#[trigger] perms@[k], #[trigger] seen@[i]),
{
    let mut k: usize = 0;
    while k < perms.len()
        invariant
            k <= perms@.len(),
            forall|k2: int| 0 <= k2 < perms@.len() ==> (#[trigger] perms@[k2]).tiles@.len() == 9,
            forall|i: int| 0 <= i < seen@.len() ==> (#[trigger] seen@[i]).tiles@.len() == 9,
            forall|k2: int, i: int| 0 <= k2 < k && 0 <= i < seen@.len()
                ==> !board_like(#[trigger] perms@[k2], #[trigger] seen@[i]),
        decreases perms@.len() - k,
    {
        let mut i: usize = 0;
        while i < seen.len()
            invariant
                k < perms@.len(),
                i <= seen@.len(),
                forall|k2: int| 0 <= k2 < perms@.len() ==> (#[trigger] perms@[k2]).tiles@.len() == 9,
                forall|i2: int| 0 <= i2 < seen@.len() ==> (#[trigger] seen@[i2]).tiles@.len() == 9,
                forall|i2: int| 0 <= i2 < i ==> !board_like(perms@[k as int], #[trigger] seen@[i2]),
            decreases seen@.len() - i,
        {
            if crate::board::boards_eq(&perms[k], &seen[i]) {
                return false;
            }
            i += 1;
        }
        k += 1;
    }
    true
}

/// Some board of `v` equals `b`.
fn contains_board(v: &Vec<Board>, b: &Board) -> (r: bool)
    requires
        forall|k: int| 0 <= k < v@.len() ==> (#[trigger] v@[k]).tiles@.len() == 9,
        b.tiles@.len() == 9,
    ensures
        r == exists|k: int| 0 <= k < v@.len() && board_like(#[trigger] v@[k], *b),
{
    let mut k: usize = 0;
    while k < v.len()
        invariant
            k <= v@.len(),
            b.tiles@.len() == 9,
            forall|k2: int| 0 <= k2 < v@.len() ==> (#[trigger] v@[k2]).tiles@.len() == 9,
            forall|k2: int| 0 <= k2 < k ==> !board_like(#[trigger] v@[k2], *b),
        decreases v@.len() - k,
    {
        if crate::board::boards_eq(&v[k], b) {
            return true;
        }
        k += 1;
    }
    false
}

/// Some representative in `reps` is symmetry-equivalent to the move `p`.
pub open spec fn covered_by(
    s: Seq<Option<Mark>>,
    m: Mark,
    reps: Seq<(usize, usize)>,
    p: (usize, usize),
) -> bool {
    exists|i: int| 0 <= i < reps.len() && linked(s, m, reps[i], p)
}

/// A move whose child is terminal is worth the child's terminal
/// outcome seen from the mover's side.
proof fn lemma_terminal_move_value(s: Seq<Option<Mark>>, m: Mark, pos: (usize, usize))
    requires
        s.len() == 9,
        is_option(s, pos),
        outcome_of(child_of(s, m, pos)) is Some,
    ensures
        move_value(s, m, pos) == (match outcome_of(child_of(s, m, pos)) {
            Some(Outcome::Victory(w)) => if w == m {
                RelativeOutcome::Win
            } else {
                RelativeOutcome::Loss
            },
            _ => RelativeOutcome::Draw,
        }),
{
    let c = child_of(s, m, pos);
    let m2 = reverse_of(m);
    match outcome_of(c) {
        Some(o) => {
            assert(value_of(c, m2) == relative_of(o, m2));
        },
        None => {},
    }
}

/// The largest value of a move list that covers every legal move up to
/// symmetry, and whose entries carry their move's true value, is the
/// minimax value of the board: pruning does not change the result.
#[verifier::rlimit(30)]
proof fn lemma_fold_is_value(
    s: Seq<Option<Mark>>,
    m: Mark,
    list: Seq<((usize, usize), RelativeOutcome)>,
    best: RelativeOutcome,
)
    requires
        s.len() == 9,
        outcome_of(s) is None,
        forall|n: int| 0 <= n < list.len() ==> is_option(s, (#[trigger] list[n]).0)
            && list[n].1 == move_value(s, m, list[n].0),
        forall|p: (usize, usize)| #[trigger] is_option(s, p)
            ==> exists|n: int| 0 <= n < list.len() && linked(s, m, p, list[n].0),
        exists|j: int| 0 <= j < list.len() && (#[trigger] list[j]).1 == best,
        forall|j: int| 0 <= j < list.len() ==> ro_le((#[trigger] list[j]).1, best),
    ensures
        best == value_of(s, m),
{
    let m2 = reverse_of(m);
    lemma_value_bounds(s, m);
    let nn = choose|n2: int|
        0 <= n2 < 9 && s[n2] is None && #[trigger] mv(s, m, n2) == value_of(s, m);
    let pstar = (((nn / 3) as usize), ((nn % 3) as usize));
    assert(pidx(pstar) == nn);
    assert(is_option(s, pstar));
    let j1 = choose|j: int| 0 <= j < list.len() && linked(s, m, pstar, list[j].0);
    let g1 = choose|g: int|
        0 <= g < 8 && orbit_elem(child_of(s, m, pstar), g) == child_of(s, m, list[j1].0);
    lemma_value_orbit(child_of(s, m, pstar), g1, m2);
    assert(value_of(child_of(s, m, list[j1].0), m2) == value_of(child_of(s, m, pstar), m2));
    assert(list[j1].1 == mv(s, m, nn));
    assert(ro_le(value_of(s, m), best));
    let jb = choose|j: int| 0 <= j < list.len() && (#[trigger] list[j]).1 == best;
    assert(is_option(s, list[jb].0));
    assert(s[pidx(list[jb].0)] is None);
    assert(ro_le(best, value_of(s, m)));
}

/// Every legal move of optimal value is symmetry-equivalent to some
/// kept representative of optimal value.
proof fn lemma_optimal_covered(
    s: Seq<Option<Mark>>,
    m: Mark,
    list: Seq<((usize, usize), RelativeOutcome)>,
    reps: Seq<(usize, usize)>,
    best: RelativeOutcome,
)
    requires
        s.len() == 9,
        forall|n: int| 0 <= n < list.len() ==> is_option(s, (#[trigger] list[n]).0)
            && list[n].1 == move_value(s, m, list[n].0),
        forall|p: (usize, usize)| #[trigger] is_option(s, p)
            ==> exists|n: int| 0 <= n < list.len() && linked(s, m, p, list[n].0),
        forall|j: int| 0 <= j < list.len() && (#[trigger] list[j]).1 == best
            ==> reps.contains(list[j].0),
    ensures
        forall|p: (usize, usize)| is_option(s, p) && move_value(s, m, p) == best
            ==> #[trigger] covered_by(s, m, reps, p),
{
    let m2 = reverse_of(m);
    assert forall|p: (usize, usize)| is_option(s, p) && move_value(s, m, p) == best
        implies #[trigger] covered_by(s, m, reps, p)
    by {
        let n0 = choose|n2: int| 0 <= n2 < list.len() && linked(s, m, p, list[n2].0);
        let g0 = choose|g: int|
            0 <= g < 8 && orbit_elem(child_of(s, m, p), g) == child_of(s, m, list[n0].0);
        lemma_value_orbit(child_of(s, m, p), g0, m2);
        assert(list[n0].1 == move_value(s, m, list[n0].0));
        assert(move_value(s, m, list[n0].0) == move_value(s, m, p));
        assert(reps.contains(list[n0].0));
        let i2 = choose|i2: int| 0 <= i2 < reps.len() && reps[i2] == list[n0].0;
        lemma_orbit_inverse(child_of(s, m, p), g0);
        assert(orbit_elem(child_of(s, m, reps[i2]), inverse_step(g0)) == child_of(s, m, p));
        assert(linked(s, m, reps[i2], p));
    };
}

/// The largest relative outcome of a non-empty move list.
fn best_of(sub: &Vec<((usize, usize), RelativeOutcome)>) -> (best: RelativeOutcome)
    requires
        sub@.len() >= 1,
    ensures
        exists|j: int| 0 <= j < sub@.len() && (#[trigger] sub@[j]).1 == best,
        forall|j: int| 0 <= j < sub@.len() ==> ro_le((#[trigger] sub@[j]).1, best),
{
    let mut best: RelativeOutcome = sub[0].1;
    let mut q: usize = 1;
    while q < sub.len()
        invariant
            1 <= q <= sub@.len(),
            sub@.len() >= 1,
            exists|j: int| 0 <= j < q && (#[trigger] sub@[j]).1 == best,
            forall|j: int| 0 <= j < q ==> ro_le((#[trigger] sub@[j]).1, best),
        decreases sub@.len() - q,
    {
        let cand = sub[q].1;
        if cand.rank() > best.rank() {
            best = cand;
        }
        q += 1;
    }
    best
}

/// The full legal-move list of `s`: every entry legal, every legal
/// move listed, in strictly ascending row-major cell order.
#[verifier::opaque]
spec fn options_complete(s: Seq<Option<Mark>>, options: Seq<(usize, usize)>) -> bool {
    &&& forall|q: int| 0 <= q < options.len() ==> is_option(s, #[trigger] options[q])
    &&& forall|p: (usize, usize)| #[trigger] is_option(s, p) ==> options.contains(p)
    &&& forall|q1: int, q2: int| 0 <= q1 < q2 < options.len()
        ==> #[trigger] pidx(options[q1]) < #[trigger] pidx(options[q2])
}

/// What the pruning loop has built after scanning the first `t` legal
/// moves: a list of valid entries that covers every scanned move up to
/// symmetry, drawn from the scanned moves, ascending in cell order,
/// pairwise symmetry-inequivalent, each the first legal move of its
/// class.
#[verifier::opaque]
spec fn pruned_list_ok(
    s: Seq<Option<Mark>>,
    m: Mark,
    options: Seq<(usize, usize)>,
    t: int,
    r: Seq<((usize, usize), Board)>,
) -> bool {
    &&& forall|n: int| 0 <= n < r.len() ==> emitted_ok(s, m, #[trigger] r[n])
    &&& forall|q: int| 0 <= q < t
        ==> exists|n: int| 0 <= n < r.len() && linked(s, m, #[trigger] options[q], r[n].0)
    &&& forall|n: int| 0 <= n < r.len()
        ==> exists|q: int| 0 <= q < t && (#[trigger] r[n]).0 == options[q]
    &&& forall|n1: int, n2: int| 0 <= n1 < n2 < r.len()
        ==> #[trigger] pidx(r[n1].0) < #[trigger] pidx(r[n2].0)
    &&& forall|n1: int, n2: int| 0 <= n1 < r.len() && 0 <= n2 < r.len() && n1 != n2
        ==> !(#[trigger] linked(s, m, r[n1].0, r[n2].0))
    &&& forall|n: int, p: (usize, usize)|
        0 <= n < r.len() && is_option(s, p) && #[trigger] linked(s, m, r[n].0, p)
        ==> pidx(r[n].0) <= pidx(p)
}

proof fn lemma_options_complete(s: Seq<Option<Mark>>)
    requires
        s.len() == 9,
    ensures
        options_complete(s, options_of(s)),
{
    reveal(options_complete);
    lemma_options_membership(s, 9);
    lemma_options_sorted(s, 9);
    let options = options_of(s);
    assert forall|q: int| 0 <= q < options.len() implies is_option(s, #[trigger] options[q]) by {
        assert(options.contains(options[q]));
    };
}

proof fn lemma_pruned_start(s: Seq<Option<Mark>>, m: Mark, options: Seq<(usize, usize)>)
    ensures
        pruned_list_ok(s, m, options, 0, Seq::empty()),
{
    reveal(pruned_list_ok);
}

proof fn lemma_pruned_emitted(
    s: Seq<Option<Mark>>,
    m: Mark,
    options: Seq<(usize, usize)>,
    t: int,
    r: Seq<((usize, usize), Board)>,
)
    requires
        pruned_list_ok(s, m, options, t, r),
    ensures
        forall|n: int| 0 <= n < r.len() ==> emitted_ok(s, m, #[trigger] r[n]),
{
    reveal(pruned_list_ok);
}

/// Skipping a scanned move that is equivalent to a kept one keeps the
/// pruned list valid.
proof fn lemma_pruned_skip(
    s: Seq<Option<Mark>>,
    m: Mark,
    options: Seq<(usize, usize)>,
    t: int,
    r: Seq<((usize, usize), Board)>,
)
    requires
        0 <= t,
        pruned_list_ok(s, m, options, t, r),
        exists|n: int| 0 <= n < r.len() && linked(s, m, options[t], (#[trigger] r[n]).0),
    ensures
        pruned_list_ok(s, m, options, t + 1, r),
{
    reveal(pruned_list_ok);
    assert forall|q: int| 0 <= q < t + 1
        implies exists|n: int| 0 <= n < r.len() && linked(s, m, #[trigger] options[q], r[n].0)
    by {
        if q == t {
            let n0 = choose|n: int| 0 <= n < r.len() && linked(s, m, options[t], r[n].0);
            assert(linked(s, m, options[q], r[n0].0));
        }
    };
    assert forall|n: int| 0 <= n < r.len()
        implies exists|q: int| 0 <= q < t + 1 && (#[trigger] r[n]).0 == options[q]
    by {
        let q0 = choose|q: int| 0 <= q < t && r[n].0 == options[q];
    };
}

/// Keeping a scanned move that is equivalent to no kept one keeps the
/// pruned list valid: the new entry extends the ascending order, stays
/// pairwise inequivalent, and is the first legal move of its class.
#[verifier::spinoff_prover]
#[verifier::rlimit(100)]
proof fn lemma_pruned_keep(
    s: Seq<Option<Mark>>,
    m: Mark,
    options: Seq<(usize, usize)>,
    t: int,
    r: Seq<((usize, usize), Board)>,
    e: ((usize, usize), Board),
)
    requires
        s.len() == 9,
        0 <= t < options.len(),
        options[t] == e.0,
        emitted_ok(s, m, e),
        options_complete(s, options),
        pruned_list_ok(s, m, options, t, r),
        forall|n: int| 0 <= n < r.len() ==> !linked(s, m, e.0, (#[trigger] r[n]).0),
    ensures
        pruned_list_ok(s, m, options, t + 1, r.push(e)),
{
    reveal(options_complete);
    reveal(pruned_list_ok);
    let r_new = r.push(e);
    lemma_orbit_identity(child_of(s, m, e.0));
    assert(linked(s, m, e.0, e.0)) by {
        assert(orbit_elem(child_of(s, m, e.0), 7) == child_of(s, m, e.0));
    };
    assert forall|q: int| 0 <= q < t + 1
        implies exists|n: int| 0 <= n < r_new.len() && linked(s, m, #[trigger] options[q], r_new[n].0)
    by {
        if q < t {
            let n0 = choose|n: int| 0 <= n < r.len() && linked(s, m, options[q], r[n].0);
            assert(r_new[n0] == r[n0]);
            assert(linked(s, m, options[q], r_new[n0].0));
        } else {
            assert(r_new[r.len() as int].0 == e.0);
            assert(linked(s, m, options[q], r_new[r.len() as int].0));
        }
    };
    assert forall|n: int| 0 <= n < r_new.len()
        implies exists|q: int| 0 <= q < t + 1 && (#[trigger] r_new[n]).0 == options[q]
    by {
        if n < r.len() {
            let q0 = choose|q: int| 0 <= q < t && r[n].0 == options[q];
            assert(r_new[n].0 == options[q0]);
        } else {
            assert(r_new[n].0 == options[t]);
        }
    };
    assert forall|n1: int, n2: int| 0 <= n1 < n2 < r_new.len()
        implies #[trigger] pidx(r_new[n1].0) < #[trigger] pidx(r_new[n2].0)
    by {
        if n2 < r.len() {
            assert(pidx(r[n1].0) < pidx(r[n2].0));
        } else {
            let q0 = choose|q: int| 0 <= q < t && r[n1].0 == options[q];
            assert(pidx(options[q0]) < pidx(options[t]));
        }
    };
    assert forall|n1: int, n2: int|
        0 <= n1 < r_new.len() && 0 <= n2 < r_new.len() && n1 != n2
        implies !(#[trigger] linked(s, m, r_new[n1].0, r_new[n2].0))
    by {
        if n1 < r.len() && n2 == r.len() {
            if linked(s, m, r_new[n1].0, e.0) {
                lemma_linked_symmetric(s, m, r[n1].0, e.0);
                assert(false);
            }
        } else if n1 == r.len() && n2 < r.len() {
            assert(!linked(s, m, e.0, r[n2].0));
        } else {
            assert(n1 < r.len() && n2 < r.len());
            assert(!linked(s, m, r[n1].0, r[n2].0));
        }
    };
    assert forall|n: int, p: (usize, usize)|
        0 <= n < r_new.len() && is_option(s, p) && #[trigger] linked(s, m, r_new[n].0, p)
        implies pidx(r_new[n].0) <= pidx(p)
    by {
        if n < r.len() {
            assert(linked(s, m, r[n].0, p));
        } else {
            if pidx(p) < pidx(e.0) {
                assert(options.contains(p));
                let qq = choose|q: int| 0 <= q < options.len() && options[q] == p;
                if qq > t {
                    assert(pidx(options[t]) < pidx(options[qq]));
                    assert(false);
                }
                assert(0 <= qq < t);
                let n0 = choose|n0: int|
                    0 <= n0 < r.len() && linked(s, m, options[qq], r[n0].0);
                lemma_linked_trans(s, m, e.0, p, r[n0].0);
                assert(!linked(s, m, e.0, r[n0].0));
                assert(false);
            }
        }
    };
}

/// A pruned list built over the whole legal-move list has the stated
/// properties of the distinct-move enumeration.
proof fn lemma_pruned_finish(
    s: Seq<Option<Mark>>,
    m: Mark,
    options: Seq<(usize, usize)>,
    r: Seq<((usize, usize), Board)>,
)
    requires
        options_complete(s, options),
        pruned_list_ok(s, m, options, options.len() as int, r),
    ensures
        forall|n: int| 0 <= n < r.len() ==> emitted_ok(s, m, #[trigger] r[n]),
        forall|p: (usize, usize)| #[trigger] is_option(s, p)
            ==> exists|n: int| 0 <= n < r.len() && linked(s, m, p, r[n].0),
        forall|n1: int, n2: int| 0 <= n1 < n2 < r.len()
            ==> #[trigger] pidx(r[n1].0) < #[trigger] pidx(r[n2].0),
        forall|n1: int, n2: int| 0 <= n1 < r.len() && 0 <= n2 < r.len() && n1 != n2
            ==> !(#[trigger] linked(s, m, r[n1].0, r[n2].0)),
        forall|n: int, p: (usize, usize)|
            0 <= n < r.len() && is_option(s, p) && #[trigger] linked(s, m, r[n].0, p)
            ==> pidx(r[n].0) <= pidx(p),
{
    reveal(options_complete);
    reveal(pruned_list_ok);
    assert forall|p: (usize, usize)| #[trigger] is_option(s, p)
        implies exists|n: int| 0 <= n < r.len() && linked(s, m, p, r[n].0)
    by {
        assert(options.contains(p));
        let q = choose|q: int| 0 <= q < options.len() && options[q] == p;
        let n0 = choose|n: int| 0 <= n < r.len() && linked(s, m, options[q], r[n].0);
        assert(linked(s, m, p, r[n0].0));
    };
}

/// The move list of the deducer carries the enumeration properties of
/// the pruned move list it was built from, position for position.
proof fn lemma_mirror_order(
    s: Seq<Option<Mark>>,
    m: Mark,
    moves: Seq<((usize, usize), Board)>,
    r: Seq<((usize, usize), RelativeOutcome)>,
)
    requires
        r.len() == moves.len(),
        forall|q: int| 0 <= q < r.len() ==> (#[trigger] r[q]).0 == moves[q].0,
        forall|n1: int, n2: int| 0 <= n1 < n2 < moves.len()
            ==> #[trigger] pidx(moves[n1].0) < #[trigger] pidx(moves[n2].0),
        forall|n1: int, n2: int| 0 <= n1 < moves.len() && 0 <= n2 < moves.len() && n1 != n2
            ==> !(#[trigger] linked(s, m, moves[n1].0, moves[n2].0)),
        forall|n: int, p: (usize, usize)|
            0 <= n < moves.len() && is_option(s, p) && #[trigger] linked(s, m, moves[n].0, p)
            ==> pidx(moves[n].0) <= pidx(p),
    ensures
        forall|n1: int, n2: int| 0 <= n1 < n2 < r.len()
            ==> #[trigger] pidx(r[n1].0) < #[trigger] pidx(r[n2].0),
        forall|n1: int, n2: int| 0 <= n1 < r.len() && 0 <= n2 < r.len() && n1 != n2
            ==> !(#[trigger] linked(s, m, r[n1].0, r[n2].0)),
        forall|n: int, p: (usize, usize)|
            0 <= n < r.len() && is_option(s, p) && #[trigger] linked(s, m, r[n].0, p)
            ==> pidx(r[n].0) <= pidx(p),
{
    assert forall|n1: int, n2: int| 0 <= n1 < n2 < r.len()
        implies #[trigger] pidx(r[n1].0) < #[trigger] pidx(r[n2].0)
    by {
        assert(pidx(moves[n1].0) < pidx(moves[n2].0));
    };
    assert forall|n1: int, n2: int|
        0 <= n1 < r.len() && 0 <= n2 < r.len() && n1 != n2
        implies !(#[trigger] linked(s, m, r[n1].0, r[n2].0))
    by {
        assert(!linked(s, m, moves[n1].0, moves[n2].0));
    };
    assert forall|n: int, p: (usize, usize)|
        0 <= n < r.len() && is_option(s, p) && #[trigger] linked(s, m, r[n].0, p)
        implies pidx(r[n].0) <= pidx(p)
    by {
        assert(linked(s, m, moves[n].0, p));
    };
}

/// A move whose child's orbit misses every earlier kept child is
/// equivalent to none of the earlier kept moves.
proof fn lemma_new_not_linked(
    s: Seq<Option<Mark>>,
    mark: Mark,
    pos: (usize, usize),
    perms: Seq<Board>,
    seen: Seq<Board>,
    r_old: Seq<((usize, usize), Board)>,
)
    requires
        s.len() == 9,
        is_option(s, pos),
        perms.len() == 8,
        forall|g: int| 0 <= g < 8 ==> {
            &&& (#[trigger] perms[g]).tiles@ == orbit_elem(child_of(s, mark, pos), g)
            &&& perms[g].outcome == outcome_of(child_of(s, mark, pos))
            &&& perms[g].turn == reverse_of(mark)
        },
        seen.len() == r_old.len(),
        forall|i: int| 0 <= i < seen.len() ==> board_like(#[trigger] seen[i], r_old[i].1),
        forall|n: int| 0 <= n < r_old.len() ==> emitted_ok(s, mark, #[trigger] r_old[n]),
        forall|k: int, i: int| 0 <= k < perms.len() && 0 <= i < seen.len()
            ==> !board_like(#[trigger] perms[k], #[trigger] seen[i]),
    ensures
        forall|n: int| 0 <= n < r_old.len() ==> !linked(s, mark, pos, (#[trigger] r_old[n]).0),
{
    assert forall|n: int| 0 <= n < r_old.len()
        implies !linked(s, mark, pos, (#[trigger] r_old[n]).0)
    by {
        if linked(s, mark, pos, r_old[n].0) {
            let g = choose|g: int| 0 <= g < 8
                && orbit_elem(child_of(s, mark, pos), g) == child_of(s, mark, r_old[n].0);
            lemma_symmetry_preserves_outcome(child_of(s, mark, pos), g);
            assert(perms[g].tiles@ == seen[n].tiles@);
            assert(perms[g].outcome == seen[n].outcome);
            assert(perms[g].turn == seen[n].turn);
            assert(board_like(perms[g], seen[n]));
            assert(false);
        }
    };
}

impl Board {
    /// One legal move per symmetry class, paired with the board it
    /// produces. Moves are scanned in row-major order and a move is
    /// kept exactly when no group image of its child was produced by
    /// an earlier kept move: the kept positions ascend in row-major
    /// cell order, no two kept moves are symmetry-equivalent, each
    /// kept move is the first legal move of its class, and every legal
    /// move is symmetry-equivalent to some kept one.
    pub fn options_without_symmetries(&self) -> (r: Vec<((usize, usize), Board)>)
        requires
            self.wf(),
        ensures
            forall|n: int| 0 <= n < r@.len()
                ==> emitted_ok(self.tiles@, self.turn, #[trigger] r@[n]),
            forall|p: (usize, usize)| #[trigger] is_option(self.tiles@, p)
                ==> exists|n: int| 0 <= n < r@.len() && linked(self.tiles@, self.turn, p, r@[n].0),
            forall|n1: int, n2: int| 0 <= n1 < n2 < r@.len()
                ==> #[trigger] pidx(r@[n1].0) < #[trigger] pidx(r@[n2].0),
            forall|n1: int, n2: int| 0 <= n1 < r@.len() && 0 <= n2 < r@.len() && n1 != n2
                ==> !(#[trigger] linked(self.tiles@, self.turn, r@[n1].0, r@[n2].0)),
            forall|n: int, p: (usize, usize)|
                0 <= n < r@.len() && is_option(self.tiles@, p)
                    && #[trigger] linked(self.tiles@, self.turn, r@[n].0, p)
                ==> pidx(r@[n].0) <= pidx(p),
    {
        let mark = self.turn;
        let options = self.get_options();
        let ghost s = self.tiles@;
        proof {
            lemma_options_complete(s);
            lemma_pruned_start(s, mark, options@);
        }
        let mut seen: Vec<Board> = Vec::new();
        let mut r: Vec<((usize, usize), Board)> = Vec::new();
        let mut t: usize = 0;
        while t < options.len()
            invariant
                t <= options@.len(),
                self.wf(),
                s == self.tiles@,
                mark == self.turn,
                options_complete(s, options@),
                forall|q: int| 0 <= q < options@.len() ==> is_option(s, #[trigger] options@[q]),
                seen@.len() == r@.len(),
                forall|i: int| 0 <= i < seen@.len()
                    ==> board_like(#[trigger] seen@[i], r@[i].1) && seen@[i].tiles@.len() == 9,
                forall|n: int| 0 <= n < r@.len() ==> emitted_ok(s, mark, #[trigger] r@[n]),
                pruned_list_ok(s, mark, options@, t as int, r@),
            decreases options@.len() - t,
        {
            let pos = options[t];
            assert(is_option(s, pos));
            let mut b = self.duplicate();
            b.set(pos, mark);
            let perms = b.get_permutations();
            if disjoint(&perms, &seen) {
                let ghost r_old = r@;
                let ghost seen_old = seen@;
                proof {
                    assert(b.tiles@ == child_of(s, mark, pos));
                    lemma_new_not_linked(s, mark, pos, perms@, seen_old, r_old);
                }
                seen.push(b.duplicate());
                r.push((pos, b));
                proof {
                    assert(r@ == r_old.push(r@[r_old.len() as int]));
                    assert(emitted_ok(s, mark, r@[r_old.len() as int]));
                    lemma_pruned_keep(s, mark, options@, t as int, r_old, r@[r_old.len() as int]);
                    lemma_pruned_emitted(s, mark, options@, t as int + 1, r@);
                }
            } else {
                proof {
                    let (k, i) = choose|k: int, i: int|
                        0 <= k < perms@.len() && 0 <= i < seen@.len()
                            && board_like(#[trigger] perms@[k], #[trigger] seen@[i]);
                    assert(perms@[k].tiles@ == orbit_elem(b.tiles@, k));
                    assert(seen@[i].tiles@ == r@[i].1.tiles@);
                    assert(r@[i].1.tiles@ == child_of(s, mark, r@[i].0));
                    assert(orbit_elem(child_of(s, mark, pos), k) == child_of(s, mark, r@[i].0));
                    assert(linked(s, mark, pos, r@[i].0));
                    lemma_pruned_skip(s, mark, options@, t as int, r@);
                }
            }
            t += 1;
        }
        proof {
            lemma_pruned_finish(s, mark, options@, r@);
        }
        r
    }

    /// The relative outcome the mover can force with each move of the
    /// pruned move list, from the mover's own perspective: one pair
    /// per distinct-symmetry move, in ascending row-major order,
    /// pairwise symmetry-inequivalent, each the first legal move of
    /// its class. Every legal move of the board is symmetry-equivalent
    /// to a listed one.
    #[verifier::loop_isolation(false)]
    fn deduce_strategies(&self) -> (r: Vec<((usize, usize), RelativeOutcome)>)
        requires
            self.wf(),
            self.outcome is None,
        ensures
            r@.len() >= 1,
            forall|n: int| 0 <= n < r@.len() ==> {
                let (p, ro) = #[trigger] r@[n];
                is_option(self.tiles@, p) && ro == move_value(self.tiles@, self.turn, p)
            },
            forall|p: (usize, usize)| #[trigger] is_option(self.tiles@, p)
                ==> exists|n: int| 0 <= n < r@.len() && linked(self.tiles@, self.turn, p, r@[n].0),
            forall|n1: int, n2: int| 0 <= n1 < n2 < r@.len()
                ==> #[trigger] pidx(r@[n1].0) < #[trigger] pidx(r@[n2].0),
            forall|n1: int, n2: int| 0 <= n1 < r@.len() && 0 <= n2 < r@.len() && n1 != n2
                ==> !(#[trigger] linked(self.tiles@, self.turn, r@[n1].0, r@[n2].0)),
            forall|n: int, p: (usize, usize)|
                0 <= n < r@.len() && is_option(self.tiles@, p)
                    && #[trigger] linked(self.tiles@, self.turn, r@[n].0, p)
                ==> pidx(r@[n].0) <= pidx(p),
        decreases empties(self.tiles@),
    {
        let mark = self.turn;
        let ghost s = self.tiles@;
        let ghost m2 = reverse_of(mark);
        let moves = self.options_without_symmetries();
        let mut r: Vec<((usize, usize), RelativeOutcome)> = Vec::new();
        let mut n: usize = 0;
        while n < moves.len()
            invariant
                n <= moves@.len(),
                r@.len() == n,
                forall|q: int| 0 <= q < n ==> {
                    let (p, ro) = #[trigger] r@[q];
                    p == moves@[q].0 && is_option(s, p) && ro == move_value(s, mark, p)
                },
            decreases moves@.len() - n,
        {
            let pair = &moves[n];
            let pos = pair.0;
            assert(emitted_ok(s, mark, moves@[n as int]));
            proof {
                lemma_empties_update(s, pidx(pos), mark, 9);
            }
            let ro: RelativeOutcome = match pair.1.outcome {
                Some(Outcome::Victory(w)) => {
                    proof {
                        lemma_terminal_move_value(s, mark, pos);
                    }
                    if w == mark {
                        RelativeOutcome::Win
                    } else {
                        RelativeOutcome::Loss
                    }
                },
                Some(Outcome::Draw) => {
                    proof {
                        lemma_terminal_move_value(s, mark, pos);
                    }
                    RelativeOutcome::Draw
                },
                None => {
                    let sub = pair.1.deduce_strategies();
                    let best = best_of(&sub);
                    proof {
                        lemma_fold_is_value(pair.1.tiles@, m2, sub@, best);
                        assert(move_value(s, mark, pos) == flip_of(value_of(pair.1.tiles@, m2)));
                    }
                    best.flip()
                },
            };
            assert(ro == move_value(s, mark, pos));
            r.push((pos, ro));
            n += 1;
        }
        proof {
            assert forall|p: (usize, usize)| #[trigger] is_option(s, p)
                implies exists|n2: int| 0 <= n2 < r@.len() && linked(s, mark, p, r@[n2].0)
            by {
                let n0 = choose|n2: int|
                    0 <= n2 < moves@.len() && linked(s, mark, p, moves@[n2].0);
                assert(r@[n0].0 == moves@[n0].0);
            };
            assert(!full(s));
            let e = choose|k: int| 0 <= k < 9 && !(s[k] is Some);
            let pe = (((e / 3) as usize), ((e % 3) as usize));
            assert(pidx(pe) == e);
            assert(is_option(s, pe));
            assert forall|q: int| 0 <= q < r@.len() implies (#[trigger] r@[q]).0 == moves@[q].0 by {};
            lemma_mirror_order(s, mark, moves@, r@);
        }
        r
    }

    /// Every concrete legal move whose child is a group image of some
    /// representative's child; each such move forces the same outcome
    /// as its representative.
    #[verifier::loop_isolation(false)]
    fn expand_optimal(&self, cs: &Vec<(usize, usize)>, cro: RelativeOutcome) -> (out: Vec<(usize, usize)>)
        requires
            self.wf(),
            forall|x: int| 0 <= x < cs@.len() ==> is_option(self.tiles@, #[trigger] cs@[x])
                && move_value(self.tiles@, self.turn, cs@[x]) == cro,
        ensures
            forall|x: int| 0 <= x < out@.len() ==> is_option(self.tiles@, #[trigger] out@[x])
                && move_value(self.tiles@, self.turn, out@[x]) == cro,
            forall|p: (usize, usize)|
                is_option(self.tiles@, p) && covered_by(self.tiles@, self.turn, cs@, p)
                ==> out@.contains(p),
    {
        let mark = self.turn;
        let ghost s = self.tiles@;
        let ghost m2 = reverse_of(mark);
        let opts = self.get_options();
        proof {
            lemma_options_membership(s, 9);
        }
        let mut out: Vec<(usize, usize)> = Vec::new();
        let mut i: usize = 0;
        while i < cs.len()
            invariant
                i <= cs@.len(),
                forall|x: int| 0 <= x < out@.len() ==> is_option(s, #[trigger] out@[x])
                    && move_value(s, mark, out@[x]) == cro,
                forall|p: (usize, usize)|
                    is_option(s, p) && covered_by(s, mark, cs@.subrange(0, i as int), p)
                    ==> out@.contains(p),
            decreases cs@.len() - i,
        {
            let rep = cs[i];
            let mut l = self.duplicate();
            l.set(rep, mark);
            let mut q: usize = 0;
            let perms = l.get_permutations();
            while q < opts.len()
                invariant
                    q <= opts@.len(),
                    i < cs@.len(),
                    l.tiles@ == child_of(s, mark, cs@[i as int]),
                    l.tiles@.len() == 9,
                    l.outcome == outcome_of(l.tiles@),
                    l.turn == m2,
                    perms@.len() == 8,
                    forall|g: int| 0 <= g < 8 ==> {
                        &&& (#[trigger] perms@[g]).tiles@ == orbit_elem(l.tiles@, g)
                        &&& perms@[g].tiles@.len() == 9
                        &&& perms@[g].outcome == l.outcome
                        &&& perms@[g].turn == l.turn
                    },
                    forall|x: int| 0 <= x < out@.len() ==> is_option(s, #[trigger] out@[x])
                        && move_value(s, mark, out@[x]) == cro,
                    forall|p: (usize, usize)|
                        is_option(s, p) && covered_by(s, mark, cs@.subrange(0, i as int), p)
                        ==> out@.contains(p),
                    forall|q2: int|
                        0 <= q2 < q && linked(s, mark, cs@[i as int], #[trigger] opts@[q2])
                        ==> out@.contains(opts@[q2]),
                decreases opts@.len() - q,
            {
                let cand = opts[q];
                assert(is_option(s, cand));
                let mut rch = self.duplicate();
                rch.set(cand, mark);
                let ghost out_old = out@;
                if contains_board(&perms, &rch) {
                    out.push(cand);
                    proof {
                        let g = choose|g: int|
                            0 <= g < perms@.len() && board_like(#[trigger] perms@[g], rch);
                        assert(rch.tiles@ == orbit_elem(l.tiles@, g));
                        lemma_value_orbit(l.tiles@, g, m2);
                        assert(move_value(s, mark, cand) == move_value(s, mark, cs@[i as int]));
                        assert(out@[out_old.len() as int] == cand);
                        assert(linked(s, mark, cs@[i as int], cand));
                        assert forall|p: (usize, usize)|
                            is_option(s, p) && covered_by(s, mark, cs@.subrange(0, i as int), p)
                            implies out@.contains(p)
                        by {
                            assert(out_old.contains(p));
                            let x = choose|x: int| 0 <= x < out_old.len() && out_old[x] == p;
                            assert(out@[x] == p);
                        };
                        assert forall|q2: int|
                            0 <= q2 <= q && linked(s, mark, cs@[i as int], #[trigger] opts@[q2])
                            implies out@.contains(opts@[q2])
                        by {
                            if q2 < q {
                                assert(out_old.contains(opts@[q2]));
                                let x = choose|x: int|
                                    0 <= x < out_old.len() && out_old[x] == opts@[q2];
                                assert(out@[x] == opts@[q2]);
                            } else {
                                assert(out@[out_old.len() as int] == opts@[q2]);
                            }
                        };
                    }
                } else {
                    proof {
                        assert(!linked(s, mark, cs@[i as int], cand)) by {
                            if linked(s, mark, cs@[i as int], cand) {
                                let g = choose|g: int|
                                    0 <= g < 8 && orbit_elem(child_of(s, mark, cs@[i as int]), g)
                                        == child_of(s, mark, cand);
                                lemma_symmetry_preserves_outcome(l.tiles@, g);
                                assert(perms@[g].tiles@ == rch.tiles@);
                                assert(perms@[g].outcome == rch.outcome);
                                assert(perms@[g].turn == rch.turn);
                                assert(board_like(perms@[g], rch));
                                assert(false);
                            }
                        };
                    }
                }
                q += 1;
            }
            proof {
                assert forall|p: (usize, usize)|
                    is_option(s, p) && covered_by(s, mark, cs@.subrange(0, i + 1), p)
                    implies out@.contains(p)
                by {
                    let reps = cs@.subrange(0, i + 1);
                    let i2 = choose|i2: int| 0 <= i2 < reps.len() && linked(s, mark, reps[i2], p);
                    if i2 == i {
                        assert(opts@.contains(p));
                        let q2 = choose|q2: int| 0 <= q2 < opts@.len() && opts@[q2] == p;
                        assert(linked(s, mark, cs@[i as int], opts@[q2]));
                    } else {
                        assert(cs@.subrange(0, i as int)[i2] == reps[i2]);
                        assert(covered_by(s, mark, cs@.subrange(0, i as int), p));
                    }
                };
            }
            i += 1;
        }
        proof {
            assert(cs@.subrange(0, cs@.len() as int) =~= cs@);
        }
        out
    }

    /// The best relative outcome the mover can force, and every legal
    /// move that forces it. The returned outcome equals the unpruned
    /// minimax value of the board, although the search evaluates only
    /// one move per symmetry class; the returned positions are exactly
    /// the legal moves whose value is optimal, recovered by expanding
    /// each winning symmetry-class representative back to all concrete
    /// moves whose child lies in its orbit.
    #[verifier::loop_isolation(false)]
    pub fn deduce_optimal_strategies(&self) -> (r: (RelativeOutcome, Vec<(usize, usize)>))
        requires
            self.wf(),
            self.outcome is None,
        ensures
            r.0 == value_of(self.tiles@, self.turn),
            forall|n: int| 0 <= n < r.1@.len()
                ==> is_option(self.tiles@, #[trigger] r.1@[n])
                    && move_value(self.tiles@, self.turn, r.1@[n]) == r.0,
            forall|p: (usize, usize)|
                is_option(self.tiles@, p) && move_value(self.tiles@, self.turn, p) == r.0
                ==> r.1@.contains(p),
    {
        let mark = self.turn;
        let ghost s = self.tiles@;
        let strategies = self.deduce_strategies();
        let (cro, cs) = select_best(&strategies);
        proof {
            assert forall|x: int| 0 <= x < cs@.len()
                implies is_option(s, #[trigger] cs@[x]) && move_value(s, mark, cs@[x]) == cro
            by {
                let j = choose|j: int|
                    0 <= j < strategies@.len() && #[trigger] strategies@[j] == (cs@[x], cro);
            };
            lemma_fold_is_value(s, mark, strategies@, cro);
            lemma_optimal_covered(s, mark, strategies@, cs@, cro);
        }
        let out = self.expand_optimal(&cs, cro);
        proof {
            assert forall|p: (usize, usize)|
                is_option(s, p) && move_value(s, mark, p) == cro
                implies out@.contains(p)
            by {
                assert(covered_by(s, mark, cs@, p));
            };
        }
        (cro, out)
    }
}

/// The largest value of a move list together with every listed move
/// that attains it: a larger value empties the collection, an equal
/// one joins it.
#[verifier::loop_isolation(false)]
fn select_best(list: &Vec<((usize, usize), RelativeOutcome)>) -> (r: (RelativeOutcome, Vec<(usize, usize)>))
    requires
        list@.len() >= 1,
    ensures
        exists|j: int| 0 <= j < list@.len() && (#[trigger] list@[j]).1 == r.0,
        forall|j: int| 0 <= j < list@.len() ==> ro_le((#[trigger] list@[j]).1, r.0),
        forall|x: int| 0 <= x < r.1@.len()
            ==> exists|j: int| 0 <= j < list@.len()
                && #[trigger] list@[j] == ((#[trigger] r.1@[x]), r.0),
        forall|j: int| 0 <= j < list@.len() && (#[trigger] list@[j]).1 == r.0
            ==> r.1@.contains(list@[j].0),
{
    let mut cro = RelativeOutcome::Loss;
    let mut cs: Vec<(usize, usize)> = Vec::new();
    let mut n: usize = 0;
    while n < list.len()
        invariant
            n <= list@.len(),
            forall|x: int| 0 <= x < cs@.len()
                ==> exists|j: int| 0 <= j < n && #[trigger] list@[j] == ((#[trigger] cs@[x]), cro),
            forall|j: int| 0 <= j < n ==> ro_le((#[trigger] list@[j]).1, cro),
            n > 0 ==> exists|j: int| 0 <= j < n && (#[trigger] list@[j]).1 == cro,
            forall|j: int| 0 <= j < n && (#[trigger] list@[j]).1 == cro
                ==> cs@.contains(list@[j].0),
            n == 0 ==> cro == RelativeOutcome::Loss && cs@.len() == 0,
        decreases list@.len() - n,
    {
        let (pos, ro) = list[n];
        if ro.rank() > cro.rank() {
            cs = Vec::new();
            cs.push(pos);
            cro = ro;
            proof {
                assert(cs@[0] == pos);
                assert(list@[n as int] == (cs@[0], cro));
                assert forall|j: int| 0 <= j <= n && (#[trigger] list@[j]).1 == cro
                    implies cs@.contains(list@[j].0)
                by {
                    assert(j == n);
                    assert(cs@[0] == list@[j].0);
                };
            }
        } else if ro.rank() == cro.rank() {
            let ghost cs_old = cs@;
            cs.push(pos);
            proof {
                assert(ro == cro);
                assert(list@[n as int] == (cs@[cs_old.len() as int], cro));
                assert forall|x: int| 0 <= x < cs@.len()
                    implies exists|j: int| 0 <= j <= n && #[trigger] list@[j] == ((#[trigger] cs@[x]), cro)
                by {
                    if x < cs_old.len() {
                        assert(cs@[x] == cs_old[x]);
                    }
                };
                assert forall|j: int| 0 <= j <= n && (#[trigger] list@[j]).1 == cro
                    implies cs@.contains(list@[j].0)
                by {
                    if j < n {
                        let x = choose|x: int|
                            0 <= x < cs_old.len() && cs_old[x] == list@[j].0;
                        assert(cs@[x] == list@[j].0);
                    } else {
                        assert(cs@[cs_old.len() as int] == list@[j].0);
                    }
                };
            }
        }
        n += 1;
    }
    (cro, cs)
}

} // verus!

//! The backtracking solver.
//!
//! The search walks the 81 cells in row-major order. A clue cell is kept; an
//! empty cell is tried with digits 1 through 9 in ascending order, a
//! candidate board that clashes is pruned, and the first candidate whose
//! subtree succeeds wins. The whole search is mirrored by the spec functions
//! `solve_from` and `try_digits`, so the result of `World::solve` is pinned
//! to a mathematical function of the input grid: the search is deterministic.

use vstd::prelude::*;
use crate::board::{World, cells_clash, grid_has_conflict, grid_wf, valid_cell};

verus! {

/// Every cell of the grid holds a digit.
pub open spec fn grid_complete(s: Seq<Option<u8>>) -> bool {
    forall|k: int| 0 <= k < 81 ==> (#[trigger] s[k]) is Some
}

/// Every cell already filled in `s` is kept unchanged in `t`.
pub open spec fn grid_extends(s: Seq<Option<u8>>, t: Seq<Option<u8>>) -> bool {
    forall|k: int| 0 <= k < 81 && (#[trigger] s[k]) is Some ==> t[k] == s[k]
}

/// A full, conflict-free, well-formed grid.
pub open spec fn valid_solution(t: Seq<Option<u8>>) -> bool {
    grid_wf(t) && grid_complete(t) && !grid_has_conflict(t)
}

/// Some valid solution keeps every clue of `s`.
pub open spec fn solvable(s: Seq<Option<u8>>) -> bool {
    exists|t: Seq<Option<u8>>| #[trigger] grid_extends(s, t) && valid_solution(t)
}

/// Every cell before position `p` (row-major) holds a digit.
pub open spec fn filled_below(s: Seq<Option<u8>>, p: int) -> bool {
    forall|k: int| 0 <= k < p ==> (#[trigger] s[k]) is Some
}

/// The search from position `p` onward: keep a filled cell, or try digits on
/// an empty one. `Some(t)` is the first completion found, `None` is failure.
pub open spec fn solve_from(s: Seq<Option<u8>>, p: int) -> Option<Seq<Option<u8>>>
    decreases 81 - p, 10int,
    when 0 <= p <= 81 && s.len() == 81
{
    if p == 81 {
        Some(s)
    } else if s[p] is Some {
        solve_from(s, p + 1)
    } else {
        try_digits(s, p, 1)
    }
}

/// Try digits `n` through 9, in ascending order, at the empty position `p`:
/// the first conflict-free candidate whose subtree succeeds gives the result.
pub open spec fn try_digits(s: Seq<Option<u8>>, p: int, n: int) -> Option<Seq<Option<u8>>>
    decreases 81 - p, 10 - n,
    when 0 <= p < 81 && 1 <= n <= 10 && s.len() == 81
{
    if n >= 10 {
        None
    } else {
        let s2 = s.update(p, Some(n as u8));
        if !grid_has_conflict(s2) && solve_from(s2, p + 1) is Some {
            solve_from(s2, p + 1)
        } else {
            try_digits(s, p, n + 1)
        }
    }
}

/// What `World::solve` computes on a grid: failure on clashing clues, else
/// the search from the first cell.
pub open spec fn solve_grid(s: Seq<Option<u8>>) -> Option<Seq<Option<u8>>> {
    if grid_has_conflict(s) {
        None
    } else {
        solve_from(s, 0)
    }
}

/// Keeping the filled cells of a clashing grid keeps the clash.
pub proof fn lemma_extends_keeps_conflict(s: Seq<Option<u8>>, t: Seq<Option<u8>>)
    requires
        s.len() == 81,
        t.len() == 81,
        grid_extends(s, t),
        grid_has_conflict(s),
    ensures
        grid_has_conflict(t),
{
    let (i1, j1, i2, j2) = choose|i1: int, j1: int, i2: int, j2: int|
        0 <= i1 < 9 && 0 <= j1 < 9 && 0 <= i2 < 9 && 0 <= j2 < 9
            && #[trigger] cells_clash(s, i1, j1, i2, j2);
    assert(t[i1 * 9 + j1] == s[i1 * 9 + j1]);
    assert(t[i2 * 9 + j2] == s[i2 * 9 + j2]);
    assert(cells_clash(t, i1, j1, i2, j2));
}

/// A grid whose clues already clash has no valid completion at all.
pub proof fn lemma_conflicting_clues_unsolvable(s: Seq<Option<u8>>)
    requires
        s.len() == 81,
        grid_has_conflict(s),
    ensures
        !solvable(s),
{
    if solvable(s) {
        let t = choose|t: Seq<Option<u8>>| #[trigger] grid_extends(s, t) && valid_solution(t);
        lemma_extends_keeps_conflict(s, t);
    }
}

/// `grid_extends` is transitive.
pub proof fn lemma_extends_trans(a: Seq<Option<u8>>, b: Seq<Option<u8>>, c: Seq<Option<u8>>)
    requires
        grid_extends(a, b),
        grid_extends(b, c),
    ensures
        grid_extends(a, c),
{
    assert forall|k: int| 0 <= k < 81 && (#[trigger] a[k]) is Some implies c[k] == a[k] by {
        assert(b[k] == a[k]);
    }
}

/// Soundness of the search: whenever it returns a grid, that grid is a valid
/// solution that keeps every cell already filled.
pub proof fn lemma_solve_from_sound(s: Seq<Option<u8>>, p: int)
    requires
        grid_wf(s),
        0 <= p <= 81,
        filled_below(s, p),
        !grid_has_conflict(s),
    ensures
        match solve_from(s, p) {
            Some(t) => valid_solution(t) && grid_extends(s, t),
            None => true,
        },
    decreases 81 - p, 10int,
{
    if p == 81 {
        assert(grid_complete(s));
    } else if s[p] is Some {
        lemma_solve_from_sound(s, p + 1);
    } else {
        lemma_try_digits_sound(s, p, 1);
    }
}

/// Soundness of the digit loop at one empty position.
proof fn lemma_try_digits_sound(s: Seq<Option<u8>>, p: int, n: int)
    requires
        grid_wf(s),
        0 <= p < 81,
        filled_below(s, p),
        !grid_has_conflict(s),
        s[p] is None,
        1 <= n <= 10,
    ensures
        match try_digits(s, p, n) {
            Some(t) => valid_solution(t) && grid_extends(s, t),
            None => true,
        },
    decreases 81 - p, 10 - n,
{
    if n >= 10 {
    } else {
        let s2 = s.update(p, Some(n as u8));
        if !grid_has_conflict(s2) && solve_from(s2, p + 1) is Some {
            lemma_solve_from_sound(s2, p + 1);
            let t = solve_from(s2, p + 1)->Some_0;
            assert(grid_extends(s, s2));
            lemma_extends_trans(s, s2, t);
        } else {
            lemma_try_digits_sound(s, p, n + 1);
        }
    }
}

/// The digit of a cell, 0 when empty.
pub open spec fn digit_of(c: Option<u8>) -> int {
    match c {
        Some(d) => d as int,
        None => 0,
    }
}

/// Completeness of the search: if some valid solution keeps the filled cells
/// of `s`, the search from `p` finds one.
pub proof fn lemma_solve_from_complete(s: Seq<Option<u8>>, p: int, t: Seq<Option<u8>>)
    requires
        grid_wf(s),
        0 <= p <= 81,
        filled_below(s, p),
        !grid_has_conflict(s),
        valid_solution(t),
        grid_extends(s, t),
    ensures
        solve_from(s, p) is Some,
    decreases 81 - p, 10int,
{
    if p == 81 {
    } else if s[p] is Some {
        lemma_solve_from_complete(s, p + 1, t);
    } else {
        assert(t[p] is Some);
        assert(valid_cell(t[p]));
        lemma_try_digits_complete(s, p, 1, t);
    }
}

/// Completeness of the digit loop: the solution's own digit at `p` is still
/// ahead of the loop, so some candidate at or before it succeeds.
proof fn lemma_try_digits_complete(s: Seq<Option<u8>>, p: int, n: int, t: Seq<Option<u8>>)
    requires
        grid_wf(s),
        0 <= p < 81,
        filled_below(s, p),
        !grid_has_conflict(s),
        s[p] is None,
        valid_solution(t),
        grid_extends(s, t),
        1 <= n <= 9,
        n <= digit_of(t[p]),
    ensures
        try_digits(s, p, n) is Some,
    decreases 81 - p, 10 - n,
{
    let s2 = s.update(p, Some(n as u8));
    if !grid_has_conflict(s2) && solve_from(s2, p + 1) is Some {
    } else {
        if n == digit_of(t[p]) {
            assert(t[p] == Some(n as u8));
            assert(grid_extends(s2, t)) by {
                assert forall|k: int| 0 <= k < 81 && (#[trigger] s2[k]) is Some
                    implies t[k] == s2[k] by {
                    if k != p {
                        assert(s[k] is Some);
                    }
                }
            }
            assert(!grid_has_conflict(s2)) by {
                if grid_has_conflict(s2) {
                    lemma_extends_keeps_conflict(s2, t);
                }
            }
            lemma_solve_from_complete(s2, p + 1, t);
            assert(false);
        } else {
            lemma_try_digits_complete(s, p, n + 1, t);
        }
    }
}

/// The failure report of `World::solve`: the puzzle has no valid completion.
#[derive(Clone, Copy, Debug, PartialEq, Eq, Structural)]
pub struct Unsolvable;

impl World {
    /// One step of the search, at cursor (i, j): computes exactly
    /// `solve_from` on the grid, walking the cells in row-major order.
    pub fn solve_impl(self, i: usize, j: usize) -> (r: Option<World>)
        requires
            self.wf(),
            (i < 9 && j < 9) || (i == 9 && j == 0),
        ensures
            match r {
                Some(w) => w.wf() && solve_from(self@, i as int * 9 + j as int) == Some(w@),
                None => solve_from(self@, i as int * 9 + j as int) is None,
            },
        decreases 81 - (i as int * 9 + j as int),
    {
        if i == 9 {
            return Some(self);
        }
        let (i_next, j_next) = if j < 8 {
            (i, j + 1)
        } else {
            (i + 1, 0)
        };
        let ghost p: int = i as int * 9 + j as int;
        match self.get(i, j) {
            Some(_) => self.solve_impl(i_next, j_next),
            None => {
                let mut n: u8 = 1;
                while n <= 9
                    invariant
                        1 <= n <= 10,
                        self.wf(),
                        i < 9,
                        j < 9,
                        p == i as int * 9 + j as int,
                        self@[p] is None,
                        (i_next < 9 && j_next < 9) || (i_next == 9 && j_next == 0),
                        i_next as int * 9 + j_next as int == p + 1,
                        try_digits(self@, p, 1) == try_digits(self@, p, n as int),
                    decreases 10 - n,
                {
                    let w = self.put_cell(i, j, n);
                    if !w.has_conflict() {
                        let r = w.solve_impl(i_next, j_next);
                        if r.is_some() {
                            return r;
                        }
                    }
                    n += 1;
                }
                None
            }
        }
    }

    /// Solve the puzzle: find the first full, conflict-free board that keeps
    /// every clue, or report that none exists.
    ///
    /// Succeeds exactly on solvable grids. The result is pinned to
    /// `solve_grid(self@)`, a function of the grid value alone, so the search
    /// is deterministic.
    pub fn solve(self) -> (r: Result<World, Unsolvable>)
        requires
            self.wf(),
        ensures
            r is Ok <==> solvable(self@),
            match r {
                Ok(w) => {
                    &&& w.wf()
                    &&& valid_solution(w@)
                    &&& grid_extends(self@, w@)
                    &&& solve_grid(self@) == Some(w@)
                },
                Err(e) => solve_grid(self@) is None,
            },
    {
        let ghost s = self@;
        if self.has_conflict() {
            proof {
                lemma_conflicting_clues_unsolvable(s);
            }
            Err(Unsolvable)
        } else {
            match self.solve_impl(0, 0) {
                Some(w) => {
                    proof {
                        lemma_solve_from_sound(s, 0);
                        assert(grid_extends(s, w@) && valid_solution(w@));
                    }
                    Ok(w)
                },
                None => {
                    proof {
                        if solvable(s) {
                            let t = choose|t: Seq<Option<u8>>|
                                #[trigger] grid_extends(s, t) && valid_solution(t);
                            lemma_solve_from_complete(s, 0, t);
                        }
                    }
                    Err(Unsolvable)
                },
            }
        }
    }
}

/// Determinism of the solver: its outcome is a function of the grid value
/// alone, so two runs on equal boards return equal results.
pub proof fn lemma_solve_deterministic(
    s: Seq<Option<u8>>,
    r1: Option<Seq<Option<u8>>>,
    r2: Option<Seq<Option<u8>>>,
)
    requires
        r1 == solve_grid(s),
        r2 == solve_grid(s),
    ensures
        r1 == r2,
{
}

} // verus!

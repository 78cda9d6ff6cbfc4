//! The board: a 9x9 grid of optional digits, with conflict detection.
//!
//! A grid is modelled as a sequence of 81 cells in row-major order; cell
//! (i, j) sits at index `i * 9 + j`. Two distinct cells clash when they
//! hold the same digit and share a row, a column, or a 3x3 box.

use vstd::prelude::*;

verus! {

/// A cell is valid when it is empty or holds a digit 1-9.
pub open spec fn valid_cell(c: Option<u8>) -> bool {
    match c {
        Some(d) => 1 <= d && d <= 9,
        None => true,
    }
}

/// A well-formed grid: 81 cells, each empty or a digit 1-9.
pub open spec fn grid_wf(s: Seq<Option<u8>>) -> bool {
    &&& s.len() == 81
    &&& forall|k: int| 0 <= k < 81 ==> valid_cell(#[trigger] s[k])
}

/// The cell of grid `s` at row `i`, column `j` (row-major order).
pub open spec fn at(s: Seq<Option<u8>>, i: int, j: int) -> Option<u8> {
    s[i * 9 + j]
}

/// Two positions share a unit: same row, same column, or same 3x3 box.
pub open spec fn same_unit(i1: int, j1: int, i2: int, j2: int) -> bool {
    ||| i1 == i2
    ||| j1 == j2
    ||| (i1 / 3 == i2 / 3 && j1 / 3 == j2 / 3)
}

/// Distinct cells at (i1, j1) and (i2, j2) hold the same digit and share a unit.
pub open spec fn cells_clash(s: Seq<Option<u8>>, i1: int, j1: int, i2: int, j2: int) -> bool {
    &&& !(i1 == i2 && j1 == j2)
    &&& same_unit(i1, j1, i2, j2)
    &&& at(s, i1, j1) is Some
    &&& at(s, i1, j1) == at(s, i2, j2)
}

/// Some two distinct cells of the grid clash.
pub open spec fn grid_has_conflict(s: Seq<Option<u8>>) -> bool {
    exists|i1: int, j1: int, i2: int, j2: int|
        0 <= i1 < 9 && 0 <= j1 < 9 && 0 <= i2 < 9 && 0 <= j2 < 9
            && #[trigger] cells_clash(s, i1, j1, i2, j2)
}

/// Some cell of row `i` other than column `j0` holds digit `n`.
pub open spec fn row_clash(s: Seq<Option<u8>>, i: int, j0: int, n: u8) -> bool {
    exists|j: int| 0 <= j < 9 && j != j0 && #[trigger] at(s, i, j) == Some(n)
}

/// Some cell of column `j` other than row `i0` holds digit `n`.
pub open spec fn col_clash(s: Seq<Option<u8>>, i0: int, j: int, n: u8) -> bool {
    exists|i: int| 0 <= i < 9 && i != i0 && #[trigger] at(s, i, j) == Some(n)
}

/// Some cell of the 3x3 box of (i0, j0), other than (i0, j0), holds digit `n`.
pub open spec fn box_clash(s: Seq<Option<u8>>, i0: int, j0: int, n: u8) -> bool {
    exists|i: int, j: int|
        3 * (i0 / 3) <= i < 3 * (i0 / 3) + 3 && 3 * (j0 / 3) <= j < 3 * (j0 / 3) + 3
            && !(i == i0 && j == j0) && #[trigger] at(s, i, j) == Some(n)
}

/// The cell at (i, j) holds a digit that reappears in its row, column or box.
pub open spec fn cell_conflict(s: Seq<Option<u8>>, i: int, j: int) -> bool {
    match at(s, i, j) {
        Some(n) => row_clash(s, i, j, n) || col_clash(s, i, j, n) || box_clash(s, i, j, n),
        None => false,
    }
}

/// A 9x9 Sudoku board. Its view is the 81-cell row-major grid.
pub struct World {
    cells: Vec<Option<u8>>,
}

impl View for World {
    type V = Seq<Option<u8>>;

    closed spec fn view(&self) -> Seq<Option<u8>> {
        self.cells@
    }
}

impl World {
    /// The board holds a well-formed grid.
    pub open spec fn wf(&self) -> bool {
        grid_wf(self@)
    }

    /// Wrap a validated row-major grid of 81 cells.
    pub(crate) fn from_cells(cells: Vec<Option<u8>>) -> (w: World)
        requires
            grid_wf(cells@),
        ensures
            w@ == cells@,
            w.wf(),
    {
        World { cells }
    }

    /// Read the cell at row `i`, column `j`.
    pub fn get(&self, i: usize, j: usize) -> (c: Option<u8>)
        requires
            self.wf(),
            i < 9,
            j < 9,
        ensures
            c == at(self@, i as int, j as int),
    {
        self.cells[i * 9 + j]
    }

    /// A value-copy of the board with cell (i, j) set to digit `n`.
    pub fn put_cell(&self, i: usize, j: usize, n: u8) -> (w: World)
        requires
            self.wf(),
            i < 9,
            j < 9,
            1 <= n && n <= 9,
        ensures
            w@ == self@.update(i as int * 9 + j as int, Some(n)),
            w.wf(),
    {
        let mut cells: Vec<Option<u8>> = Vec::new();
        let mut k: usize = 0;
        while k < 81
            invariant
                k <= 81,
                self.wf(),
                cells@.len() == k,
                forall|m: int| 0 <= m < k ==> cells@[m] == self@[m],
            decreases 81 - k,
        {
            cells.push(self.cells[k]);
            k += 1;
        }
        cells.set(i * 9 + j, Some(n));
        let w = World { cells };
        proof {
            assert(w@ =~= self@.update(i as int * 9 + j as int, Some(n)));
        }
        w
    }

    /// Does digit `n` appear in row `i` at some column other than `j0`?
    pub fn conflict_h(&self, i: usize, j0: usize, n: u8) -> (r: bool)
        requires
            self.wf(),
            i < 9,
            j0 < 9,
        ensures
            r == row_clash(self@, i as int, j0 as int, n),
    {
        let mut j: usize = 0;
        while j < 9
            invariant
                self.wf(),
                i < 9,
                j0 < 9,
                j <= 9,
                forall|m: int| 0 <= m < j && m != j0 ==> #[trigger] at(self@, i as int, m) != Some(n),
            decreases 9 - j,
        {
            if j != j0 {
                match self.get(i, j) {
                    Some(d) => if d == n {
                        return true;
                    },
                    None => {}
                }
            }
            j += 1;
        }
        false
    }

    /// Does digit `n` appear in column `j` at some row other than `i0`?
    pub fn conflict_v(&self, i0: usize, j: usize, n: u8) -> (r: bool)
        requires
            self.wf(),
            i0 < 9,
            j < 9,
        ensures
            r == col_clash(self@, i0 as int, j as int, n),
    {
        let mut i: usize = 0;
        while i < 9
            invariant
                self.wf(),
                i0 < 9,
                j < 9,
                i <= 9,
                forall|m: int| 0 <= m < i && m != i0 ==> #[trigger] at(self@, m, j as int) != Some(n),
            decreases 9 - i,
        {
            if i != i0 {
                match self.get(i, j) {
                    Some(d) => if d == n {
                        return true;
                    },
                    None => {}
                }
            }
            i += 1;
        }
        false
    }

    /// Does digit `n` appear in the 3x3 box of (i0, j0), outside (i0, j0) itself?
    pub fn conflict_b(&self, i0: usize, j0: usize, n: u8) -> (r: bool)
        requires
            self.wf(),
            i0 < 9,
            j0 < 9,
        ensures
            r == box_clash(self@, i0 as int, j0 as int, n),
    {
        let ibase = (i0 / 3) * 3;
        let jbase = (j0 / 3) * 3;
        let mut i: usize = ibase;
        while i < ibase + 3
            invariant
                self.wf(),
                i0 < 9,
                j0 < 9,
                ibase == 3 * (i0 as int / 3),
                jbase == 3 * (j0 as int / 3),
                ibase <= i <= ibase + 3,
                forall|mi: int, mj: int|
                    ibase <= mi < i && jbase <= mj < jbase + 3 && !(mi == i0 && mj == j0)
                        ==> #[trigger] at(self@, mi, mj) != Some(n),
            decreases ibase + 3 - i,
        {
            let mut j: usize = jbase;
            while j < jbase + 3
                invariant
                    self.wf(),
                    i0 < 9,
                    j0 < 9,
                    ibase == 3 * (i0 as int / 3),
                    jbase == 3 * (j0 as int / 3),
                    ibase <= i < ibase + 3,
                    jbase <= j <= jbase + 3,
                    forall|mi: int, mj: int|
                        ibase <= mi < i && jbase <= mj < jbase + 3 && !(mi == i0 && mj == j0)
                            ==> #[trigger] at(self@, mi, mj) != Some(n),
                    forall|mj: int|
                        jbase <= mj < j && !(i == i0 && mj == j0)
                            ==> #[trigger] at(self@, i as int, mj) != Some(n),
                decreases jbase + 3 - j,
            {
                if i != i0 || j != j0 {
                    match self.get(i, j) {
                        Some(d) => if d == n {
                            return true;
                        },
                        None => {}
                    }
                }
                j += 1;
            }
            i += 1;
        }
        false
    }

    /// Does the cell at (i, j) hold a digit that reappears in its row, column or box?
    pub fn cell_has_conflict(&self, i: usize, j: usize) -> (r: bool)
        requires
            self.wf(),
            i < 9,
            j < 9,
        ensures
            r == cell_conflict(self@, i as int, j as int),
    {
        match self.get(i, j) {
            Some(n) => self.conflict_h(i, j, n) || self.conflict_v(i, j, n) || self.conflict_b(
                i,
                j,
                n,
            ),
            None => false,
        }
    }

    /// Do some two distinct cells of the board clash?
    ///
    /// True iff two distinct cells share a row, column or box and hold equal
    /// digits.
    pub fn has_conflict(&self) -> (r: bool)
        requires
            self.wf(),
        ensures
            r == grid_has_conflict(self@),
    {
        let mut i: usize = 0;
        while i < 9
            invariant
                self.wf(),
                i <= 9,
                forall|mi: int, mj: int|
                    0 <= mi < i && 0 <= mj < 9 ==> !#[trigger] cell_conflict(self@, mi, mj),
            decreases 9 - i,
        {
            let mut j: usize = 0;
            while j < 9
                invariant
                    self.wf(),
                    i < 9,
                    j <= 9,
                    forall|mi: int, mj: int|
                        0 <= mi < i && 0 <= mj < 9 ==> !#[trigger] cell_conflict(self@, mi, mj),
                    forall|mj: int| 0 <= mj < j ==> !#[trigger] cell_conflict(self@, i as int, mj),
                decreases 9 - j,
            {
                if self.cell_has_conflict(i, j) {
                    proof {
                        lemma_conflict_iff_some_cell(self@);
                        assert(cell_conflict(self@, i as int, j as int));
                    }
                    return true;
                }
                j += 1;
            }
            i += 1;
        }
        proof {
            lemma_conflict_iff_some_cell(self@);
        }
        false
    }
}

/// A grid clashes somewhere iff some single cell sees its own digit again in
/// its row, column or box.
pub proof fn lemma_conflict_iff_some_cell(s: Seq<Option<u8>>)
    requires
        s.len() == 81,
    ensures
        grid_has_conflict(s) <==> exists|i: int, j: int|
            0 <= i < 9 && 0 <= j < 9 && #[trigger] cell_conflict(s, i, j),
{
    if grid_has_conflict(s) {
        let (i1, j1, i2, j2) = choose|i1: int, j1: int, i2: int, j2: int|
            0 <= i1 < 9 && 0 <= j1 < 9 && 0 <= i2 < 9 && 0 <= j2 < 9
                && #[trigger] cells_clash(s, i1, j1, i2, j2);
        let n = at(s, i1, j1)->Some_0;
        assert(at(s, i2, j2) == Some(n));
        if i1 == i2 {
            assert(j2 != j1);
            assert(row_clash(s, i1, j1, n));
        } else if j1 == j2 {
            assert(col_clash(s, i1, j1, n));
        } else {
            assert(i1 / 3 == i2 / 3 && j1 / 3 == j2 / 3);
            assert(3 * (i1 / 3) <= i2 < 3 * (i1 / 3) + 3) by {
                assert(i2 == 3 * (i2 / 3) + i2 % 3);
            }
            assert(3 * (j1 / 3) <= j2 < 3 * (j1 / 3) + 3) by {
                assert(j2 == 3 * (j2 / 3) + j2 % 3);
            }
            assert(box_clash(s, i1, j1, n));
        }
        assert(cell_conflict(s, i1, j1));
    }
    if exists|i: int, j: int| 0 <= i < 9 && 0 <= j < 9 && #[trigger] cell_conflict(s, i, j) {
        let (i, j) = choose|i: int, j: int|
            0 <= i < 9 && 0 <= j < 9 && #[trigger] cell_conflict(s, i, j);
        let n = at(s, i, j)->Some_0;
        if row_clash(s, i, j, n) {
            let j2 = choose|j2: int| 0 <= j2 < 9 && j2 != j && #[trigger] at(s, i, j2) == Some(n);
            assert(cells_clash(s, i, j, i, j2));
        } else if col_clash(s, i, j, n) {
            let i2 = choose|i2: int| 0 <= i2 < 9 && i2 != i && #[trigger] at(s, i2, j) == Some(n);
            assert(cells_clash(s, i, j, i2, j));
        } else {
            let (i2, j2) = choose|i2: int, j2: int|
                3 * (i / 3) <= i2 < 3 * (i / 3) + 3 && 3 * (j / 3) <= j2 < 3 * (j / 3) + 3
                    && !(i2 == i && j2 == j) && #[trigger] at(s, i2, j2) == Some(n);
            assert(0 <= i2 < 9 && 0 <= j2 < 9) by {
                assert(0 <= i / 3 <= 2 && 0 <= j / 3 <= 2);
            }
            assert(i2 / 3 == i / 3) by {
                assert(i2 == 3 * (i2 / 3) + i2 % 3);
            }
            assert(j2 / 3 == j / 3) by {
                assert(j2 == 3 * (j2 / 3) + j2 % 3);
            }
            assert(cells_clash(s, i, j, i2, j2));
        }
        assert(grid_has_conflict(s));
    }
}

/// A board with no digit anywhere has no conflict.
pub proof fn lemma_all_empty_no_conflict(s: Seq<Option<u8>>)
    requires
        s.len() == 81,
        forall|k: int| 0 <= k < 81 ==> (#[trigger] s[k]) is None,
    ensures
        !grid_has_conflict(s),
{
    assert forall|i1: int, j1: int, i2: int, j2: int|
        0 <= i1 < 9 && 0 <= j1 < 9 && 0 <= i2 < 9 && 0 <= j2 < 9 implies !#[trigger] cells_clash(
        s,
        i1,
        j1,
        i2,
        j2,
    ) by {
        assert(s[i1 * 9 + j1] is None);
    }
}

} // verus!

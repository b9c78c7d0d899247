//! The search for a completion of a grid.

use crate::rules::{in_grid, is_solution, peers, rank};
use crate::wavefunc::cell::{Cell, CellView};
use crate::wavefunc::grid::{grid_valid, grid_wf, has_unknown, is_target, propagate, GridView,
    Sudoku};
use vstd::prelude::*;

verus! {

/// The digit of a known cell, and 0 for any other cell.
pub open spec fn digit_of(c: CellView) -> u8 {
    match c {
        CellView::Known(v) => v,
        _ => 0,
    }
}

/// The board of the digits that are known in `g`.
pub open spec fn board(g: GridView) -> Seq<Seq<u8>> {
    Seq::new(9, |r: int| Seq::new(9, |c: int| digit_of(g[r][c])))
}

/// Whether every cell is known.
pub open spec fn all_known(g: GridView) -> bool {
    forall|r: int, c: int| in_grid(r, c) ==> (#[trigger] g[r][c]) is Known
}

/// Whether the board `a` completes `g`: it is a solution, and it gives every
/// cell one of the digits that the cell may take. An invalid cell may take
/// none, so a grid with an invalid cell has no completion.
pub open spec fn completes(a: Seq<Seq<u8>>, g: GridView) -> bool {
    &&& is_solution(a)
    &&& forall|r: int, c: int| in_grid(r, c) ==> (#[trigger] g[r][c]).candidates().contains(a[r][c])
}

/// The places of the open cells, counted row by row from 0 to 80.
pub open spec fn unknown_places(g: GridView) -> Set<int> {
    Set::new(|k: int| 0 <= k < 81 && g[k / 9][k % 9] is Unknown)
}

/// How many cells are open.
pub open spec fn unknown_count(g: GridView) -> nat {
    unknown_places(g).len()
}

/// The cell to branch on, if any cell is open.
pub open spec fn target(g: GridView) -> (int, int) {
    choose|p: (int, int)| is_target(g, p.0, p.1)
}

/// The result of the search on `g`. A grid with an invalid cell has none. A
/// valid grid with no open cell is its own result. Otherwise the search
/// branches on the target cell.
pub open spec fn search(g: GridView) -> Option<GridView>
    decreases unknown_count(g), 10int,
{
    if !grid_valid(g) {
        None
    } else if !has_unknown(g) {
        Some(g)
    } else {
        branch(g, target(g).0, target(g).1, 1)
    }
}

/// The result of trying the digits from `v` to 9 at the open cell
/// `(row, col)`, in this order: the first result that the search finds after
/// assigning a candidate of the cell.
pub open spec fn branch(g: GridView, row: int, col: int, v: int) -> Option<GridView>
    decreases unknown_count(g), 10 - v,
{
    if !(1 <= v <= 9) || !in_grid(row, col) || !(g[row][col] is Unknown) {
        None
    } else if g[row][col].candidates().contains(v as u8) {
        proof {
            lemma_fewer_unknown(g, row, col, v as u8);
        }
        match search(propagate(g, row, col, v as u8)) {
            Some(s) => Some(s),
            None => branch(g, row, col, v + 1),
        }
    } else {
        branch(g, row, col, v + 1)
    }
}

/// Assigning a digit to an open cell leaves fewer open cells.
pub proof fn lemma_fewer_unknown(g: GridView, row: int, col: int, v: u8)
    requires
        in_grid(row, col),
        g[row][col] is Unknown,
    ensures
        unknown_count(propagate(g, row, col, v)) < unknown_count(g),
{
    let h = propagate(g, row, col, v);
    let before = unknown_places(g);
    let after = unknown_places(h);
    let k = rank(row, col);
    vstd::set_lib::lemma_int_range(0, 81);
    vstd::set_lib::lemma_len_subset(before, vstd::set_lib::set_int_range(0, 81));
    assert(before.contains(k));
    assert forall|n: int| after.contains(n) implies before.remove(k).contains(n) by {
        assert(in_grid(n / 9, n % 9));
        assert(h[n / 9][n % 9] is Unknown);
    }
    vstd::set_lib::lemma_len_subset(after, before.remove(k));
}

/// At most one cell is the target.
pub proof fn lemma_target_unique(g: GridView, r1: int, c1: int, r2: int, c2: int)
    requires
        is_target(g, r1, c1),
        is_target(g, r2, c2),
    ensures
        r1 == r2,
        c1 == c2,
{
}

/// A board that completes a grid still completes it after the board's own
/// digit is assigned at an open cell.
pub proof fn lemma_completion_kept(a: Seq<Seq<u8>>, g: GridView, row: int, col: int)
    requires
        completes(a, g),
        in_grid(row, col),
        g[row][col] is Unknown,
    ensures
        completes(a, propagate(g, row, col, a[row][col])),
{
    let v = a[row][col];
    let h = propagate(g, row, col, v);
    assert forall|r: int, c: int| in_grid(r, c) implies (#[trigger] h[r][c]).candidates().contains(
        a[r][c],
    ) by {
        assert(g[r][c].candidates().contains(a[r][c]));
        if !(r == row && c == col) {
            if crate::rules::linked(row, col, r, c) {
                assert(peers(row, col, r, c));
                assert(a[r][c] != v);
            }
        }
    }
}

/// A board that completes a grid after an assignment completes the grid before
/// it too: an assignment only narrows.
pub proof fn lemma_completion_widens(a: Seq<Seq<u8>>, g: GridView, row: int, col: int, v: u8)
    requires
        completes(a, propagate(g, row, col, v)),
        in_grid(row, col),
    ensures
        completes(a, g),
{
    let h = propagate(g, row, col, v);
    assert forall|r: int, c: int| in_grid(r, c) implies (#[trigger] g[r][c]).candidates().contains(
        a[r][c],
    ) by {
        assert(h[r][c].candidates().contains(a[r][c]));
    }
}

/// A well-formed grid in which every cell is known holds a solution.
pub proof fn lemma_known_grid_solved(g: GridView)
    requires
        grid_wf(g),
        all_known(g),
    ensures
        completes(board(g), g),
{
    let a = board(g);
    assert forall|r: int, c: int| in_grid(r, c) implies 1 <= #[trigger] a[r][c] <= 9 by {
        assert(g[r][c].wf());
        assert(g[r][c] is Known);
    }
    assert forall|r1: int, c1: int, r2: int, c2: int|
        in_grid(r1, c1) && in_grid(r2, c2) && #[trigger] peers(r1, c1, r2, c2) && a[r1][c1]
            != 0 implies a[r1][c1] != a[r2][c2] by {
        assert(g[r1][c1] is Known);
        assert(g[r2][c2] is Known);
    }
    assert forall|r: int, c: int| in_grid(r, c) implies (#[trigger] g[r][c]).candidates().contains(
        a[r][c],
    ) by {
        assert(g[r][c] is Known);
    }
}

impl Sudoku {
    /// Whether the grid is solved: every cell is known.
    pub fn is_solved(&self) -> (r: bool)
        ensures
            r == all_known(self@),
    {
        let mut row: usize = 0;
        while row < 9
            invariant
                row <= 9,
                forall|i: int, j: int| in_grid(i, j) && i < row ==> (#[trigger] self@[i][j]) is Known,
            decreases 9 - row,
        {
            let mut col: usize = 0;
            while col < 9
                invariant
                    row < 9,
                    col <= 9,
                    forall|i: int, j: int|
                        in_grid(i, j) && i < row ==> (#[trigger] self@[i][j]) is Known,
                    forall|j: int| 0 <= j < col ==> (#[trigger] self@[row as int][j]) is Known,
                decreases 9 - col,
            {
                match self.get(row, col) {
                    Cell::Known(_) => {},
                    _ => {
                        proof {
                            assert(in_grid(row as int, col as int));
                            assert(!(self@[row as int][col as int] is Known));
                        }
                        return false;
                    },
                }
                col += 1;
            }
            row += 1;
        }
        true
    }

    /// Searches for a completion of the grid.
    ///
    /// The search gives up at once on a grid with an invalid cell. It returns
    /// the grid itself when no cell is open. Otherwise it takes the open cell
    /// with the fewest candidates, assigns its candidates in ascending order,
    /// and returns the first result found below one of them.
    ///
    /// The result, if there is one, has every cell known, holds a solution, and
    /// that solution completes this grid. If there is none, no board completes
    /// this grid.
    pub fn solved(&self) -> (r: Option<Sudoku>)
        requires
            self.wf(),
        ensures
            r matches Some(s) ==> {
                &&& s.wf()
                &&& search(self@) == Some(s@)
                &&& all_known(s@)
                &&& completes(board(s@), self@)
            },
            r is None ==> {
                &&& search(self@) is None
                &&& forall|a: Seq<Seq<u8>>| !completes(a, self@)
            },
        decreases unknown_count(self@),
    {
        let ghost g = self@;
        let found = self.lowest_entropy();
        if !self.is_valid() {
            proof {
                assert forall|a: Seq<Seq<u8>>| !completes(a, g) by {
                    if completes(a, g) {
                        let (i, j) = choose|i: int, j: int|
                            in_grid(i, j) && !(#[trigger] g[i][j]).is_valid();
                        assert(g[i][j].candidates().contains(a[i][j]));
                    }
                }
            }
            return None;
        }
        match found {
            None => {
                proof {
                    assert forall|i: int, j: int| in_grid(i, j) implies (#[trigger] g[i][j])
                        is Known by {
                        assert(g[i][j].is_valid());
                    }
                    lemma_known_grid_solved(g);
                }
                Some(*self)
            },
            Some((cell, min_row, min_col)) => {
                let ghost row = min_row as int;
                let ghost col = min_col as int;
                proof {
                    assert(g[row][col] is Unknown);
                    assert(has_unknown(g));
                    assert(is_target(g, (row, col).0, (row, col).1));
                    lemma_target_unique(g, row, col, target(g).0, target(g).1);
                    assert(cell.wf());
                    assert(g[row][col] == cell@);
                }
                let possible_values_set = cell.possible_values();
                let mut val: u8 = 1;
                while val <= 9
                    invariant
                        1 <= val <= 10,
                        self.wf(),
                        g == self@,
                        row == min_row,
                        col == min_col,
                        in_grid(row, col),
                        g[row][col] is Unknown,
                        possible_values_set@ == g[row][col].candidates(),
                        search(g) == branch(g, row, col, val as int),
                        forall|a: Seq<Seq<u8>>| completes(a, g) ==> a[row][col] >= val,
                    decreases 10 - val,
                {
                    if possible_values_set.contains(val) {
                        let updated_grid = self.set(min_row, min_col, val);
                        proof {
                            lemma_fewer_unknown(g, row, col, val);
                        }
                        match updated_grid.solved() {
                            Some(solution) => {
                                proof {
                                    lemma_completion_widens(board(solution@), g, row, col, val);
                                }
                                return Some(solution);
                            },
                            None => {
                                proof {
                                    assert forall|a: Seq<Seq<u8>>| completes(a, g) implies a[row][col]
                                        != val by {
                                        if a[row][col] == val {
                                            lemma_completion_kept(a, g, row, col);
                                        }
                                    }
                                }
                            },
                        }
                    } else {
                        proof {
                            assert forall|a: Seq<Seq<u8>>| completes(a, g) implies a[row][col]
                                != val by {
                                assert(g[row][col].candidates().contains(a[row][col]));
                            }
                        }
                    }
                    val += 1;
                }
                proof {
                    assert forall|a: Seq<Seq<u8>>| !completes(a, g) by {
                        if completes(a, g) {
                            assert(a[row][col] >= 10);
                            assert(1 <= a[row][col] <= 9);
                        }
                    }
                }
                None
            },
        }
    }
}

} // verus!

//! The grid of cells and the propagation step.

use crate::rules::{board_of, entries_in_range, in_grid, linked, peers, rank};
use crate::wavefunc::cell::{Cell, CellView};
use vstd::prelude::*;

verus! {

/// A grid as a mathematical value: nine rows of nine cells.
pub type GridView = Seq<Seq<CellView>>;

/// Nine rows of nine cells.
pub open spec fn is_grid(g: GridView) -> bool {
    &&& g.len() == 9
    &&& forall|r: int| 0 <= r < 9 ==> (#[trigger] g[r]).len() == 9
}

/// Whether no peer of a known cell may still take that cell's digit.
pub open spec fn peers_narrowed(g: GridView) -> bool {
    forall|r1: int, c1: int, r2: int, c2: int|
        in_grid(r1, c1) && in_grid(r2, c2) && #[trigger] peers(r1, c1, r2, c2) && g[r1][c1] is Known
            ==> !g[r2][c2].candidates().contains(g[r1][c1]->Known_0)
}

/// The invariant of every grid that the solver builds: the cells are well
/// formed, and each known digit has been excluded from all peers of its cell.
pub open spec fn grid_wf(g: GridView) -> bool {
    &&& is_grid(g)
    &&& forall|r: int, c: int| in_grid(r, c) ==> (#[trigger] g[r][c]).wf()
    &&& peers_narrowed(g)
}

/// Whether no cell is invalid.
pub open spec fn grid_valid(g: GridView) -> bool {
    forall|r: int, c: int| in_grid(r, c) ==> (#[trigger] g[r][c]).is_valid()
}

/// The grid in which every cell is fresh.
pub open spec fn empty_grid() -> GridView {
    Seq::new(9, |r: int| Seq::new(9, |c: int| CellView::fresh()))
}

/// The grid after `v` is assigned at `(row, col)`: that cell takes the
/// assignment, every other cell linked to it has `v` excluded, and the rest
/// stay as they are. One pass; nothing cascades.
pub open spec fn propagate(g: GridView, row: int, col: int, v: u8) -> GridView {
    Seq::new(
        9,
        |r: int|
            Seq::new(
                9,
                |c: int|
                    if r == row && c == col {
                        g[r][c].assign(v)
                    } else if linked(row, col, r, c) {
                        g[r][c].exclude(v)
                    } else {
                        g[r][c]
                    },
            ),
    )
}

/// The grid after the entries of `b` that come before `(r, c)`, row by row,
/// have been assigned to an empty grid one after the other. Zero entries are
/// passed over.
pub open spec fn filled(b: Seq<Seq<u8>>, r: int, c: int) -> GridView
    decreases r, c,
{
    if r <= 0 && c <= 0 {
        empty_grid()
    } else if c <= 0 {
        filled(b, r - 1, 9)
    } else {
        let g = filled(b, r, c - 1);
        if b[r][c - 1] == 0 {
            g
        } else {
            propagate(g, r, c - 1, b[r][c - 1])
        }
    }
}

/// Whether `(row, col)` is the open cell to branch on: the one with the fewest
/// candidates, and among those with equally few, the first when the grid is
/// read row by row.
pub open spec fn is_target(g: GridView, row: int, col: int) -> bool {
    &&& in_grid(row, col)
    &&& g[row][col] is Unknown
    &&& forall|r: int, c: int|
        in_grid(r, c) && (#[trigger] g[r][c]) is Unknown ==> {
            ||| g[row][col].candidates().len() < g[r][c].candidates().len()
            ||| (g[row][col].candidates().len() == g[r][c].candidates().len() && rank(row, col)
                <= rank(r, c))
        }
}

/// Whether `(row, col)` is the target among the cells that come before place
/// `n`, row by row.
pub open spec fn is_target_before(g: GridView, n: int, row: int, col: int) -> bool {
    &&& in_grid(row, col)
    &&& rank(row, col) < n
    &&& g[row][col] is Unknown
    &&& forall|r: int, c: int|
        in_grid(r, c) && rank(r, c) < n && (#[trigger] g[r][c]) is Unknown ==> {
            ||| g[row][col].candidates().len() < g[r][c].candidates().len()
            ||| (g[row][col].candidates().len() == g[r][c].candidates().len() && rank(row, col)
                <= rank(r, c))
        }
}

/// Whether any cell is open.
pub open spec fn has_unknown(g: GridView) -> bool {
    exists|r: int, c: int| in_grid(r, c) && (#[trigger] g[r][c]) is Unknown
}

/// Whether entry `k` of `cells` is the cell at `(r, c)`.
pub open spec fn names(cells: Seq<(Cell, usize, usize)>, k: int, r: int, c: int) -> bool {
    0 <= k < cells.len() && cells[k].1 == r && cells[k].2 == c
}

/// Whether one of the first `n` entries of `cells` is the cell at `(r, c)`.
pub open spec fn lists(cells: Seq<(Cell, usize, usize)>, n: int, r: int, c: int) -> bool {
    exists|k: int| k < n && #[trigger] names(cells, k, r, c)
}

/// Assigning a digit keeps the invariant of the grid.
pub proof fn lemma_propagate_wf(g: GridView, row: int, col: int, v: u8)
    requires
        grid_wf(g),
        in_grid(row, col),
        1 <= v <= 9,
    ensures
        grid_wf(propagate(g, row, col, v)),
{
    let h = propagate(g, row, col, v);
    assert forall|r: int, c: int| in_grid(r, c) implies (#[trigger] h[r][c]).wf() by {
        assert(g[r][c].wf());
    }
    assert forall|r1: int, c1: int, r2: int, c2: int|
        in_grid(r1, c1) && in_grid(r2, c2) && #[trigger] peers(r1, c1, r2, c2)
            && h[r1][c1] is Known implies !h[r2][c2].candidates().contains(
        h[r1][c1]->Known_0,
    ) by {
        let w = h[r1][c1]->Known_0;
        assert(h[r2][c2].candidates().subset_of(g[r2][c2].candidates()) || (r2 == row && c2
            == col && g[r2][c2] is Unknown));
        if g[r1][c1] is Known {
            assert(peers(r1, c1, r2, c2));
            assert(!g[r2][c2].candidates().contains(w));
        } else {
            assert(r1 == row && c1 == col && w == v);
            assert(peers(r2, c2, r1, c1));
        }
    }
}

/// Why an assignment or a board was turned away before anything was built.
#[derive(Debug, Copy, Clone, PartialEq, Eq)]
pub enum GridError {
    /// A row or a column is not one of 0 to 8.
    PlaceOutOfRange,
    /// A value to assign is not one of 1 to 9, or an entry of a board is not
    /// one of 0 to 9.
    ValueOutOfRange,
}

/// The nine-by-nine grid of cells.
#[derive(Debug, Copy, Clone)]
pub struct Sudoku {
    grid: [[Cell; 9]; 9],
}

impl View for Sudoku {
    type V = GridView;

    open spec fn view(&self) -> GridView {
        Seq::new(9, |r: int| Seq::new(9, |c: int| self.cell_at(r, c)@))
    }
}

impl Sudoku {
    /// The cell at `(r, c)`.
    pub closed spec fn cell_at(&self, r: int, c: int) -> Cell {
        self.grid[r][c]
    }

    /// Every cell is well formed and the grid keeps its invariant.
    pub open spec fn wf(&self) -> bool {
        &&& forall|r: int, c: int| in_grid(r, c) ==> (#[trigger] self.cell_at(r, c)).wf()
        &&& grid_wf(self@)
    }

    /// Whether `cells` lists, row by row, the cells linked to `(row, col)` with
    /// their places, each cell once.
    pub open spec fn linked_cells(
        &self,
        cells: Seq<(Cell, usize, usize)>,
        row: int,
        col: int,
    ) -> bool {
        &&& forall|k: int|
            0 <= k < cells.len() ==> {
                &&& in_grid((#[trigger] cells[k]).1 as int, cells[k].2 as int)
                &&& linked(row, col, cells[k].1 as int, cells[k].2 as int)
                &&& cells[k].0 == self.cell_at(cells[k].1 as int, cells[k].2 as int)
            }
        &&& forall|k1: int, k2: int|
            0 <= k1 < k2 < cells.len() ==> rank((#[trigger] cells[k1]).1 as int, cells[k1].2 as int)
                < rank((#[trigger] cells[k2]).1 as int, cells[k2].2 as int)
        &&& forall|r: int, c: int|
            in_grid(r, c) && #[trigger] linked(row, col, r, c) ==> lists(
                cells,
                cells.len() as int,
                r,
                c,
            )
    }

    /// The cell at `(row, col)`.
    pub fn get(&self, row: usize, col: usize) -> (cell: Cell)
        requires
            row < 9,
            col < 9,
        ensures
            cell == self.cell_at(row as int, col as int),
            cell@ == self@[row as int][col as int],
    {
        self.grid[row][col]
    }

    /// The grid with the cell at `(row, col)` replaced.
    fn updated(&self, row: usize, col: usize, cell: Cell) -> (r: Sudoku)
        requires
            row < 9,
            col < 9,
        ensures
            forall|i: int, j: int|
                in_grid(i, j) ==> #[trigger] r.cell_at(i, j) == (if i == row && j == col {
                    cell
                } else {
                    self.cell_at(i, j)
                }),
    {
        let mut grid = self.grid;
        grid[row][col] = cell;
        Sudoku { grid }
    }

    /// All 81 cells with their places, row by row.
    pub fn cells_with_indexes(&self) -> (cells: Vec<(Cell, usize, usize)>)
        ensures
            cells.len() == 81,
            forall|k: int|
                0 <= k < 81 ==> #[trigger] cells[k] == (
                    self.cell_at(k / 9, k % 9),
                    (k / 9) as usize,
                    (k % 9) as usize,
                ),
    {
        let mut cells: Vec<(Cell, usize, usize)> = Vec::new();
        let mut row: usize = 0;
        while row < 9
            invariant
                row <= 9,
                cells.len() == 9 * row,
                forall|k: int|
                    0 <= k < 9 * row ==> #[trigger] cells[k] == (
                        self.cell_at(k / 9, k % 9),
                        (k / 9) as usize,
                        (k % 9) as usize,
                    ),
            decreases 9 - row,
        {
            let mut col: usize = 0;
            while col < 9
                invariant
                    row < 9,
                    col <= 9,
                    cells.len() == 9 * row + col,
                    forall|k: int|
                        0 <= k < 9 * row + col ==> #[trigger] cells[k] == (
                            self.cell_at(k / 9, k % 9),
                            (k / 9) as usize,
                            (k % 9) as usize,
                        ),
                decreases 9 - col,
            {
                cells.push((self.grid[row][col], row, col));
                col += 1;
            }
            row += 1;
        }
        cells
    }

    /// The cells linked to `(row, col)` with their places, row by row: the
    /// cells of its row, of its column and of its block, the cell itself among
    /// them.
    pub fn affected_cells(&self, row: usize, col: usize) -> (cells: Vec<(Cell, usize, usize)>)
        ensures
            self.linked_cells(cells@, row as int, col as int),
    {
        let all = self.cells_with_indexes();
        let mut cells: Vec<(Cell, usize, usize)> = Vec::new();
        let mut n: usize = 0;
        while n < 81
            invariant
                n <= 81,
                all.len() == 81,
                forall|k: int|
                    0 <= k < 81 ==> #[trigger] all[k] == (
                        self.cell_at(k / 9, k % 9),
                        (k / 9) as usize,
                        (k % 9) as usize,
                    ),
                forall|k: int|
                    0 <= k < cells.len() ==> {
                        &&& in_grid((#[trigger] cells[k]).1 as int, cells[k].2 as int)
                        &&& linked(row as int, col as int, cells[k].1 as int, cells[k].2 as int)
                        &&& cells[k].0 == self.cell_at(cells[k].1 as int, cells[k].2 as int)
                        &&& rank(cells[k].1 as int, cells[k].2 as int) < n
                    },
                forall|k1: int, k2: int|
                    0 <= k1 < k2 < cells.len() ==> rank(
                        (#[trigger] cells[k1]).1 as int,
                        cells[k1].2 as int,
                    ) < rank((#[trigger] cells[k2]).1 as int, cells[k2].2 as int),
                forall|r: int, c: int|
                    in_grid(r, c) && rank(r, c) < n && #[trigger] linked(
                        row as int,
                        col as int,
                        r,
                        c,
                    ) ==> lists(cells@, cells.len() as int, r, c),
            decreases 81 - n,
        {
            let (cell, r, c) = all[n];
            let ghost before = cells@;
            if r == row || c == col || (row / 3 == r / 3 && col / 3 == c / 3) {
                cells.push((cell, r, c));
                assert(names(cells@, cells.len() - 1, r as int, c as int));
            }
            assert forall|i: int, j: int|
                in_grid(i, j) && rank(i, j) < n + 1 && #[trigger] linked(
                    row as int,
                    col as int,
                    i,
                    j,
                ) implies lists(cells@, cells.len() as int, i, j) by {
                if rank(i, j) < n {
                    assert(lists(before, before.len() as int, i, j));
                    let k = choose|k: int| k < before.len() && #[trigger] names(before, k, i, j);
                    assert(names(cells@, k, i, j));
                } else {
                    assert(i == r && j == c);
                    assert(names(cells@, cells.len() - 1, i, j));
                }
            }
            n += 1;
        }
        cells
    }

    /// Assigns `val` at `(row, col)` and excludes it from every cell linked to
    /// that cell. The grid itself is not changed; the result is a new grid.
    pub fn set(&self, row: usize, col: usize, val: u8) -> (r: Sudoku)
        requires
            self.wf(),
            row < 9,
            col < 9,
            1 <= val <= 9,
        ensures
            r.wf(),
            r@ == propagate(self@, row as int, col as int, val),
    {
        let base = self.updated(row, col, self.grid[row][col].set(val));
        let cells = base.affected_cells(row, col);
        let mut new_sudoku = base;
        let mut k: usize = 0;
        while k < cells.len()
            invariant
                k <= cells.len(),
                base.linked_cells(cells@, row as int, col as int),
                forall|i: int, j: int| in_grid(i, j) ==> (#[trigger] base.cell_at(i, j)).wf(),
                forall|i: int, j: int|
                    in_grid(i, j) ==> (#[trigger] new_sudoku.cell_at(i, j)).wf(),
                forall|i: int, j: int|
                    in_grid(i, j) ==> (#[trigger] new_sudoku.cell_at(i, j))@ == (if lists(
                        cells@,
                        k as int,
                        i,
                        j,
                    ) {
                        base.cell_at(i, j)@.exclude(val)
                    } else {
                        base.cell_at(i, j)@
                    }),
            decreases cells.len() - k,
        {
            let (cell, r, c) = cells[k];
            let ghost before = new_sudoku;
            new_sudoku = new_sudoku.updated(r, c, cell.without(val));
            proof {
                assert(names(cells@, k as int, r as int, c as int));
                assert forall|i: int, j: int| in_grid(i, j) implies (#[trigger] new_sudoku.cell_at(
                    i,
                    j,
                ))@ == (if lists(cells@, k + 1, i, j) {
                    base.cell_at(i, j)@.exclude(val)
                } else {
                    base.cell_at(i, j)@
                }) by {
                    if i == r && j == c {
                        assert(lists(cells@, k + 1, i, j));
                        if lists(cells@, k as int, i, j) {
                            let m = choose|m: int| m < k && #[trigger] names(cells@, m, i, j);
                            assert(rank(cells@[m].1 as int, cells@[m].2 as int) < rank(
                                cells@[k as int].1 as int,
                                cells@[k as int].2 as int,
                            ));
                        }
                    } else {
                        assert(new_sudoku.cell_at(i, j) == before.cell_at(i, j));
                        if lists(cells@, k + 1, i, j) {
                            let m = choose|m: int| m < k + 1 && #[trigger] names(cells@, m, i, j);
                            assert(m != k);
                            assert(names(cells@, m, i, j) && m < k);
                        }
                        if lists(cells@, k as int, i, j) {
                            let m = choose|m: int| m < k && #[trigger] names(cells@, m, i, j);
                            assert(names(cells@, m, i, j) && m < k + 1);
                        }
                    }
                }
            }
            k += 1;
        }
        proof {
            let g = self@;
            let h = propagate(g, row as int, col as int, val);
            assert forall|i: int, j: int| in_grid(i, j) implies new_sudoku@[i][j] == h[i][j] by {
                assert(new_sudoku@[i][j] == new_sudoku.cell_at(i, j)@);
                assert(g[i][j] == self.cell_at(i, j)@);
                if lists(cells@, cells.len() as int, i, j) {
                    let m = choose|m: int| m < cells.len() && #[trigger] names(cells@, m, i, j);
                    assert(linked(row as int, col as int, cells@[m].1 as int, cells@[m].2 as int));
                }
            }
            assert forall|i: int| 0 <= i < 9 implies new_sudoku@[i] =~= h[i] by {
                assert forall|j: int| 0 <= j < 9 implies new_sudoku@[i][j] == h[i][j] by {
                    assert(in_grid(i, j));
                }
            }
            assert(new_sudoku@ =~= h);
            lemma_propagate_wf(g, row as int, col as int, val);
        }
        new_sudoku
    }

    /// The grid in which every cell is fresh.
    pub fn empty() -> (r: Sudoku)
        ensures
            r.wf(),
            r@ == empty_grid(),
    {
        let grid = [[Cell::new(); 9]; 9];
        let r = Sudoku { grid };
        proof {
            assert forall|i: int| 0 <= i < 9 implies r@[i] =~= empty_grid()[i] by {}
            assert(r@ =~= empty_grid());
        }
        r
    }

    /// Whether no cell is invalid.
    pub fn is_valid(&self) -> (r: bool)
        ensures
            r == grid_valid(self@),
    {
        let cells = self.cells_with_indexes();
        let mut k: usize = 0;
        while k < 81
            invariant
                k <= 81,
                cells.len() == 81,
                forall|n: int|
                    0 <= n < 81 ==> #[trigger] cells[n] == (
                        self.cell_at(n / 9, n % 9),
                        (n / 9) as usize,
                        (n % 9) as usize,
                    ),
                forall|i: int, j: int|
                    in_grid(i, j) && rank(i, j) < k ==> (#[trigger] self.cell_at(i, j))@.is_valid(),
            decreases 81 - k,
        {
            let (cell, r, c) = cells[k];
            if !cell.is_valid() {
                proof {
                    assert(self@[r as int][c as int] == self.cell_at(r as int, c as int)@);
                    assert(in_grid(r as int, c as int));
                }
                return false;
            }
            proof {
                assert forall|i: int, j: int| in_grid(i, j) && rank(i, j) < k + 1 implies (
                #[trigger] self.cell_at(i, j))@.is_valid() by {
                    if rank(i, j) == k {
                        assert(i == r && j == c);
                    }
                }
            }
            k += 1;
        }
        proof {
            assert forall|i: int, j: int| in_grid(i, j) implies (#[trigger] self@[i][j]).is_valid() by {
                assert(rank(i, j) < 81);
                assert(self.cell_at(i, j)@.is_valid());
            }
        }
        true
    }
}

impl Sudoku {
    /// The grid that `grid` describes: each entry that is not zero is assigned
    /// to an empty grid, row by row. A digit that clashes with an earlier one
    /// leaves an invalid cell behind; nothing is rolled back.
    pub fn from(grid: [[u8; 9]; 9]) -> (r: Sudoku)
        requires
            entries_in_range(board_of(grid)),
        ensures
            r.wf(),
            r@ == filled(board_of(grid), 9, 0),
    {
        let ghost b = board_of(grid);
        let mut sudoku = Sudoku::empty();
        let mut row: usize = 0;
        while row < 9
            invariant
                row <= 9,
                b == board_of(grid),
                entries_in_range(b),
                sudoku.wf(),
                sudoku@ == filled(b, row as int, 0),
            decreases 9 - row,
        {
            let mut col: usize = 0;
            while col < 9
                invariant
                    row < 9,
                    col <= 9,
                    b == board_of(grid),
                    entries_in_range(b),
                    sudoku.wf(),
                    sudoku@ == filled(b, row as int, col as int),
                decreases 9 - col,
            {
                let num: u8 = grid[row][col];
                proof {
                    assert(in_grid(row as int, col as int));
                    assert(b[row as int][col as int] == num);
                }
                if num != 0 {
                    sudoku = sudoku.set(row, col, num);
                }
                col += 1;
            }
            row += 1;
        }
        sudoku
    }

    /// Assigns `val` at `(row, col)` as [`Sudoku::set`] does, after checking
    /// the place and the value. A place outside the grid is turned away first,
    /// then a value that is no digit.
    pub fn checked_set(&self, row: usize, col: usize, val: u8) -> (r: Result<Sudoku, GridError>)
        requires
            self.wf(),
        ensures
            !in_grid(row as int, col as int) ==> r == Err::<Sudoku, GridError>(
                GridError::PlaceOutOfRange,
            ),
            in_grid(row as int, col as int) && !(1 <= val <= 9) ==> r == Err::<Sudoku, GridError>(
                GridError::ValueOutOfRange,
            ),
            in_grid(row as int, col as int) && 1 <= val <= 9 ==> (r matches Ok(s) && s.wf() && s@
                == propagate(self@, row as int, col as int, val)),
    {
        if row >= 9 || col >= 9 {
            return Err(GridError::PlaceOutOfRange);
        }
        if val < 1 || val > 9 {
            return Err(GridError::ValueOutOfRange);
        }
        Ok(self.set(row, col, val))
    }

    /// The grid that `grid` describes, as [`Sudoku::from`] builds it, after
    /// checking that every entry is 0 or a digit.
    pub fn checked_from(grid: [[u8; 9]; 9]) -> (r: Result<Sudoku, GridError>)
        ensures
            !entries_in_range(board_of(grid)) ==> r == Err::<Sudoku, GridError>(
                GridError::ValueOutOfRange,
            ),
            entries_in_range(board_of(grid)) ==> (r matches Ok(s) && s.wf() && s@ == filled(
                board_of(grid),
                9,
                0,
            )),
    {
        let ghost b = board_of(grid);
        let mut row: usize = 0;
        while row < 9
            invariant
                row <= 9,
                b == board_of(grid),
                forall|i: int, j: int| in_grid(i, j) && i < row ==> #[trigger] b[i][j] <= 9,
            decreases 9 - row,
        {
            let mut col: usize = 0;
            while col < 9
                invariant
                    row < 9,
                    col <= 9,
                    b == board_of(grid),
                    forall|i: int, j: int| in_grid(i, j) && i < row ==> #[trigger] b[i][j] <= 9,
                    forall|j: int| 0 <= j < col ==> b[row as int][j] <= 9,
                decreases 9 - col,
            {
                if grid[row][col] > 9 {
                    proof {
                        assert(in_grid(row as int, col as int));
                        assert(b[row as int][col as int] > 9);
                    }
                    return Err(GridError::ValueOutOfRange);
                }
                col += 1;
            }
            row += 1;
        }
        Ok(Sudoku::from(grid))
    }

    /// The open cell with the fewest candidates, with its place; among cells
    /// with equally few, the first when the grid is read row by row. `None` if
    /// no cell is open.
    pub fn lowest_entropy(&self) -> (r: Option<(Cell, usize, usize)>)
        requires
            self.wf(),
        ensures
            r is None ==> !has_unknown(self@),
            r matches Some((cell, row, col)) ==> {
                &&& is_target(self@, row as int, col as int)
                &&& cell == self.cell_at(row as int, col as int)
            },
    {
        let cells = self.cells_with_indexes();
        let mut best: Option<(Cell, usize, usize)> = None;
        let mut best_size: u8 = 0;
        let mut k: usize = 0;
        while k < 81
            invariant
                k <= 81,
                self.wf(),
                cells.len() == 81,
                forall|n: int|
                    0 <= n < 81 ==> #[trigger] cells[n] == (
                        self.cell_at(n / 9, n % 9),
                        (n / 9) as usize,
                        (n % 9) as usize,
                    ),
                best is None ==> forall|i: int, j: int|
                    in_grid(i, j) && rank(i, j) < k ==> !((#[trigger] self@[i][j]) is Unknown),
                best matches Some((cell, row, col)) ==> {
                    &&& is_target_before(self@, k as int, row as int, col as int)
                    &&& cell == self.cell_at(row as int, col as int)
                    &&& best_size == self@[row as int][col as int].candidates().len()
                },
            decreases 81 - k,
        {
            let (cell, r, c) = cells[k];
            proof {
                assert(in_grid(r as int, c as int) && rank(r as int, c as int) == k);
                assert(self.cell_at(r as int, c as int).wf());
                assert(self@[r as int][c as int] == cell@);
            }
            let is_open = match cell {
                Cell::Unknown(_) => true,
                _ => false,
            };
            if is_open {
                let size: u8 = cell.possible_values().size();
                let better = match best {
                    None => true,
                    Some(_) => size < best_size,
                };
                if better {
                    best = Some((cell, r, c));
                    best_size = size;
                }
            }
            proof {
                assert forall|i: int, j: int| in_grid(i, j) && rank(i, j) < k + 1 implies rank(i, j)
                    < k || (i == r && j == c) by {}
            }
            k += 1;
        }
        proof {
            if best is None {
                assert forall|i: int, j: int| in_grid(i, j) implies !((#[trigger] self@[i][j])
                    is Unknown) by {
                    assert(rank(i, j) < 81);
                }
            }
        }
        best
    }
}

} // verus!

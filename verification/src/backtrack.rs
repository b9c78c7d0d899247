//! The plain depth-first solver: it writes a digit, checks the whole board,
//! and goes on or tries the next digit.

use crate::rules::{board_of, comes_first_from, entries_in_range, extends, in_grid, is_solution,
    lemma_comes_first_step, lower_at, no_clash, peers, rank};
use crate::text::{board_text, entry_texts, layout};
use vstd::prelude::*;

verus! {

/// What is said of a place outside the grid.
pub open spec fn index_error() -> Seq<char> {
    "Index greater than 9"@
}

/// What is said of a value that is not a digit.
pub open spec fn value_error() -> Seq<char> {
    "Value is not in range [1..=9]"@
}

/// What is said of a grid with an entry that is neither 0 nor a digit.
pub open spec fn grid_error() -> Seq<char> {
    "grid contains value outside [0..=9]"@
}

/// A result with its message as a sequence of characters.
pub open spec fn told<T>(res: Result<T, &'static str>) -> Result<T, Seq<char>> {
    match res {
        Ok(v) => Ok(v),
        Err(e) => Err(e@),
    }
}

/// The board without any digit.
pub open spec fn blank() -> Seq<Seq<u8>> {
    Seq::new(9, |r: int| Seq::new(9, |c: int| 0u8))
}

/// The board `b` with `n` at `(r, c)`.
pub open spec fn with_entry(b: Seq<Seq<u8>>, r: int, c: int, n: u8) -> Seq<Seq<u8>> {
    b.update(r, b[r].update(c, n))
}

/// Whether the cell `(r, c)` is empty or holds a digit that none of its peers
/// holds.
pub open spec fn cell_ok(b: Seq<Seq<u8>>, r: int, c: int) -> bool {
    b[r][c] == 0 || forall|i: int, j: int|
        in_grid(i, j) && #[trigger] peers(r, c, i, j) ==> b[i][j] != b[r][c]
}

/// A board that a solution extends has no two peers alike.
pub proof fn lemma_part_of_solution(a: Seq<Seq<u8>>, b: Seq<Seq<u8>>)
    requires
        is_solution(a),
        extends(a, b),
    ensures
        no_clash(b),
{
    assert forall|r1: int, c1: int, r2: int, c2: int|
        in_grid(r1, c1) && in_grid(r2, c2) && #[trigger] peers(r1, c1, r2, c2) && b[r1][c1]
            != 0 implies b[r1][c1] != b[r2][c2] by {
        if b[r1][c1] == b[r2][c2] {
            assert(a[r1][c1] == b[r1][c1]);
            assert(a[r2][c2] == b[r2][c2]);
        }
    }
}

/// The nine-by-nine board of entries, 0 for an empty cell.
#[derive(Debug)]
pub struct Sudoku {
    grid: [[u8; 9]; 9],
}

impl View for Sudoku {
    type V = Seq<Seq<u8>>;

    closed spec fn view(&self) -> Seq<Seq<u8>> {
        board_of(self.grid)
    }
}

#[allow(clippy::new_without_default)]
impl Sudoku {
    /// Every entry is 0 or a digit.
    pub open spec fn wf(&self) -> bool {
        entries_in_range(self@)
    }

    /// The empty board.
    pub fn new() -> (r: Sudoku)
        ensures
            r@ == blank(),
            r.wf(),
    {
        let r = Sudoku { grid: [[0u8;9];9] };
        proof {
            assert(r@ =~~= blank());
        }
        r
    }

    /// The board that `grid` describes, or an error if one of its entries is
    /// neither 0 nor a digit.
    pub fn from(grid: [[u8; 9]; 9]) -> (res: Result<Sudoku, &'static str>)
        ensures
            entries_in_range(board_of(grid)) ==> (res matches Ok(s) && s@ == board_of(grid)
                && s.wf()),
            !entries_in_range(board_of(grid)) ==> (res matches Err(e) && e@ == grid_error()),
    {
        let mut new_sudoku = Sudoku { grid: [[0u8;9];9] };
        proof {
            assert(new_sudoku@ =~~= blank());
        }
        match new_sudoku.set_grid(grid) {
            Ok(_) => Ok(new_sudoku),
            Err(e) => Err(e),
        }
    }

    /// Whether `(r, c)` names a cell of the grid.
    pub fn restrain_index(r: usize, c: usize) -> (res: Result<(), &'static str>)
        ensures
            told(res) == (if in_grid(r as int, c as int) {
                Ok::<(), Seq<char>>(())
            } else {
                Err::<(), Seq<char>>(index_error())
            }),
    {
        if r < 9 && c < 9 {
            Ok(())
        } else {
            Err("Index greater than 9")
        }
    }

    /// Writes the digit `n` at `(r, c)`, whatever stands there and around it.
    pub fn set(&mut self, r: usize, c: usize, n: u8) -> (res: Result<(), &'static str>)
        requires
            old(self).wf(),
        ensures
            final(self).wf(),
            told(res) == (if !in_grid(r as int, c as int) {
                Err::<(), Seq<char>>(index_error())
            } else if !(1 <= n <= 9) {
                Err::<(), Seq<char>>(value_error())
            } else {
                Ok::<(), Seq<char>>(())
            }),
            final(self)@ == (if res is Ok {
                with_entry(old(self)@, r as int, c as int, n)
            } else {
                old(self)@
            }),
    {
        match Sudoku::restrain_index(r, c) {
            Ok(_) => {},
            Err(e) => {
                return Err(e);
            },
        }
        if n < 1 || n > 9 {
            return Err("Value is not in range [1..=9]");
        }
        let ghost before = self@;
        self.grid[r][c] = n;
        proof {
            assert(self@ =~~= with_entry(before, r as int, c as int, n));
        }
        Ok(())
    }

    /// The entry at `(r, c)`.
    pub fn get(&self, r: usize, c: usize) -> (res: Result<u8, &'static str>)
        ensures
            told(res) == (if in_grid(r as int, c as int) {
                Ok::<u8, Seq<char>>(self@[r as int][c as int])
            } else {
                Err::<u8, Seq<char>>(index_error())
            }),
    {
        match Sudoku::restrain_index(r, c) {
            Ok(_) => {},
            Err(e) => {
                return Err(e);
            },
        }
        Ok(self.grid[r][c])
    }

    /// Empties the cell `(r, c)`.
    pub fn clear(&mut self, r: usize, c: usize) -> (res: Result<(), &'static str>)
        requires
            old(self).wf(),
        ensures
            final(self).wf(),
            told(res) == (if in_grid(r as int, c as int) {
                Ok::<(), Seq<char>>(())
            } else {
                Err::<(), Seq<char>>(index_error())
            }),
            final(self)@ == (if in_grid(r as int, c as int) {
                with_entry(old(self)@, r as int, c as int, 0u8)
            } else {
                old(self)@
            }),
    {
        match Sudoku::restrain_index(r, c) {
            Ok(_) => {},
            Err(e) => {
                return Err(e);
            },
        }
        let ghost before = self@;
        self.grid[r][c] = 0;
        proof {
            assert(self@ =~~= with_entry(before, r as int, c as int, 0u8));
        }
        Ok(())
    }

    /// Empties the whole board.
    pub fn clear_all(&mut self)
        ensures
            final(self)@ == blank(),
            final(self).wf(),
    {
        self.grid = [[0u8;9];9];
        proof {
            assert(self@ =~~= blank());
        }
    }

    /// Whether the cell `(r, c)` is empty or holds a digit that no other cell
    /// of its row, its column or its zone holds.
    pub fn is_valid(&self, r: usize, c: usize) -> (res: Result<bool, &'static str>)
        ensures
            told(res) == (if in_grid(r as int, c as int) {
                Ok::<bool, Seq<char>>(cell_ok(self@, r as int, c as int))
            } else {
                Err::<bool, Seq<char>>(index_error())
            }),
    {
        match Sudoku::restrain_index(r, c) {
            Ok(_) => {},
            Err(e) => {
                return Err(e);
            },
        }
        let this_num: u8 = self.grid[r][c];
        if this_num == 0 {
            return Ok(true);
        }
        let ghost b = self@;
        // the row
        let mut cc: usize = 0;
        while cc < 9
            invariant
                cc <= 9,
                r < 9,
                c < 9,
                b == self@,
                this_num == b[r as int][c as int],
                this_num != 0,
                forall|j: int| 0 <= j < cc && j != c ==> b[r as int][j] != this_num,
            decreases 9 - cc,
        {
            if cc != c && self.grid[r][cc] == this_num {
                proof {
                    assert(in_grid(r as int, cc as int));
                    assert(b[r as int][cc as int] == this_num);
                    assert(peers(r as int, c as int, r as int, cc as int));
                }
                return Ok(false);
            }
            cc += 1;
        }
        // the column
        let mut rr: usize = 0;
        while rr < 9
            invariant
                rr <= 9,
                r < 9,
                c < 9,
                b == self@,
                this_num == b[r as int][c as int],
                this_num != 0,
                forall|i: int| 0 <= i < rr && i != r ==> b[i][c as int] != this_num,
            decreases 9 - rr,
        {
            if rr != r && self.grid[rr][c] == this_num {
                proof {
                    assert(in_grid(rr as int, c as int));
                    assert(b[rr as int][c as int] == this_num);
                    assert(peers(r as int, c as int, rr as int, c as int));
                }
                return Ok(false);
            }
            rr += 1;
        }
        // the zone
        let zone_r: usize = r / 3;
        let zone_c: usize = c / 3;
        let mut rr: usize = 3 * zone_r;
        while rr < (zone_r + 1) * 3
            invariant
                r < 9,
                c < 9,
                zone_r == r / 3,
                zone_c == c / 3,
                3 * zone_r <= rr <= 3 * zone_r + 3,
                b == self@,
                this_num == b[r as int][c as int],
                this_num != 0,
                forall|i: int, j: int|
                    3 * zone_r <= i < rr && 3 * zone_c <= j < 3 * zone_c + 3 && !(i == r && j == c)
                        ==> b[i][j] != this_num,
            decreases 3 * zone_r + 3 - rr,
        {
            let mut cc: usize = 3 * zone_c;
            while cc < (zone_c + 1) * 3
                invariant
                    r < 9,
                    c < 9,
                    zone_r == r / 3,
                    zone_c == c / 3,
                    3 * zone_r <= rr < 3 * zone_r + 3,
                    3 * zone_c <= cc <= 3 * zone_c + 3,
                    b == self@,
                    this_num == b[r as int][c as int],
                this_num != 0,
                    forall|i: int, j: int|
                        3 * zone_r <= i < rr && 3 * zone_c <= j < 3 * zone_c + 3 && !(i == r && j
                            == c) ==> b[i][j] != this_num,
                    forall|j: int|
                        3 * zone_c <= j < cc && !(rr == r && j == c) ==> b[rr as int][j]
                            != this_num,
                decreases 3 * zone_c + 3 - cc,
            {
                if !(rr == r && cc == c) && self.grid[rr][cc] == this_num {
                    proof {
                        assert(in_grid(rr as int, cc as int));
                        assert(b[rr as int][cc as int] == this_num);
                        assert(peers(r as int, c as int, rr as int, cc as int));
                    }
                    return Ok(false);
                }
                cc += 1;
            }
            rr += 1;
        }
        proof {
            assert forall|i: int, j: int| in_grid(i, j) && #[trigger] peers(
                r as int,
                c as int,
                i,
                j,
            ) implies b[i][j] != b[r as int][c as int] by {
                if i == r {
                } else if j == c {
                } else {
                    assert(3 * zone_r <= i < 3 * zone_r + 3);
                    assert(3 * zone_c <= j < 3 * zone_c + 3);
                }
            }
        }
        // no peer holds the digit
        Ok(true)
    }

    /// Whether no two peers hold the same digit.
    pub fn is_all_valid(&self) -> (res: bool)
        ensures
            res == no_clash(self@),
    {
        let ghost b = self@;
        let mut r: usize = 0;
        while r < 9
            invariant
                r <= 9,
                b == self@,
                forall|i: int, j: int| in_grid(i, j) && i < r ==> cell_ok(b, i, j),
            decreases 9 - r,
        {
            let mut c: usize = 0;
            while c < 9
                invariant
                    r < 9,
                    c <= 9,
                    b == self@,
                    forall|i: int, j: int| in_grid(i, j) && i < r ==> cell_ok(b, i, j),
                    forall|j: int| 0 <= j < c ==> cell_ok(b, r as int, j),
                decreases 9 - c,
            {
                if !self.is_valid(r, c).unwrap() {
                    proof {
                        assert(in_grid(r as int, c as int));
                        assert(!cell_ok(b, r as int, c as int));
                    }
                    return false;
                }
                c += 1;
            }
            r += 1;
        }
        proof {
            assert forall|r1: int, c1: int, r2: int, c2: int|
                in_grid(r1, c1) && in_grid(r2, c2) && #[trigger] peers(r1, c1, r2, c2) && b[r1][c1]
                    != 0 implies b[r1][c1] != b[r2][c2] by {
                assert(cell_ok(b, r1, c1));
            }
        }
        // no cell clashes with a peer
        true
    }

    /// Replaces the board by `grid`, unless one of its entries is neither 0
    /// nor a digit; then the board stays as it is.
    pub fn set_grid(&mut self, grid: [[u8; 9]; 9]) -> (res: Result<(), &'static str>)
        requires
            old(self).wf(),
        ensures
            final(self).wf(),
            told(res) == (if entries_in_range(board_of(grid)) {
                Ok::<(), Seq<char>>(())
            } else {
                Err::<(), Seq<char>>(grid_error())
            }),
            final(self)@ == (if res is Ok {
                board_of(grid)
            } else {
                old(self)@
            }),
    {
        let ghost b = board_of(grid);
        let mut r: usize = 0;
        while r < 9
            invariant
                r <= 9,
                b == board_of(grid),
                self@ == old(self)@,
                self.wf(),
                forall|i: int, j: int| in_grid(i, j) && i < r ==> #[trigger] b[i][j] <= 9,
            decreases 9 - r,
        {
            let mut c: usize = 0;
            while c < 9
                invariant
                    r < 9,
                    c <= 9,
                    b == board_of(grid),
                    self@ == old(self)@,
                    self.wf(),
                self.wf(),
                    forall|i: int, j: int| in_grid(i, j) && i < r ==> #[trigger] b[i][j] <= 9,
                    forall|j: int| 0 <= j < c ==> b[r as int][j] <= 9,
                decreases 9 - c,
            {
                let v: u8 = grid[r][c];
                if v > 9 {
                    proof {
                        assert(in_grid(r as int, c as int));
                        assert(b[r as int][c as int] > 9);
                    }
                    return Err("grid contains value outside [0..=9]");
                }
                c += 1;
            }
            r += 1;
        }
        self.grid = grid;
        Ok(())
    }

    /// Fills the empty cells, row by row, each with the lowest digit that
    /// leads to a solution. Returns whether the board could be filled; if not,
    /// the board is as it was.
    ///
    /// On success the board holds a solution that agrees with every digit that
    /// was on it. On failure no solution does.
    pub fn solve(&mut self) -> (res: bool)
        requires
            old(self).wf(),
        ensures
            final(self).wf(),
            res ==> is_solution(final(self)@) && extends(final(self)@, old(self)@),
            res ==> forall|a: Seq<Seq<u8>>|
                is_solution(a) && #[trigger] extends(a, old(self)@) ==> comes_first_from(
                    final(self)@,
                    a,
                    0,
                ),
            !res ==> final(self)@ == old(self)@ && forall|a: Seq<Seq<u8>>|
                !(is_solution(a) && #[trigger] extends(a, old(self)@)),
    {
        let res = self.solve_at(0, 0);
        proof {
            if res {
                let b = self@;
                assert forall|r: int, c: int| in_grid(r, c) implies 1 <= #[trigger] b[r][c] <= 9 by {
                    assert(rank(r, c) >= rank(0, 0));
                }
            }
        }
        res
    }

    /// Fills the empty cells from `(r, c)` on, row by row. A place outside the
    /// grid means that nothing is left to fill.
    pub fn solve_at(&mut self, r: usize, c: usize) -> (res: bool)
        requires
            old(self).wf(),
        ensures
            final(self).wf(),
            !in_grid(r as int, c as int) ==> res && final(self)@ == old(self)@,
            res && in_grid(r as int, c as int) ==> {
                &&& no_clash(final(self)@)
                &&& extends(final(self)@, old(self)@)
                &&& forall|i: int, j: int|
                    in_grid(i, j) && rank(i, j) < rank(r as int, c as int) ==> #[trigger] final(self)@[i][j]
                        == old(self)@[i][j]
                &&& forall|i: int, j: int|
                    in_grid(i, j) && rank(i, j) >= rank(r as int, c as int) ==> #[trigger] final(self)@[i][j]
                        != 0
                &&& forall|a: Seq<Seq<u8>>|
                    is_solution(a) && #[trigger] extends(a, old(self)@) ==> comes_first_from(
                        final(self)@,
                        a,
                        rank(r as int, c as int),
                    )
            },
            !res ==> final(self)@ == old(self)@ && forall|a: Seq<Seq<u8>>|
                !(is_solution(a) && #[trigger] extends(a, old(self)@)),
        decreases
                (if in_grid(r as int, c as int) {
                    81 - rank(r as int, c as int)
                } else {
                    0
                }),
    {
        if Sudoku::restrain_index(r, c).is_err() {
            return true;
        }
        let new_c: usize = (c + 1) % 9;
        let new_r: usize = r + ((c + 1) / 9);
        let ghost start = self@;
        proof {
            assert(rank(new_r as int, new_c as int) == rank(r as int, c as int) + 1);
        }

        if self.get(r, c).unwrap() != 0 {
            if !self.is_all_valid() {
                proof {
                    assert forall|a: Seq<Seq<u8>>|
                        !(is_solution(a) && #[trigger] extends(a, start)) by {
                        if is_solution(a) && extends(a, start) {
                            lemma_part_of_solution(a, start);
                        }
                    }
                }
                return false;
            } else {
                let res = self.solve_at(new_r, new_c);
                proof {
                    if res {
                        assert(self@[r as int][c as int] == start[r as int][c as int]);
                        assert forall|a: Seq<Seq<u8>>|
                            is_solution(a) && #[trigger] extends(a, start) implies comes_first_from(
                            self@,
                            a,
                            rank(r as int, c as int),
                        ) by {
                            assert(a[r as int][c as int] == start[r as int][c as int]);
                            lemma_comes_first_step(self@, a, r as int, c as int);
                        }
                    }
                }
                return res;
            }
        }
        proof {
            assert(with_entry(start, r as int, c as int, 0u8) =~~= start);
        }
        let mut n: u8 = 1;
        while n <= 9
            invariant
                1 <= n <= 10,
                r < 9,
                c < 9,
                new_c == (c + 1) % 9,
                new_r == r + ((c + 1) / 9),
                rank(new_r as int, new_c as int) == rank(r as int, c as int) + 1,
                self.wf(),
                start == old(self)@,
                start[r as int][c as int] == 0,
                with_entry(self@, r as int, c as int, 0u8) == start,
                forall|a: Seq<Seq<u8>>|
                    is_solution(a) && #[trigger] extends(a, start) ==> a[r as int][c as int] >= n,
            decreases 10 - n,
        {
            self.set(r, c, n).unwrap();
            let ghost placed = self@;
            proof {
                assert(placed =~~= with_entry(start, r as int, c as int, n));
                assert forall|i: int, j: int| in_grid(i, j) implies #[trigger] placed[i][j] == (if i
                    == r && j == c {
                    n
                } else {
                    start[i][j]
                }) by {}
            }
            if self.is_all_valid() && self.solve_at(new_r, new_c) {
                proof {
                    assert(self@[r as int][c as int] == n);
                    assert forall|i: int, j: int|
                        in_grid(i, j) && #[trigger] start[i][j] != 0 implies self@[i][j]
                        == start[i][j] by {
                        assert(placed[i][j] == start[i][j]);
                    }
                    assert forall|a: Seq<Seq<u8>>|
                        is_solution(a) && #[trigger] extends(a, start) implies comes_first_from(
                        self@,
                        a,
                        rank(r as int, c as int),
                    ) by {
                        if a[r as int][c as int] == n {
                            assert(extends(a, placed));
                            lemma_comes_first_step(self@, a, r as int, c as int);
                        } else {
                            assert(lower_at(self@, a, rank(r as int, c as int), r as int, c as int));
                        }
                    }
                }
                return true;
            }
            proof {
                assert(self@ == placed);
                assert(with_entry(placed, r as int, c as int, 0u8) =~~= start);
                assert forall|a: Seq<Seq<u8>>|
                    is_solution(a) && #[trigger] extends(a, start) implies a[r as int][c as int]
                    != n by {
                    if a[r as int][c as int] == n {
                        assert(extends(a, placed));
                        lemma_part_of_solution(a, placed);
                    }
                }
            }
            n += 1;
        }
        self.clear(r, c).unwrap();
        proof {
            assert forall|a: Seq<Seq<u8>>| !(is_solution(a) && #[trigger] extends(a, start)) by {
                if is_solution(a) && extends(a, start) {
                    assert(1 <= a[r as int][c as int] <= 9);
                }
            }
        }
        false
    }

    /// The board as text: the entries in rows, three by three.
    #[allow(clippy::inherent_to_string)]
    pub fn to_string(&self) -> (text: String)
        ensures
            text@ == layout(entry_texts(self@)),
    {
        board_text(&self.grid)
    }

    /// The entries of the board.
    pub fn grid(&self) -> (r: &[[u8; 9]; 9])
        ensures
            board_of(*r) == self@,
    {
        &self.grid
    }
}

} // verus!

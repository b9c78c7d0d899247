//! What the grid looks like and what a solution is.
//!
//! A board is nine rows of nine entries. An entry from 1 to 9 is a digit and 0
//! stands for an empty cell.

use vstd::prelude::*;

verus! {

/// Whether `(r, c)` names a cell of the grid.
pub open spec fn in_grid(r: int, c: int) -> bool {
    0 <= r < 9 && 0 <= c < 9
}

/// The place of a cell when the grid is read row by row.
pub open spec fn rank(r: int, c: int) -> int {
    9 * r + c
}

/// Whether two cells share a row, a column or a 3×3 block. A cell is linked to
/// itself.
pub open spec fn linked(r1: int, c1: int, r2: int, c2: int) -> bool {
    r1 == r2 || c1 == c2 || (r1 / 3 == r2 / 3 && c1 / 3 == c2 / 3)
}

/// Whether two cells are peers: two different cells that are linked.
pub open spec fn peers(r1: int, c1: int, r2: int, c2: int) -> bool {
    (r1 != r2 || c1 != c2) && linked(r1, c1, r2, c2)
}

/// Nine rows of nine entries.
pub open spec fn is_board(b: Seq<Seq<u8>>) -> bool {
    &&& b.len() == 9
    &&& forall|r: int| 0 <= r < 9 ==> (#[trigger] b[r]).len() == 9
}

/// The board that an array of rows stands for.
pub open spec fn board_of(grid: [[u8; 9]; 9]) -> Seq<Seq<u8>> {
    Seq::new(9, |r: int| grid[r]@)
}

/// Whether every entry of the board is 0 or a digit.
pub open spec fn entries_in_range(b: Seq<Seq<u8>>) -> bool {
    forall|r: int, c: int| in_grid(r, c) ==> #[trigger] b[r][c] <= 9
}

/// Whether no two peers hold the same digit. Empty cells clash with nothing.
pub open spec fn no_clash(b: Seq<Seq<u8>>) -> bool {
    forall|r1: int, c1: int, r2: int, c2: int|
        in_grid(r1, c1) && in_grid(r2, c2) && #[trigger] peers(r1, c1, r2, c2) && b[r1][c1] != 0
            ==> b[r1][c1] != b[r2][c2]
}

/// Whether every cell holds a digit.
pub open spec fn is_full(b: Seq<Seq<u8>>) -> bool {
    forall|r: int, c: int| in_grid(r, c) ==> 1 <= #[trigger] b[r][c] <= 9
}

/// A solution: a board with a digit in every cell and no two peers alike.
pub open spec fn is_solution(b: Seq<Seq<u8>>) -> bool {
    &&& is_board(b)
    &&& is_full(b)
    &&& no_clash(b)
}

/// Whether `a` agrees with `b` wherever `b` holds a digit.
pub open spec fn extends(a: Seq<Seq<u8>>, b: Seq<Seq<u8>>) -> bool {
    forall|r: int, c: int| in_grid(r, c) && #[trigger] b[r][c] != 0 ==> a[r][c] == b[r][c]
}

/// Whether `a` and `b` hold the same entries in the cells from place `k` up
/// to, and not including, place `n`, row by row.
pub open spec fn agree_between(a: Seq<Seq<u8>>, b: Seq<Seq<u8>>, k: int, n: int) -> bool {
    forall|r: int, c: int| in_grid(r, c) && k <= rank(r, c) < n ==> #[trigger] a[r][c] == b[r][c]
}

/// Whether `(r, c)` is the first cell from place `k` on in which `a` and `b`
/// differ, and `a` holds the lower entry there.
pub open spec fn lower_at(a: Seq<Seq<u8>>, b: Seq<Seq<u8>>, k: int, r: int, c: int) -> bool {
    &&& in_grid(r, c)
    &&& k <= rank(r, c)
    &&& agree_between(a, b, k, rank(r, c))
    &&& a[r][c] < b[r][c]
}

/// Whether `a` comes no later than `b` when the two are read row by row from
/// place `k` on and compared like words in a dictionary.
pub open spec fn comes_first_from(a: Seq<Seq<u8>>, b: Seq<Seq<u8>>, k: int) -> bool {
    agree_between(a, b, k, 81) || exists|r: int, c: int| lower_at(a, b, k, r, c)
}

/// A board that comes first from the place after a cell, and agrees in that
/// cell, comes first from that cell.
pub proof fn lemma_comes_first_step(a: Seq<Seq<u8>>, b: Seq<Seq<u8>>, r: int, c: int)
    requires
        in_grid(r, c),
        a[r][c] == b[r][c],
        comes_first_from(a, b, rank(r, c) + 1),
    ensures
        comes_first_from(a, b, rank(r, c)),
{
    let k = rank(r, c);
    let next = k + 1;
    if agree_between(a, b, next, 81) {
        assert forall|i: int, j: int| in_grid(i, j) && k <= rank(i, j) < 81 implies #[trigger] a[i][j]
            == b[i][j] by {
            if rank(i, j) == k {
                assert(i == r && j == c);
            }
        }
    } else {
        let (p, q) = choose|p: int, q: int| lower_at(a, b, next, p, q);
        assert forall|i: int, j: int| in_grid(i, j) && k <= rank(i, j) < rank(p, q) implies #[trigger] a[i][j]
            == b[i][j] by {
            if rank(i, j) == k {
                assert(i == r && j == c);
            }
        }
        assert(lower_at(a, b, k, p, q));
    }
}

/// Two solutions of which each comes first from the first cell on are the
/// same board.
pub proof fn lemma_comes_first_both(a: Seq<Seq<u8>>, b: Seq<Seq<u8>>)
    requires
        is_board(a),
        is_board(b),
        comes_first_from(a, b, 0),
        comes_first_from(b, a, 0),
    ensures
        a == b,
{
    if !agree_between(a, b, 0, 81) {
        if agree_between(b, a, 0, 81) {
            assert forall|r: int, c: int| in_grid(r, c) && 0 <= rank(r, c) < 81 implies #[trigger] a[r][c]
                == b[r][c] by {
                assert(b[r][c] == a[r][c]);
            }
        } else {
            let (p, q) = choose|p: int, q: int| lower_at(a, b, 0, p, q);
            let (s, t) = choose|s: int, t: int| lower_at(b, a, 0, s, t);
            if rank(p, q) < rank(s, t) {
                assert(b[p][q] == a[p][q]);
            } else if rank(s, t) < rank(p, q) {
                assert(a[s][t] == b[s][t]);
            } else {
                assert(p == s && q == t);
            }
        }
    }
    assert forall|r: int| 0 <= r < 9 implies a[r] =~= b[r] by {
        assert forall|c: int| 0 <= c < 9 implies a[r][c] == b[r][c] by {
            assert(in_grid(r, c) && 0 <= rank(r, c) < 81);
        }
    }
    assert(a =~= b);
}

} // verus!

//! Laws that the cells and the grid obey.

use crate::masks::{all_digits, lemma_all_digits};
use crate::rules::{in_grid, is_solution, peers, rank};
use crate::wavefunc::cell::CellView;
use crate::wavefunc::grid::{filled, grid_valid, propagate};
use crate::wavefunc::search::search;
use vstd::prelude::*;

verus! {

/// Taking one digit out of the full set leaves eight digits, and the digit
/// taken out is not among them.
pub proof fn lemma_full_without(v: u8)
    requires
        1 <= v <= 9,
    ensures
        all_digits().len() == 9,
        all_digits().remove(v).len() == 8,
        !all_digits().remove(v).contains(v),
{
    lemma_all_digits();
}

/// A known cell stays what it is, whatever is assigned to it or excluded from
/// it, and however often.
pub proof fn lemma_known_absorbs(v: u8, x: u8, y: u8)
    ensures
        CellView::Known(v).assign(x) == CellView::Known(v),
        CellView::Known(v).assign(x).assign(y) == CellView::Known(v),
        CellView::Known(v).exclude(x) == CellView::Known(v),
{
}

/// An invalid cell stays what it is, whatever is assigned to it or excluded
/// from it.
pub proof fn lemma_invalid_absorbs(w: Option<u8>, x: u8)
    ensures
        CellView::Invalid(w).exclude(x) == CellView::Invalid(w),
        CellView::Invalid(w).assign(x) == CellView::Invalid(w),
{
}

/// The cell after each digit of `order` has been excluded from it, one after
/// the other.
pub open spec fn exclude_all(cell: CellView, order: Seq<u8>) -> CellView
    decreases order.len(),
{
    if order.len() == 0 {
        cell
    } else {
        exclude_all(cell, order.drop_last()).exclude(order.last())
    }
}

/// The digits that are not among the first `k` entries of `order`.
pub open spec fn left_after(order: Seq<u8>, k: int) -> Set<u8> {
    Set::new(|v: u8| 1 <= v <= 9 && forall|j: int| 0 <= j < k ==> order[j] != v)
}

/// Whether `order` names each of the nine digits once.
pub open spec fn names_each_digit(order: Seq<u8>) -> bool {
    &&& order.len() == 9
    &&& forall|j: int| 0 <= j < 9 ==> 1 <= #[trigger] order[j] <= 9
    &&& forall|i: int, j: int| 0 <= i < j < 9 ==> order[i] != order[j]
}

/// After the first `k` of nine different digits have been excluded from a
/// fresh cell, `9 - k` digits are left.
proof fn lemma_left_after(order: Seq<u8>, k: int)
    requires
        names_each_digit(order),
        0 <= k <= 9,
    ensures
        left_after(order, k).finite(),
        left_after(order, k).len() == 9 - k,
        k < 9 ==> left_after(order, k).contains(order[k]),
    decreases k,
{
    lemma_all_digits();
    if k == 0 {
        assert(left_after(order, 0) =~= all_digits());
    } else {
        lemma_left_after(order, k - 1);
        assert(left_after(order, k) =~= left_after(order, k - 1).remove(order[k - 1]));
    }
}

/// Excluding the first `k` of nine different digits from a fresh cell, with
/// `k` below nine, leaves the cell open with the other digits.
proof fn lemma_exclude_prefix(order: Seq<u8>, k: int)
    requires
        names_each_digit(order),
        0 <= k < 9,
    ensures
        exclude_all(CellView::fresh(), order.take(k)) == CellView::Unknown(left_after(order, k)),
    decreases k,
{
    lemma_left_after(order, k);
    if k == 0 {
        lemma_all_digits();
        assert(left_after(order, 0) =~= all_digits());
        assert(order.take(0).len() == 0);
    } else {
        lemma_exclude_prefix(order, k - 1);
        lemma_left_after(order, k - 1);
        let p = order.take(k);
        assert(p.drop_last() =~= order.take(k - 1));
        assert(p.last() == order[k - 1]);
        assert(left_after(order, k) =~= left_after(order, k - 1).remove(order[k - 1]));
        assert(left_after(order, k).contains(order[k]));
    }
}

/// Excluding the nine digits from a fresh cell, in any order, leaves it
/// invalid with no digit remembered. Until the last exclusion the cell stays
/// open: after `k` of them it has `9 - k` candidates, the digits not yet
/// excluded, so that just before the last one only the last digit is left.
pub proof fn lemma_exhaustive_narrowing(order: Seq<u8>)
    requires
        names_each_digit(order),
    ensures
        exclude_all(CellView::fresh(), order) == CellView::Invalid(None),
        forall|k: int|
            0 <= k < 9 ==> {
                &&& #[trigger] exclude_all(CellView::fresh(), order.take(k)) == CellView::Unknown(
                    left_after(order, k),
                )
                &&& left_after(order, k).len() == 9 - k
                &&& left_after(order, k).contains(order[k])
            },
{
    assert forall|k: int| 0 <= k < 9 implies {
        &&& #[trigger] exclude_all(CellView::fresh(), order.take(k)) == CellView::Unknown(
            left_after(order, k),
        )
        &&& left_after(order, k).len() == 9 - k
        &&& left_after(order, k).contains(order[k])
    } by {
        lemma_exclude_prefix(order, k);
        lemma_left_after(order, k);
    }
    lemma_exclude_prefix(order, 8);
    lemma_left_after(order, 8);
    lemma_left_after(order, 9);
    assert(order.drop_last() =~= order.take(8));
    assert(left_after(order, 9) =~= left_after(order, 8).remove(order[8]));
    left_after(order, 9).lemma_len0_is_empty();
}

/// While a solution is being entered, every cell that has been reached is
/// known with the solution's digit, and every other cell is open and may
/// still take the solution's digit.
proof fn lemma_filled_solution(b: Seq<Seq<u8>>, r: int, c: int)
    requires
        is_solution(b),
        0 <= r <= 9,
        0 <= c <= 9,
        r == 9 ==> c == 0,
    ensures
        forall|i: int, j: int|
            in_grid(i, j) && rank(i, j) < rank(r, c) ==> #[trigger] filled(b, r, c)[i][j]
                == CellView::Known(b[i][j]),
        forall|i: int, j: int|
            in_grid(i, j) && rank(i, j) >= rank(r, c) ==> {
                &&& (#[trigger] filled(b, r, c)[i][j]) is Unknown
                &&& filled(b, r, c)[i][j].candidates().contains(b[i][j])
            },
    decreases r, c,
{
    if r <= 0 && c <= 0 {
        lemma_all_digits();
    } else if c <= 0 {
        lemma_filled_solution(b, r - 1, 9);
    } else {
        lemma_filled_solution(b, r, c - 1);
        let g = filled(b, r, c - 1);
        let v = b[r][c - 1];
        let h = propagate(g, r, c - 1, v);
        assert(in_grid(r, c - 1));
        assert(1 <= v <= 9);
        assert(h == filled(b, r, c));
        assert(g[r][c - 1] is Unknown);
        assert forall|i: int, j: int| in_grid(i, j) && rank(i, j) >= rank(r, c) implies {
            &&& (#[trigger] h[i][j]) is Unknown
            &&& h[i][j].candidates().contains(b[i][j])
        } by {
            assert(g[i][j] is Unknown);
            if crate::rules::linked(r, c - 1, i, j) {
                assert(peers(r, c - 1, i, j));
                assert(b[i][j] != v);
                assert(g[i][j].candidates().remove(v).contains(b[i][j]));
            }
        }
        assert forall|i: int, j: int| in_grid(i, j) && rank(i, j) < rank(r, c) implies #[trigger] h[i][j]
            == CellView::Known(b[i][j]) by {
            if rank(i, j) < rank(r, c - 1) {
                assert(g[i][j] == CellView::Known(b[i][j]));
            } else {
                assert(i == r && j == c - 1);
                assert(g[i][j].candidates().contains(v));
            }
        }
    }
}

/// Entering a solution gives back the solution: the grid is valid, and every
/// cell is known with the digit that was entered.
pub proof fn lemma_solution_round_trip(b: Seq<Seq<u8>>)
    requires
        is_solution(b),
    ensures
        grid_valid(filled(b, 9, 0)),
        forall|r: int, c: int|
            in_grid(r, c) ==> #[trigger] filled(b, 9, 0)[r][c] == CellView::Known(b[r][c]),
{
    lemma_filled_solution(b, 9, 0);
    assert forall|r: int, c: int| in_grid(r, c) implies #[trigger] filled(b, 9, 0)[r][c]
        == CellView::Known(b[r][c]) by {
        assert(rank(r, c) < rank(9, 0));
    }
}

/// Whether the cell is invalid, or open without `v` among its candidates.
pub open spec fn refuses(cell: CellView, v: u8) -> bool {
    match cell {
        CellView::Known(_) => false,
        CellView::Unknown(d) => !d.contains(v),
        CellView::Invalid(_) => true,
    }
}

/// While a board is being entered in which the cell `(r2, c2)` repeats the
/// digit of an earlier peer `(r1, c1)`: no cell is known before it has been
/// reached, the later cell refuses the digit once the earlier one has been
/// reached, and is invalid once it has been reached itself.
proof fn lemma_filled_clash(b: Seq<Seq<u8>>, r1: int, c1: int, r2: int, c2: int, r: int, c: int)
    requires
        in_grid(r1, c1),
        in_grid(r2, c2),
        peers(r1, c1, r2, c2),
        rank(r1, c1) < rank(r2, c2),
        b[r1][c1] == b[r2][c2],
        b[r1][c1] != 0,
        0 <= r <= 9,
        0 <= c <= 9,
        r == 9 ==> c == 0,
    ensures
        forall|i: int, j: int|
            in_grid(i, j) && rank(i, j) >= rank(r, c) ==> !((#[trigger] filled(b, r, c)[i][j])
                is Known),
        rank(r1, c1) < rank(r, c) ==> refuses(filled(b, r, c)[r2][c2], b[r1][c1]),
        rank(r2, c2) < rank(r, c) ==> filled(b, r, c)[r2][c2] is Invalid,
    decreases r, c,
{
    if r <= 0 && c <= 0 {
    } else if c <= 0 {
        lemma_filled_clash(b, r1, c1, r2, c2, r - 1, 9);
    } else {
        lemma_filled_clash(b, r1, c1, r2, c2, r, c - 1);
        let g = filled(b, r, c - 1);
        let w = b[r][c - 1];
        assert(in_grid(r, c - 1));
        if w != 0 {
            let h = propagate(g, r, c - 1, w);
            assert(h == filled(b, r, c));
            assert forall|i: int, j: int| in_grid(i, j) && rank(i, j) >= rank(r, c) implies !((
            #[trigger] h[i][j]) is Known) by {
                assert(!(g[i][j] is Known));
            }
            assert(!(g[r2][c2] is Known));
            if rank(r1, c1) < rank(r, c) {
                if r == r1 && c - 1 == c1 {
                    assert(crate::rules::linked(r1, c1, r2, c2));
                }
            }
        }
    }
}

/// A board in which two peers hold the same digit gives an invalid grid as
/// soon as it is entered, and the search finds nothing in that grid.
pub proof fn lemma_clash_invalid(b: Seq<Seq<u8>>, r1: int, c1: int, r2: int, c2: int)
    requires
        in_grid(r1, c1),
        in_grid(r2, c2),
        peers(r1, c1, r2, c2),
        b[r1][c1] == b[r2][c2],
        b[r1][c1] != 0,
    ensures
        !grid_valid(filled(b, 9, 0)),
        search(filled(b, 9, 0)) is None,
{
    let g = filled(b, 9, 0);
    if rank(r1, c1) < rank(r2, c2) {
        lemma_filled_clash(b, r1, c1, r2, c2, 9, 0);
        assert(!g[r2][c2].is_valid());
    } else {
        assert(peers(r2, c2, r1, c1));
        lemma_filled_clash(b, r2, c2, r1, c1, 9, 0);
        assert(!g[r1][c1].is_valid());
    }
}

} // verus!

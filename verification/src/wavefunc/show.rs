//! The grid as text for a terminal.

use crate::paint::{is_plain, normal, reversed, reversed_code, shows};
use crate::rules::linked;
use crate::text::{lay_out, layout, texts_of};
use crate::wavefunc::cell::{renders, CellView};
use crate::wavefunc::grid::{GridView, Sudoku};
use vstd::prelude::*;

verus! {

/// Whether `cells` holds, row by row, a text for each cell of `g`.
pub open spec fn shown(g: GridView, cells: Seq<Seq<char>>) -> bool {
    &&& cells.len() == 81
    &&& forall|k: int| 0 <= k < 81 ==> renders(g[k / 9][k % 9], #[trigger] cells[k])
}

/// Whether `text` is the text of a cell with its colours swapped, as far as
/// that can be said: where the cell's own text holds no escape character,
/// `text` is that text as it is or between the escape sequences.
pub open spec fn highlights(cell: CellView, text: Seq<char>) -> bool {
    exists|t: Seq<char>| #[trigger]
        renders(cell, t) && (is_plain(t) ==> shows(reversed_code(), t, text))
}

/// Whether `cells` holds, row by row, a text for each cell of `g`, with the
/// cells linked to `(row, col)` highlighted.
pub open spec fn shown_around(g: GridView, row: int, col: int, cells: Seq<Seq<char>>) -> bool {
    &&& cells.len() == 81
    &&& forall|k: int|
        0 <= k < 81 ==> if linked(row, col, k / 9, k % 9) {
            highlights(g[k / 9][k % 9], #[trigger] cells[k])
        } else {
            renders(g[k / 9][k % 9], cells[k])
        }
}

impl Sudoku {
    /// The grid as text: the cells in rows, three by three.
    #[allow(clippy::inherent_to_string)]
    pub fn to_string(&self) -> (text: String)
        ensures
            exists|cells: Seq<Seq<char>>| #[trigger] shown(self@, cells) && text@ == layout(cells),
    {
        let mut cells: Vec<String> = Vec::new();
        let mut row: usize = 0;
        while row < 9
            invariant
                row <= 9,
                cells.len() == 9 * row,
                forall|k: int|
                    0 <= k < cells.len() ==> renders(self@[k / 9][k % 9], (#[trigger] cells[k])@),
            decreases 9 - row,
        {
            let mut col: usize = 0;
            while col < 9
                invariant
                    row < 9,
                    col <= 9,
                    cells.len() == 9 * row + col,
                    forall|k: int|
                        0 <= k < cells.len() ==> renders(
                            self@[k / 9][k % 9],
                            (#[trigger] cells[k])@,
                        ),
                decreases 9 - col,
            {
                cells.push(self.get(row, col).to_string());
                col += 1;
            }
            row += 1;
        }
        let text = lay_out(&cells);
        proof {
            let shown_cells = texts_of(cells@);
            assert forall|k: int| 0 <= k < 81 implies renders(
                self@[k / 9][k % 9],
                #[trigger] shown_cells[k],
            ) by {
                assert(shown_cells[k] == cells[k]@);
            }
            assert(shown(self@, shown_cells));
        }
        text
    }

    /// The grid as text, with the cells linked to `(row, col)` in swapped
    /// colours.
    pub fn affected_text(&self, row: usize, col: usize) -> (text: String)
        ensures
            exists|cells: Seq<Seq<char>>| #[trigger]
                shown_around(self@, row as int, col as int, cells) && text@ == layout(cells),
    {
        let mut cells: Vec<String> = Vec::new();
        let mut r: usize = 0;
        while r < 9
            invariant
                r <= 9,
                cells.len() == 9 * r,
                forall|k: int|
                    0 <= k < cells.len() ==> if linked(row as int, col as int, k / 9, k % 9) {
                        highlights(self@[k / 9][k % 9], (#[trigger] cells[k])@)
                    } else {
                        renders(self@[k / 9][k % 9], cells[k]@)
                    },
            decreases 9 - r,
        {
            let mut c: usize = 0;
            while c < 9
                invariant
                    r < 9,
                    c <= 9,
                    cells.len() == 9 * r + c,
                    forall|k: int|
                        0 <= k < cells.len() ==> if linked(row as int, col as int, k / 9, k % 9) {
                            highlights(self@[k / 9][k % 9], (#[trigger] cells[k])@)
                        } else {
                            renders(self@[k / 9][k % 9], cells[k]@)
                        },
                decreases 9 - c,
            {
                let own = self.get(r, c).to_string();
                let text = if r == row || c == col || (row / 3 == r / 3 && col / 3 == c / 3) {
                    reversed(own.as_str())
                } else {
                    normal(own.as_str())
                };
                proof {
                    assert(renders(self@[r as int][c as int], own@));
                }
                cells.push(text);
                c += 1;
            }
            r += 1;
        }
        let text = lay_out(&cells);
        proof {
            let shown_cells = texts_of(cells@);
            assert forall|k: int| 0 <= k < 81 implies if linked(
                row as int,
                col as int,
                k / 9,
                k % 9,
            ) {
                highlights(self@[k / 9][k % 9], #[trigger] shown_cells[k])
            } else {
                renders(self@[k / 9][k % 9], shown_cells[k])
            } by {
                assert(shown_cells[k] == cells[k]@);
            }
            assert(shown_around(self@, row as int, col as int, shown_cells));
        }
        text
    }
}

} // verus!

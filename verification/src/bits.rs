//! A depth-first solver that keeps, for every row, column and zone, the digits
//! still free there as a bit mask.

use crate::masks::{all_digits, digits_of, is_tidy, lemma_digits_clear, lemma_digits_full,
    lemma_digits_none, lemma_digits_set, FULL_MASK};
use crate::rules::{board_of, comes_first_from, entries_in_range, extends, in_grid, is_board,
    is_solution,
    lemma_comes_first_step, linked, lower_at, no_clash, peers, rank};
use crate::text::{board_text, decimal, decimal_text, entry_texts, layout};
use vstd::prelude::*;
use vstd::string::StringExecFns;

verus! {

/// A set of digits from 1 to 9, kept as a bit mask.
#[derive(Clone, Copy, Debug)]
pub struct BitSet(u16);

impl View for BitSet {
    type V = Set<u8>;

    closed spec fn view(&self) -> Set<u8> {
        digits_of(self.0)
    }
}

impl BitSet {
    /// Whether `x` is in the set. Anything but a digit is not.
    pub fn contains(&self, x: u8) -> (r: bool)
        ensures
            r == self@.contains(x),
            !(1 <= x <= 9) ==> !r,
    {
        if x < 1 || x > 9 {
            return false;
        }
        (self.0 & (1u16 << (x as u16))) != 0
    }

    /// Adds the digit `x`. Returns whether `x` is a digit; if it is not, the
    /// set stays as it is.
    pub fn insert(&mut self, x: u8) -> (r: bool)
        ensures
            r == (1 <= x <= 9),
            r ==> final(self)@ == old(self)@.insert(x),
            r ==> final(self).spec_mask() == old(self).spec_mask() | (1u16 << (x as u16)),
            !r ==> *final(self) == *old(self),
            old(self).tidy() ==> final(self).tidy(),
    {
        if x < 1 || x > 9 {
            return false;
        }
        proof {
            lemma_digits_set(self.0, x);
        }
        self.0 = self.0 | (1u16 << (x as u16));
        true
    }

    /// Takes the digit `x` out. Returns whether `x` is a digit; if it is not,
    /// the set stays as it is.
    pub fn remove(&mut self, x: u8) -> (r: bool)
        ensures
            r == (1 <= x <= 9),
            r ==> final(self)@ == old(self)@.remove(x),
            r ==> final(self).spec_mask() == old(self).spec_mask() & !(1u16 << (x as u16)),
            !r ==> *final(self) == *old(self),
            old(self).tidy() ==> final(self).tidy(),
    {
        if x < 1 || x > 9 {
            return false;
        }
        proof {
            lemma_digits_clear(self.0, x);
        }
        self.0 = self.0 & !(1u16 << (x as u16));
        true
    }

    /// The mask behind the set: bit `v` stands for the digit `v`.
    pub closed spec fn spec_mask(&self) -> u16 {
        self.0
    }

    /// Whether the mask has no bit set but those of digits.
    pub closed spec fn tidy(&self) -> bool {
        is_tidy(self.0)
    }

    /// The set holds the digits whose bits are set in its mask, and a tidy
    /// set has a mask without any other bit.
    pub proof fn lemma_mask(self)
        ensures
            self@ == digits_of(self.spec_mask()),
            self.tidy() == is_tidy(self.spec_mask()),
    {
    }

    /// The set as text for a log: the name of the type, and the mask in
    /// decimal between brackets.
    pub fn debug_text(&self) -> (text: String)
        ensures
            text@ == set_text(self.spec_mask()),
    {
        let mut text = String::from_str("BitSet(");
        text.append(decimal_text(self.0).as_str());
        text.append(")");
        text
    }

    /// The empty set.
    #[allow(clippy::new_without_default)]
    pub fn new() -> (r: BitSet)
        ensures
            r@ == Set::<u8>::empty(),
            r.spec_mask() == 0,
            r.tidy(),
    {
        proof {
            lemma_digits_none();
        }
        BitSet(0u16)
    }

    /// The set of all nine digits.
    pub fn full() -> (r: BitSet)
        ensures
            r@ == all_digits(),
            r.spec_mask() == FULL_MASK,
            r.tidy(),
    {
        proof {
            lemma_digits_full();
        }
        BitSet(FULL_MASK)
    }
}

/// A set with the mask `mask` as text for a log.
pub open spec fn set_text(mask: u16) -> Seq<char> {
    "BitSet("@ + decimal(mask as nat) + ")"@
}

/// The texts of the sets with the masks `masks`, one to a line.
pub open spec fn set_lines(masks: Seq<u16>) -> Seq<char>
    decreases masks.len(),
{
    if masks.len() == 0 {
        Seq::<char>::empty()
    } else {
        set_lines(masks.drop_last()) + set_text(masks.last()) + "\n"@
    }
}

/// What is said of a place outside the grid.
pub open spec fn index_error() -> Seq<char> {
    "Index greater than 9"@
}

/// What is said of a value that is neither 0 nor a digit.
pub open spec fn value_error() -> Seq<char> {
    "Value is not in range 1..=9, was {n}"@
}

/// A result with its message as a sequence of characters.
pub open spec fn told<T>(res: Result<T, &'static str>) -> Result<T, Seq<char>> {
    match res {
        Ok(v) => Ok(v),
        Err(e) => Err(e@),
    }
}

/// The board with its free digits, as a mathematical value.
pub struct SudokuView {
    /// The entries, 0 for an empty cell.
    pub board: Seq<Seq<u8>>,
    /// For each row, the digits free in it.
    pub rows: Seq<Set<u8>>,
    /// For each column, the digits free in it.
    pub cols: Seq<Set<u8>>,
    /// For each zone, the digits free in it.
    pub zones: Seq<Seq<Set<u8>>>,
}

impl SudokuView {
    /// The empty board, with every digit free everywhere.
    pub open spec fn blank() -> SudokuView {
        SudokuView {
            board: Seq::new(9, |r: int| Seq::new(9, |c: int| 0u8)),
            rows: Seq::new(9, |r: int| all_digits()),
            cols: Seq::new(9, |c: int| all_digits()),
            zones: Seq::new(3, |i: int| Seq::new(3, |j: int| all_digits())),
        }
    }

    /// Nine rows of nine entries, nine row sets, nine column sets and three
    /// rows of three zone sets.
    pub open spec fn shaped(self) -> bool {
        &&& self.board.len() == 9
        &&& forall|r: int| 0 <= r < 9 ==> (#[trigger] self.board[r]).len() == 9
        &&& self.rows.len() == 9
        &&& self.cols.len() == 9
        &&& self.zones.len() == 3
        &&& forall|i: int| 0 <= i < 3 ==> (#[trigger] self.zones[i]).len() == 3
    }

    /// Whether `n` is free in the row, the column and the zone of `(r, c)`.
    pub open spec fn allows(self, r: int, c: int, n: u8) -> bool {
        &&& self.rows[r].contains(n)
        &&& self.cols[c].contains(n)
        &&& self.zones[r / 3][c / 3].contains(n)
    }

    /// The entries are 0 or digits, no two peers hold the same digit, and no
    /// digit on the board is free in its row, its column or its zone.
    pub open spec fn wf(self) -> bool {
        &&& self.shaped()
        &&& entries_in_range(self.board)
        &&& no_clash(self.board)
        &&& forall|r: int, c: int|
            in_grid(r, c) && #[trigger] self.board[r][c] != 0 ==> !self.rows[r].contains(
                self.board[r][c],
            ) && !self.cols[c].contains(self.board[r][c]) && !self.zones[r / 3][c / 3].contains(
                self.board[r][c],
            )
    }

    /// The board after `n` is written at `(r, c)` and struck from the row, the
    /// column and the zone.
    pub open spec fn place(self, r: int, c: int, n: u8) -> SudokuView {
        SudokuView {
            board: self.board.update(r, self.board[r].update(c, n)),
            rows: self.rows.update(r, self.rows[r].remove(n)),
            cols: self.cols.update(c, self.cols[c].remove(n)),
            zones: self.zones.update(
                r / 3,
                self.zones[r / 3].update(c / 3, self.zones[r / 3][c / 3].remove(n)),
            ),
        }
    }

    /// The board after the cell `(r, c)` is emptied and its digit is free
    /// again in the row, the column and the zone. An empty cell changes
    /// nothing.
    pub open spec fn lift(self, r: int, c: int) -> SudokuView {
        let n = self.board[r][c];
        if n == 0 {
            self
        } else {
            SudokuView {
                board: self.board.update(r, self.board[r].update(c, 0u8)),
                rows: self.rows.update(r, self.rows[r].insert(n)),
                cols: self.cols.update(c, self.cols[c].insert(n)),
                zones: self.zones.update(
                    r / 3,
                    self.zones[r / 3].update(c / 3, self.zones[r / 3][c / 3].insert(n)),
                ),
            }
        }
    }

    /// Whether writing `n` at `(r, c)` is accepted: 0 empties the cell, and a
    /// digit must be free in the row, the column and the zone.
    pub open spec fn accepts(self, r: int, c: int, n: u8) -> bool {
        n == 0 || (1 <= n <= 9 && self.allows(r, c, n))
    }

    /// The board after `n` is set at `(r, c)`: emptied by 0, written if the
    /// digit is accepted, and unchanged otherwise.
    pub open spec fn after_set(self, r: int, c: int, n: u8) -> SudokuView {
        if !in_grid(r, c) {
            self
        } else if n == 0 {
            self.lift(r, c)
        } else if self.accepts(r, c, n) {
            self.place(r, c, n)
        } else {
            self
        }
    }

    /// What setting `n` at `(r, c)` answers. A value that is neither 0 nor a
    /// digit is an error, whatever the place; then a place outside the grid is
    /// one; otherwise the answer is whether the value was accepted.
    pub open spec fn set_answer(self, r: int, c: int, n: u8) -> Result<bool, Seq<char>> {
        if n > 9 {
            Err(value_error())
        } else if !in_grid(r, c) {
            Err(index_error())
        } else {
            Ok(self.accepts(r, c, n))
        }
    }

    /// Whether row `r` holds the digit `n`.
    pub open spec fn row_holds(self, r: int, n: u8) -> bool {
        exists|c: int| 0 <= c < 9 && #[trigger] self.board[r][c] == n
    }

    /// Whether column `c` holds the digit `n`.
    pub open spec fn col_holds(self, c: int, n: u8) -> bool {
        exists|r: int| 0 <= r < 9 && #[trigger] self.board[r][c] == n
    }

    /// Whether the zone `(zr, zc)` holds the digit `n`.
    pub open spec fn zone_holds(self, zr: int, zc: int, n: u8) -> bool {
        exists|r: int, c: int|
            in_grid(r, c) && r / 3 == zr && c / 3 == zc && #[trigger] self.board[r][c] == n
    }

    /// Whether a digit is free in a row if and only if no cell of the row
    /// holds it.
    #[verifier::opaque]
    pub open spec fn exact_rows(self) -> bool {
        forall|r: int, n: u8|
            0 <= r < 9 && 1 <= n <= 9 ==> (#[trigger] self.rows[r].contains(n) <==> !self.row_holds(
                r,
                n,
            ))
    }

    /// Whether a digit is free in a column if and only if no cell of the
    /// column holds it.
    #[verifier::opaque]
    pub open spec fn exact_cols(self) -> bool {
        forall|c: int, n: u8|
            0 <= c < 9 && 1 <= n <= 9 ==> (#[trigger] self.cols[c].contains(n) <==> !self.col_holds(
                c,
                n,
            ))
    }

    /// Whether a digit is free in a zone if and only if no cell of the zone
    /// holds it.
    #[verifier::opaque]
    pub open spec fn exact_zones(self) -> bool {
        forall|zr: int, zc: int, n: u8|
            0 <= zr < 3 && 0 <= zc < 3 && 1 <= n <= 9 ==> (#[trigger] self.zones[zr][zc].contains(n)
                <==> !self.zone_holds(zr, zc, n))
    }

    /// Whether the free digits are exactly those that the board does not
    /// hold, in every row, column and zone. Every board that is entered cell
    /// by cell into an empty one is like this; writing over a digit with
    /// another one leaves the first one struck, and the board is then no
    /// longer like this.
    pub open spec fn exact(self) -> bool {
        &&& self.exact_rows()
        &&& self.exact_cols()
        &&& self.exact_zones()
    }

    /// Whether the solution `a` fits the board: it agrees with every digit on
    /// the board, and the digit it gives to an empty cell is free there.
    pub open spec fn fits(self, a: Seq<Seq<u8>>) -> bool {
        &&& is_solution(a)
        &&& extends(a, self.board)
        &&& forall|r: int, c: int|
            in_grid(r, c) && #[trigger] self.board[r][c] == 0 ==> self.allows(r, c, a[r][c])
    }
}

/// How far a board got while it was entered cell by cell.
pub enum Entry {
    /// Every entry so far was accepted.
    Open(SudokuView),
    /// A digit was not free where it was to go; entering stopped before it.
    Refused(SudokuView),
    /// An entry was neither 0 nor a digit; entering stopped before it.
    Failed(SudokuView),
}

/// What entering the entries of `b` that come before `(r, c)`, row by row,
/// into an empty board leads to. Entering stops at the first entry that is
/// not accepted.
pub open spec fn enter(b: Seq<Seq<u8>>, r: int, c: int) -> Entry
    decreases r, c,
{
    if r <= 0 && c <= 0 {
        Entry::Open(SudokuView::blank())
    } else if c <= 0 {
        enter(b, r - 1, 9)
    } else {
        match enter(b, r, c - 1) {
            Entry::Open(v) => {
                let n = b[r][c - 1];
                if n > 9 {
                    Entry::Failed(v)
                } else if !v.accepts(r, c - 1, n) {
                    Entry::Refused(v)
                } else {
                    Entry::Open(v.after_set(r, c - 1, n))
                }
            },
            stopped => stopped,
        }
    }
}

/// Writing an accepted digit keeps the board well formed.
pub proof fn lemma_place_wf(v: SudokuView, r: int, c: int, n: u8)
    requires
        v.wf(),
        in_grid(r, c),
        1 <= n <= 9,
        v.allows(r, c, n),
    ensures
        v.place(r, c, n).wf(),
{
    let w = v.place(r, c, n);
    assert forall|i: int, j: int| in_grid(i, j) implies #[trigger] w.board[i][j] == (if i == r && j
        == c {
        n
    } else {
        v.board[i][j]
    }) by {}
    assert forall|i: int, j: int| in_grid(i, j) implies w.zones[i / 3][j / 3].subset_of(
        v.zones[i / 3][j / 3],
    ) && w.rows[i].subset_of(v.rows[i]) && w.cols[j].subset_of(v.cols[j]) by {}
    assert forall|r1: int, c1: int, r2: int, c2: int|
        in_grid(r1, c1) && in_grid(r2, c2) && #[trigger] peers(r1, c1, r2, c2) && w.board[r1][c1]
            != 0 implies w.board[r1][c1] != w.board[r2][c2] by {
        if r1 == r && c1 == c {
            assert(w.board[r2][c2] == v.board[r2][c2]);
            assert(linked(r, c, r2, c2));
        } else if r2 == r && c2 == c {
            assert(w.board[r1][c1] == v.board[r1][c1]);
            assert(linked(r1, c1, r, c));
        } else {
            assert(w.board[r1][c1] == v.board[r1][c1]);
            assert(w.board[r2][c2] == v.board[r2][c2]);
        }
    }
    assert forall|i: int, j: int| in_grid(i, j) && #[trigger] w.board[i][j] != 0 implies !w.rows[i].contains(
        w.board[i][j],
    ) && !w.cols[j].contains(w.board[i][j]) && !w.zones[i / 3][j / 3].contains(w.board[i][j]) by {
        assert(w.zones[i / 3][j / 3].subset_of(v.zones[i / 3][j / 3]) && w.rows[i].subset_of(
            v.rows[i],
        ) && w.cols[j].subset_of(v.cols[j]));
        if !(i == r && j == c) {
            assert(v.board[i][j] != 0);
        }
    }
}

/// Emptying a cell keeps the board well formed.
pub proof fn lemma_lift_wf(v: SudokuView, r: int, c: int)
    requires
        v.wf(),
        in_grid(r, c),
    ensures
        v.lift(r, c).wf(),
{
    let w = v.lift(r, c);
    let n = v.board[r][c];
    if n != 0 {
        assert forall|i: int, j: int| in_grid(i, j) implies #[trigger] w.board[i][j] == (if i == r
            && j == c {
            0u8
        } else {
            v.board[i][j]
        }) by {}
        assert forall|r1: int, c1: int, r2: int, c2: int|
            in_grid(r1, c1) && in_grid(r2, c2) && #[trigger] peers(r1, c1, r2, c2)
                && w.board[r1][c1] != 0 implies w.board[r1][c1] != w.board[r2][c2] by {
            assert(w.board[r1][c1] == v.board[r1][c1]);
        }
        assert forall|i: int, j: int| in_grid(i, j) && #[trigger] w.board[i][j] != 0 implies !w.rows[i].contains(
            w.board[i][j],
        ) && !w.cols[j].contains(w.board[i][j]) && !w.zones[i / 3][j / 3].contains(
            w.board[i][j],
        ) by {
            assert(v.board[i][j] != 0);
            assert(v.board[i][j] == w.board[i][j]);
            if linked(r, c, i, j) {
                assert(peers(r, c, i, j));
            }
        }
    }
}

/// Emptying a cell right after an accepted digit was written into it, while
/// it was empty, gives back the board as it was.
pub proof fn lemma_place_lift(v: SudokuView, r: int, c: int, n: u8)
    requires
        v.shaped(),
        in_grid(r, c),
        v.board[r][c] == 0,
        1 <= n <= 9,
        v.allows(r, c, n),
    ensures
        v.place(r, c, n).lift(r, c) == v,
{
    let w = v.place(r, c, n).lift(r, c);
    assert(w.board =~~= v.board);
    assert(w.rows =~~= v.rows);
    assert(w.cols =~~= v.cols);
    assert(w.zones =~~= v.zones);
}

/// On the empty board every digit is free everywhere, and nothing is held.
pub proof fn lemma_blank_exact()
    ensures
        SudokuView::blank().exact(),
        SudokuView::blank().wf(),
{
    reveal(SudokuView::exact_rows);
    reveal(SudokuView::exact_cols);
    reveal(SudokuView::exact_zones);
}

/// Writing a digit into an empty cell keeps the free digits exact.
pub proof fn lemma_place_exact(v: SudokuView, r: int, c: int, n: u8)
    requires
        v.shaped(),
        v.exact(),
        in_grid(r, c),
        1 <= n <= 9,
        v.board[r][c] == 0,
    ensures
        v.place(r, c, n).exact(),
{
    reveal(SudokuView::exact_rows);
    reveal(SudokuView::exact_cols);
    reveal(SudokuView::exact_zones);
    let w = v.place(r, c, n);
    assert forall|i: int, j: int| in_grid(i, j) implies #[trigger] w.board[i][j] == (if i == r && j
        == c {
        n
    } else {
        v.board[i][j]
    }) by {}
    assert forall|i: int, m: u8| 0 <= i < 9 && 1 <= m <= 9 implies (#[trigger] w.rows[i].contains(m)
        <==> !w.row_holds(i, m)) by {
        assert(v.rows[i].contains(m) <==> !v.row_holds(i, m));
        if v.row_holds(i, m) {
            let j = choose|j: int| 0 <= j < 9 && #[trigger] v.board[i][j] == m;
            assert(in_grid(i, j));
            assert(w.board[i][j] == m);
        }
        if w.row_holds(i, m) {
            let j = choose|j: int| 0 <= j < 9 && #[trigger] w.board[i][j] == m;
            assert(in_grid(i, j));
            if !(i == r && j == c) {
                assert(v.board[i][j] == m);
            }
        }
        if i == r && m == n {
            assert(w.board[r][c] == n);
        }
    }
    assert forall|j: int, m: u8| 0 <= j < 9 && 1 <= m <= 9 implies (#[trigger] w.cols[j].contains(m)
        <==> !w.col_holds(j, m)) by {
        assert(v.cols[j].contains(m) <==> !v.col_holds(j, m));
        if v.col_holds(j, m) {
            let i = choose|i: int| 0 <= i < 9 && #[trigger] v.board[i][j] == m;
            assert(in_grid(i, j));
            assert(w.board[i][j] == m);
        }
        if w.col_holds(j, m) {
            let i = choose|i: int| 0 <= i < 9 && #[trigger] w.board[i][j] == m;
            assert(in_grid(i, j));
            if !(i == r && j == c) {
                assert(v.board[i][j] == m);
            }
        }
        if j == c && m == n {
            assert(w.board[r][c] == n);
        }
    }
    assert forall|zr: int, zc: int, m: u8|
        0 <= zr < 3 && 0 <= zc < 3 && 1 <= m <= 9 implies (#[trigger] w.zones[zr][zc].contains(m)
        <==> !w.zone_holds(zr, zc, m)) by {
        assert(v.zones[zr][zc].contains(m) <==> !v.zone_holds(zr, zc, m));
        if v.zone_holds(zr, zc, m) {
            let (i, j) = choose|i: int, j: int|
                in_grid(i, j) && i / 3 == zr && j / 3 == zc && #[trigger] v.board[i][j] == m;
            assert(w.board[i][j] == m);
        }
        if w.zone_holds(zr, zc, m) {
            let (i, j) = choose|i: int, j: int|
                in_grid(i, j) && i / 3 == zr && j / 3 == zc && #[trigger] w.board[i][j] == m;
            if !(i == r && j == c) {
                assert(v.board[i][j] == m);
            }
        }
        if zr == r / 3 && zc == c / 3 && m == n {
            assert(w.board[r][c] == n);
        }
    }
}

/// Emptying a cell keeps the free digits of the rows exact.
proof fn lemma_lift_rows(v: SudokuView, r: int, c: int)
    requires
        v.shaped(),
        no_clash(v.board),
        v.exact_rows(),
        in_grid(r, c),
        1 <= v.board[r][c] <= 9,
    ensures
        v.lift(r, c).exact_rows(),
{
    reveal(SudokuView::exact_rows);
    let w = v.lift(r, c);
    let n = v.board[r][c];
    assert forall|i: int, m: u8| 0 <= i < 9 && 1 <= m <= 9 implies (#[trigger] w.rows[i].contains(m)
        <==> !w.row_holds(i, m)) by {
        assert(v.rows[i].contains(m) <==> !v.row_holds(i, m));
        if v.row_holds(i, m) {
            let j = choose|j: int| 0 <= j < 9 && #[trigger] v.board[i][j] == m;
            if !(i == r && j == c) {
                assert(w.board[i][j] == m);
            }
        }
        if w.row_holds(i, m) {
            let j = choose|j: int| 0 <= j < 9 && #[trigger] w.board[i][j] == m;
            assert(in_grid(i, j));
            assert(v.board[i][j] == m);
            if i == r && m == n {
                assert(peers(r, c, i, j));
            }
        }
    }
}

/// Emptying a cell keeps the free digits of the columns exact.
proof fn lemma_lift_cols(v: SudokuView, r: int, c: int)
    requires
        v.shaped(),
        no_clash(v.board),
        v.exact_cols(),
        in_grid(r, c),
        1 <= v.board[r][c] <= 9,
    ensures
        v.lift(r, c).exact_cols(),
{
    reveal(SudokuView::exact_cols);
    let w = v.lift(r, c);
    let n = v.board[r][c];
    assert forall|j: int, m: u8| 0 <= j < 9 && 1 <= m <= 9 implies (#[trigger] w.cols[j].contains(m)
        <==> !w.col_holds(j, m)) by {
        assert(v.cols[j].contains(m) <==> !v.col_holds(j, m));
        if v.col_holds(j, m) {
            let i = choose|i: int| 0 <= i < 9 && #[trigger] v.board[i][j] == m;
            if !(i == r && j == c) {
                assert(w.board[i][j] == m);
            }
        }
        if w.col_holds(j, m) {
            let i = choose|i: int| 0 <= i < 9 && #[trigger] w.board[i][j] == m;
            assert(in_grid(i, j));
            assert(v.board[i][j] == m);
            if j == c && m == n {
                assert(peers(r, c, i, j));
            }
        }
    }
}

/// Emptying a cell keeps the free digits of the zones exact.
proof fn lemma_lift_zones(v: SudokuView, r: int, c: int)
    requires
        v.shaped(),
        no_clash(v.board),
        v.exact_zones(),
        in_grid(r, c),
        1 <= v.board[r][c] <= 9,
    ensures
        v.lift(r, c).exact_zones(),
{
    reveal(SudokuView::exact_zones);
    let w = v.lift(r, c);
    let n = v.board[r][c];
    assert forall|zr: int, zc: int, m: u8|
        0 <= zr < 3 && 0 <= zc < 3 && 1 <= m <= 9 implies (#[trigger] w.zones[zr][zc].contains(m)
        <==> !w.zone_holds(zr, zc, m)) by {
        assert(v.zones[zr][zc].contains(m) <==> !v.zone_holds(zr, zc, m));
        if v.zone_holds(zr, zc, m) {
            let (i, j) = choose|i: int, j: int|
                in_grid(i, j) && i / 3 == zr && j / 3 == zc && #[trigger] v.board[i][j] == m;
            if !(i == r && j == c) {
                assert(w.board[i][j] == m);
            }
        }
        if w.zone_holds(zr, zc, m) {
            let (i, j) = choose|i: int, j: int|
                in_grid(i, j) && i / 3 == zr && j / 3 == zc && #[trigger] w.board[i][j] == m;
            assert(v.board[i][j] == m);
            if zr == r / 3 && zc == c / 3 && m == n {
                assert(peers(r, c, i, j));
            }
        }
    }
}

/// Emptying a cell of a well-formed board keeps the free digits exact.
pub proof fn lemma_lift_exact(v: SudokuView, r: int, c: int)
    requires
        v.wf(),
        v.exact(),
        in_grid(r, c),
    ensures
        v.lift(r, c).exact(),
{
    if v.board[r][c] != 0 {
        lemma_lift_rows(v, r, c);
        lemma_lift_cols(v, r, c);
        lemma_lift_zones(v, r, c);
    }
}

/// Where the free digits are exact, every solution that agrees with the
/// digits on the board fits the board.
pub proof fn lemma_exact_fits(v: SudokuView, a: Seq<Seq<u8>>)
    requires
        v.exact(),
        is_solution(a),
        extends(a, v.board),
    ensures
        v.fits(a),
{
    reveal(SudokuView::exact_rows);
    reveal(SudokuView::exact_cols);
    reveal(SudokuView::exact_zones);
    assert forall|r: int, c: int| in_grid(r, c) && #[trigger] v.board[r][c] == 0 implies v.allows(
        r,
        c,
        a[r][c],
    ) by {
        let n = a[r][c];
        assert(1 <= n <= 9);
        if v.row_holds(r, n) {
            let j = choose|j: int| 0 <= j < 9 && #[trigger] v.board[r][j] == n;
            assert(in_grid(r, j));
            assert(a[r][j] == n);
            assert(peers(r, c, r, j));
        }
        if v.col_holds(c, n) {
            let i = choose|i: int| 0 <= i < 9 && #[trigger] v.board[i][c] == n;
            assert(in_grid(i, c));
            assert(a[i][c] == n);
            assert(peers(r, c, i, c));
        }
        if v.zone_holds(r / 3, c / 3, n) {
            let (i, j) = choose|i: int, j: int|
                in_grid(i, j) && i / 3 == r / 3 && j / 3 == c / 3 && #[trigger] v.board[i][j] == n;
            assert(a[i][j] == n);
            assert(peers(r, c, i, j));
        }
        assert(v.rows[r].contains(n) <==> !v.row_holds(r, n));
        assert(v.cols[c].contains(n) <==> !v.col_holds(c, n));
        assert(v.zones[r / 3][c / 3].contains(n) <==> !v.zone_holds(r / 3, c / 3, n));
    }
}

/// A solution that fits a board still fits it after its own digit is written
/// into an empty cell.
pub proof fn lemma_fits_kept(v: SudokuView, a: Seq<Seq<u8>>, r: int, c: int)
    requires
        v.shaped(),
        v.fits(a),
        in_grid(r, c),
        v.board[r][c] == 0,
    ensures
        v.allows(r, c, a[r][c]),
        v.place(r, c, a[r][c]).fits(a),
{
    let n = a[r][c];
    let w = v.place(r, c, n);
    assert(1 <= n <= 9);
    assert forall|i: int, j: int| in_grid(i, j) implies #[trigger] w.board[i][j] == (if i == r && j
        == c {
        n
    } else {
        v.board[i][j]
    }) by {}
    assert forall|i: int, j: int| in_grid(i, j) && #[trigger] w.board[i][j] == 0 implies w.allows(
        i,
        j,
        a[i][j],
    ) by {
        assert(v.board[i][j] == 0);
        assert(v.allows(i, j, a[i][j]));
        if linked(r, c, i, j) {
            assert(peers(r, c, i, j));
            assert(a[i][j] != n);
        }
    }
}

/// The board with the free digits of its rows, columns and zones.
#[derive(Debug)]
pub struct Sudoku {
    grid: [[u8; 9]; 9],
    r_sets: [BitSet; 9],
    c_sets: [BitSet; 9],
    z_sets: [[BitSet; 3]; 3],
}

impl View for Sudoku {
    type V = SudokuView;

    closed spec fn view(&self) -> SudokuView {
        SudokuView {
            board: board_of(self.grid),
            rows: Seq::new(9, |r: int| self.r_sets[r]@),
            cols: Seq::new(9, |c: int| self.c_sets[c]@),
            zones: Seq::new(3, |i: int| Seq::new(3, |j: int| self.z_sets[i][j]@)),
        }
    }
}

#[allow(clippy::new_without_default)]
impl Sudoku {
    /// Whether no set of free digits has a bit set but those of digits.
    pub closed spec fn tidy(&self) -> bool {
        &&& forall|r: int| 0 <= r < 9 ==> (#[trigger] self.r_sets[r]).tidy()
        &&& forall|c: int| 0 <= c < 9 ==> (#[trigger] self.c_sets[c]).tidy()
        &&& forall|i: int, j: int| 0 <= i < 3 && 0 <= j < 3 ==> (#[trigger] self.z_sets[i][j]).tidy()
    }

    /// The board is well formed, and so are the masks of its free digits.
    pub open spec fn wf(&self) -> bool {
        self@.wf() && self.tidy()
    }

    /// The masks of a well-formed board are those of its free digits and
    /// hold no other bit, so that the free digits decide the masks.
    pub proof fn lemma_masks(&self)
        requires
            self.wf(),
        ensures
            forall|r: int|
                0 <= r < 9 ==> digits_of(#[trigger] self.row_masks()[r]) == self@.rows[r]
                    && is_tidy(self.row_masks()[r]),
            forall|c: int|
                0 <= c < 9 ==> digits_of(#[trigger] self.col_masks()[c]) == self@.cols[c]
                    && is_tidy(self.col_masks()[c]),
            forall|k: int|
                0 <= k < 9 ==> digits_of(#[trigger] self.zone_masks()[k]) == self@.zones[k / 3][k
                    % 3] && is_tidy(self.zone_masks()[k]),
    {
    }

    /// The empty board.
    pub fn new() -> (r: Sudoku)
        ensures
            r@ == SudokuView::blank(),
            r.wf(),
            r@.exact(),
    {
        let r_sets: [BitSet; 9] = [Sudoku::init_set();9];
        let c_sets: [BitSet; 9] = [Sudoku::init_set();9];
        let z_sets: [[BitSet; 3]; 3] = [[Sudoku::init_set();3];3];
        let r = Sudoku { grid: [[0u8;9];9], r_sets, c_sets, z_sets };
        proof {
            assert(r@.board =~~= SudokuView::blank().board);
            assert(r@.rows =~~= SudokuView::blank().rows);
            assert(r@.cols =~~= SudokuView::blank().cols);
            assert(r@.zones =~~= SudokuView::blank().zones);
            lemma_blank_exact();
        }
        r
    }

    /// The board that entering `grid` cell by cell leads to. An entry that is
    /// neither 0 nor a digit is an error. A digit that is not free where it is
    /// to go ends the entering, and the board holds what came before it.
    pub fn from(grid: [[u8; 9]; 9]) -> (res: Result<Sudoku, &'static str>)
        ensures
            match enter(board_of(grid), 9, 0) {
                Entry::Open(v) => res matches Ok(s) && s@ == v && s.wf() && s@.exact(),
                Entry::Refused(v) => res matches Ok(s) && s@ == v && s.wf() && s@.exact(),
                Entry::Failed(_) => res matches Err(e) && e@ == value_error(),
            },
    {
        let mut new_sudoku = Sudoku::new();
        match new_sudoku.set_grid(grid) {
            Ok(_) => Ok(new_sudoku),
            Err(e) => Err(e),
        }
    }

    /// Sets `n` at `(r, c)`: 0 empties the cell, a digit is written if it is
    /// free in the row, the column and the zone. Returns whether the value was
    /// accepted.
    pub fn set(&mut self, r: usize, c: usize, n: u8) -> (res: Result<bool, &'static str>)
        requires
            old(self).wf(),
        ensures
            final(self).wf(),
            told(res) == old(self)@.set_answer(r as int, c as int, n),
            final(self)@ == (if res is Ok {
                old(self)@.after_set(r as int, c as int, n)
            } else {
                old(self)@
            }),
            old(self)@.exact() && (n == 0 || old(self)@.board[r as int][c as int] == 0) ==> final(self)@.exact(),
    {
        if n == 0 {
            match self.clear(r, c) {
                Ok(_) => {},
                Err(e) => {
                    return Err(e);
                },
            }
            return Ok(true);
        }
        if n < 1 || n > 9 {
            return Err("Value is not in range 1..=9, was {n}");
        }
        match self.is_valid(r, c, n) {
            Ok(valid) => {
                if !valid {
                    return Ok(false);
                }
            },
            Err(e) => {
                return Err(e);
            },
        }
        proof {
            lemma_place_wf(self@, r as int, c as int, n);
            if self@.exact() && self@.board[r as int][c as int] == 0 {
                lemma_place_exact(self@, r as int, c as int, n);
            }
        }
        let ghost before = self@;
        self.grid[r][c] = n;
        self.r_sets[r].remove(n);
        self.c_sets[c].remove(n);
        self.z_sets[r / 3][c / 3].remove(n);
        proof {
            let after = before.place(r as int, c as int, n);
            assert(self@.board =~~= after.board);
            assert(self@.rows =~~= after.rows);
            assert(self@.cols =~~= after.cols);
            assert(self@.zones =~~= after.zones);
        }
        Ok(true)
    }

    /// The entry at `(r, c)`.
    pub fn get(&self, r: usize, c: usize) -> (res: Result<u8, &'static str>)
        ensures
            told(res) == (if in_grid(r as int, c as int) {
                Ok::<u8, Seq<char>>(self@.board[r as int][c as int])
            } else {
                Err::<u8, Seq<char>>(index_error())
            }),
    {
        match Sudoku::restrain_index(r, c) {
            Ok(_) => {},
            Err(e) => {
                return Err(e);
            },
        }
        Ok(self.grid[r][c])
    }

    /// Empties the cell `(r, c)` and frees its digit.
    pub fn clear(&mut self, r: usize, c: usize) -> (res: Result<(), &'static str>)
        requires
            old(self).wf(),
        ensures
            final(self).wf(),
            told(res) == (if in_grid(r as int, c as int) {
                Ok::<(), Seq<char>>(())
            } else {
                Err::<(), Seq<char>>(index_error())
            }),
            final(self)@ == (if in_grid(r as int, c as int) {
                old(self)@.lift(r as int, c as int)
            } else {
                old(self)@
            }),
            old(self)@.exact() ==> final(self)@.exact(),
    {
        let n: u8 = match self.get(r, c) {
            Ok(n) => n,
            Err(e) => {
                return Err(e);
            },
        };
        if n == 0 {
            return Ok(());
        }
        proof {
            lemma_lift_wf(self@, r as int, c as int);
            if self@.exact() {
                lemma_lift_exact(self@, r as int, c as int);
            }
            assert(n <= 9);
        }
        let ghost before = self@;
        self.r_sets[r].insert(n);
        self.c_sets[c].insert(n);
        self.z_sets[r / 3][c / 3].insert(n);
        self.grid[r][c] = 0;
        proof {
            let after = before.lift(r as int, c as int);
            assert(self@.board =~~= after.board);
            assert(self@.rows =~~= after.rows);
            assert(self@.cols =~~= after.cols);
            assert(self@.zones =~~= after.zones);
        }
        Ok(())
    }

    /// Empties the whole board.
    pub fn clear_all(&mut self)
        ensures
            final(self)@ == SudokuView::blank(),
            final(self).wf(),
            final(self)@.exact(),
    {
        *self = Sudoku::new();
    }

    /// Empties the board and enters `grid` into it cell by cell, row by row.
    /// Stops at the first entry that is not accepted: with `Ok(false)` if it is
    /// a digit that is not free where it is to go, and with an error if it is
    /// neither 0 nor a digit. The board then holds what came before it.
    #[allow(clippy::needless_range_loop)]
    pub fn set_grid(&mut self, grid: [[u8; 9]; 9]) -> (res: Result<bool, &'static str>)
        ensures
            final(self).wf(),
            final(self)@.exact(),
            match enter(board_of(grid), 9, 0) {
                Entry::Open(v) => res == Ok::<bool, &'static str>(true) && final(self)@ == v,
                Entry::Refused(v) => res == Ok::<bool, &'static str>(false) && final(self)@ == v,
                Entry::Failed(v) => res matches Err(e) && e@ == value_error() && final(self)@ == v,
            },
    {
        let ghost b = board_of(grid);
        self.clear_all();
        let mut i: usize = 0;
        while i < 9
            invariant
                i <= 9,
                b == board_of(grid),
                self.wf(),
                self@.exact(),
                forall|x: int, y: int|
                    in_grid(x, y) && rank(x, y) >= rank(i as int, 0) ==> #[trigger] self@.board[x][y]
                        == 0,
                enter(b, i as int, 0) == Entry::Open(self@),
            decreases 9 - i,
        {
            let mut j: usize = 0;
            while j < 9
                invariant
                    i < 9,
                    j <= 9,
                    b == board_of(grid),
                    self.wf(),
                    self@.exact(),
                    forall|x: int, y: int|
                        in_grid(x, y) && rank(x, y) >= rank(i as int, j as int) ==> #[trigger] self@.board[x][y]
                            == 0,
                    enter(b, i as int, j as int) == Entry::Open(self@),
                decreases 9 - j,
            {
                let ghost before = self@;
                proof {
                    assert(in_grid(i as int, j as int));
                    assert(b[i as int][j as int] == grid[i as int][j as int]);
                    assert(before.board[i as int][j as int] == 0);
                    assert forall|x: int, y: int| in_grid(x, y) implies #[trigger] before.place(
                        i as int,
                        j as int,
                        grid[i as int][j as int],
                    ).board[x][y] == (if x == i && y == j {
                        grid[i as int][j as int]
                    } else {
                        before.board[x][y]
                    }) by {}
                }
                match self.set(i, j, grid[i][j]) {
                    Ok(done) => {
                        if !done {
                            proof {
                                lemma_enter_stops(b, i as int, j as int + 1, 9, 0);
                            }
                            return Ok(false);
                        }
                    },
                    Err(e) => {
                        proof {
                            lemma_enter_stops(b, i as int, j as int + 1, 9, 0);
                        }
                        return Err(e);
                    },
                }
                j += 1;
            }
            i += 1;
        }
        Ok(true)
    }

    /// The free digits that an empty board starts with: all of them.
    pub fn init_set() -> (r: BitSet)
        ensures
            r@ == all_digits(),
            r.spec_mask() == FULL_MASK,
            r.tidy(),
    {
        BitSet::full()
    }

    /// Whether the digit `n` is free in the row, the column and the zone of
    /// `(r, c)`.
    pub fn is_valid(&self, r: usize, c: usize, n: u8) -> (res: Result<bool, &'static str>)
        ensures
            told(res) == (if in_grid(r as int, c as int) {
                Ok::<bool, Seq<char>>(self@.allows(r as int, c as int, n))
            } else {
                Err::<bool, Seq<char>>(index_error())
            }),
    {
        match Sudoku::restrain_index(r, c) {
            Ok(_) => {},
            Err(e) => {
                return Err(e);
            },
        }
        Ok(
            self.r_sets[r].contains(n) && self.c_sets[c].contains(n) && self.z_sets[r / 3][c
                / 3].contains(n),
        )
    }

    /// Fills the empty cells, row by row, each with the lowest digit that
    /// leads to a solution. Returns whether the board could be filled; if not,
    /// the board is as it was.
    ///
    /// On success the board holds a solution that agrees with every digit that
    /// was on it. On failure no solution fits the board.
    pub fn solve(&mut self) -> (res: bool)
        requires
            old(self).wf(),
        ensures
            final(self).wf(),
            old(self)@.exact() ==> final(self)@.exact(),
            res ==> old(self)@.fits(final(self)@.board),
            res ==> forall|a: Seq<Seq<u8>>| #[trigger]
                old(self)@.fits(a) ==> comes_first_from(final(self)@.board, a, 0),
            !res ==> final(self)@ == old(self)@ && forall|a: Seq<Seq<u8>>| !old(self)@.fits(a),
            !res && old(self)@.exact() ==> forall|a: Seq<Seq<u8>>|
                !(is_solution(a) && #[trigger] extends(a, old(self)@.board)),
    {
        let res = self.solve_at(0, 0);
        proof {
            if !res && old(self)@.exact() {
                assert forall|a: Seq<Seq<u8>>|
                    !(is_solution(a) && #[trigger] extends(a, old(self)@.board)) by {
                    if is_solution(a) && extends(a, old(self)@.board) {
                        lemma_exact_fits(old(self)@, a);
                    }
                }
            }
            if res {
                let b = self@.board;
                assert forall|r: int, c: int| in_grid(r, c) implies 1 <= #[trigger] b[r][c] <= 9 by {
                    assert(rank(r, c) >= rank(0, 0));
                }
                assert forall|r: int, c: int|
                    in_grid(r, c) && #[trigger] old(self)@.board[r][c] == 0 implies old(self)@.allows(r, c, b[r][c]) by {
                    assert(rank(r, c) >= rank(0, 0));
                }
            }
        }
        res
    }

    /// Fills the empty cells from `(r, c)` on, row by row. A place outside the
    /// grid means that nothing is left to fill.
    pub fn solve_at(&mut self, r: usize, c: usize) -> (res: bool)
        requires
            old(self).wf(),
        ensures
            final(self).wf(),
            old(self)@.exact() ==> final(self)@.exact(),
            !in_grid(r as int, c as int) ==> res && final(self)@ == old(self)@,
            res && in_grid(r as int, c as int) ==> {
                &&& extends(final(self)@.board, old(self)@.board)
                &&& forall|i: int, j: int|
                    in_grid(i, j) && rank(i, j) < rank(r as int, c as int) ==> #[trigger] final(self)@.board[i][j] == old(self)@.board[i][j]
                &&& forall|i: int, j: int|
                    in_grid(i, j) && rank(i, j) >= rank(r as int, c as int) ==> #[trigger] final(self)@.board[i][j] != 0
                &&& forall|i: int, j: int|
                    in_grid(i, j) && rank(i, j) >= rank(r as int, c as int) && #[trigger] old(self)@.board[i][j]
                        == 0 ==> old(self)@.allows(i, j, final(self)@.board[i][j])
                &&& forall|a: Seq<Seq<u8>>| #[trigger]
                    old(self)@.fits(a) ==> comes_first_from(
                        final(self)@.board,
                        a,
                        rank(r as int, c as int),
                    )
            },
            !res ==> final(self)@ == old(self)@ && forall|a: Seq<Seq<u8>>| !old(self)@.fits(a),
        decreases
                (if in_grid(r as int, c as int) {
                    81 - rank(r as int, c as int)
                } else {
                    0
                }),
    {
        if Sudoku::restrain_index(r, c).is_err() {
            return true;
        }
        let new_c: usize = (c + 1) % 9;
        let new_r: usize = r + ((c + 1) / 9);
        let ghost start = self@;

        if self.get(r, c).unwrap() != 0 {
            let res = self.solve_at(new_r, new_c);
            proof {
                assert(rank(new_r as int, new_c as int) == rank(r as int, c as int) + 1);
                if res {
                    assert(self@.board[r as int][c as int] == start.board[r as int][c as int]);
                    assert forall|a: Seq<Seq<u8>>| #[trigger] start.fits(a) implies comes_first_from(
                        self@.board,
                        a,
                        rank(r as int, c as int),
                    ) by {
                        assert(a[r as int][c as int] == start.board[r as int][c as int]);
                        lemma_comes_first_step(self@.board, a, r as int, c as int);
                    }
                }
            }
            return res;
        }
        let mut n: u8 = 1;
        while n <= 9
            invariant
                1 <= n <= 10,
                r < 9,
                c < 9,
                new_c == (c + 1) % 9,
                new_r == r + ((c + 1) / 9),
                self.wf(),
                self@ == start,
                start == old(self)@,
                start.board[r as int][c as int] == 0,
                forall|a: Seq<Seq<u8>>| start.fits(a) ==> a[r as int][c as int] >= n,
            decreases 10 - n,
        {
            if self.set(r, c, n).unwrap() {
                let ghost placed = self@;
                proof {
                    assert(placed == start.place(r as int, c as int, n));
                    assert forall|i: int, j: int| in_grid(i, j) implies #[trigger] placed.board[i][j]
                        == (if i == r && j == c {
                        n
                    } else {
                        start.board[i][j]
                    }) by {}
                }
                if self.solve_at(new_r, new_c) {
                    proof {
                        assert(rank(new_r as int, new_c as int) == rank(r as int, c as int) + 1);
                        assert(self@.board[r as int][c as int] == n);
                        assert forall|i: int, j: int|
                            in_grid(i, j) && #[trigger] start.board[i][j] != 0 implies self@.board[i][j]
                            == start.board[i][j] by {
                            assert(placed.board[i][j] == start.board[i][j]);
                        }
                        assert forall|i: int, j: int|
                            in_grid(i, j) && rank(i, j) >= rank(r as int, c as int)
                                && #[trigger] start.board[i][j] == 0 implies start.allows(
                            i,
                            j,
                            self@.board[i][j],
                        ) by {
                            if !(i == r && j == c) {
                                assert(placed.board[i][j] == 0);
                                assert(placed.allows(i, j, self@.board[i][j]));
                            }
                        }
                        assert forall|a: Seq<Seq<u8>>| #[trigger] start.fits(a) implies comes_first_from(
                            self@.board,
                            a,
                            rank(r as int, c as int),
                        ) by {
                            if a[r as int][c as int] == n {
                                lemma_fits_kept(start, a, r as int, c as int);
                                lemma_comes_first_step(self@.board, a, r as int, c as int);
                            } else {
                                assert(lower_at(
                                    self@.board,
                                    a,
                                    rank(r as int, c as int),
                                    r as int,
                                    c as int,
                                ));
                            }
                        }
                    }
                    return true;
                }
                self.clear(r, c).unwrap();
                proof {
                    lemma_place_lift(start, r as int, c as int, n);
                    assert forall|a: Seq<Seq<u8>>| start.fits(a) implies a[r as int][c as int]
                        != n by {
                        if a[r as int][c as int] == n {
                            lemma_fits_kept(start, a, r as int, c as int);
                        }
                    }
                }
            } else {
                proof {
                    assert forall|a: Seq<Seq<u8>>| start.fits(a) implies a[r as int][c as int]
                        != n by {
                        if a[r as int][c as int] == n {
                            lemma_fits_kept(start, a, r as int, c as int);
                        }
                    }
                }
            }
            n += 1;
        }
        proof {
            assert forall|a: Seq<Seq<u8>>| !start.fits(a) by {
                if start.fits(a) {
                    assert(1 <= a[r as int][c as int] <= 9);
                }
            }
        }
        false
    }

    /// The masks of the free digits of the rows.
    pub closed spec fn row_masks(&self) -> Seq<u16> {
        Seq::new(9, |r: int| self.r_sets[r].spec_mask())
    }

    /// The masks of the free digits of the columns.
    pub closed spec fn col_masks(&self) -> Seq<u16> {
        Seq::new(9, |c: int| self.c_sets[c].spec_mask())
    }

    /// The masks of the free digits of the zones, row of zones by row of
    /// zones.
    pub closed spec fn zone_masks(&self) -> Seq<u16> {
        Seq::new(9, |k: int| self.z_sets[k / 3][k % 3].spec_mask())
    }

    /// The free digits of the rows, the columns and the zones as text for a
    /// log: a heading for each of the three, and under it one set to a line.
    pub fn sets_text(&self) -> (text: String)
        ensures
            text@ == "Row vacant: \n"@ + set_lines(self.row_masks()) + "Col vacant: \n"@
                + set_lines(self.col_masks()) + "Zone vacant: \n"@ + set_lines(
                self.zone_masks(),
            ),
    {
        let mut text = String::from_str("Row vacant: \n");
        let mut k: usize = 0;
        while k < 9
            invariant
                k <= 9,
                text@ == "Row vacant: \n"@ + set_lines(self.row_masks().take(k as int)),
            decreases 9 - k,
        {
            text.append(self.r_sets[k].debug_text().as_str());
            text.append("\n");
            proof {
                let now = self.row_masks().take(k + 1);
                assert(now.drop_last() =~= self.row_masks().take(k as int));
                assert(now.last() == self.r_sets[k as int].spec_mask());
                assert(text@ =~= "Row vacant: \n"@ + set_lines(now));
            }
            k += 1;
        }
        assert(self.row_masks().take(9) =~= self.row_masks());
        let ghost rows = text@;
        text.append("Col vacant: \n");
        k = 0;
        while k < 9
            invariant
                k <= 9,
                text@ == rows + "Col vacant: \n"@ + set_lines(self.col_masks().take(k as int)),
            decreases 9 - k,
        {
            text.append(self.c_sets[k].debug_text().as_str());
            text.append("\n");
            proof {
                let now = self.col_masks().take(k + 1);
                assert(now.drop_last() =~= self.col_masks().take(k as int));
                assert(now.last() == self.c_sets[k as int].spec_mask());
                assert(text@ =~= rows + "Col vacant: \n"@ + set_lines(now));
            }
            k += 1;
        }
        assert(self.col_masks().take(9) =~= self.col_masks());
        let ghost cols = text@;
        text.append("Zone vacant: \n");
        k = 0;
        while k < 9
            invariant
                k <= 9,
                text@ == cols + "Zone vacant: \n"@ + set_lines(self.zone_masks().take(k as int)),
            decreases 9 - k,
        {
            text.append(self.z_sets[k / 3][k % 3].debug_text().as_str());
            text.append("\n");
            proof {
                let now = self.zone_masks().take(k + 1);
                assert(now.drop_last() =~= self.zone_masks().take(k as int));
                assert(now.last() == self.z_sets[k as int / 3][k as int % 3].spec_mask());
                assert(text@ =~= cols + "Zone vacant: \n"@ + set_lines(now));
            }
            k += 1;
        }
        assert(self.zone_masks().take(9) =~= self.zone_masks());
        text
    }

    /// The board as text: the entries in rows, three by three.
    #[allow(clippy::inherent_to_string)]
    pub fn to_string(&self) -> (text: String)
        ensures
            text@ == layout(entry_texts(self@.board)),
    {
        board_text(&self.grid)
    }

    /// Whether `(r, c)` names a cell of the grid.
    pub fn restrain_index(r: usize, c: usize) -> (res: Result<(), &'static str>)
        ensures
            told(res) == (if in_grid(r as int, c as int) {
                Ok::<(), Seq<char>>(())
            } else {
                Err::<(), Seq<char>>(index_error())
            }),
    {
        if r < 9 && c < 9 {
            Ok(())
        } else {
            Err("Index greater than 9")
        }
    }
}

/// Once entering has stopped, it stays stopped where it was; and what has
/// been entered so far decides what comes of the next entry.
pub proof fn lemma_enter_stops(b: Seq<Seq<u8>>, r: int, c: int, r2: int, c2: int)
    requires
        0 <= r < 9,
        0 < c <= 9,
        0 <= r2 <= 9,
        0 <= c2 <= 9,
        rank(r, c) <= rank(r2, c2),
        !(enter(b, r, c) is Open),
    ensures
        enter(b, r2, c2) == enter(b, r, c),
    decreases r2, c2,
{
    if r2 == r && c2 == c {
    } else if c2 <= 0 {
        lemma_enter_stops(b, r, c, r2 - 1, 9);
    } else {
        lemma_enter_stops(b, r, c, r2, c2 - 1);
    }
}

/// While a board without clashes is being entered, nothing is turned away:
/// the cells that have been reached hold the board's entries, the others are
/// empty, and the free digits are exact.
proof fn lemma_enter_clean_upto(b: Seq<Seq<u8>>, r: int, c: int)
    requires
        is_board(b),
        entries_in_range(b),
        no_clash(b),
        0 <= r <= 9,
        0 <= c <= 9,
        r == 9 ==> c == 0,
    ensures
        enter(b, r, c) matches Entry::Open(v) && v.wf() && v.exact() && (forall|i: int, j: int|
            in_grid(i, j) ==> #[trigger] v.board[i][j] == (if rank(i, j) < rank(r, c) {
                b[i][j]
            } else {
                0u8
            })),
    decreases r, c,
{
    if r <= 0 && c <= 0 {
        lemma_blank_exact();
    } else if c <= 0 {
        lemma_enter_clean_upto(b, r - 1, 9);
    } else {
        lemma_enter_clean_upto(b, r, c - 1);
        let v = enter(b, r, c - 1)->Open_0;
        let n = b[r][c - 1];
        assert(in_grid(r, c - 1));
        assert(n <= 9);
        assert(v.board[r][c - 1] == 0);
        if n != 0 {
            lemma_clean_entry_allowed(v, b, r, c - 1);
            lemma_place_wf(v, r, c - 1, n);
            lemma_place_exact(v, r, c - 1, n);
            let w = v.place(r, c - 1, n);
            assert forall|i: int, j: int| in_grid(i, j) implies #[trigger] w.board[i][j] == (if i
                == r && j == c - 1 {
                n
            } else {
                v.board[i][j]
            }) by {}
        }
    }
}

/// On a board with exact free digits that holds part of a board without
/// clashes, the next entry of that board is free where it is to go.
proof fn lemma_clean_entry_allowed(v: SudokuView, b: Seq<Seq<u8>>, r: int, c: int)
    requires
        v.exact(),
        no_clash(b),
        in_grid(r, c),
        1 <= b[r][c] <= 9,
        forall|i: int, j: int|
            in_grid(i, j) ==> #[trigger] v.board[i][j] == 0 || v.board[i][j] == b[i][j],
        v.board[r][c] == 0,
    ensures
        v.allows(r, c, b[r][c]),
{
    reveal(SudokuView::exact_rows);
    reveal(SudokuView::exact_cols);
    reveal(SudokuView::exact_zones);
    let n = b[r][c];
    if v.row_holds(r, n) {
        let j = choose|j: int| 0 <= j < 9 && #[trigger] v.board[r][j] == n;
        assert(in_grid(r, j));
        assert(peers(r, c, r, j));
    }
    if v.col_holds(c, n) {
        let i = choose|i: int| 0 <= i < 9 && #[trigger] v.board[i][c] == n;
        assert(in_grid(i, c));
        assert(peers(r, c, i, c));
    }
    if v.zone_holds(r / 3, c / 3, n) {
        let (i, j) = choose|i: int, j: int|
            in_grid(i, j) && i / 3 == r / 3 && j / 3 == c / 3 && #[trigger] v.board[i][j] == n;
        assert(peers(r, c, i, j));
    }
    assert(v.rows[r].contains(n) <==> !v.row_holds(r, n));
    assert(v.cols[c].contains(n) <==> !v.col_holds(c, n));
    assert(v.zones[r / 3][c / 3].contains(n) <==> !v.zone_holds(r / 3, c / 3, n));
}

/// Entering a board of digits and empty cells in which no two peers hold the
/// same digit is accepted to the end, and gives that board.
pub proof fn lemma_enter_clean(b: Seq<Seq<u8>>)
    requires
        is_board(b),
        entries_in_range(b),
        no_clash(b),
    ensures
        enter(b, 9, 0) matches Entry::Open(v) && v.board == b && v.wf() && v.exact(),
{
    lemma_enter_clean_upto(b, 9, 0);
    let v = enter(b, 9, 0)->Open_0;
    assert forall|i: int| 0 <= i < 9 implies v.board[i] =~= b[i] by {
        assert forall|j: int| 0 <= j < 9 implies v.board[i][j] == b[i][j] by {
            assert(in_grid(i, j) && rank(i, j) < rank(9, 0));
        }
    }
    assert(v.board =~= b);
}

} // verus!

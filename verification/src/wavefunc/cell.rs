//! One cell of the grid and its transitions.

use crate::masks::{all_digits, lemma_all_digits};
use crate::paint::{green, green_code, red, red_code, shows};
use crate::text::{decimal, decimal_text, lemma_decimal_plain};
use crate::wavefunc::domain::BitSet;
use vstd::prelude::*;
use vstd::string::StringExecFns;

verus! {

/// What a cell is, as a mathematical value.
pub enum CellView {
    /// The cell is fixed to this digit.
    Known(u8),
    /// The cell is open; these digits have not been excluded.
    Unknown(Set<u8>),
    /// The cell is dead: a digit outside its domain was assigned (and is
    /// remembered), or its domain ran empty.
    Invalid(Option<u8>),
}

impl CellView {
    /// An open cell with every digit possible.
    pub open spec fn fresh() -> CellView {
        CellView::Unknown(all_digits())
    }

    /// A known cell holds a digit; an open cell holds a domain of digits that is
    /// not empty.
    pub open spec fn wf(self) -> bool {
        match self {
            CellView::Known(v) => 1 <= v <= 9,
            CellView::Unknown(d) => d.finite() && d.subset_of(all_digits()) && !d.is_empty(),
            CellView::Invalid(_) => true,
        }
    }

    /// Every cell is valid but an invalid one.
    pub open spec fn is_valid(self) -> bool {
        !(self is Invalid)
    }

    /// The digits the cell may take.
    pub open spec fn candidates(self) -> Set<u8> {
        match self {
            CellView::Known(v) => Set::<u8>::empty().insert(v),
            CellView::Unknown(d) => d,
            CellView::Invalid(_) => Set::<u8>::empty(),
        }
    }

    /// The cell after `v` is assigned to it. An open cell becomes known if `v`
    /// is in its domain and invalid otherwise; any other cell stays as it is.
    pub open spec fn assign(self, v: u8) -> CellView {
        match self {
            CellView::Unknown(d) => if d.contains(v) {
                CellView::Known(v)
            } else {
                CellView::Invalid(Some(v))
            },
            _ => self,
        }
    }

    /// The cell after `v` is excluded from it. An open cell loses `v` from its
    /// domain, and becomes invalid if nothing is left; any other cell stays as
    /// it is.
    pub open spec fn exclude(self, v: u8) -> CellView {
        match self {
            CellView::Unknown(d) => if d.remove(v).is_empty() {
                CellView::Invalid(None)
            } else {
                CellView::Unknown(d.remove(v))
            },
            _ => self,
        }
    }
}

/// Whether `text` is what a cell is shown as: a known digit in green, an open
/// cell as a dash, the digit that killed a cell in red, and a cell whose
/// domain ran empty as a red `X`.
pub open spec fn renders(cell: CellView, text: Seq<char>) -> bool {
    match cell {
        CellView::Known(v) => shows(green_code(), decimal(v as nat), text),
        CellView::Unknown(_) => text == seq!['-'],
        CellView::Invalid(Some(v)) => shows(red_code(), decimal(v as nat), text),
        CellView::Invalid(None) => shows(red_code(), seq!['X'], text),
    }
}

/// One cell of the grid.
#[derive(Copy, Clone, Debug, PartialEq)]
pub enum Cell {
    /// Fixed to a digit.
    Known(u8),
    /// Open, with the digits not yet excluded.
    Unknown(BitSet),
    /// Dead, with the rejected digit if an assignment killed it.
    Invalid(Option<u8>),
}

impl View for Cell {
    type V = CellView;

    open spec fn view(&self) -> CellView {
        match *self {
            Cell::Known(v) => CellView::Known(v),
            Cell::Unknown(d) => CellView::Unknown(d@),
            Cell::Invalid(v) => CellView::Invalid(v),
        }
    }
}

impl Cell {
    /// The domain of an open cell is a well-formed set, and the cell's view is
    /// well formed.
    pub open spec fn wf(&self) -> bool {
        &&& self matches Cell::Unknown(d) ==> d.wf()
        &&& self@.wf()
    }

    /// Whether the cell is anything but invalid.
    pub fn is_valid(&self) -> (r: bool)
        ensures
            r == self@.is_valid(),
    {
        match self {
            Cell::Invalid(_) => false,
            _ => true,
        }
    }

    /// Assigns `val` to the cell.
    pub fn set(&self, val: u8) -> (r: Cell)
        ensures
            r@ == self@.assign(val),
            self.wf() ==> r.wf(),
            !(self is Unknown) ==> r == *self,
    {
        match self {
            Cell::Known(_) => *self,
            Cell::Unknown(values) => {
                proof {
                    values.lemma_digits_only();
                }
                if values.contains(val) {
                    Cell::Known(val)
                } else {
                    Cell::Invalid(Some(val))
                }
            },
            Cell::Invalid(_) => *self,
        }
    }

    /// Excludes `val` from the cell.
    pub fn without(&self, val: u8) -> (r: Cell)
        requires
            self.wf(),
        ensures
            r@ == self@.exclude(val),
            r.wf(),
            !(self is Unknown) ==> r == *self,
    {
        match self {
            Cell::Known(_) => *self,
            Cell::Unknown(values) => {
                let new_values: BitSet = values.remove(val);
                proof {
                    new_values.lemma_digits_only();
                }
                if new_values.is_empty() {
                    Cell::Invalid(None)
                } else {
                    Cell::Unknown(new_values)
                }
            },
            Cell::Invalid(_) => *self,
        }
    }

    /// The digits the cell may take, as a set.
    pub fn possible_values(&self) -> (r: BitSet)
        requires
            self.wf(),
        ensures
            r.wf(),
            r@ == self@.candidates(),
            self matches Cell::Unknown(d) ==> r == d,
    {
        match self {
            Cell::Known(val) => BitSet::from_single(*val),
            Cell::Unknown(values) => *values,
            Cell::Invalid(_) => BitSet::new(),
        }
    }

    /// The domain of a fresh cell: all nine digits.
    pub fn default_values() -> (r: BitSet)
        ensures
            r.wf(),
            r@ == all_digits(),
    {
        BitSet::full()
    }

    /// A fresh open cell.
    pub fn new() -> (r: Cell)
        ensures
            r.wf(),
            r@ == CellView::fresh(),
    {
        proof {
            lemma_all_digits();
            assert(all_digits().contains(1u8));
        }
        Cell::Unknown(Cell::default_values())
    }
}

impl Cell {
    /// The cell as text for a terminal.
    #[allow(clippy::inherent_to_string)]
    pub fn to_string(&self) -> (text: String)
        ensures
            renders(self@, text@),
    {
        proof {
            reveal_strlit("-");
            reveal_strlit("X");
            assert("-"@ =~= seq!['-']);
            assert("X"@ =~= seq!['X']);
        }
        match self {
            Cell::Known(val) => {
                proof {
                    lemma_decimal_plain(*val as nat);
                }
                green(decimal_text(*val as u16).as_str())
            },
            Cell::Unknown(_) => String::from_str("-"),
            Cell::Invalid(Some(val)) => {
                proof {
                    lemma_decimal_plain(*val as nat);
                }
                red(decimal_text(*val as u16).as_str())
            },
            Cell::Invalid(None) => red("X"),
        }
    }
}

} // verus!

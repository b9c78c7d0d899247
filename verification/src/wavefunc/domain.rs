//! The set of digits that a cell may still take.

use crate::masks::{all_digits, digits_of, is_tidy, lemma_all_digits, lemma_digits_bounded,
    lemma_digits_clear, lemma_digits_full, lemma_digits_none, lemma_digits_set,
    lemma_same_digits_same_mask, FULL_MASK};
use vstd::prelude::*;

verus! {

/// A set of digits from 1 to 9, kept as a bit mask together with the number of
/// digits in it.
#[derive(Clone, Copy, Debug, PartialEq)]
pub struct BitSet {
    set: u16,
    size: u8,
}

impl View for BitSet {
    type V = Set<u8>;

    closed spec fn view(&self) -> Set<u8> {
        digits_of(self.set)
    }
}

impl BitSet {
    /// The mask has no stray bit and the cached size is the number of digits.
    pub closed spec fn wf(&self) -> bool {
        &&& is_tidy(self.set)
        &&& self.size == digits_of(self.set).len()
    }

    /// The mask behind the set.
    pub closed spec fn spec_mask(&self) -> u16 {
        self.set
    }

    /// A set holds digits only, so finitely many and nine at most.
    pub proof fn lemma_digits_only(self)
        ensures
            self@.finite(),
            self@.len() <= 9,
            self@.subset_of(all_digits()),
            forall|v: u8| self@.contains(v) ==> 1 <= v <= 9,
            self@ == digits_of(self.spec_mask()),
    {
        lemma_digits_bounded(self.set);
    }

    /// Two well-formed sets that hold the same digits are the same value, so
    /// that `==` on sets is equality of what they hold.
    pub proof fn lemma_same_digits(self, other: BitSet)
        requires
            self.wf(),
            other.wf(),
            self@ == other@,
        ensures
            self == other,
    {
        lemma_same_digits_same_mask(self.set, other.set);
    }

    /// Whether `x` is in the set. Anything but a digit is not.
    pub fn contains(&self, x: u8) -> (r: bool)
        ensures
            r == self@.contains(x),
            !(1 <= x <= 9) ==> !r,
    {
        if x < 1 || x > 9 {
            return false;
        }
        (self.set & (1u16 << (x as u16))) != 0
    }

    /// The set with `x` added. Anything but a digit leaves the set as it is.
    pub fn insert(&self, x: u8) -> (r: BitSet)
        requires
            self.wf(),
        ensures
            r.wf(),
            r@ == (if 1 <= x <= 9 { self@.insert(x) } else { self@ }),
            !(1 <= x <= 9) ==> r == *self,
    {
        if x < 1 || x > 9 {
            return *self;
        }
        proof {
            lemma_digits_set(self.set, x);
            lemma_digits_bounded(self.set);
            lemma_digits_bounded(self.set | (1u16 << (x as u16)));
        }
        let new_size: u8 = if !self.contains(x) {
            self.size + 1
        } else {
            self.size
        };
        assert(digits_of(self.set).contains(x) ==> digits_of(self.set).insert(x) =~= digits_of(
            self.set,
        ));
        BitSet { set: self.set | (1u16 << (x as u16)), size: new_size }
    }

    /// The set with `x` taken out. Anything but a digit leaves the set as it is.
    pub fn remove(&self, x: u8) -> (r: BitSet)
        requires
            self.wf(),
        ensures
            r.wf(),
            r@ == self@.remove(x),
            !(1 <= x <= 9) ==> r == *self,
    {
        if x < 1 || x > 9 {
            assert(digits_of(self.set).remove(x) =~= digits_of(self.set));
            return *self;
        }
        proof {
            lemma_digits_clear(self.set, x);
            lemma_digits_bounded(self.set);
        }
        let new_size: u8 = if self.contains(x) {
            self.size - 1
        } else {
            self.size
        };
        assert(!digits_of(self.set).contains(x) ==> digits_of(self.set).remove(x) =~= digits_of(
            self.set,
        ));
        BitSet { set: self.set & !(1u16 << (x as u16)), size: new_size }
    }

    /// The empty set.
    #[allow(clippy::new_without_default)]
    pub fn new() -> (r: BitSet)
        ensures
            r.wf(),
            r@ == Set::<u8>::empty(),
            r@.len() == 0,
            r.spec_mask() == 0,
    {
        proof {
            lemma_digits_none();
        }
        BitSet { set: 0u16, size: 0u8 }
    }

    /// The set of all nine digits.
    pub fn full() -> (r: BitSet)
        ensures
            r.wf(),
            r@ == all_digits(),
            r@.len() == 9,
            r.spec_mask() == FULL_MASK,
    {
        proof {
            lemma_digits_full();
            lemma_all_digits();
        }
        BitSet { set: FULL_MASK, size: 9u8 }
    }

    /// The set that holds the digit `x` and nothing else.
    pub fn from_single(x: u8) -> (r: BitSet)
        requires
            1 <= x <= 9,
        ensures
            r.wf(),
            r@ == Set::<u8>::empty().insert(x),
            r@.len() == 1,
    {
        let set = BitSet::new();
        set.insert(x)
    }

    /// Whether the set holds no digit.
    pub fn is_empty(&self) -> (r: bool)
        requires
            self.wf(),
        ensures
            r == self@.is_empty(),
            r == (self@.len() == 0),
    {
        proof {
            lemma_digits_bounded(self.set);
            if self@.len() == 0 {
                self@.lemma_len0_is_empty();
            }
        }
        self.size == 0
    }

    /// How many digits the set holds.
    pub fn size(&self) -> (r: u8)
        requires
            self.wf(),
        ensures
            r == self@.len(),
            r <= 9,
    {
        proof {
            lemma_digits_bounded(self.set);
        }
        self.size
    }

    /// The bit mask of the set: bit `v` is set exactly when the digit `v` is in
    /// the set, and no other bit is.
    pub fn mask(&self) -> (r: u16)
        ensures
            r == self.spec_mask(),
            digits_of(r) == self@,
            self.wf() ==> is_tidy(r),
    {
        self.set
    }
}

} // verus!

//! Sets of the digits 1 to 9, packed into the bits 1 to 9 of a `u16`.

use vstd::prelude::*;

verus! {

/// The mask with every digit present.
pub const FULL_MASK: u16 = 0b11_1111_1110;

/// Whether `mask` holds the digit `v`: `v` is one of 1 to 9 and bit `v` is set.
pub open spec fn has_digit(mask: u16, v: u8) -> bool {
    1 <= v <= 9 && (mask & (1u16 << (v as u16))) != 0
}

/// The digits that `mask` holds.
pub open spec fn digits_of(mask: u16) -> Set<u8> {
    Set::new(|v: u8| has_digit(mask, v))
}

/// The nine digits.
pub open spec fn all_digits() -> Set<u8> {
    Set::new(|v: u8| 1 <= v <= 9)
}

/// Whether `mask` has no bit set outside the bits 1 to 9.
pub open spec fn is_tidy(mask: u16) -> bool {
    mask & !FULL_MASK == 0
}

/// The nine digits form a finite set of nine elements.
pub proof fn lemma_all_digits()
    ensures
        all_digits().finite(),
        all_digits().len() == 9,
{
    let s = set![1u8, 2u8, 3u8, 4u8, 5u8, 6u8, 7u8, 8u8, 9u8];
    assert(all_digits() =~= s);
}

/// Whatever a mask holds, it holds finitely many digits, nine at most.
pub proof fn lemma_digits_bounded(mask: u16)
    ensures
        digits_of(mask).finite(),
        digits_of(mask).len() <= 9,
        digits_of(mask).subset_of(all_digits()),
{
    lemma_all_digits();
    vstd::set_lib::lemma_len_subset(digits_of(mask), all_digits());
}

/// The zero mask holds nothing.
pub proof fn lemma_digits_none()
    ensures
        digits_of(0) =~= Set::<u8>::empty(),
        is_tidy(0),
{
    assert(forall|v: u16| (0u16 & (1u16 << v)) == 0) by (bit_vector);
    assert(0u16 & !0b11_1111_1110u16 == 0) by (bit_vector);
}

/// The full mask holds each of the nine digits.
pub proof fn lemma_digits_full()
    ensures
        digits_of(FULL_MASK) =~= all_digits(),
        is_tidy(FULL_MASK),
{
    assert(forall|v: u16| 1 <= v <= 9 ==> (0b11_1111_1110u16 & (1u16 << v)) != 0) by (bit_vector);
    assert(0b11_1111_1110u16 & !0b11_1111_1110u16 == 0) by (bit_vector);
}

/// Setting the bit of a digit adds that digit and nothing else.
pub proof fn lemma_digits_set(mask: u16, x: u8)
    requires
        1 <= x <= 9,
    ensures
        digits_of(mask | (1u16 << (x as u16))) =~= digits_of(mask).insert(x),
        is_tidy(mask) ==> is_tidy(mask | (1u16 << (x as u16))),
{
    let y: u16 = x as u16;
    assert(forall|v: u16|
        0 <= v < 16 ==> (((mask | (1u16 << y)) & (1u16 << v)) != 0 <==> (v == y || (mask & (1u16
            << v)) != 0))) by (bit_vector)
        requires
            1 <= y <= 9,
    ;
    assert(mask & !0b11_1111_1110u16 == 0 ==> (mask | (1u16 << y)) & !0b11_1111_1110u16 == 0)
        by (bit_vector)
        requires
            1 <= y <= 9,
    ;
    assert forall|v: u8| has_digit(mask | (1u16 << y), v) <==> (v == x || has_digit(mask, v)) by {
        let w: u16 = v as u16;
        assert(0 <= w < 16 ==> (((mask | (1u16 << y)) & (1u16 << w)) != 0 <==> (w == y || (mask & (
        1u16 << w)) != 0)));
    }
}

/// Clearing the bit of a digit removes that digit and nothing else.
pub proof fn lemma_digits_clear(mask: u16, x: u8)
    requires
        1 <= x <= 9,
    ensures
        digits_of(mask & !(1u16 << (x as u16))) =~= digits_of(mask).remove(x),
        is_tidy(mask) ==> is_tidy(mask & !(1u16 << (x as u16))),
{
    let y: u16 = x as u16;
    assert(forall|v: u16|
        0 <= v < 16 ==> (((mask & !(1u16 << y)) & (1u16 << v)) != 0 <==> (v != y && (mask & (1u16
            << v)) != 0))) by (bit_vector)
        requires
            1 <= y <= 9,
    ;
    assert(mask & !0b11_1111_1110u16 == 0 ==> (mask & !(1u16 << y)) & !0b11_1111_1110u16 == 0)
        by (bit_vector);
    assert forall|v: u8| has_digit(mask & !(1u16 << y), v) <==> (v != x && has_digit(mask, v)) by {
        let w: u16 = v as u16;
        assert(0 <= w < 16 ==> (((mask & !(1u16 << y)) & (1u16 << w)) != 0 <==> (w != y && (mask
            & (1u16 << w)) != 0)));
    }
}

/// Two masks without stray bits that hold the same digits are the same mask.
pub proof fn lemma_same_digits_same_mask(m1: u16, m2: u16)
    requires
        is_tidy(m1),
        is_tidy(m2),
        digits_of(m1) == digits_of(m2),
    ensures
        m1 == m2,
{
    assert forall|v: u8| has_digit(m1, v) == has_digit(m2, v) by {
        assert(digits_of(m1).contains(v) <==> has_digit(m1, v));
        assert(digits_of(m2).contains(v) <==> has_digit(m2, v));
    }
    assert(has_digit(m1, 1u8) == has_digit(m2, 1u8));
    assert(has_digit(m1, 2u8) == has_digit(m2, 2u8));
    assert(has_digit(m1, 3u8) == has_digit(m2, 3u8));
    assert(has_digit(m1, 4u8) == has_digit(m2, 4u8));
    assert(has_digit(m1, 5u8) == has_digit(m2, 5u8));
    assert(has_digit(m1, 6u8) == has_digit(m2, 6u8));
    assert(has_digit(m1, 7u8) == has_digit(m2, 7u8));
    assert(has_digit(m1, 8u8) == has_digit(m2, 8u8));
    assert(has_digit(m1, 9u8) == has_digit(m2, 9u8));
    assert(m1 == m2) by (bit_vector)
        requires
            m1 & !0b11_1111_1110u16 == 0,
            m2 & !0b11_1111_1110u16 == 0,
            (m1 & (1u16 << 1u16) != 0) == (m2 & (1u16 << 1u16) != 0),
            (m1 & (1u16 << 2u16) != 0) == (m2 & (1u16 << 2u16) != 0),
            (m1 & (1u16 << 3u16) != 0) == (m2 & (1u16 << 3u16) != 0),
            (m1 & (1u16 << 4u16) != 0) == (m2 & (1u16 << 4u16) != 0),
            (m1 & (1u16 << 5u16) != 0) == (m2 & (1u16 << 5u16) != 0),
            (m1 & (1u16 << 6u16) != 0) == (m2 & (1u16 << 6u16) != 0),
            (m1 & (1u16 << 7u16) != 0) == (m2 & (1u16 << 7u16) != 0),
            (m1 & (1u16 << 8u16) != 0) == (m2 & (1u16 << 8u16) != 0),
            (m1 & (1u16 << 9u16) != 0) == (m2 & (1u16 << 9u16) != 0),
    ;
}

} // verus!

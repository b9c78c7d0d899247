//! Reading boards from text.
//!
//! A text holds boards that are two line breaks apart. A board is up to nine
//! lines, a line up to nine numbers with one space between them, and a number
//! is written in decimal. Rows and entries that a board leaves out are 0.

use crate::rules::board_of;
use vstd::prelude::*;

verus! {

/// The byte of a line break.
pub const LINE_BREAK: u8 = 10;

/// The byte of a space.
pub const SPACE: u8 = 32;

/// Whether `b` is the byte of a decimal digit.
pub open spec fn is_digit(b: u8) -> bool {
    48 <= b <= 57
}

/// Whether `s` holds bytes of decimal digits only.
pub open spec fn all_digit_bytes(s: Seq<u8>) -> bool {
    forall|i: int| 0 <= i < s.len() ==> is_digit(#[trigger] s[i])
}

/// The number that the digits `s` spell in decimal.
pub open spec fn digits_value(s: Seq<u8>) -> nat
    decreases s.len(),
{
    if s.len() == 0 {
        0
    } else {
        digits_value(s.drop_last()) * 10 + (s.last() - 48) as nat
    }
}

/// The digits of `s`: all of it but a plus sign in front.
pub open spec fn unsigned_part(s: Seq<u8>) -> Seq<u8> {
    if s.len() > 0 && s[0] == 43 {
        s.skip(1)
    } else {
        s
    }
}

/// The number that `s` spells: one digit or more, with or without a plus sign
/// in front, and no more than 255. Anything else spells no number.
pub open spec fn number(s: Seq<u8>) -> Option<u8> {
    let d = unsigned_part(s);
    if d.len() > 0 && all_digit_bytes(d) && digits_value(d) <= 255 {
        Some(digits_value(d) as u8)
    } else {
        None
    }
}

/// The parts of `s` between the bytes `sep`. There is one part more than
/// there are separators, so a part may be empty.
pub open spec fn fields(s: Seq<u8>, sep: u8) -> Seq<Seq<u8>>
    decreases s.len(),
{
    if s.len() == 0 {
        seq![Seq::<u8>::empty()]
    } else {
        let f = fields(s.drop_last(), sep);
        if s.last() == sep {
            f.push(Seq::<u8>::empty())
        } else {
            f.update(f.len() - 1, f.last().push(s.last()))
        }
    }
}

/// Whether `s` ends in a line break that is not the second of a pair.
pub open spec fn half_break(s: Seq<u8>) -> bool
    decreases s.len(),
{
    s.len() > 0 && s.last() == LINE_BREAK && !half_break(s.drop_last())
}

/// The parts of `s` between pairs of line breaks, the pairs taken from the
/// left: of three line breaks in a row the first two are a pair and the third
/// begins the next part.
pub open spec fn blocks(s: Seq<u8>) -> Seq<Seq<u8>>
    decreases s.len(),
{
    if s.len() == 0 {
        seq![Seq::<u8>::empty()]
    } else {
        let b = blocks(s.drop_last());
        if s.last() == LINE_BREAK && half_break(s.drop_last()) {
            b.update(b.len() - 1, b.last().drop_last()).push(Seq::<u8>::empty())
        } else {
            b.update(b.len() - 1, b.last().push(s.last()))
        }
    }
}

/// The numbers of line `i` of `block`, as they are written.
pub open spec fn line_fields(block: Seq<u8>, i: int) -> Seq<Seq<u8>> {
    fields(fields(block, LINE_BREAK)[i], SPACE)
}

/// Whether `block` spells a board: nine lines at most, nine numbers at most
/// on each, and each of them a number.
pub open spec fn spells_board(block: Seq<u8>) -> bool {
    &&& fields(block, LINE_BREAK).len() <= 9
    &&& forall|i: int|
        0 <= i < fields(block, LINE_BREAK).len() ==> (#[trigger] line_fields(block, i)).len() <= 9
    &&& forall|i: int, j: int|
        0 <= i < fields(block, LINE_BREAK).len() && 0 <= j < line_fields(block, i).len()
            ==> number(#[trigger] line_fields(block, i)[j]) is Some
}

/// The entry at `(i, j)` of the board that `block` spells: the number written
/// there, and 0 where none is written.
pub open spec fn spelled_entry(block: Seq<u8>, i: int, j: int) -> u8 {
    if i < fields(block, LINE_BREAK).len() && j < line_fields(block, i).len() {
        number(line_fields(block, i)[j]).unwrap()
    } else {
        0
    }
}

/// The board that `block` spells.
pub open spec fn spelled_board(block: Seq<u8>) -> Seq<Seq<u8>> {
    Seq::new(9, |i: int| Seq::new(9, |j: int| spelled_entry(block, i, j)))
}

/// The views of the vectors of `parts`.
pub open spec fn views(parts: Seq<Vec<u8>>) -> Seq<Seq<u8>> {
    Seq::new(parts.len(), |k: int| parts[k]@)
}

/// More digits do not spell a smaller number.
pub proof fn lemma_value_grows(s: Seq<u8>, k: int)
    requires
        all_digit_bytes(s),
        0 <= k <= s.len(),
    ensures
        digits_value(s.take(k)) <= digits_value(s),
    decreases s.len(),
{
    if k == s.len() {
        assert(s.take(k) =~= s);
    } else {
        lemma_value_grows(s.drop_last(), k);
        assert(s.drop_last().take(k) =~= s.take(k));
    }
}

/// Every text has a first part, and a text that ends in half a break has
/// that line break at the end of its last part.
pub proof fn lemma_blocks_shape(s: Seq<u8>)
    ensures
        blocks(s).len() >= 1,
        half_break(s) ==> blocks(s).last().len() > 0,
        fields(s, LINE_BREAK).len() >= 1,
        fields(s, SPACE).len() >= 1,
    decreases s.len(),
{
    if s.len() > 0 {
        lemma_blocks_shape(s.drop_last());
    }
}

/// The number that `s` spells, if it spells one.
pub fn parse_number(s: &[u8]) -> (r: Option<u8>)
    ensures
        r == number(s@),
{
    let start: usize = if s.len() > 0 && s[0] == 43 {
        1
    } else {
        0
    };
    let ghost d = unsigned_part(s@);
    if start == s.len() {
        return None;
    }
    let mut acc: u16 = 0;
    let mut i: usize = start;
    assert(d.take(0) =~= Seq::<u8>::empty());
    while i < s.len()
        invariant
            start <= i <= s.len(),
            d == unsigned_part(s@),
            d.len() == s.len() - start,
            forall|k: int| 0 <= k < d.len() ==> d[k] == s@[k + start],
            all_digit_bytes(d.take(i - start)),
            acc == digits_value(d.take(i - start)),
            acc <= 255,
        decreases s.len() - i,
    {
        let b: u8 = s[i];
        if b < 48 || b > 57 {
            proof {
                assert(d[i - start] == b);
            }
            return None;
        }
        acc = acc * 10 + (b - 48) as u16;
        proof {
            let now = d.take(i - start + 1);
            assert(now.drop_last() =~= d.take(i - start));
            assert(now.last() == b);
            assert forall|k: int| 0 <= k < now.len() implies is_digit(#[trigger] now[k]) by {
                if k < i - start {
                    assert(d.take(i - start)[k] == now[k]);
                }
            }
        }
        if acc > 255 {
            proof {
                if all_digit_bytes(d) {
                    lemma_value_grows(d, i - start + 1);
                }
            }
            return None;
        }
        i += 1;
    }
    proof {
        assert(d.take(i - start) =~= d);
    }
    Some(acc as u8)
}

/// The parts of `s` between the bytes `sep`.
pub fn split_fields(s: &[u8], sep: u8) -> (parts: Vec<Vec<u8>>)
    ensures
        views(parts@) == fields(s@, sep),
{
    let mut parts: Vec<Vec<u8>> = Vec::new();
    let mut current: Vec<u8> = Vec::new();
    let mut i: usize = 0;
    assert(s@.take(0) =~= Seq::<u8>::empty());
    assert(views(parts@).push(current@) =~= fields(s@.take(0), sep));
    while i < s.len()
        invariant
            i <= s.len(),
            views(parts@).push(current@) == fields(s@.take(i as int), sep),
        decreases s.len() - i,
    {
        let b: u8 = s[i];
        let ghost before = views(parts@).push(current@);
        proof {
            let now = s@.take(i + 1);
            assert(now.drop_last() =~= s@.take(i as int));
            assert(now.last() == b);
        }
        if b == sep {
            parts.push(current);
            current = Vec::new();
            proof {
                assert(views(parts@) =~= before);
                assert(views(parts@).push(current@) =~= before.push(Seq::<u8>::empty()));
            }
        } else {
            current.push(b);
            proof {
                assert(views(parts@).push(current@) =~= before.update(
                    before.len() - 1,
                    before.last().push(b),
                ));
            }
        }
        i += 1;
    }
    proof {
        assert(s@.take(i as int) =~= s@);
    }
    let ghost before = views(parts@).push(current@);
    parts.push(current);
    proof {
        assert(views(parts@) =~= before);
    }
    parts
}

/// The parts of `s` between pairs of line breaks.
pub fn split_blocks(s: &[u8]) -> (parts: Vec<Vec<u8>>)
    ensures
        views(parts@) == blocks(s@),
{
    let mut parts: Vec<Vec<u8>> = Vec::new();
    let mut current: Vec<u8> = Vec::new();
    let mut pending = false;
    let mut i: usize = 0;
    assert(s@.take(0) =~= Seq::<u8>::empty());
    assert(views(parts@).push(current@) =~= blocks(s@.take(0)));
    while i < s.len()
        invariant
            i <= s.len(),
            views(parts@).push(current@) == blocks(s@.take(i as int)),
            pending == half_break(s@.take(i as int)),
        decreases s.len() - i,
    {
        let b: u8 = s[i];
        let ghost before = views(parts@).push(current@);
        proof {
            let now = s@.take(i + 1);
            assert(now.drop_last() =~= s@.take(i as int));
            assert(now.last() == b);
            lemma_blocks_shape(s@.take(i as int));
            assert(before.last() == current@);
        }
        if b == LINE_BREAK && pending {
            let ghost whole = current@;
            current.pop();
            parts.push(current);
            current = Vec::new();
            pending = false;
            proof {
                assert(views(parts@) =~= before.update(before.len() - 1, whole.drop_last()));
                assert(views(parts@).push(current@) =~= before.update(
                    before.len() - 1,
                    before.last().drop_last(),
                ).push(Seq::<u8>::empty()));
            }
        } else {
            current.push(b);
            pending = b == LINE_BREAK;
            proof {
                assert(views(parts@).push(current@) =~= before.update(
                    before.len() - 1,
                    before.last().push(b),
                ));
            }
        }
        i += 1;
    }
    proof {
        assert(s@.take(i as int) =~= s@);
    }
    let ghost before = views(parts@).push(current@);
    parts.push(current);
    proof {
        assert(views(parts@) =~= before);
    }
    parts
}

/// The board that `block` spells, if it spells one.
pub fn parse_grid(block: &[u8]) -> (r: Option<[[u8; 9]; 9]>)
    ensures
        r is Some == spells_board(block@),
        r matches Some(grid) ==> board_of(grid) == spelled_board(block@),
{
    let lines = split_fields(block, LINE_BREAK);
    let ghost rows = fields(block@, LINE_BREAK);
    if lines.len() > 9 {
        return None;
    }
    let mut grid: [[u8; 9]; 9] = [[0u8;9];9];
    let mut i: usize = 0;
    while i < lines.len()
        invariant
            i <= lines.len() <= 9,
            rows == fields(block@, LINE_BREAK),
            views(lines@) == rows,
            forall|a: int| 0 <= a < i ==> (#[trigger] line_fields(block@, a)).len() <= 9,
            forall|a: int, j: int|
                0 <= a < i && 0 <= j < line_fields(block@, a).len() ==> number(
                    #[trigger] line_fields(block@, a)[j],
                ) is Some,
            forall|a: int, j: int|
                0 <= a < 9 && 0 <= j < 9 ==> #[trigger] grid[a][j] == (if a < i {
                    spelled_entry(block@, a, j)
                } else {
                    0
                }),
        decreases lines.len() - i,
    {
        let entries = split_fields(lines[i].as_slice(), SPACE);
        proof {
            assert(rows[i as int] == lines@[i as int]@);
            assert(views(entries@) == line_fields(block@, i as int));
        }
        if entries.len() > 9 {
            return None;
        }
        let mut j: usize = 0;
        while j < entries.len()
            invariant
                i < lines.len() <= 9,
                j <= entries.len() <= 9,
                rows == fields(block@, LINE_BREAK),
                rows.len() == lines.len(),
                views(entries@) == line_fields(block@, i as int),
                forall|b: int|
                    0 <= b < j ==> number(#[trigger] line_fields(block@, i as int)[b]) is Some,
                forall|a: int, b: int|
                    0 <= a < 9 && 0 <= b < 9 ==> #[trigger] grid[a][b] == (if a < i || (a == i
                        && b < j) {
                        spelled_entry(block@, a, b)
                    } else {
                        0
                    }),
            decreases entries.len() - j,
        {
            proof {
                assert(line_fields(block@, i as int)[j as int] == entries@[j as int]@);
            }
            match parse_number(entries[j].as_slice()) {
                Some(v) => {
                    grid[i][j] = v;
                },
                None => {
                    return None;
                },
            }
            j += 1;
        }
        i += 1;
    }
    proof {
        assert forall|a: int| 0 <= a < 9 implies board_of(grid)[a] =~= spelled_board(block@)[a] by {
            assert forall|b: int| 0 <= b < 9 implies board_of(grid)[a][b] == spelled_board(
                block@,
            )[a][b] by {
                assert(grid[a][b] == spelled_entry(block@, a, b));
            }
        }
        assert(board_of(grid) =~= spelled_board(block@));
    }
    Some(grid)
}

/// The boards that `text` spells, in their order, if every part of it
/// between pairs of line breaks spells a board.
pub fn parse_grids(text: &[u8]) -> (r: Option<Vec<[[u8; 9]; 9]>>)
    ensures
        r is Some == (forall|k: int|
            0 <= k < blocks(text@).len() ==> spells_board(#[trigger] blocks(text@)[k])),
        r matches Some(grids) ==> {
            &&& grids.len() == blocks(text@).len()
            &&& forall|k: int|
                0 <= k < grids.len() ==> board_of(#[trigger] grids[k]) == spelled_board(
                    blocks(text@)[k],
                )
        },
{
    let parts = split_blocks(text);
    let mut grids: Vec<[[u8; 9]; 9]> = Vec::new();
    let mut k: usize = 0;
    while k < parts.len()
        invariant
            k <= parts.len(),
            views(parts@) == blocks(text@),
            grids.len() == k,
            forall|n: int| 0 <= n < k ==> spells_board(#[trigger] blocks(text@)[n]),
            forall|n: int|
                0 <= n < k ==> board_of(#[trigger] grids[n]) == spelled_board(blocks(text@)[n]),
        decreases parts.len() - k,
    {
        proof {
            assert(blocks(text@)[k as int] == parts@[k as int]@);
        }
        match parse_grid(parts[k].as_slice()) {
            Some(grid) => {
                grids.push(grid);
            },
            None => {
                return None;
            },
        }
        k += 1;
    }
    Some(grids)
}

} // verus!

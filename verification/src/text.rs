//! Text for numbers and for the nine-by-nine layout of a grid.

use crate::rules::board_of;
use vstd::prelude::*;
use vstd::string::StringExecFns;

verus! {

/// The character of the decimal digit `d`.
pub open spec fn digit_char(d: int) -> char {
    if d == 0 {
        '0'
    } else if d == 1 {
        '1'
    } else if d == 2 {
        '2'
    } else if d == 3 {
        '3'
    } else if d == 4 {
        '4'
    } else if d == 5 {
        '5'
    } else if d == 6 {
        '6'
    } else if d == 7 {
        '7'
    } else if d == 8 {
        '8'
    } else {
        '9'
    }
}

/// The number `n` written in decimal, without leading zeros.
pub open spec fn decimal(n: nat) -> Seq<char>
    decreases n,
{
    if n < 10 {
        seq![digit_char(n as int)]
    } else {
        decimal(n / 10).push(digit_char((n % 10) as int))
    }
}

/// The text of a grid whose cells, row by row, have the texts `cells`, up to
/// cell `k`: every cell is followed by a space, every third cell of a row by
/// one more, every row by a line break, and every third row by one more.
pub open spec fn layout_upto(cells: Seq<Seq<char>>, k: int) -> Seq<char>
    decreases k,
{
    if k <= 0 {
        Seq::<char>::empty()
    } else {
        let col = (k - 1) % 9;
        let row = (k - 1) / 9;
        let cell = layout_upto(cells, k - 1) + cells[k - 1] + seq![' '];
        let spaced = if col % 3 == 2 {
            cell.push(' ')
        } else {
            cell
        };
        let ended = if col == 8 {
            spaced.push('\n')
        } else {
            spaced
        };
        if col == 8 && row % 3 == 2 {
            ended.push('\n')
        } else {
            ended
        }
    }
}

/// The text of a grid whose cells, row by row, have the texts `cells`.
pub open spec fn layout(cells: Seq<Seq<char>>) -> Seq<char> {
    layout_upto(cells, cells.len() as int)
}

/// The views of the strings of `cells`.
pub open spec fn texts_of(cells: Seq<String>) -> Seq<Seq<char>> {
    Seq::new(cells.len(), |k: int| cells[k]@)
}

/// The decimal digit `d` as a string.
pub fn digit_text(d: u16) -> (s: &'static str)
    requires
        d <= 9,
    ensures
        s@ == seq![digit_char(d as int)],
{
    proof {
        reveal_strlit("0");
        reveal_strlit("1");
        reveal_strlit("2");
        reveal_strlit("3");
        reveal_strlit("4");
        reveal_strlit("5");
        reveal_strlit("6");
        reveal_strlit("7");
        reveal_strlit("8");
        reveal_strlit("9");
    }
    let s = if d == 0 {
        "0"
    } else if d == 1 {
        "1"
    } else if d == 2 {
        "2"
    } else if d == 3 {
        "3"
    } else if d == 4 {
        "4"
    } else if d == 5 {
        "5"
    } else if d == 6 {
        "6"
    } else if d == 7 {
        "7"
    } else if d == 8 {
        "8"
    } else {
        "9"
    };
    assert(s@ =~= seq![digit_char(d as int)]);
    s
}

/// The number `n` written in decimal.
pub fn decimal_text(n: u16) -> (s: String)
    ensures
        s@ == decimal(n as nat),
    decreases n,
{
    if n < 10 {
        String::from_str(digit_text(n))
    } else {
        let mut s = decimal_text(n / 10);
        s.append(digit_text(n % 10));
        assert(s@ =~= decimal(n as nat));
        s
    }
}

/// Lays the texts of the cells of a grid out in rows, three by three.
pub fn lay_out(cells: &Vec<String>) -> (s: String)
    ensures
        s@ == layout(texts_of(cells@)),
{
    let ghost texts = texts_of(cells@);
    let mut s = String::new();
    let mut k: usize = 0;
    proof {
        reveal_strlit(" ");
        reveal_strlit("\n");
    }
    while k < cells.len()
        invariant
            k <= cells.len(),
            texts == texts_of(cells@),
            " "@ == seq![' '],
            "\n"@ == seq!['\n'],
            s@ == layout_upto(texts, k as int),
        decreases cells.len() - k,
    {
        let col: usize = k % 9;
        let row: usize = k / 9;
        let ghost before = s@;
        s.append(cells[k].as_str());
        s.append(" ");
        if col % 3 == 2 {
            s.append(" ");
        }
        if col == 8 {
            s.append("\n");
            if row % 3 == 2 {
                s.append("\n");
            }
        }
        proof {
            assert(texts[k as int] == cells@[k as int]@);
            let cell = before + texts[k as int] + seq![' '];
            assert(cell.push(' ') =~= cell + seq![' ']);
            assert(cell.push('\n') =~= cell + seq!['\n']);
            assert(cell.push(' ').push('\n') =~= cell + seq![' '] + seq!['\n']);
            assert(cell.push('\n').push('\n') =~= cell + seq!['\n'] + seq!['\n']);
            assert(cell.push(' ').push('\n').push('\n') =~= cell + seq![' '] + seq!['\n']
                + seq!['\n']);
            assert(s@ =~= layout_upto(texts, k as int + 1));
        }
        k += 1;
    }
    s
}

/// A number in decimal holds digits only, so no escape character.
pub proof fn lemma_decimal_plain(n: nat)
    ensures
        crate::paint::is_plain(decimal(n)),
    decreases n,
{
    if n >= 10 {
        lemma_decimal_plain(n / 10);
    }
}

/// The texts of the entries of a board, row by row, each in decimal.
pub open spec fn entry_texts(b: Seq<Seq<u8>>) -> Seq<Seq<char>> {
    Seq::new(81, |k: int| decimal(b[k / 9][k % 9] as nat))
}

/// The board `grid` as text: the entries in rows, three by three.
pub fn board_text(grid: &[[u8; 9]; 9]) -> (text: String)
    ensures
        text@ == layout(entry_texts(board_of(*grid))),
{
    let ghost b = board_of(*grid);
    let mut cells: Vec<String> = Vec::new();
    let mut r: usize = 0;
    while r < 9
        invariant
            r <= 9,
            b == board_of(*grid),
            cells.len() == 9 * r,
            forall|k: int| 0 <= k < cells.len() ==> (#[trigger] cells[k])@ == entry_texts(b)[k],
        decreases 9 - r,
    {
        let mut c: usize = 0;
        while c < 9
            invariant
                r < 9,
                c <= 9,
                b == board_of(*grid),
                cells.len() == 9 * r + c,
                forall|k: int|
                    0 <= k < cells.len() ==> (#[trigger] cells[k])@ == entry_texts(b)[k],
            decreases 9 - c,
        {
            proof {
                assert(b[r as int][c as int] == grid[r as int][c as int]);
            }
            cells.push(decimal_text(grid[r][c] as u16));
            c += 1;
        }
        r += 1;
    }
    let text = lay_out(&cells);
    proof {
        assert(texts_of(cells@) =~= entry_texts(b));
    }
    text
}

} // verus!

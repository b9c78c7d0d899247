//! Colour and style for text on a terminal.
//!
//! Whether a text is coloured at all is decided outside this library, by
//! variables of the process and by the terminal. So each function here says
//! what the two possible results are, not which of them comes.

use colored::Colorize;
use vstd::prelude::*;

verus! {

/// Whether `s` holds no escape character.
pub open spec fn is_plain(s: Seq<char>) -> bool {
    forall|i: int| 0 <= i < s.len() ==> s[i] != '\x1B'
}

/// The text `s` between the escape sequence that switches the style `code` on
/// and the one that resets every style.
pub open spec fn styled(code: Seq<char>, s: Seq<char>) -> Seq<char> {
    seq!['\x1B', '['] + code + seq!['m'] + s + seq!['\x1B', '[', '0', 'm']
}

/// Whether `text` shows `s` in the style `code`: as it is where colours are
/// off, between the escape sequences where they are on.
pub open spec fn shows(code: Seq<char>, s: Seq<char>, text: Seq<char>) -> bool {
    text == s || text == styled(code, s)
}

/// The code of green letters.
pub open spec fn green_code() -> Seq<char> {
    seq!['3', '2']
}

/// The code of red letters.
pub open spec fn red_code() -> Seq<char> {
    seq!['3', '1']
}

/// The code of swapped colours.
pub open spec fn reversed_code() -> Seq<char> {
    seq!['7']
}

/// `s` in green letters, by `colored::Colorize::green` and the `Display` of
/// the `ColoredString` it gives. A text without an escape character comes back
/// as it is, or between `ESC [ 3 2 m` and `ESC [ 0 m`. Of a text with an
/// escape character nothing is claimed.
#[verifier::external_body]
pub(crate) fn green(s: &str) -> (text: String)
    ensures
        is_plain(s@) ==> shows(green_code(), s@, text@),
{
    Colorize::green(s).to_string()
}

/// `s` in red letters, by `colored::Colorize::red` and the `Display` of the
/// `ColoredString` it gives. A text without an escape character comes back as
/// it is, or between `ESC [ 3 1 m` and `ESC [ 0 m`. Of a text with an escape
/// character nothing is claimed.
#[verifier::external_body]
pub(crate) fn red(s: &str) -> (text: String)
    ensures
        is_plain(s@) ==> shows(red_code(), s@, text@),
{
    Colorize::red(s).to_string()
}

/// `s` with swapped colours, by `colored::Colorize::reversed` and the
/// `Display` of the `ColoredString` it gives. A text without an escape
/// character comes back as it is, or between `ESC [ 7 m` and `ESC [ 0 m`. Of
/// a text with an escape character nothing is claimed.
#[verifier::external_body]
pub(crate) fn reversed(s: &str) -> (text: String)
    ensures
        is_plain(s@) ==> shows(reversed_code(), s@, text@),
{
    Colorize::reversed(s).to_string()
}

/// `s` without any style, by `colored::Colorize::normal` and the `Display` of
/// the `ColoredString` it gives, which writes a text without colour and style
/// as it is.
#[verifier::external_body]
pub(crate) fn normal(s: &str) -> (text: String)
    ensures
        text@ == s@,
{
    Colorize::normal(s).to_string()
}

} // verus!

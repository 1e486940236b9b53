//! Colors for terminals.

use vstd::prelude::*;

verus! {

/// A text between the escape sequences that turn the color with the given number on and reset it.
pub open spec fn colored(number: Seq<char>, text: Seq<char>) -> Seq<char> {
    seq!['\u{1b}', '['] + number + seq!['m'] + text + seq!['\u{1b}', '[', '0', 'm']
}

/// What a painted text can look like: whether color is on is a switch of the process.
pub open spec fn painted(number: Seq<char>, text: Seq<char>, result: Seq<char>) -> bool {
    result == text || result == colored(number, text)
}

/// `yansi::Paint::red`, displayed: the text in red while styling is on, and the bare text while it
/// is off. Which of the two is left open.
#[verifier::external_body]
pub(crate) fn red(text: &str) -> (r: String)
    ensures
        painted(seq!['3', '1'], text@, r@),
{
    yansi::Paint::red(text).to_string()
}

/// `yansi::Paint::yellow`, displayed: the text in yellow while styling is on, and the bare text
/// while it is off. Which of the two is left open.
#[verifier::external_body]
pub(crate) fn yellow(text: &str) -> (r: String)
    ensures
        painted(seq!['3', '3'], text@, r@),
{
    yansi::Paint::yellow(text).to_string()
}

/// `yansi::Paint::green`, displayed: the text in green while styling is on, and the bare text while
/// it is off. Which of the two is left open.
#[verifier::external_body]
pub(crate) fn green(text: &str) -> (r: String)
    ensures
        painted(seq!['3', '2'], text@, r@),
{
    yansi::Paint::green(text).to_string()
}

} // verus!

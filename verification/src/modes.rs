//! Mode keywords.
//!
//! The line and word splitters each take a mode selected by a keyword at
//! the call boundary.  An unrecognized keyword is a caller error: parsing
//! returns `None` for it, and for nothing else.

use vstd::prelude::*;
use vstd::string::StrSliceExecFns;
use crate::lines::LineMode;
use crate::segment::WordMode;

verus! {

/// Whether two text slices hold the same characters.
fn str_eq(a: &str, b: &str) -> (r: bool)
    ensures
        r == (a@ == b@),
{
    let n = a.unicode_len();
    let m = b.unicode_len();
    if n != m {
        return false;
    }
    let mut j: usize = 0;
    while j < n
        invariant
            0 <= j <= n,
            n == a@.len(),
            n == b@.len(),
            forall|t: int| 0 <= t < j ==> a@[t] == b@[t],
        decreases n - j,
    {
        if a.get_char(j) != b.get_char(j) {
            return false;
        }
        j = j + 1;
    }
    proof {
        assert(a@ =~= b@);
    }
    true
}

/// The line mode selected by a keyword: `no-terminator` strips terminators,
/// `with-terminator` and `terminator` keep them; anything else is no mode.
pub open spec fn line_mode_of(kw: Seq<char>) -> Option<LineMode> {
    if kw == "no-terminator"@ {
        Some(LineMode::NoTerminator)
    } else if kw == "with-terminator"@ || kw == "terminator"@ {
        Some(LineMode::WithTerminator)
    } else {
        None
    }
}

/// Parses a line-mode keyword; `None` exactly for an unrecognized keyword.
pub fn parse_line_mode(mode: &str) -> (r: Option<LineMode>)
    ensures
        r == line_mode_of(mode@),
{
    if str_eq(mode, "no-terminator") {
        Some(LineMode::NoTerminator)
    } else if str_eq(mode, "with-terminator") || str_eq(mode, "terminator") {
        Some(LineMode::WithTerminator)
    } else {
        None
    }
}

/// The word mode selected by a keyword: `no-breaks` keeps word tokens only,
/// `with-breaks` and `breaks` keep every segment; anything else is no mode.
pub open spec fn word_mode_of(kw: Seq<char>) -> Option<WordMode> {
    if kw == "no-breaks"@ {
        Some(WordMode::NoBreaks)
    } else if kw == "with-breaks"@ || kw == "breaks"@ {
        Some(WordMode::WithBreaks)
    } else {
        None
    }
}

/// Parses a word-mode keyword; `None` exactly for an unrecognized keyword.
pub fn parse_word_mode(mode: &str) -> (r: Option<WordMode>)
    ensures
        r == word_mode_of(mode@),
{
    if str_eq(mode, "no-breaks") {
        Some(WordMode::NoBreaks)
    } else if str_eq(mode, "with-breaks") || str_eq(mode, "breaks") {
        Some(WordMode::WithBreaks)
    } else {
        None
    }
}

} // verus!

//! Source positions and the cursor arithmetic behind them.
//!
//! A `Location` is a snapshot of the cursor after some prefix of the
//! input has been consumed.  Consuming a character always advances the
//! absolute offset by one; a line break additionally bumps the line
//! counter and resets the column to zero.  The spec functions here give
//! the canonical value of the cursor after `i` consumed characters, so
//! that every position the parser emits can be stated as a pure
//! function of the input text.

use vstd::prelude::*;

verus! {

/// A point in the source text: zero-based line, column and absolute
/// character offset.
#[derive(Copy, Clone, Debug, PartialEq, Default)]
pub struct Location {
    pub line: usize,
    pub column: usize,
    pub index: usize,
}

/// How many line breaks occur among the first `i` characters of `s`.
pub open spec fn line_at(s: Seq<char>, i: int) -> int
    decreases i,
{
    if i <= 0 {
        0
    } else {
        line_at(s, i - 1) + if s[i - 1] == '\n' {
            1int
        } else {
            0int
        }
    }
}

/// Offset of the first character of the line that offset `i` lies on:
/// one past the last line break among the first `i` characters, or zero
/// when there is none.
pub open spec fn line_start_at(s: Seq<char>, i: int) -> int
    decreases i,
{
    if i <= 0 {
        0
    } else if s[i - 1] == '\n' {
        i
    } else {
        line_start_at(s, i - 1)
    }
}

/// The cursor value after the first `i` characters of `s` have been
/// consumed: the column is the distance from the start of the current
/// line.
pub open spec fn loc_at(s: Seq<char>, i: int) -> Location
    recommends
        0 <= i,
{
    Location {
        line: line_at(s, i) as usize,
        column: (i - line_start_at(s, i)) as usize,
        index: i as usize,
    }
}

/// Both counters that make up a position are bounded by the offset
/// itself, so none of them can outgrow the machine word that holds the
/// input length.
pub proof fn lemma_loc_counters_bounded(s: Seq<char>, i: int)
    requires
        0 <= i,
    ensures
        0 <= line_at(s, i) <= i,
        0 <= line_start_at(s, i) <= i,
    decreases i,
{
    if i > 0 {
        lemma_loc_counters_bounded(s, i - 1);
    }
}

/// Any position reached after a line break reports a line of at least
/// one, and a column counted from the character that follows the most
/// recent line break.
pub proof fn lemma_position_after_newline(s: Seq<char>, j: int, i: int)
    requires
        0 <= j < i <= s.len(),
        i <= usize::MAX,
        s[j] == '\n',
    ensures
        loc_at(s, i).line >= 1,
        line_start_at(s, i) >= j + 1,
        loc_at(s, i).column <= i - j - 1,
    decreases i,
{
    lemma_loc_counters_bounded(s, i);
    lemma_loc_counters_bounded(s, i - 1);
    if j < i - 1 {
        lemma_position_after_newline(s, j, i - 1);
    }
}

/// Advances the cursor across the single character `s[i]`.
pub(crate) fn advance(s: &Vec<char>, i: usize, loc: Location) -> (r: Location)
    requires
        i < s@.len(),
        loc == loc_at(s@, i as int),
    ensures
        r == loc_at(s@, i + 1),
{
    let n = s.len();
    proof {
        lemma_loc_counters_bounded(s@, i as int);
        assert(line_at(s@, i as int) < n);
        assert(i - line_start_at(s@, i as int) < n);
    }
    if s[i] == '\n' {
        Location { line: loc.line + 1, column: 0, index: loc.index + 1 }
    } else {
        Location { line: loc.line, column: loc.column + 1, index: loc.index + 1 }
    }
}

} // verus!

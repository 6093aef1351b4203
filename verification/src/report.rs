//! Recovering the offending source line of a failed parse.
//!
//! Given the source text, an error can point at the single line that
//! contains its offset, trimmed of surrounding whitespace, for
//! contextual display.

use vstd::prelude::*;
use crate::pos::line_start_at;
use crate::ast::Error;
use crate::scan::is_ws;
use crate::scan::chars_vec;
use crate::scan::chars_to_string;

verus! {

/// The offset of the line break that ends the line offset `i` lies on,
/// or the input length when the line runs to the end of the input.
pub open spec fn next_newline(s: Seq<char>, i: int) -> int
    recommends
        0 <= i <= s.len(),
    decreases s.len() - i,
{
    if i < 0 || i >= s.len() {
        s.len() as int
    } else if s[i] == '\n' {
        i
    } else {
        next_newline(s, i + 1)
    }
}

/// The first offset in `[from, to)` holding a significant character,
/// or `to` when the whole range is whitespace.
pub open spec fn first_sig(s: Seq<char>, from: int, to: int) -> int
    recommends
        0 <= from <= to <= s.len(),
    decreases to - from,
{
    if from >= to {
        to
    } else if is_ws(s[from]) {
        first_sig(s, from + 1, to)
    } else {
        from
    }
}

/// One past the last offset in `[from, to)` holding a significant
/// character, or `from` when the whole range is whitespace.
pub open spec fn last_sig(s: Seq<char>, from: int, to: int) -> int
    recommends
        0 <= from <= to <= s.len(),
    decreases to - from,
{
    if to <= from {
        from
    } else if is_ws(s[to - 1]) {
        last_sig(s, from, to - 1)
    } else {
        to
    }
}

/// The range `[from, to)` with leading and trailing whitespace
/// removed.
pub open spec fn trim_range(s: Seq<char>, from: int, to: int) -> Seq<char>
    recommends
        0 <= from <= to <= s.len(),
{
    let a = first_sig(s, from, to);
    let b = last_sig(s, from, to);
    if a <= b {
        s.subrange(a, b)
    } else {
        Seq::empty()
    }
}

/// The trimmed source line containing offset `idx`, or nothing when
/// the offset lies at or beyond the end of the source.
pub open spec fn spec_error_line(s: Seq<char>, idx: int) -> Option<Seq<char>> {
    if 0 <= idx < s.len() {
        Some(trim_range(s, line_start_at(s, idx), next_newline(s, idx)))
    } else {
        None
    }
}

/// The executable counterpart of `first_sig`.
fn find_first_sig(s: &Vec<char>, from: usize, to: usize) -> (a: usize)
    requires
        from <= to <= s@.len(),
    ensures
        a == first_sig(s@, from as int, to as int),
        from <= a <= to,
    decreases to - from,
{
    if from >= to {
        return to;
    }
    let c = s[from];
    if c == ' ' || c == '\t' || c == '\r' || c == '\n' {
        find_first_sig(s, from + 1, to)
    } else {
        from
    }
}

/// The executable counterpart of `last_sig`.
fn find_last_sig(s: &Vec<char>, from: usize, to: usize) -> (b: usize)
    requires
        from <= to <= s@.len(),
    ensures
        b == last_sig(s@, from as int, to as int),
        from <= b <= to,
    decreases to - from,
{
    if to <= from {
        return from;
    }
    let c = s[to - 1];
    if c == ' ' || c == '\t' || c == '\r' || c == '\n' {
        find_last_sig(s, from, to - 1)
    } else {
        to
    }
}

/// The executable counterpart of `next_newline`.
fn find_next_newline(s: &Vec<char>, i: usize) -> (j: usize)
    requires
        i <= s@.len(),
    ensures
        j == next_newline(s@, i as int),
        i <= j <= s@.len(),
    decreases s@.len() - i,
{
    let n = s.len();
    if i >= n {
        return n;
    }
    if s[i] == '\n' {
        i
    } else {
        find_next_newline(s, i + 1)
    }
}

impl Error {
    /// The source line containing this error's offset, trimmed of
    /// surrounding whitespace, or nothing when the offset lies at or
    /// beyond the end of the source.
    pub fn error_line(&self, source: &str) -> (r: Option<String>)
        ensures
            match (r, spec_error_line(source@, self.loc.index as int)) {
                (Some(t), Some(m)) => t@ == m,
                (None, None) => true,
                _ => false,
            },
    {
        let v = chars_vec(source);
        let n = v.len();
        let idx = self.loc.index;
        if idx >= n {
            return None;
        }
        let mut ls: usize = 0;
        let mut k: usize = 0;
        while k < idx
            invariant
                k <= idx < n,
                n == v@.len(),
                ls == line_start_at(v@, k as int),
                ls <= k,
            decreases idx - k,
        {
            if v[k] == '\n' {
                ls = k + 1;
            }
            k += 1;
        }
        let le = find_next_newline(&v, idx);
        let a = find_first_sig(&v, ls, le);
        let b = find_last_sig(&v, ls, le);
        if a <= b {
            Some(chars_to_string(&v, a, b))
        } else {
            Some(String::new())
        }
    }
}

} // verus!

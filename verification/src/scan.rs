//! The node scanner, specified and implemented.
//!
//! The grammar is stated once, as a family of recursive spec functions
//! over the input character sequence and an absolute offset, and the
//! executable scanner is proved to return exactly what those functions
//! say.  A successful scan yields the shape of the node together with
//! the offset just past its last consumed character; a failed scan
//! yields the fault and the position that caused it.

use vstd::prelude::*;
use vstd::string::StrSliceExecFns;
use crate::pos::{Location, loc_at, advance};
use crate::ast::{
    Node,
    Object,
    Error,
    File,
    ObjectParseError,
    node_end,
    view_nodes,
    lemma_view_nodes_push,
};

verus! {

/// The characters that are skipped between nodes.
pub open spec fn is_ws(c: char) -> bool {
    c == ' ' || c == '\t' || c == '\r' || c == '\n'
}

/// The characters that end an identifier or number token.
pub open spec fn is_terminator(c: char) -> bool {
    c == '(' || c == ')' || c == '"' || is_ws(c)
}

/// An ASCII digit.
pub open spec fn is_digit(c: char) -> bool {
    48 <= c as u32 && c as u32 <= 57
}

/// A character that may continue a number after its first character.
pub open spec fn is_number_cont(c: char) -> bool {
    is_digit(c) || c == '_' || c == '.'
}

/// The offset of the first terminator at or after `i`, or the input
/// length when the token runs to the end of the input.
pub open spec fn token_end(s: Seq<char>, i: int) -> int
    recommends
        0 <= i <= s.len(),
    decreases s.len() - i,
{
    if i < 0 || i >= s.len() {
        s.len() as int
    } else if is_terminator(s[i]) {
        i
    } else {
        token_end(s, i + 1)
    }
}

/// Whether the token spanning `[start, stop)` reads as a number: after
/// an optional leading `-` (which must be followed by something), every
/// character is a digit, `_` or `.`.  A token that fails this reads as
/// an identifier instead.
pub open spec fn is_number_token(s: Seq<char>, start: int, stop: int) -> bool
    recommends
        0 <= start < stop <= s.len(),
{
    &&& (is_digit(s[start]) || s[start] == '-')
    &&& (s[start] == '-' ==> stop > start + 1)
    &&& forall|k: int| start < k < stop ==> is_number_cont(#[trigger] s[k])
}

/// Scans exactly one node starting at offset `i`, skipping whitespace
/// and line comments first.  Returns the node's shape and the offset
/// just past it, or the first fault met.
pub open spec fn scan_at(s: Seq<char>, i: int) -> Result<(Node, int), Error>
    recommends
        0 <= i <= s.len(),
    decreases s.len() - i, 0int,
{
    if i < 0 || i >= s.len() {
        Err(Error { loc: loc_at(s, i), err: ObjectParseError::NoData })
    } else {
        let c = s[i];
        if is_ws(c) {
            scan_at(s, i + 1)
        } else if c == ';' {
            scan_comment_at(s, i + 1)
        } else if c == '(' {
            scan_list_at(s, i + 1, Seq::empty(), i)
        } else if c == ')' {
            Err(Error { loc: loc_at(s, i), err: ObjectParseError::ExtraClosingParen })
        } else if c == '"' {
            scan_string_at(s, i + 1, Seq::empty(), false, i)
        } else {
            let stop = token_end(s, i + 1);
            let text = s.subrange(i, stop);
            if is_number_token(s, i, stop) {
                Ok((Node::Number(loc_at(s, i), text, loc_at(s, stop)), stop))
            } else {
                Ok((Node::Ident(loc_at(s, i), text, loc_at(s, stop)), stop))
            }
        }
    }
}

/// Inside a line comment: everything up to and including the next line
/// break is consumed, then scanning resumes.
pub open spec fn scan_comment_at(s: Seq<char>, i: int) -> Result<(Node, int), Error>
    recommends
        0 <= i <= s.len(),
    decreases s.len() - i, 0int,
{
    if i < 0 || i >= s.len() {
        Err(Error { loc: loc_at(s, i), err: ObjectParseError::NoData })
    } else if s[i] == '\n' {
        scan_at(s, i + 1)
    } else {
        scan_comment_at(s, i + 1)
    }
}

/// Inside a list whose `(` sits at offset `start`, with the shapes
/// accumulated so far: whitespace is skipped, `)` closes the list, the
/// end of the input is a fault, and anything else is scanned as one
/// child node.
pub open spec fn scan_list_at(s: Seq<char>, i: int, acc: Seq<Node>, start: int) -> Result<
    (Node, int),
    Error,
>
    recommends
        0 <= start < i <= s.len(),
    decreases s.len() - i, 1int,
{
    if i < 0 || i >= s.len() {
        Err(Error { loc: loc_at(s, i), err: ObjectParseError::NoClosingParen })
    } else if s[i] == ')' {
        Ok((Node::List(loc_at(s, start), acc, loc_at(s, i + 1)), i + 1))
    } else if is_ws(s[i]) {
        scan_list_at(s, i + 1, acc, start)
    } else {
        match scan_at(s, i) {
            Ok((node, j)) => if i < j <= s.len() {
                scan_list_at(s, j, acc.push(node), start)
            } else {
                // never reached: a successful scan always advances
                Err(Error { loc: loc_at(s, i), err: ObjectParseError::NoData })
            },
            Err(e) => Err(e),
        }
    }
}

/// Inside a string literal whose `"` sits at offset `start`, with the
/// resolved text accumulated so far and the escape flag.  An escaped
/// `n`, `r` or `0` resolves to the control character it names; an
/// escaped `t` stays a literal `t`, matching the behaviour this reader
/// commits to; every other escaped character, and every unescaped
/// character but `\` and `"`, is appended as written.  Reaching the end
/// of the input without the closing quote is reported as
/// `NoClosingParen`, the kind this reader commits to for an
/// unterminated string.
pub open spec fn scan_string_at(
    s: Seq<char>,
    i: int,
    text: Seq<char>,
    escape: bool,
    start: int,
) -> Result<(Node, int), Error>
    recommends
        0 <= start < i <= s.len(),
    decreases s.len() - i, 0int,
{
    if i < 0 || i >= s.len() {
        Err(Error { loc: loc_at(s, i), err: ObjectParseError::NoClosingParen })
    } else {
        let c = s[i];
        if c == '\\' && !escape {
            scan_string_at(s, i + 1, text, true, start)
        } else if escape {
            let d = if c == 'n' {
                '\n'
            } else if c == 'r' {
                '\r'
            } else if c == '0' {
                '\0'
            } else {
                c
            };
            scan_string_at(s, i + 1, text.push(d), false, start)
        } else if c == '"' {
            Ok((Node::Str(loc_at(s, start), text, loc_at(s, i + 1)), i + 1))
        } else {
            scan_string_at(s, i + 1, text.push(c), false, start)
        }
    }
}

/// Scans the whole buffer from offset `i`: node after node until the
/// input is exhausted.  Running out of significant characters is the
/// normal end of a file, not a fault; any other fault aborts the parse.
pub open spec fn file_at(s: Seq<char>, i: int) -> Result<Seq<Node>, Error>
    recommends
        0 <= i <= s.len(),
    decreases s.len() - i, 2int,
{
    if i < 0 || i >= s.len() {
        Ok(Seq::empty())
    } else {
        match scan_at(s, i) {
            Ok((node, j)) => if i < j <= s.len() {
                match file_at(s, j) {
                    Ok(rest) => Ok(seq![node] + rest),
                    Err(e) => Err(e),
                }
            } else {
                // never reached: a successful scan always advances
                Err(Error { loc: loc_at(s, i), err: ObjectParseError::NoData })
            },
            Err(e) => if e.err == ObjectParseError::NoData {
                Ok(Seq::empty())
            } else {
                Err(e)
            },
        }
    }
}

/// A successful scan consumes at least one character and never runs
/// past the end of the input.
pub proof fn lemma_scan_advances(s: Seq<char>, i: int)
    requires
        0 <= i <= s.len(),
    ensures
        scan_at(s, i) matches Ok((n, j)) ==> i < j <= s.len(),
    decreases s.len() - i, 0int,
{
    if i < s.len() {
        let c = s[i];
        if is_ws(c) {
            lemma_scan_advances(s, i + 1);
        } else if c == ';' {
            lemma_comment_advances(s, i + 1);
        } else if c == '(' {
            lemma_list_advances(s, i + 1, Seq::empty(), i);
        } else if c == ')' {
        } else if c == '"' {
            lemma_string_advances(s, i + 1, Seq::empty(), false, i);
        } else {
            lemma_token_end_bounds(s, i + 1);
        }
    }
}

pub proof fn lemma_comment_advances(s: Seq<char>, i: int)
    requires
        0 <= i <= s.len(),
    ensures
        scan_comment_at(s, i) matches Ok((n, j)) ==> i < j <= s.len(),
    decreases s.len() - i, 0int,
{
    if i < s.len() {
        if s[i] == '\n' {
            lemma_scan_advances(s, i + 1);
        } else {
            lemma_comment_advances(s, i + 1);
        }
    }
}

pub proof fn lemma_list_advances(s: Seq<char>, i: int, acc: Seq<Node>, start: int)
    requires
        0 <= i <= s.len(),
    ensures
        scan_list_at(s, i, acc, start) matches Ok((n, j)) ==> i < j <= s.len(),
    decreases s.len() - i, 1int,
{
    if i < s.len() && s[i] != ')' {
        if is_ws(s[i]) {
            lemma_list_advances(s, i + 1, acc, start);
        } else {
            lemma_scan_advances(s, i);
            if let Ok((node, j)) = scan_at(s, i) {
                lemma_list_advances(s, j, acc.push(node), start);
            }
        }
    }
}

pub proof fn lemma_string_advances(s: Seq<char>, i: int, text: Seq<char>, escape: bool, start: int)
    requires
        0 <= i <= s.len(),
    ensures
        scan_string_at(s, i, text, escape, start) matches Ok((n, j)) ==> i < j <= s.len(),
    decreases s.len() - i, 0int,
{
    if i < s.len() {
        let c = s[i];
        if c == '\\' && !escape {
            lemma_string_advances(s, i + 1, text, true, start);
        } else if escape {
            let d = if c == 'n' {
                '\n'
            } else if c == 'r' {
                '\r'
            } else if c == '0' {
                '\0'
            } else {
                c
            };
            lemma_string_advances(s, i + 1, text.push(d), false, start);
        } else if c != '"' {
            lemma_string_advances(s, i + 1, text.push(c), false, start);
        }
    }
}

/// A token never ends before its first character nor after the input.
pub proof fn lemma_token_end_bounds(s: Seq<char>, i: int)
    requires
        0 <= i <= s.len(),
    ensures
        i <= token_end(s, i) <= s.len(),
    decreases s.len() - i,
{
    if i < s.len() && !is_terminator(s[i]) {
        lemma_token_end_bounds(s, i + 1);
    }
}

/// The position a node records as its end is exactly the cursor at the
/// offset where the scan stopped; in particular, scanning from the
/// start of a buffer, the recorded end offset equals the number of
/// characters consumed.
pub proof fn lemma_scan_end_position(s: Seq<char>, i: int)
    requires
        0 <= i <= s.len(),
    ensures
        scan_at(s, i) matches Ok((n, j)) ==> crate::ast::node_end(n) == loc_at(s, j),
    decreases s.len() - i, 0int,
{
    if i < s.len() {
        let c = s[i];
        if is_ws(c) {
            lemma_scan_end_position(s, i + 1);
        } else if c == ';' {
            lemma_comment_end_position(s, i + 1);
        } else if c == '(' {
            lemma_list_end_position(s, i + 1, Seq::empty(), i);
        } else if c == ')' {
        } else if c == '"' {
            lemma_string_end_position(s, i + 1, Seq::empty(), false, i);
        }
    }
}

pub proof fn lemma_comment_end_position(s: Seq<char>, i: int)
    requires
        0 <= i <= s.len(),
    ensures
        scan_comment_at(s, i) matches Ok((n, j)) ==> crate::ast::node_end(n) == loc_at(s, j),
    decreases s.len() - i, 0int,
{
    if i < s.len() {
        if s[i] == '\n' {
            lemma_scan_end_position(s, i + 1);
        } else {
            lemma_comment_end_position(s, i + 1);
        }
    }
}

pub proof fn lemma_list_end_position(s: Seq<char>, i: int, acc: Seq<Node>, start: int)
    requires
        0 <= i <= s.len(),
    ensures
        scan_list_at(s, i, acc, start) matches Ok((n, j)) ==> crate::ast::node_end(n) == loc_at(
            s,
            j,
        ),
    decreases s.len() - i, 1int,
{
    if i < s.len() && s[i] != ')' {
        if is_ws(s[i]) {
            lemma_list_end_position(s, i + 1, acc, start);
        } else {
            lemma_scan_advances(s, i);
            if let Ok((node, j)) = scan_at(s, i) {
                lemma_list_end_position(s, j, acc.push(node), start);
            }
        }
    }
}

pub proof fn lemma_string_end_position(
    s: Seq<char>,
    i: int,
    text: Seq<char>,
    escape: bool,
    start: int,
)
    requires
        0 <= i <= s.len(),
    ensures
        scan_string_at(s, i, text, escape, start) matches Ok((n, j)) ==> crate::ast::node_end(n)
            == loc_at(s, j),
    decreases s.len() - i, 0int,
{
    if i < s.len() {
        let c = s[i];
        if c == '\\' && !escape {
            lemma_string_end_position(s, i + 1, text, true, start);
        } else if escape {
            let d = if c == 'n' {
                '\n'
            } else if c == 'r' {
                '\r'
            } else if c == '0' {
                '\0'
            } else {
                c
            };
            lemma_string_end_position(s, i + 1, text.push(d), false, start);
        } else if c != '"' {
            lemma_string_end_position(s, i + 1, text.push(c), false, start);
        }
    }
}

/// What the executable scanner must return: exactly the shape, stop
/// offset and cursor that the specification functions compute.
pub open spec fn scan_result_matches(
    r: Result<(Object, usize, Location), Error>,
    m: Result<(Node, int), Error>,
    s: Seq<char>,
) -> bool {
    match (r, m) {
        (Ok((o, j, l)), Ok((n, jm))) => o@ == n && j == jm && l == loc_at(s, jm),
        (Err(e), Err(em)) => e == em,
        _ => false,
    }
}

/// Relies on String::push: appends the given character to the end of
/// the string.
#[verifier::external_body]
pub(crate) fn push_char(s: &mut String, c: char)
    ensures
        final(s)@ == old(s)@.push(c),
{
    s.push(c);
}

/// The characters of a text buffer, one by one.
pub(crate) fn chars_vec(s: &str) -> (v: Vec<char>)
    ensures
        v@ == s@,
{
    let n = s.unicode_len();
    let mut v: Vec<char> = Vec::new();
    let mut k: usize = 0;
    while k < n
        invariant
            n == s@.len(),
            k <= n,
            v@ == s@.subrange(0, k as int),
        decreases n - k,
    {
        let c = s.get_char(k);
        v.push(c);
        proof {
            assert(s@.subrange(0, k + 1) =~= s@.subrange(0, k as int).push(s@[k as int]));
        }
        k += 1;
    }
    proof {
        assert(v@ =~= s@);
    }
    v
}

/// One owned copy of the characters in `[from, to)`.
pub(crate) fn chars_to_string(s: &Vec<char>, from: usize, to: usize) -> (r: String)
    requires
        from <= to <= s@.len(),
    ensures
        r@ == s@.subrange(from as int, to as int),
{
    let mut r = String::new();
    let mut k = from;
    while k < to
        invariant
            from <= k <= to <= s@.len(),
            r@ == s@.subrange(from as int, k as int),
        decreases to - k,
    {
        push_char(&mut r, s[k]);
        proof {
            assert(s@.subrange(from as int, k + 1) =~= s@.subrange(from as int, k as int).push(
                s@[k as int],
            ));
        }
        k += 1;
    }
    r
}

/// Walks the cursor forward from offset `i` to offset `j`.
fn advance_to(s: &Vec<char>, i: usize, loc: Location, j: usize) -> (r: Location)
    requires
        i <= j <= s@.len(),
        loc == loc_at(s@, i as int),
    ensures
        r == loc_at(s@, j as int),
    decreases j - i,
{
    if i >= j {
        loc
    } else {
        let loc2 = advance(s, i, loc);
        advance_to(s, i + 1, loc2, j)
    }
}

/// Finds where the token that is running at offset `i` stops.
fn find_token_end(s: &Vec<char>, i: usize) -> (j: usize)
    requires
        i <= s@.len(),
    ensures
        j == token_end(s@, i as int),
        i <= j <= s@.len(),
    decreases s@.len() - i,
{
    let n = s.len();
    if i >= n {
        return n;
    }
    let c = s[i];
    if c == '(' || c == ')' || c == '"' || c == ' ' || c == '\t' || c == '\r' || c == '\n' {
        i
    } else {
        find_token_end(s, i + 1)
    }
}

/// Decides whether the token spanning `[start, stop)` reads as a
/// number.
fn check_number(s: &Vec<char>, start: usize, stop: usize) -> (b: bool)
    requires
        start < stop <= s@.len(),
    ensures
        b == is_number_token(s@, start as int, stop as int),
{
    let c0 = s[start];
    let u0 = c0 as u32;
    if !((48 <= u0 && u0 <= 57) || c0 == '-') {
        return false;
    }
    if c0 == '-' && stop == start + 1 {
        return false;
    }
    let mut k = start + 1;
    while k < stop
        invariant
            start < k <= stop <= s@.len(),
            forall|m: int| start < m < k ==> is_number_cont(#[trigger] s@[m]),
            is_digit(s@[start as int]) || s@[start as int] == '-',
            s@[start as int] == '-' ==> stop > start + 1,
        decreases stop - k,
    {
        let c = s[k];
        let u = c as u32;
        if !((48 <= u && u <= 57) || c == '_' || c == '.') {
            return false;
        }
        k += 1;
    }
    true
}

/// Scans one node starting at offset `i`; the executable counterpart
/// of `scan_at`.
fn scan(s: &Vec<char>, i: usize, loc: Location) -> (r: Result<(Object, usize, Location), Error>)
    requires
        i <= s@.len(),
        loc == loc_at(s@, i as int),
    ensures
        scan_result_matches(r, scan_at(s@, i as int), s@),
    decreases s@.len() - i, 0int,
{
    let n = s.len();
    if i >= n {
        return Err(Error { loc, err: ObjectParseError::NoData });
    }
    let c = s[i];
    if c == ' ' || c == '\t' || c == '\r' || c == '\n' {
        let loc2 = advance(s, i, loc);
        scan(s, i + 1, loc2)
    } else if c == ';' {
        let loc2 = advance(s, i, loc);
        scan_comment(s, i + 1, loc2)
    } else if c == '(' {
        let loc2 = advance(s, i, loc);
        scan_list(s, i + 1, loc2, Vec::new(), loc, Ghost(i as int))
    } else if c == ')' {
        Err(Error { loc, err: ObjectParseError::ExtraClosingParen })
    } else if c == '"' {
        let loc2 = advance(s, i, loc);
        scan_string(s, i + 1, loc2, String::new(), false, loc, Ghost(i as int))
    } else {
        let stop = find_token_end(s, i + 1);
        let text = chars_to_string(s, i, stop);
        let end_loc = advance_to(s, i, loc, stop);
        if check_number(s, i, stop) {
            Ok((Object::Number(loc, text, end_loc), stop, end_loc))
        } else {
            Ok((Object::Ident(loc, text, end_loc), stop, end_loc))
        }
    }
}

/// Consumes a line comment, then scans on; the executable counterpart
/// of `scan_comment_at`.
fn scan_comment(s: &Vec<char>, i: usize, loc: Location) -> (r: Result<
    (Object, usize, Location),
    Error,
>)
    requires
        i <= s@.len(),
        loc == loc_at(s@, i as int),
    ensures
        scan_result_matches(r, scan_comment_at(s@, i as int), s@),
    decreases s@.len() - i, 0int,
{
    let n = s.len();
    if i >= n {
        return Err(Error { loc, err: ObjectParseError::NoData });
    }
    let c = s[i];
    let loc2 = advance(s, i, loc);
    if c == '\n' {
        scan(s, i + 1, loc2)
    } else {
        scan_comment(s, i + 1, loc2)
    }
}

/// Collects the children of a list; the executable counterpart of
/// `scan_list_at`.
fn scan_list(
    s: &Vec<char>,
    i: usize,
    loc: Location,
    items: Vec<Object>,
    start_loc: Location,
    start: Ghost<int>,
) -> (r: Result<(Object, usize, Location), Error>)
    requires
        i <= s@.len(),
        loc == loc_at(s@, i as int),
        0 <= start@ < i,
        start_loc == loc_at(s@, start@),
    ensures
        scan_result_matches(r, scan_list_at(s@, i as int, view_nodes(items@), start@), s@),
    decreases s@.len() - i, 1int,
{
    let n = s.len();
    if i >= n {
        return Err(Error { loc, err: ObjectParseError::NoClosingParen });
    }
    let c = s[i];
    if c == ')' {
        let loc2 = advance(s, i, loc);
        Ok((Object::List(start_loc, items, loc2), i + 1, loc2))
    } else if c == ' ' || c == '\t' || c == '\r' || c == '\n' {
        let loc2 = advance(s, i, loc);
        scan_list(s, i + 1, loc2, items, start_loc, start)
    } else {
        let ghost items_before = items@;
        match scan(s, i, loc) {
            Ok((obj, j, loc2)) => {
                proof {
                    lemma_scan_advances(s@, i as int);
                }
                let mut items2 = items;
                items2.push(obj);
                proof {
                    lemma_view_nodes_push(items_before, obj);
                }
                scan_list(s, j, loc2, items2, start_loc, start)
            },
            Err(e) => Err(e),
        }
    }
}

/// Resolves the body of a string literal; the executable counterpart
/// of `scan_string_at`.
fn scan_string(
    s: &Vec<char>,
    i: usize,
    loc: Location,
    text: String,
    escape: bool,
    start_loc: Location,
    start: Ghost<int>,
) -> (r: Result<(Object, usize, Location), Error>)
    requires
        i <= s@.len(),
        loc == loc_at(s@, i as int),
        0 <= start@ < i,
        start_loc == loc_at(s@, start@),
    ensures
        scan_result_matches(r, scan_string_at(s@, i as int, text@, escape, start@), s@),
    decreases s@.len() - i, 0int,
{
    let n = s.len();
    if i >= n {
        return Err(Error { loc, err: ObjectParseError::NoClosingParen });
    }
    let c = s[i];
    let loc2 = advance(s, i, loc);
    if c == '\\' && !escape {
        scan_string(s, i + 1, loc2, text, true, start_loc, start)
    } else if escape {
        let d = if c == 'n' {
            '\n'
        } else if c == 'r' {
            '\r'
        } else if c == '0' {
            '\0'
        } else {
            c
        };
        let mut t = text;
        push_char(&mut t, d);
        scan_string(s, i + 1, loc2, t, false, start_loc, start)
    } else if c == '"' {
        Ok((Object::String(start_loc, text, loc2), i + 1, loc2))
    } else {
        let mut t = text;
        push_char(&mut t, c);
        scan_string(s, i + 1, loc2, t, false, start_loc, start)
    }
}

impl Object {
    /// Parses the minimum amount of text needed to produce one node.
    /// On success the node is returned together with the number of
    /// characters consumed, which equals the node's recorded end
    /// offset; on failure the fault and its position are returned, as
    /// `scan_at` says.
    pub fn from_str(s: &str) -> (r: Result<(Object, usize), Error>)
        ensures
            match (r, scan_at(s@, 0)) {
                (Ok((o, count)), Ok((m, j))) => o@ == m && count == j,
                (Err(e), Err(em)) => e == em,
                _ => false,
            },
            r matches Ok((o, count)) ==> node_end(o@).index == count,
    {
        let v = chars_vec(s);
        let loc0 = Location { line: 0, column: 0, index: 0 };
        proof {
            assert(loc0 == loc_at(s@, 0));
            lemma_scan_end_position(s@, 0);
            lemma_scan_advances(s@, 0);
        }
        match scan(&v, 0, loc0) {
            Ok((o, j, _)) => Ok((o, j)),
            Err(e) => Err(e),
        }
    }
}

impl File {
    /// Parses a whole buffer into its ordered top-level nodes, as
    /// `file_at` says: running out of significant characters ends the
    /// file, and any other fault aborts the parse.
    pub fn parse_file(contents: &str) -> (r: Result<File, Error>)
        ensures
            match (r, file_at(contents@, 0)) {
                (Ok(f), Ok(models)) => f@ == models,
                (Err(e), Err(em)) => e == em,
                _ => false,
            },
    {
        let ghost s = contents@;
        let v = chars_vec(contents);
        let n = v.len();
        let mut items: Vec<Object> = Vec::new();
        let mut i: usize = 0;
        let mut loc = Location { line: 0, column: 0, index: 0 };
        proof {
            assert(loc == loc_at(s, 0));
            assert(view_nodes(items@) + Seq::<Node>::empty() =~= view_nodes(items@));
        }
        while i < n
            invariant
                s == contents@,
                i <= n,
                n == s.len(),
                v@ == s,
                loc == loc_at(s, i as int),
                match file_at(s, i as int) {
                    Ok(rest) => file_at(s, 0) == Ok::<Seq<Node>, Error>(
                        view_nodes(items@) + rest,
                    ),
                    Err(e) => file_at(s, 0) == Err::<Seq<Node>, Error>(e),
                },
            decreases n - i,
        {
            let ghost items_before = items@;
            match scan(&v, i, loc) {
                Ok((obj, j, loc2)) => {
                    proof {
                        lemma_scan_advances(s, i as int);
                        lemma_view_nodes_push(items_before, obj);
                        if let Ok(rest2) = file_at(s, j as int) {
                            assert(view_nodes(items_before) + (seq![obj@] + rest2)
                                =~= view_nodes(items_before).push(obj@) + rest2);
                        }
                    }
                    items.push(obj);
                    i = j;
                    loc = loc2;
                },
                Err(e) => {
                    if matches!(e.err, ObjectParseError::NoData) {
                        proof {
                            assert(view_nodes(items@) + Seq::<Node>::empty() =~= view_nodes(
                                items@,
                            ));
                        }
                        return Ok(File { items });
                    } else {
                        return Err(e);
                    }
                },
            }
        }
        proof {
            assert(view_nodes(items@) + Seq::<Node>::empty() =~= view_nodes(items@));
        }
        Ok(File { items })
    }
}

} // verus!

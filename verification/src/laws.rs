//! General properties of the scanner, stated and proved once for all
//! inputs.

use vstd::prelude::*;
use crate::pos::loc_at;
use crate::ast::{Node, Error, node_start, node_end};
use crate::scan::{
    is_ws,
    is_terminator,
    is_digit,
    is_number_cont,
    is_number_token,
    token_end,
    scan_at,
    scan_comment_at,
    scan_list_at,
    scan_string_at,
};
use crate::render::{escape_text, escape_char, render, render_tail, spaces};

verus! {

/// Where a token is known to stop: no terminator before `j`, and a
/// terminator or the end of the input at `j`.
pub proof fn lemma_token_end_region(s: Seq<char>, i: int, j: int)
    requires
        0 <= i <= j <= s.len(),
        forall|k: int| i <= k < j ==> !is_terminator(#[trigger] s[k]),
        j == s.len() || is_terminator(s[j]),
    ensures
        token_end(s, i) == j,
    decreases j - i,
{
    if i < j {
        lemma_token_end_region(s, i + 1, j);
    }
}

/// No character before a token's stop offset is a terminator.
pub proof fn lemma_token_no_terminators(s: Seq<char>, i: int)
    requires
        0 <= i <= s.len(),
    ensures
        forall|k: int| i <= k < token_end(s, i) ==> !is_terminator(#[trigger] s[k]),
    decreases s.len() - i,
{
    if i < s.len() && !is_terminator(s[i]) {
        lemma_token_no_terminators(s, i + 1);
    }
}

/// A standalone text that reads as one number token: after an optional
/// leading `-` (which must be followed by something), every character
/// is a digit, `_` or `.`.
pub open spec fn is_number_text(t: Seq<char>) -> bool {
    &&& t.len() > 0
    &&& (is_digit(t[0]) || t[0] == '-')
    &&& (t[0] == '-' ==> t.len() >= 2)
    &&& forall|k: int| 1 <= k < t.len() ==> is_number_cont(#[trigger] t[k])
}

/// The token test over a region of the input agrees with the
/// standalone test over the token's text.
pub proof fn lemma_number_token_text(s: Seq<char>, start: int, stop: int)
    requires
        0 <= start < stop <= s.len(),
    ensures
        is_number_token(s, start, stop) == is_number_text(s.subrange(start, stop)),
{
    let t = s.subrange(start, stop);
    assert(t[0] == s[start]);
    if is_number_token(s, start, stop) {
        assert forall|k: int| 1 <= k < t.len() implies is_number_cont(#[trigger] t[k]) by {
            assert(t[k] == s[start + k]);
        }
    }
    if is_number_text(t) {
        assert forall|k: int| start < k < stop implies is_number_cont(#[trigger] s[k]) by {
            assert(s[k] == t[k - start]);
        }
    }
}

/// A buffer holding one number token — a run of digits, possibly
/// signed and with inner `_` or `.` — parses to exactly one Number
/// node carrying that text, consuming the whole buffer.
pub proof fn lemma_single_number_token(s: Seq<char>)
    requires
        s.len() <= usize::MAX,
        forall|k: int| 0 <= k < s.len() ==> !is_terminator(#[trigger] s[k]),
        is_number_text(s),
    ensures
        scan_at(s, 0) == Ok::<(Node, int), Error>(
            (Node::Number(loc_at(s, 0), s, loc_at(s, s.len() as int)), s.len() as int),
        ),
{
    lemma_token_end_region(s, 1, s.len() as int);
    assert(s.subrange(0, s.len() as int) =~= s);
    lemma_number_token_text(s, 0, s.len() as int);
}

/// A buffer holding one bare word — no terminators, not starting a
/// comment, not reading as a number — parses to exactly one Ident node
/// carrying that text, consuming the whole buffer.
pub proof fn lemma_single_ident_token(s: Seq<char>)
    requires
        0 < s.len() <= usize::MAX,
        forall|k: int| 0 <= k < s.len() ==> !is_terminator(#[trigger] s[k]),
        s[0] != ';',
        !is_number_text(s),
    ensures
        scan_at(s, 0) == Ok::<(Node, int), Error>(
            (Node::Ident(loc_at(s, 0), s, loc_at(s, s.len() as int)), s.len() as int),
        ),
{
    lemma_token_end_region(s, 1, s.len() as int);
    assert(s.subrange(0, s.len() as int) =~= s);
    lemma_number_token_text(s, 0, s.len() as int);
}

/// What the scanner guarantees of every node it produces: leaf texts
/// have exactly the shape that lets them read back as the same kind of
/// token, and list children satisfy the same guarantee.
pub open spec fn node_wf(n: Node) -> bool
    decreases n, 1int,
{
    match n {
        Node::List(_, items, _) => items_wf(items),
        Node::Str(_, _, _) => true,
        Node::Ident(_, t, _) => {
            &&& t.len() > 0
            &&& forall|k: int| 0 <= k < t.len() ==> !is_terminator(#[trigger] t[k])
            &&& t[0] != ';'
            &&& !is_number_text(t)
        },
        Node::Number(_, t, _) => {
            &&& forall|k: int| 0 <= k < t.len() ==> !is_terminator(#[trigger] t[k])
            &&& t[0] != ';'
            &&& is_number_text(t)
        },
    }
}

/// Every node of a sequence is well-formed.
pub open spec fn items_wf(items: Seq<Node>) -> bool
    decreases items, 0int,
{
    if items.len() == 0 {
        true
    } else {
        node_wf(items[0]) && items_wf(items.drop_first())
    }
}

pub proof fn lemma_items_wf_push(items: Seq<Node>, x: Node)
    requires
        items_wf(items),
        node_wf(x),
    ensures
        items_wf(items.push(x)),
    decreases items.len(),
{
    if items.len() == 0 {
        assert(items.push(x)[0] == x);
        assert(items.push(x).drop_first() =~= Seq::<Node>::empty());
        assert(items_wf(Seq::<Node>::empty()));
    } else {
        lemma_items_wf_push(items.drop_first(), x);
        assert(items.push(x)[0] == items[0]);
        assert(items.push(x).drop_first() =~= items.drop_first().push(x));
    }
}

/// Every node the scanner yields is well-formed.
pub proof fn lemma_scan_wf(s: Seq<char>, i: int)
    requires
        0 <= i <= s.len(),
    ensures
        scan_at(s, i) matches Ok((n, j)) ==> node_wf(n),
    decreases s.len() - i, 0int,
{
    if i < s.len() {
        let c = s[i];
        if is_ws(c) {
            lemma_scan_wf(s, i + 1);
        } else if c == ';' {
            lemma_comment_wf(s, i + 1);
        } else if c == '(' {
            lemma_list_wf(s, i + 1, Seq::empty(), i);
        } else if c == ')' {
        } else if c == '"' {
            lemma_string_wf(s, i + 1, Seq::empty(), false, i);
        } else {
            let stop = token_end(s, i + 1);
            crate::scan::lemma_token_end_bounds(s, i + 1);
            lemma_token_no_terminators(s, i + 1);
            let t = s.subrange(i, stop);
            assert(t[0] == s[i]);
            assert forall|k: int| 0 <= k < t.len() implies !is_terminator(#[trigger] t[k]) by {
                assert(t[k] == s[i + k]);
            }
            lemma_number_token_text(s, i, stop);
        }
    }
}

pub proof fn lemma_comment_wf(s: Seq<char>, i: int)
    requires
        0 <= i <= s.len(),
    ensures
        scan_comment_at(s, i) matches Ok((n, j)) ==> node_wf(n),
    decreases s.len() - i, 0int,
{
    if i < s.len() {
        if s[i] == '\n' {
            lemma_scan_wf(s, i + 1);
        } else {
            lemma_comment_wf(s, i + 1);
        }
    }
}

pub proof fn lemma_list_wf(s: Seq<char>, i: int, acc: Seq<Node>, start: int)
    requires
        0 <= i <= s.len(),
        items_wf(acc),
    ensures
        scan_list_at(s, i, acc, start) matches Ok((n, j)) ==> node_wf(n),
    decreases s.len() - i, 1int,
{
    if i < s.len() && s[i] != ')' {
        if is_ws(s[i]) {
            lemma_list_wf(s, i + 1, acc, start);
        } else {
            crate::scan::lemma_scan_advances(s, i);
            lemma_scan_wf(s, i);
            if let Ok((node, j)) = scan_at(s, i) {
                lemma_items_wf_push(acc, node);
                lemma_list_wf(s, j, acc.push(node), start);
            }
        }
    }
}

pub proof fn lemma_string_wf(s: Seq<char>, i: int, text: Seq<char>, escape: bool, start: int)
    requires
        0 <= i <= s.len(),
    ensures
        scan_string_at(s, i, text, escape, start) matches Ok((n, j)) ==> node_wf(n),
    decreases s.len() - i, 0int,
{
    if i < s.len() {
        let c = s[i];
        if c == '\\' && !escape {
            lemma_string_wf(s, i + 1, text, true, start);
        } else if escape {
            let d = if c == 'n' {
                '\n'
            } else if c == 'r' {
                '\r'
            } else if c == '0' {
                '\0'
            } else {
                c
            };
            lemma_string_wf(s, i + 1, text.push(d), false, start);
        } else if c != '"' {
            lemma_string_wf(s, i + 1, text.push(c), false, start);
        }
    }
}

/// Scanning a properly escaped string body followed by the closing
/// quote resolves it back to the unescaped text: what `escape_text`
/// writes, the scanner reads.
pub proof fn lemma_scan_escaped(s: Seq<char>, i: int, start: int, t: Seq<char>, acc: Seq<char>)
    requires
        0 <= start < i,
        i + escape_text(t).len() + 1 <= s.len(),
        s.subrange(i, i + escape_text(t).len()) == escape_text(t),
        s[i + escape_text(t).len()] == '"',
    ensures
        scan_string_at(s, i, acc, false, start) == Ok::<(Node, int), Error>(
            (
                Node::Str(loc_at(s, start), acc + t, loc_at(s, i + escape_text(t).len() + 1)),
                i + escape_text(t).len() + 1,
            ),
        ),
    decreases t.len(),
{
    let et = escape_text(t);
    if t.len() == 0 {
        assert(et.len() == 0);
        assert(s[i] == '"');
        assert(acc + t =~= acc);
    } else {
        let c = t[0];
        let rest = t.drop_first();
        let er = escape_text(rest);
        assert(et == escape_char(c) + er);
        if c == '"' || c == '\\' || c == '\n' || c == '\r' || c == '\0' {
            let e = if c == '"' {
                '"'
            } else if c == '\\' {
                '\\'
            } else if c == '\n' {
                'n'
            } else if c == '\r' {
                'r'
            } else {
                '0'
            };
            assert(escape_char(c) == seq!['\\', e]);
            assert(s[i] == et[0]);
            assert(s[i] == '\\');
            assert(s[i + 1] == et[1]);
            assert(s[i + 1] == e);
            assert(s.subrange(i + 2, i + 2 + er.len()) =~= et.subrange(2, et.len() as int));
            assert(et.subrange(2, et.len() as int) =~= er);
            lemma_scan_escaped(s, i + 2, start, rest, acc.push(c));
            assert(acc.push(c) + rest =~= acc + t);
            assert(scan_string_at(s, i, acc, false, start) == scan_string_at(
                s,
                i + 1,
                acc,
                true,
                start,
            ));
        } else {
            assert(escape_char(c) == seq![c]);
            assert(s[i] == et[0]);
            assert(s[i] == c);
            assert(s.subrange(i + 1, i + 1 + er.len()) =~= et.subrange(1, et.len() as int));
            assert(et.subrange(1, et.len() as int) =~= er);
            lemma_scan_escaped(s, i + 1, start, rest, acc.push(c));
            assert(acc.push(c) + rest =~= acc + t);
        }
    }
}

/// A buffer holding one quoted, properly escaped string literal parses
/// to exactly one String node carrying the unescaped text, consuming
/// the whole buffer including both quotes.
pub proof fn lemma_single_string_token(s: Seq<char>, t: Seq<char>)
    requires
        s.len() <= usize::MAX,
        s =~= seq!['"'] + escape_text(t) + seq!['"'],
    ensures
        scan_at(s, 0) == Ok::<(Node, int), Error>(
            (Node::Str(loc_at(s, 0), t, loc_at(s, s.len() as int)), s.len() as int),
        ),
{
    let et = escape_text(t);
    assert(s[0] == '"');
    assert(s.subrange(1, 1 + et.len() as int) =~= et);
    assert(s[1 + et.len() as int] == '"');
    lemma_scan_escaped(s, 1, 0, t, Seq::empty());
    assert(Seq::<char>::empty() + t =~= t);
    assert(s.len() == et.len() + 2);
}

/// Sibling nodes never overlap: each child starts no earlier than the
/// previous one ended.
pub open spec fn siblings_ordered(items: Seq<Node>) -> bool {
    forall|k: int|
        0 <= k < items.len() - 1 ==> (#[trigger] node_end(items[k])).index <= node_start(
            items[k + 1],
        ).index
}

/// Every node in a sequence ends at or before offset `i`.
pub open spec fn ends_below(items: Seq<Node>, i: int) -> bool {
    forall|k: int| 0 <= k < items.len() ==> (#[trigger] node_end(items[k])).index <= i
}

/// The span invariant of the data model: every node starts no later
/// than it ends, and the children of every list stand in source order
/// without overlapping.
pub open spec fn spans_wf(n: Node) -> bool
    decreases n, 1int,
{
    match n {
        Node::List(a, items, b) => a.index <= b.index && siblings_ordered(items)
            && items_spans_wf(items),
        Node::Str(a, _, b) => a.index <= b.index,
        Node::Ident(a, _, b) => a.index <= b.index,
        Node::Number(a, _, b) => a.index <= b.index,
    }
}

/// The span invariant, over every node of a sequence.
pub open spec fn items_spans_wf(items: Seq<Node>) -> bool
    decreases items, 0int,
{
    if items.len() == 0 {
        true
    } else {
        spans_wf(items[0]) && items_spans_wf(items.drop_first())
    }
}

pub proof fn lemma_items_spans_wf_push(items: Seq<Node>, x: Node)
    requires
        items_spans_wf(items),
        spans_wf(x),
    ensures
        items_spans_wf(items.push(x)),
    decreases items.len(),
{
    if items.len() == 0 {
        assert(items.push(x)[0] == x);
        assert(items.push(x).drop_first() =~= Seq::<Node>::empty());
        assert(items_spans_wf(Seq::<Node>::empty()));
    } else {
        lemma_items_spans_wf_push(items.drop_first(), x);
        assert(items.push(x)[0] == items[0]);
        assert(items.push(x).drop_first() =~= items.drop_first().push(x));
    }
}

/// Every node the scanner yields satisfies the span invariant, begins
/// at or after the offset the scan started at, and records as its end
/// exactly the offset where the scan stopped.
pub proof fn lemma_scan_spans(s: Seq<char>, i: int)
    requires
        0 <= i <= s.len() <= usize::MAX,
    ensures
        scan_at(s, i) matches Ok((n, j)) ==> i < j <= s.len() && i <= node_start(n).index
            && node_end(n).index == j && spans_wf(n),
    decreases s.len() - i, 0int,
{
    if i < s.len() {
        let c = s[i];
        if is_ws(c) {
            lemma_scan_spans(s, i + 1);
        } else if c == ';' {
            lemma_comment_spans(s, i + 1);
        } else if c == '(' {
            lemma_list_spans(s, i + 1, Seq::empty(), i);
        } else if c == ')' {
        } else if c == '"' {
            lemma_string_spans(s, i + 1, Seq::empty(), false, i);
        } else {
            crate::scan::lemma_token_end_bounds(s, i + 1);
        }
    }
}

pub proof fn lemma_comment_spans(s: Seq<char>, i: int)
    requires
        0 <= i <= s.len() <= usize::MAX,
    ensures
        scan_comment_at(s, i) matches Ok((n, j)) ==> i < j <= s.len() && i <= node_start(n).index
            && node_end(n).index == j && spans_wf(n),
    decreases s.len() - i, 0int,
{
    if i < s.len() {
        if s[i] == '\n' {
            lemma_scan_spans(s, i + 1);
        } else {
            lemma_comment_spans(s, i + 1);
        }
    }
}

pub proof fn lemma_string_spans(s: Seq<char>, i: int, text: Seq<char>, escape: bool, start: int)
    requires
        0 <= start < i <= s.len() <= usize::MAX,
    ensures
        scan_string_at(s, i, text, escape, start) matches Ok((n, j)) ==> start < j <= s.len()
            && node_start(n).index == start && node_end(n).index == j && spans_wf(n),
    decreases s.len() - i, 0int,
{
    if i < s.len() {
        let c = s[i];
        if c == '\\' && !escape {
            lemma_string_spans(s, i + 1, text, true, start);
        } else if escape {
            let d = if c == 'n' {
                '\n'
            } else if c == 'r' {
                '\r'
            } else if c == '0' {
                '\0'
            } else {
                c
            };
            lemma_string_spans(s, i + 1, text.push(d), false, start);
        } else if c != '"' {
            lemma_string_spans(s, i + 1, text.push(c), false, start);
        }
    }
}

pub proof fn lemma_list_spans(s: Seq<char>, i: int, acc: Seq<Node>, start: int)
    requires
        0 <= start < i <= s.len() <= usize::MAX,
        siblings_ordered(acc),
        items_spans_wf(acc),
        ends_below(acc, i),
    ensures
        scan_list_at(s, i, acc, start) matches Ok((n, j)) ==> start < j <= s.len() && node_start(
            n,
        ).index == start && node_end(n).index == j && spans_wf(n),
    decreases s.len() - i, 1int,
{
    if i < s.len() && s[i] != ')' {
        if is_ws(s[i]) {
            lemma_list_spans(s, i + 1, acc, start);
        } else {
            lemma_scan_spans(s, i);
            if let Ok((m, j2)) = scan_at(s, i) {
                let acc2 = acc.push(m);
                lemma_items_spans_wf_push(acc, m);
                assert forall|k: int| 0 <= k < acc2.len() - 1 implies (#[trigger] node_end(
                    acc2[k],
                )).index <= node_start(acc2[k + 1]).index by {
                    if k < acc.len() - 1 {
                        assert(acc2[k] == acc[k]);
                        assert(acc2[k + 1] == acc[k + 1]);
                    } else {
                        assert(acc2[k] == acc[k]);
                        assert(acc2[k + 1] == m);
                        assert(node_end(acc[k]).index <= i);
                    }
                }
                assert forall|k: int| 0 <= k < acc2.len() implies (#[trigger] node_end(
                    acc2[k],
                )).index <= j2 by {
                    if k < acc.len() {
                        assert(acc2[k] == acc[k]);
                        assert(node_end(acc[k]).index <= i);
                    } else {
                        assert(acc2[k] == m);
                    }
                }
                lemma_list_spans(s, j2, acc2, start);
            }
        }
    }
}

/// Two nodes of the same kind carrying the same text, with the same
/// relation holding between their children; positions are ignored.
pub open spec fn same_shape(a: Node, b: Node) -> bool
    decreases a, 1int,
{
    match (a, b) {
        (Node::Ident(_, t1, _), Node::Ident(_, t2, _)) => t1 == t2,
        (Node::Number(_, t1, _), Node::Number(_, t2, _)) => t1 == t2,
        (Node::Str(_, t1, _), Node::Str(_, t2, _)) => t1 == t2,
        (Node::List(_, x, _), Node::List(_, y, _)) => same_items(x, y),
        _ => false,
    }
}

/// Pairwise `same_shape` over two sequences of nodes.
pub open spec fn same_items(x: Seq<Node>, y: Seq<Node>) -> bool
    decreases x, 0int,
{
    if x.len() != y.len() {
        false
    } else if x.len() == 0 {
        true
    } else {
        same_shape(x[0], y[0]) && same_items(x.drop_first(), y.drop_first())
    }
}

/// Scanning may start anywhere inside a run of whitespace.
pub proof fn lemma_scan_skip_ws(s: Seq<char>, i: int, k: int)
    requires
        0 <= i,
        0 <= k,
        i + k <= s.len(),
        forall|m: int| i <= m < i + k ==> is_ws(#[trigger] s[m]),
    ensures
        scan_at(s, i) == scan_at(s, i + k),
    decreases k,
{
    if k > 0 {
        lemma_scan_skip_ws(s, i + 1, k - 1);
    }
}

/// Collecting list children may start anywhere inside a run of
/// whitespace.
pub proof fn lemma_list_skip_ws(s: Seq<char>, i: int, k: int, acc: Seq<Node>, start: int)
    requires
        0 <= i,
        0 <= k,
        i + k <= s.len(),
        forall|m: int| i <= m < i + k ==> is_ws(#[trigger] s[m]),
    ensures
        scan_list_at(s, i, acc, start) == scan_list_at(s, i + k, acc, start),
    decreases k,
{
    if k > 0 {
        assert(s[i] != ')');
        lemma_list_skip_ws(s, i + 1, k - 1, acc, start);
    }
}

/// A terminator, or the end of the input, at offset `e`: what must
/// follow an embedded rendering for the scanner to stop there.
pub open spec fn follow_ok(s: Seq<char>, e: int) -> bool {
    e == s.len() || (0 <= e < s.len() && is_terminator(s[e]))
}

/// A well-formed node's rendering is longer than its indentation, and
/// the first character after the pad neither is whitespace nor closes
/// a list.
pub proof fn lemma_render_after_pad(n: Node, w: nat)
    requires
        node_wf(n),
    ensures
        render(n, w).len() > w,
        !is_ws(render(n, w)[w as int]),
        render(n, w)[w as int] != ')',
        render(n, w)[w as int] != ';',
        forall|q: int| 0 <= q < w ==> #[trigger] render(n, w)[q] == ' ',
{
    let r = render(n, w);
    assert(spaces(w).len() == w);
    match n {
        Node::Ident(_, t, _) => {
            assert(r[w as int] == t[0]);
            assert(!is_terminator(t[0]));
        },
        Node::Number(_, t, _) => {
            assert(t.len() > 0);
            assert(r[w as int] == t[0]);
            assert(!is_terminator(t[0]));
        },
        Node::Str(_, t, _) => {
            assert(r[w as int] == '"');
        },
        Node::List(_, items, _) => {
            if items.len() == 0 {
                assert(r[w as int] == '(');
            } else if items.len() == 1 {
                assert(r[w as int] == '(');
            } else if items.len() == 2 && !(items[1] is List) {
                assert(r[w as int] == '(');
            } else {
                assert(r[w as int] == '(');
            }
        },
    }
}

/// Rendering a well-formed leaf node and scanning the result yields a
/// leaf of the same kind carrying the same text, consuming the whole
/// rendered form.
pub proof fn lemma_render_reparse_leaf(n: Node)
    requires
        node_wf(n),
        !(n is List),
        render(n, 0).len() <= usize::MAX,
    ensures
        ({
            let r = render(n, 0);
            match n {
                Node::Ident(_, t, _) => scan_at(r, 0) == Ok::<(Node, int), Error>(
                    (Node::Ident(loc_at(r, 0), t, loc_at(r, r.len() as int)), r.len() as int),
                ),
                Node::Number(_, t, _) => scan_at(r, 0) == Ok::<(Node, int), Error>(
                    (Node::Number(loc_at(r, 0), t, loc_at(r, r.len() as int)), r.len() as int),
                ),
                Node::Str(_, t, _) => scan_at(r, 0) == Ok::<(Node, int), Error>(
                    (Node::Str(loc_at(r, 0), t, loc_at(r, r.len() as int)), r.len() as int),
                ),
                Node::List(..) => true,
            }
        }),
{
    let r = render(n, 0);
    assert(spaces(0) =~= Seq::<char>::empty());
    match n {
        Node::Ident(_, t, _) => {
            assert(r =~= t);
            lemma_single_ident_token(r);
        },
        Node::Number(_, t, _) => {
            assert(r =~= t);
            lemma_single_number_token(r);
        },
        Node::Str(_, t, _) => {
            assert(r =~= seq!['"'] + escape_text(t) + seq!['"']);
            lemma_single_string_token(r, t);
        },
        Node::List(..) => {},
    }
}
/// Scanning an embedded rendering of a well-formed node, wherever it
/// stands in a larger buffer, yields a node of the same shape and
/// consumes exactly the rendered text — provided a terminator or the
/// end of the input follows it.
#[verifier::rlimit(100)]
pub proof fn lemma_reparse_embedded(s: Seq<char>, i: int, w: nat, n: Node)
    requires
        node_wf(n),
        0 <= i,
        i + render(n, w).len() <= s.len(),
        s.subrange(i, i + render(n, w).len() as int) == render(n, w),
        follow_ok(s, i + render(n, w).len() as int),
    ensures
        scan_at(s, i) matches Ok((m, j)) && j == i + render(n, w).len() && same_shape(m, n),
    decreases n, 1int,
{
    let r = render(n, w);
    let e = i + r.len() as int;
    lemma_render_after_pad(n, w);
    assert forall|m: int| i <= m < i + w implies is_ws(#[trigger] s[m]) by {
        s.lemma_element_from_slice(r, i, e, m);
        assert(r[m - i] == ' ');
    }
    lemma_scan_skip_ws(s, i, w as int);
    let b0 = i + w;
    assert(spaces(w).len() == w);
    assert(s[b0] == r[w as int]) by {
        s.lemma_element_from_slice(r, i, e, b0);
    }
    match n {
        Node::Ident(_, t, _) => {
            assert(r[w as int] == t[0]);
            assert forall|k: int| b0 + 1 <= k < e implies !is_terminator(#[trigger] s[k]) by {
                s.lemma_element_from_slice(r, i, e, k);
                assert(r[k - i] == t[k - b0]);
            }
            lemma_token_end_region(s, b0 + 1, e);
            assert(s.subrange(b0, e) =~= t) by {
                assert forall|q: int| 0 <= q < t.len() implies s.subrange(b0, e)[q] == t[q] by {
                    s.lemma_element_from_slice(r, i, e, b0 + q);
                    assert(r[(b0 + q) - i] == t[q]);
                    assert(s.subrange(b0, e)[q] == s[b0 + q]);
                }
            }
            lemma_number_token_text(s, b0, e);
        },
        Node::Number(_, t, _) => {
            assert(t.len() > 0);
            assert(r[w as int] == t[0]);
            assert forall|k: int| b0 + 1 <= k < e implies !is_terminator(#[trigger] s[k]) by {
                s.lemma_element_from_slice(r, i, e, k);
                assert(r[k - i] == t[k - b0]);
            }
            lemma_token_end_region(s, b0 + 1, e);
            assert(s.subrange(b0, e) =~= t) by {
                assert forall|q: int| 0 <= q < t.len() implies s.subrange(b0, e)[q] == t[q] by {
                    s.lemma_element_from_slice(r, i, e, b0 + q);
                    assert(r[(b0 + q) - i] == t[q]);
                    assert(s.subrange(b0, e)[q] == s[b0 + q]);
                }
            }
            lemma_number_token_text(s, b0, e);
        },
        Node::Str(_, t, _) => {
            let et = escape_text(t);
            assert(r[w as int] == '"');
            assert(s.subrange(b0 + 1, b0 + 1 + et.len() as int) =~= et) by {
                assert forall|q: int| 0 <= q < et.len() implies s.subrange(
                    b0 + 1,
                    b0 + 1 + et.len() as int,
                )[q] == et[q] by {
                    s.lemma_element_from_slice(r, i, e, b0 + 1 + q);
                    assert(r[(b0 + 1 + q) - i] == et[q]);
                    assert(s.subrange(b0 + 1, b0 + 1 + et.len() as int)[q] == s[b0 + 1 + q]);
                }
            }
            assert(s[b0 + 1 + et.len() as int] == '"') by {
                s.lemma_element_from_slice(r, i, e, b0 + 1 + et.len() as int);
                assert(r[(b0 + 1 + et.len() as int) - i] == '"');
            }
            lemma_scan_escaped(s, b0 + 1, b0, t, Seq::empty());
            assert(Seq::<char>::empty() + t =~= t);
            assert(e == b0 + 1 + et.len() + 1);
        },
        Node::List(_, items, _) => {
            assert(r[w as int] == '(');
            let q0 = b0 + 1;
            if items.len() == 0 {
                assert(s[q0] == ')') by {
                    s.lemma_element_from_slice(r, i, e, q0);
                    assert(r[q0 - i] == ')');
                }
                assert(same_items(Seq::empty(), items));
                assert(e == q0 + 1);
            } else if items.len() == 1 {
                let r0 = render(items[0], 0);
                assert(node_wf(items[0]));
                lemma_render_after_pad(items[0], 0);
                assert(s.subrange(q0, q0 + r0.len() as int) =~= r0) by {
                    assert forall|q: int| 0 <= q < r0.len() implies s.subrange(
                        q0,
                        q0 + r0.len() as int,
                    )[q] == r0[q] by {
                        s.lemma_element_from_slice(r, i, e, q0 + q);
                        assert(r[(q0 + q) - i] == r0[q]);
                        assert(s.subrange(q0, q0 + r0.len() as int)[q] == s[q0 + q]);
                    }
                }
                let j0 = q0 + r0.len() as int;
                assert(s[j0] == ')') by {
                    s.lemma_element_from_slice(r, i, e, j0);
                    assert(r[j0 - i] == ')');
                }
                lemma_reparse_embedded(s, q0, 0, items[0]);
                assert(s[q0] == r0[0]) by {
                    assert(s.subrange(q0, q0 + r0.len() as int)[0] == s[q0]);
                }
                if let Ok((m0, jj)) = scan_at(s, q0) {
                    assert(jj == j0);
                    let ch = Seq::<Node>::empty().push(m0);
                    assert(scan_list_at(s, q0, Seq::empty(), b0) == scan_list_at(s, j0, ch, b0));
                    assert(ch[0] == m0);
                    assert(ch.drop_first().len() == 0 && items.drop_first().len() == 0);
                    assert(same_items(ch.drop_first(), items.drop_first()));
                    assert(same_items(ch, items));
                    assert(e == j0 + 1);
                }
            } else if items.len() == 2 && !(items[1] is List) {
                let r0 = render(items[0], 0);
                let r1 = render(items[1], 0);
                assert(node_wf(items[0]));
                assert(items_wf(items.drop_first()));
                assert(node_wf(items.drop_first()[0]));
                assert(items.drop_first()[0] == items[1]);
                lemma_render_after_pad(items[0], 0);
                lemma_render_after_pad(items[1], 0);
                let j0 = q0 + r0.len() as int;
                let q1 = j0 + 1;
                let j1 = q1 + r1.len() as int;
                assert(s.subrange(q0, j0) =~= r0) by {
                    assert forall|q: int| 0 <= q < r0.len() implies s.subrange(q0, j0)[q]
                        == r0[q] by {
                        s.lemma_element_from_slice(r, i, e, q0 + q);
                        assert(r[(q0 + q) - i] == r0[q]);
                        assert(s.subrange(q0, j0)[q] == s[q0 + q]);
                    }
                }
                assert(s[j0] == ' ') by {
                    s.lemma_element_from_slice(r, i, e, j0);
                    assert(r[j0 - i] == ' ');
                }
                assert(s.subrange(q1, j1) =~= r1) by {
                    assert forall|q: int| 0 <= q < r1.len() implies s.subrange(q1, j1)[q]
                        == r1[q] by {
                        s.lemma_element_from_slice(r, i, e, q1 + q);
                        assert(r[(q1 + q) - i] == r1[q]);
                        assert(s.subrange(q1, j1)[q] == s[q1 + q]);
                    }
                }
                assert(s[j1] == ')') by {
                    s.lemma_element_from_slice(r, i, e, j1);
                    assert(r[j1 - i] == ')');
                }
                lemma_reparse_embedded(s, q0, 0, items[0]);
                lemma_reparse_embedded(s, q1, 0, items[1]);
                assert(s[q0] == r0[0]) by {
                    assert(s.subrange(q0, j0)[0] == s[q0]);
                }
                assert(s[q1] == r1[0]) by {
                    assert(s.subrange(q1, j1)[0] == s[q1]);
                }
                if let Ok((m0, jj0)) = scan_at(s, q0) {
                    assert(jj0 == j0);
                    let acc1 = Seq::<Node>::empty().push(m0);
                    assert(scan_list_at(s, q0, Seq::empty(), b0) == scan_list_at(s, j0, acc1, b0));
                    assert(is_ws(s[j0]) && s[j0] != ')');
                    assert(scan_list_at(s, j0, acc1, b0) == scan_list_at(s, q1, acc1, b0));
                    if let Ok((m1, jj1)) = scan_at(s, q1) {
                        assert(jj1 == j1);
                        let ch = acc1.push(m1);
                        assert(scan_list_at(s, q1, acc1, b0) == scan_list_at(s, j1, ch, b0));
                        assert(ch[0] == m0 && ch[1] == m1);
                        assert(ch.drop_first() =~= seq![m1]);
                        assert(items.drop_first()[0] == items[1]);
                        assert(seq![m1][0] == m1);
                        assert(ch.drop_first().drop_first().len() == 0);
                        assert(items.drop_first().drop_first().len() == 0);
                        assert(same_items(ch.drop_first().drop_first(),
                            items.drop_first().drop_first()));
                        assert(same_items(ch.drop_first(), items.drop_first()));
                        assert(same_items(ch, items));
                        assert(e == j1 + 1);
                    }
                }
            } else {
                let r0 = render(items[0], 0);
                let rest = items.subrange(1, items.len() as int);
                let rt = render_tail(rest, (w + 4) as nat);
                assert(node_wf(items[0]));
                assert(rest =~= items.drop_first());
                assert(items_wf(rest));
                lemma_render_after_pad(items[0], 0);
                let j0 = q0 + r0.len() as int;
                let p = j0 + 1;
                assert(s.subrange(q0, j0) =~= r0) by {
                    assert forall|q: int| 0 <= q < r0.len() implies s.subrange(q0, j0)[q]
                        == r0[q] by {
                        s.lemma_element_from_slice(r, i, e, q0 + q);
                        assert(r[(q0 + q) - i] == r0[q]);
                        assert(s.subrange(q0, j0)[q] == s[q0 + q]);
                    }
                }
                assert(s[j0] == '\n') by {
                    s.lemma_element_from_slice(r, i, e, j0);
                    assert(r[j0 - i] == '\n');
                }
                assert(s.subrange(p, p + rt.len() as int) =~= rt) by {
                    assert forall|q: int| 0 <= q < rt.len() implies s.subrange(
                        p,
                        p + rt.len() as int,
                    )[q] == rt[q] by {
                        s.lemma_element_from_slice(r, i, e, p + q);
                        assert(r[(p + q) - i] == rt[q]);
                        assert(s.subrange(p, p + rt.len() as int)[q] == s[p + q]);
                    }
                }
                assert(p + rt.len() == e - 1);
                assert(s[p + rt.len() as int] == ')') by {
                    s.lemma_element_from_slice(r, i, e, e - 1);
                    assert(r[(e - 1) - i] == ')');
                }
                lemma_reparse_embedded(s, q0, 0, items[0]);
                assert(s[q0] == r0[0]) by {
                    assert(s.subrange(q0, j0)[0] == s[q0]);
                }
                if let Ok((m0, jj0)) = scan_at(s, q0) {
                    assert(jj0 == j0);
                    let acc1 = Seq::<Node>::empty().push(m0);
                    assert(scan_list_at(s, q0, Seq::empty(), b0) == scan_list_at(s, j0, acc1, b0));
                    assert(is_ws(s[j0]) && s[j0] != ')');
                    assert(scan_list_at(s, j0, acc1, b0) == scan_list_at(s, p, acc1, b0));
                    lemma_reparse_tail(s, p, acc1, b0, rest, (w + 4) as nat);
                    if let Ok((m, j)) = scan_list_at(s, p, acc1, b0) {
                        assert(j == e);
                        if let Node::List(_, ch, _) = m {
                            assert(ch.len() == items.len());
                            assert(ch.subrange(0, 1) == acc1);
                            assert(ch[0] == ch.subrange(0, 1)[0]);
                            assert(ch[0] == m0);
                            assert(ch.drop_first() =~= ch.subrange(1, ch.len() as int));
                            assert(same_items(ch.drop_first(), items.drop_first()));
                            assert(same_items(ch, items));
                        }
                    }
                }
            }
        },
    }
}

/// The children after the first of a rendered list, walked one per
/// line: collecting them appends, in order, nodes of the same shapes
/// as the rendered ones, and stops at the closing parenthesis that
/// follows.
pub proof fn lemma_reparse_tail(
    s: Seq<char>,
    i: int,
    acc: Seq<Node>,
    start: int,
    rest: Seq<Node>,
    w: nat,
)
    requires
        items_wf(rest),
        rest.len() > 0,
        0 <= start < i,
        i + render_tail(rest, w).len() < s.len(),
        s.subrange(i, i + render_tail(rest, w).len() as int) == render_tail(rest, w),
        s[i + render_tail(rest, w).len() as int] == ')',
    ensures
        scan_list_at(s, i, acc, start) matches Ok((m, j)) && j == i + render_tail(rest, w).len()
            + 1 && (m matches Node::List(_, ch, _) && ch.len() == acc.len() + rest.len()
            && ch.subrange(0, acc.len() as int) == acc && same_items(
            ch.subrange(acc.len() as int, ch.len() as int),
            rest,
        )),
    decreases rest, 0int,
{
    let rt = render_tail(rest, w);
    let e = i + rt.len() as int;
    let r0 = render(rest[0], w);
    assert(node_wf(rest[0]));
    lemma_render_after_pad(rest[0], w);
    let j0 = i + r0.len() as int;
    if rest.len() == 1 {
        assert(rt == r0);
    }
    assert(s.subrange(i, j0) =~= r0) by {
        assert forall|q: int| 0 <= q < r0.len() implies s.subrange(i, j0)[q] == r0[q] by {
            s.lemma_element_from_slice(rt, i, e, i + q);
            assert(rt[q] == r0[q]);
            assert(s.subrange(i, j0)[q] == s[i + q]);
        }
    }
    if rest.len() == 1 {
        assert(j0 == e);
        assert(s[j0] == ')');
    } else {
        assert(s[j0] == '\n') by {
            s.lemma_element_from_slice(rt, i, e, j0);
            assert(rt[j0 - i] == '\n');
        }
    }
    lemma_reparse_embedded(s, i, w, rest[0]);
    assert forall|m: int| i <= m < i + w implies is_ws(#[trigger] s[m]) by {
        assert(s.subrange(i, j0)[m - i] == s[m]);
        assert(r0[m - i] == ' ');
    }
    lemma_list_skip_ws(s, i, w as int, acc, start);
    lemma_scan_skip_ws(s, i, w as int);
    let b = i + w;
    assert(s[b] == r0[w as int]) by {
        assert(s.subrange(i, j0)[w as int] == s[b]);
    }
    if let Ok((m0, jj)) = scan_at(s, i) {
        assert(jj == j0);
        assert(scan_at(s, b) == scan_at(s, i));
        assert(scan_list_at(s, b, acc, start) == scan_list_at(s, j0, acc.push(m0), start));
        if rest.len() == 1 {
            let ch = acc.push(m0);
            assert(ch.subrange(0, acc.len() as int) =~= acc);
            let suffix = ch.subrange(acc.len() as int, ch.len() as int);
            assert(suffix =~= seq![m0]);
            assert(suffix[0] == m0);
            assert(suffix.drop_first().len() == 0 && rest.drop_first().len() == 0);
            assert(same_items(suffix.drop_first(), rest.drop_first()));
            assert(same_items(suffix, rest));
        } else {
            let p = j0 + 1;
            let rt2 = render_tail(rest.drop_first(), w);
            assert(is_ws(s[j0]));
            assert(s[j0] != ')');
            assert(scan_list_at(s, j0, acc.push(m0), start) == scan_list_at(
                s,
                p,
                acc.push(m0),
                start,
            ));
            assert(p + rt2.len() == e);
            assert(s.subrange(p, p + rt2.len() as int) =~= rt2) by {
                assert forall|q: int| 0 <= q < rt2.len() implies s.subrange(
                    p,
                    p + rt2.len() as int,
                )[q] == rt2[q] by {
                    s.lemma_element_from_slice(rt, i, e, p + q);
                    assert(rt[(p + q) - i] == rt2[q]);
                    assert(s.subrange(p, p + rt2.len() as int)[q] == s[p + q]);
                }
            }
            lemma_reparse_tail(s, p, acc.push(m0), start, rest.drop_first(), w);
            if let Ok((m, j)) = scan_list_at(s, p, acc.push(m0), start) {
                if let Node::List(_, ch, _) = m {
                    assert(ch.subrange(0, acc.len() as int + 1) == acc.push(m0));
                    assert(acc.push(m0).subrange(0, acc.len() as int) =~= acc);
                    assert(ch.subrange(0, acc.len() as int) =~= ch.subrange(
                        0,
                        acc.len() as int + 1,
                    ).subrange(0, acc.len() as int)) by {
                        ch.lemma_slice_of_slice(0, acc.len() as int + 1, 0, acc.len() as int);
                    }
                    let suffix = ch.subrange(acc.len() as int, ch.len() as int);
                    assert(ch[acc.len() as int] == ch.subrange(0, acc.len() as int + 1)[acc.len() as int]);
                    assert(ch[acc.len() as int] == m0);
                    assert(suffix[0] == ch[acc.len() as int]);
                    assert(suffix.drop_first() =~= ch.subrange(acc.len() as int + 1, ch.len() as int));
                    assert(same_items(suffix.drop_first(), rest.drop_first()));
                    assert(same_shape(suffix[0], rest[0]));
                    assert(same_items(suffix, rest));
                }
            }
        }
    }
}


/// Parsing, rendering and parsing again is lossless: whenever a scan
/// yields a node, scanning that node's rendered form yields a node of
/// the same shape — same variants, same texts, children alike — with
/// only positions and exact whitespace free to differ.
pub proof fn lemma_round_trip(s: Seq<char>, n: Node, j: int)
    requires
        scan_at(s, 0) == Ok::<(Node, int), Error>((n, j)),
    ensures
        scan_at(render(n, 0), 0) matches Ok((m, j2)) && j2 == render(n, 0).len() && same_shape(
            m,
            n,
        ),
{
    lemma_scan_wf(s, 0);
    let r = render(n, 0);
    assert(r.subrange(0, r.len() as int) =~= r);
    lemma_reparse_embedded(r, 0, 0, n);
}

/// Parsing, rendering and parsing again is lossless for leaf nodes:
/// whenever a scan yields a string, identifier or number, scanning its
/// rendered form yields a node of the same kind with the same text.
pub proof fn lemma_round_trip_leaf(s: Seq<char>, n: Node, j: int)
    requires
        scan_at(s, 0) == Ok::<(Node, int), Error>((n, j)),
        !(n is List),
        render(n, 0).len() <= usize::MAX,
    ensures
        ({
            let r = render(n, 0);
            match n {
                Node::Ident(_, t, _) => scan_at(r, 0) == Ok::<(Node, int), Error>(
                    (Node::Ident(loc_at(r, 0), t, loc_at(r, r.len() as int)), r.len() as int),
                ),
                Node::Number(_, t, _) => scan_at(r, 0) == Ok::<(Node, int), Error>(
                    (Node::Number(loc_at(r, 0), t, loc_at(r, r.len() as int)), r.len() as int),
                ),
                Node::Str(_, t, _) => scan_at(r, 0) == Ok::<(Node, int), Error>(
                    (Node::Str(loc_at(r, 0), t, loc_at(r, r.len() as int)), r.len() as int),
                ),
                Node::List(..) => true,
            }
        }),
{
    lemma_scan_wf(s, 0);
    lemma_render_reparse_leaf(n);
}

} // verus!

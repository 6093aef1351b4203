//! Textual rendering of parsed nodes.
//!
//! Two forms are offered, both stated as spec functions and proved
//! against the executable writers.  The display form prints a list
//! compactly (`(a b)`) when it has at most two children and the second
//! is not itself a list, and otherwise one child per line at
//! increasing indentation.  The debug form spells out the tagged-union
//! shape (`List([...])`, `Ident(x)`).  Strings render as a quoted
//! literal whose escapes mirror the ones the scanner resolves: `"`,
//! `\`, line break, carriage return and NUL are escaped, everything
//! else is written as it is.

use vstd::prelude::*;
use vstd::string::StringExecFns;
use crate::ast::{Node, Object, view_nodes, lemma_view_nodes_len, lemma_view_nodes_index};
use crate::scan::{push_char, chars_vec};

verus! {

/// How one character appears inside a rendered string literal.
pub open spec fn escape_char(c: char) -> Seq<char> {
    if c == '"' {
        seq!['\\', '"']
    } else if c == '\\' {
        seq!['\\', '\\']
    } else if c == '\n' {
        seq!['\\', 'n']
    } else if c == '\r' {
        seq!['\\', 'r']
    } else if c == '\0' {
        seq!['\\', '0']
    } else {
        seq![c]
    }
}

/// The body of a rendered string literal.
pub open spec fn escape_text(t: Seq<char>) -> Seq<char>
    decreases t.len(),
{
    if t.len() == 0 {
        Seq::empty()
    } else {
        escape_char(t[0]) + escape_text(t.drop_first())
    }
}

/// Escaping one more character appends its escape.
pub proof fn lemma_escape_text_snoc(t: Seq<char>, x: char)
    ensures
        escape_text(t.push(x)) == escape_text(t) + escape_char(x),
    decreases t.len(),
{
    if t.len() == 0 {
        assert(t.push(x)[0] == x);
        assert(t.push(x).drop_first() =~= Seq::<char>::empty());
        assert(escape_text(t.push(x)) == escape_char(x) + escape_text(Seq::<char>::empty()));
        assert(escape_char(x) + Seq::<char>::empty() =~= escape_char(x));
        assert(Seq::<char>::empty() + escape_char(x) =~= escape_char(x));
    } else {
        lemma_escape_text_snoc(t.drop_first(), x);
        assert(t.push(x).drop_first() =~= t.drop_first().push(x));
        assert(escape_char(t[0]) + (escape_text(t.drop_first()) + escape_char(x)) =~= (escape_char(
            t[0],
        ) + escape_text(t.drop_first())) + escape_char(x));
    }
}

/// An indentation of `w` spaces.
pub open spec fn spaces(w: nat) -> Seq<char> {
    Seq::new(w, |k: int| ' ')
}

/// The display form of a node indented by `w` spaces.
pub open spec fn render(n: Node, w: nat) -> Seq<char>
    decreases n, 1int,
{
    let pad = spaces(w);
    match n {
        Node::Ident(_, t, _) => pad + t,
        Node::Number(_, t, _) => pad + t,
        Node::Str(_, t, _) => pad + seq!['"'] + escape_text(t) + seq!['"'],
        Node::List(_, items, _) => if items.len() == 0 {
            pad + seq!['(', ')']
        } else if items.len() == 1 {
            pad + seq!['('] + render(items[0], 0) + seq![')']
        } else if items.len() == 2 && !(items[1] is List) {
            pad + seq!['('] + render(items[0], 0) + seq![' '] + render(items[1], 0) + seq![')']
        } else {
            pad + seq!['('] + render(items[0], 0) + seq!['\n'] + render_tail(
                items.subrange(1, items.len() as int),
                (w + 4) as nat,
            ) + seq![')']
        },
    }
}

/// The children after the first in the one-per-line form, separated by
/// line breaks.
pub open spec fn render_tail(items: Seq<Node>, w: nat) -> Seq<char>
    decreases items, 0int,
{
    if items.len() == 0 {
        Seq::empty()
    } else if items.len() == 1 {
        render(items[0], w)
    } else {
        render(items[0], w) + seq!['\n'] + render_tail(items.drop_first(), w)
    }
}

/// The debug form of a node.
pub open spec fn render_debug(n: Node) -> Seq<char>
    decreases n, 1int,
{
    match n {
        Node::Ident(_, t, _) => "Ident("@ + t + ")"@,
        Node::Number(_, t, _) => "Number("@ + t + ")"@,
        Node::Str(_, t, _) => "String(\""@ + escape_text(t) + "\")"@,
        Node::List(_, items, _) => "List(["@ + render_debug_tail(items) + "])"@,
    }
}

/// The children of a list in debug form, separated by commas.
pub open spec fn render_debug_tail(items: Seq<Node>) -> Seq<char>
    decreases items, 0int,
{
    if items.len() == 0 {
        Seq::empty()
    } else if items.len() == 1 {
        render_debug(items[0])
    } else {
        render_debug(items[0]) + ","@ + render_debug_tail(items.drop_first())
    }
}

/// How deeply lists nest below a node; what bounds the indentation the
/// display form can reach.
pub open spec fn depth(n: Node) -> nat
    decreases n, 1int,
{
    match n {
        Node::List(_, items, _) => 1 + depth_items(items),
        _ => 0,
    }
}

/// The deepest nesting among a sequence of nodes.
pub open spec fn depth_items(items: Seq<Node>) -> nat
    decreases items, 0int,
{
    if items.len() == 0 {
        0
    } else {
        let d0 = depth(items[0]);
        let dr = depth_items(items.drop_first());
        if d0 > dr {
            d0
        } else {
            dr
        }
    }
}

/// No node in a sequence nests deeper than the sequence does.
pub proof fn lemma_depth_items_bound(items: Seq<Node>, k: int)
    requires
        0 <= k < items.len(),
    ensures
        depth(items[k]) <= depth_items(items),
    decreases items.len(),
{
    if k > 0 {
        lemma_depth_items_bound(items.drop_first(), k - 1);
    }
}

/// Writes the body of a string literal, escaping as `escape_text`
/// says.
fn write_escaped(t: &String, out: &mut String)
    ensures
        final(out)@ == old(out)@ + escape_text(t@),
{
    let tv = chars_vec(t.as_str());
    let ghost base = out@;
    let m = tv.len();
    let mut k: usize = 0;
    proof {
        assert(t@.take(0) =~= Seq::<char>::empty());
        assert(base + escape_text(t@.take(0)) =~= base);
    }
    while k < m
        invariant
            k <= m,
            m == t@.len(),
            tv@ == t@,
            out@ == base + escape_text(t@.take(k as int)),
        decreases m - k,
    {
        let c = tv[k];
        let ghost before = out@;
        if c == '"' {
            push_char(out, '\\');
            push_char(out, '"');
        } else if c == '\\' {
            push_char(out, '\\');
            push_char(out, '\\');
        } else if c == '\n' {
            push_char(out, '\\');
            push_char(out, 'n');
        } else if c == '\r' {
            push_char(out, '\\');
            push_char(out, 'r');
        } else if c == '\0' {
            push_char(out, '\\');
            push_char(out, '0');
        } else {
            push_char(out, c);
        }
        proof {
            assert(out@ =~= before + escape_char(t@[k as int]));
            lemma_escape_text_snoc(t@.take(k as int), t@[k as int]);
            assert(t@.take(k + 1) =~= t@.take(k as int).push(t@[k as int]));
            assert(before + escape_char(t@[k as int]) =~= base + escape_text(t@.take(k + 1)));
        }
        k += 1;
    }
    proof {
        assert(t@.take(m as int) =~= t@);
    }
}

/// Writes `w` spaces.
fn write_spaces(w: usize, out: &mut String)
    ensures
        final(out)@ == old(out)@ + spaces(w as nat),
{
    let ghost base = out@;
    let mut k: usize = 0;
    proof {
        assert(base + spaces(0) =~= base);
    }
    while k < w
        invariant
            k <= w,
            out@ == base + spaces(k as nat),
        decreases w - k,
    {
        push_char(out, ' ');
        proof {
            assert((base + spaces(k as nat)).push(' ') =~= base + spaces((k + 1) as nat));
        }
        k += 1;
    }
}

/// Writes the display form of one node; the executable counterpart of
/// `render`.
fn write_node(o: &Object, w: usize, out: &mut String)
    requires
        w + 4 * depth(o@) <= usize::MAX,
    ensures
        final(out)@ == old(out)@ + render(o@, w as nat),
    decreases *o, 1int,
{
    let ghost base = out@;
    let ghost pad = spaces(w as nat);
    write_spaces(w, out);
    match o {
        Object::Ident(_, t, _) => {
            out.append(t.as_str());
            proof {
                assert((base + pad) + t@ =~= base + (pad + t@));
            }
        },
        Object::Number(_, t, _) => {
            out.append(t.as_str());
            proof {
                assert((base + pad) + t@ =~= base + (pad + t@));
            }
        },
        Object::String(_, t, _) => {
            push_char(out, '"');
            write_escaped(t, out);
            push_char(out, '"');
            proof {
                assert((((base + pad).push('"')) + escape_text(t@)).push('"') =~= base + (pad
                    + seq!['"'] + escape_text(t@) + seq!['"']));
            }
        },
        Object::List(_, items, _) => {
            let ghost iv = view_nodes(items@);
            proof {
                lemma_view_nodes_len(items@);
            }
            let len = items.len();
            if len == 0 {
                push_char(out, '(');
                push_char(out, ')');
                proof {
                    assert((base + pad).push('(').push(')') =~= base + (pad + seq!['(', ')']));
                }
            } else if len == 1 {
                proof {
                    lemma_view_nodes_index(items@, 0);
                    lemma_depth_items_bound(iv, 0);
                }
                push_char(out, '(');
                write_node(&items[0], 0, out);
                push_char(out, ')');
                proof {
                    assert((((base + pad).push('(')) + render(iv[0], 0)).push(')') =~= base + (pad
                        + seq!['('] + render(iv[0], 0) + seq![')']));
                }
            } else if len == 2 && !(&items[1]).is_list() {
                proof {
                    lemma_view_nodes_index(items@, 0);
                    lemma_view_nodes_index(items@, 1);
                    lemma_depth_items_bound(iv, 0);
                    lemma_depth_items_bound(iv, 1);
                }
                push_char(out, '(');
                write_node(&items[0], 0, out);
                push_char(out, ' ');
                write_node(&items[1], 0, out);
                push_char(out, ')');
                proof {
                    assert(((((base + pad).push('(')) + render(iv[0], 0)).push(' ') + render(
                        iv[1],
                        0,
                    )).push(')') =~= base + (pad + seq!['('] + render(iv[0], 0) + seq![' ']
                        + render(iv[1], 0) + seq![')']));
                }
            } else {
                proof {
                    lemma_view_nodes_index(items@, 0);
                    lemma_depth_items_bound(iv, 0);
                }
                push_char(out, '(');
                write_node(&items[0], 0, out);
                push_char(out, '\n');
                write_tail(items, 1, w + 4, out);
                push_char(out, ')');
                proof {
                    assert(((((base + pad).push('(')) + render(iv[0], 0)).push('\n') + render_tail(
                        iv.subrange(1, iv.len() as int),
                        (w + 4) as nat,
                    )).push(')') =~= base + (pad + seq!['('] + render(iv[0], 0) + seq!['\n']
                        + render_tail(iv.subrange(1, iv.len() as int), (w + 4) as nat) + seq![
                        ')',
                    ]));
                }
            }
        },
    }
}

/// Writes the children after the first, one per line; the executable
/// counterpart of `render_tail`.
fn write_tail(items: &Vec<Object>, from: usize, w: usize, out: &mut String)
    requires
        1 <= from < items@.len(),
        w + 4 * depth_items(view_nodes(items@)) <= usize::MAX,
    ensures
        final(out)@ == old(out)@ + render_tail(
            view_nodes(items@).subrange(from as int, items@.len() as int),
            w as nat,
        ),
    decreases *items, items@.len() - from,
{
    let ghost base = out@;
    let ghost iv = view_nodes(items@);
    let ghost sub = iv.subrange(from as int, items@.len() as int);
    proof {
        lemma_view_nodes_len(items@);
        lemma_view_nodes_index(items@, from as int);
        lemma_depth_items_bound(iv, from as int);
        assert(sub[0] == iv[from as int]);
    }
    let len = items.len();
    write_node(&items[from], w, out);
    if from + 1 < len {
        push_char(out, '\n');
        write_tail(items, from + 1, w, out);
        proof {
            assert(sub.drop_first() =~= iv.subrange(from + 1, iv.len() as int));
            assert(((base + render(sub[0], w as nat)).push('\n')) + render_tail(
                sub.drop_first(),
                w as nat,
            ) =~= base + (render(sub[0], w as nat) + seq!['\n'] + render_tail(
                sub.drop_first(),
                w as nat,
            )));
        }
    } else {
        proof {
            assert(sub.len() == 1);
        }
    }
}

/// Writes the debug form of one node; the executable counterpart of
/// `render_debug`.
fn write_debug(o: &Object, out: &mut String)
    ensures
        final(out)@ == old(out)@ + render_debug(o@),
    decreases *o, 1int,
{
    let ghost base = out@;
    match o {
        Object::Ident(_, t, _) => {
            out.append("Ident(");
            out.append(t.as_str());
            out.append(")");
            proof {
                assert(((base + "Ident("@) + t@) + ")"@ =~= base + ("Ident("@ + t@ + ")"@));
            }
        },
        Object::Number(_, t, _) => {
            out.append("Number(");
            out.append(t.as_str());
            out.append(")");
            proof {
                assert(((base + "Number("@) + t@) + ")"@ =~= base + ("Number("@ + t@ + ")"@));
            }
        },
        Object::String(_, t, _) => {
            out.append("String(\"");
            write_escaped(t, out);
            out.append("\")");
            proof {
                assert(((base + "String(\""@) + escape_text(t@)) + "\")"@ =~= base + ("String(\""@
                    + escape_text(t@) + "\")"@));
            }
        },
        Object::List(_, items, _) => {
            let ghost iv = view_nodes(items@);
            proof {
                lemma_view_nodes_len(items@);
            }
            out.append("List([");
            if items.len() > 0 {
                write_debug_tail(items, 0, out);
            }
            out.append("])");
            proof {
                if items@.len() == 0 {
                    assert(iv.subrange(0, 0) =~= Seq::<Node>::empty());
                    assert(render_debug_tail(iv) == Seq::<char>::empty());
                    assert((base + "List(["@) + Seq::<char>::empty() =~= base + "List(["@);
                } else {
                    assert(iv.subrange(0, iv.len() as int) =~= iv);
                }
                assert(((base + "List(["@) + render_debug_tail(iv)) + "])"@ =~= base + ("List(["@
                    + render_debug_tail(iv) + "])"@));
            }
        },
    }
}

/// Writes the children of a list in debug form, separated by commas;
/// the executable counterpart of `render_debug_tail`.
fn write_debug_tail(items: &Vec<Object>, from: usize, out: &mut String)
    requires
        from < items@.len(),
    ensures
        final(out)@ == old(out)@ + render_debug_tail(
            view_nodes(items@).subrange(from as int, items@.len() as int),
        ),
    decreases *items, items@.len() - from,
{
    let ghost base = out@;
    let ghost iv = view_nodes(items@);
    let ghost sub = iv.subrange(from as int, items@.len() as int);
    proof {
        lemma_view_nodes_len(items@);
        lemma_view_nodes_index(items@, from as int);
        assert(sub[0] == iv[from as int]);
    }
    let len = items.len();
    write_debug(&items[from], out);
    if from + 1 < len {
        out.append(",");
        write_debug_tail(items, from + 1, out);
        proof {
            assert(sub.drop_first() =~= iv.subrange(from + 1, iv.len() as int));
            assert(((base + render_debug(sub[0])) + ","@) + render_debug_tail(sub.drop_first())
                =~= base + (render_debug(sub[0]) + ","@ + render_debug_tail(sub.drop_first())));
        }
    } else {
        proof {
            assert(sub.len() == 1);
        }
    }
}

impl Object {
    /// The display form of this node: lists print compactly when they
    /// have at most two children and the second is not itself a list,
    /// and otherwise one child per line at increasing indentation;
    /// strings print as a quoted, escaped literal; identifiers and
    /// numbers print as their raw text.  The bound keeps the deepest
    /// indentation within a machine word.
    pub fn to_text(&self) -> (r: String)
        requires
            4 * depth(self@) <= usize::MAX,
        ensures
            r@ == render(self@, 0),
    {
        let mut out = String::new();
        write_node(self, 0, &mut out);
        proof {
            assert(Seq::<char>::empty() + render(self@, 0) =~= render(self@, 0));
        }
        out
    }

    /// The debug form of this node: the tagged-union shape spelled
    /// out, children separated by commas, string text quoted and
    /// escaped.
    pub fn debug_text(&self) -> (r: String)
        ensures
            r@ == render_debug(self@),
    {
        let mut out = String::new();
        write_debug(self, &mut out);
        proof {
            assert(Seq::<char>::empty() + render_debug(self@) =~= render_debug(self@));
        }
        out
    }
}

} // verus!

//! The parsed tree: nodes, files, and the error model.
//!
//! Every executable value is mirrored by a mathematical shape (`Node`)
//! over `Seq`, so that the parser's contracts can speak of whole trees
//! at once.  A node carries its start position and the position just
//! past its last consumed character.

use vstd::prelude::*;
use crate::pos::Location;

verus! {

/// The ways a scan can fail.
#[derive(Debug, PartialEq, Copy, Clone)]
pub enum ObjectParseError {
    /// A list (or, for compatibility, a string) was never closed before
    /// the end of the input.
    NoClosingParen,
    /// Reserved for a distinct unterminated-string fault; the scanner
    /// currently reports `NoClosingParen` there instead.
    NoClosingQuote,
    /// The input ended before any significant character; absorbed by
    /// the file reader as the normal end-of-input signal.
    NoData,
    /// A `)` appeared where a new node was expected.
    ExtraClosingParen,
}

/// A scan failure: the fault kind together with the position of the
/// character that caused it.
#[derive(Debug)]
pub struct Error {
    pub loc: Location,
    pub err: ObjectParseError,
}

/// One parsed syntactic unit.  Each variant carries its start position,
/// its payload, and the position immediately after its last consumed
/// character.  String text is owned with escape sequences already
/// resolved; identifier and number text is kept as written.
#[derive(Debug, PartialEq)]
pub enum Object {
    List(Location, Vec<Object>, Location),
    String(Location, String, Location),
    Ident(Location, String, Location),
    Number(Location, String, Location),
}

/// The mathematical shape of a parsed node: the same tree with `Seq` in
/// place of `Vec` and `String`.
pub ghost enum Node {
    List(Location, Seq<Node>, Location),
    Str(Location, Seq<char>, Location),
    Ident(Location, Seq<char>, Location),
    Number(Location, Seq<char>, Location),
}

/// The shapes of a sequence of objects, in order.
pub open spec fn view_nodes(s: Seq<Object>) -> Seq<Node>
    decreases s,
{
    if s.len() == 0 {
        Seq::empty()
    } else {
        view_nodes(s.drop_last()).push(s.last()@)
    }
}

impl View for Object {
    type V = Node;

    open spec fn view(&self) -> Node
        decreases self,
    {
        match self {
            Object::List(a, items, b) => Node::List(*a, view_nodes(items@), *b),
            Object::String(a, t, b) => Node::Str(*a, t@, *b),
            Object::Ident(a, t, b) => Node::Ident(*a, t@, *b),
            Object::Number(a, t, b) => Node::Number(*a, t@, *b),
        }
    }
}

pub broadcast proof fn lemma_view_nodes_len(s: Seq<Object>)
    ensures
        (#[trigger] view_nodes(s)).len() == s.len(),
    decreases s,
{
    if s.len() > 0 {
        lemma_view_nodes_len(s.drop_last());
        assert(view_nodes(s) == view_nodes(s.drop_last()).push(s.last()@));
        assert(s.drop_last().len() == s.len() - 1);
    } else {
        assert(view_nodes(s) == Seq::<Node>::empty());
    }
}

pub broadcast proof fn lemma_view_nodes_index(s: Seq<Object>, i: int)
    requires
        0 <= i < s.len(),
    ensures
        #[trigger] view_nodes(s)[i] == s[i]@,
    decreases s,
{
    lemma_view_nodes_len(s);
    lemma_view_nodes_len(s.drop_last());
    assert(view_nodes(s) == view_nodes(s.drop_last()).push(s.last()@));
    if i < s.len() - 1 {
        lemma_view_nodes_index(s.drop_last(), i);
        assert(s.drop_last()[i] == s[i]);
    } else {
        assert(s.last() == s[i]);
    }
}

/// Appending one object appends its shape.
pub proof fn lemma_view_nodes_push(s: Seq<Object>, x: Object)
    ensures
        view_nodes(s.push(x)) == view_nodes(s).push(x@),
{
    assert(s.push(x).drop_last() =~= s);
    assert(s.push(x).last() == x);
}

/// The start position recorded in a node.
pub open spec fn node_start(n: Node) -> Location {
    match n {
        Node::List(a, _, _) => a,
        Node::Str(a, _, _) => a,
        Node::Ident(a, _, _) => a,
        Node::Number(a, _, _) => a,
    }
}

/// The position just past the last character a node consumed.
pub open spec fn node_end(n: Node) -> Location {
    match n {
        Node::List(_, _, b) => b,
        Node::Str(_, _, b) => b,
        Node::Ident(_, _, b) => b,
        Node::Number(_, _, b) => b,
    }
}

impl Object {
    /// Whether this node is a list.
    pub fn is_list(&self) -> (r: bool)
        ensures
            r == (self@ is List),
    {
        match self {
            Object::List(..) => true,
            _ => false,
        }
    }

    /// The text carried by a leaf node: the resolved text of a string,
    /// or the raw text of an identifier or number.  A list carries no
    /// text of its own.
    pub fn str_data(&self) -> (r: Option<&str>)
        ensures
            match r {
                Some(t) => match self@ {
                    Node::Str(_, text, _) => t@ == text,
                    Node::Ident(_, text, _) => t@ == text,
                    Node::Number(_, text, _) => t@ == text,
                    Node::List(..) => false,
                },
                None => self@ is List,
            },
    {
        match self {
            Object::List(..) => None,
            Object::String(_, s, _) => Some(s.as_str()),
            Object::Ident(_, i, _) => Some(i.as_str()),
            Object::Number(_, n, _) => Some(n.as_str()),
        }
    }
}

/// An ordered sequence of top-level nodes parsed from one buffer.
#[derive(Debug)]
pub struct File {
    pub items: Vec<Object>,
}

impl View for File {
    type V = Seq<Node>;

    open spec fn view(&self) -> Seq<Node> {
        view_nodes(self.items@)
    }
}

} // verus!

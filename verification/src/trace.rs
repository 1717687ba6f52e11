//! Node identities, source spans and the facts recorded about nodes.

use crate::text::{debug_quote, debug_quoted, decimal, decimal_string, push_char};
use vstd::prelude::*;

verus! {

/// The identity of a node in the lowered program.
#[derive(Clone, Copy, Debug, PartialEq, Eq, PartialOrd, Ord, Hash, Structural)]
pub struct NodeId(pub u32);

impl NodeId {
    /// What `{:?}` shows for a node: `NodeId(n)`.
    pub open spec fn debug_text(self) -> Seq<char> {
        seq!['N', 'o', 'd', 'e', 'I', 'd', '('] + decimal(self.0 as nat) + seq![')']
    }

    /// Renders the node as `NodeId(n)`.
    pub fn to_debug_string(&self) -> (s: String)
        ensures
            s@ == self.debug_text(),
    {
        let mut s = String::new();
        push_char(&mut s, 'N');
        push_char(&mut s, 'o');
        push_char(&mut s, 'd');
        push_char(&mut s, 'e');
        push_char(&mut s, 'I');
        push_char(&mut s, 'd');
        push_char(&mut s, '(');
        let digits = decimal_string(self.0 as u64);
        s.append(digits.as_str());
        push_char(&mut s, ')');
        proof {
            assert(s@ =~= self.debug_text());
        }
        s
    }
}

/// A region of a source file, with its byte range and the line and column
/// at which it starts and ends.
#[derive(PartialEq, Eq, Hash)]
pub struct Span {
    pub path: String,
    pub range: std::ops::Range<usize>,
    pub start_line_col: (usize, usize),
    pub end_line_col: (usize, usize),
}

impl Clone for Span {
    fn clone(&self) -> (r: Self)
        ensures
            r.path@ == self.path@,
            r.range == self.range,
            r.start_line_col == self.start_line_col,
            r.end_line_col == self.end_line_col,
    {
        Span {
            path: self.path.clone(),
            range: std::ops::Range { start: self.range.start, end: self.range.end },
            start_line_col: self.start_line_col,
            end_line_col: self.end_line_col,
        }
    }
}

impl Span {
    /// The span that stands for a whole file: empty, at line and column 0.
    pub fn root(path: &str) -> (span: Span)
        ensures
            span.path@ == path@,
            span.range.start == 0,
            span.range.end == 0,
            span.start_line_col == (0usize, 0usize),
            span.end_line_col == (0usize, 0usize),
    {
        Span {
            path: path.to_owned(),
            range: std::ops::Range { start: 0, end: 0 },
            start_line_col: (0, 0),
            end_line_col: (0, 0),
        }
    }

    /// What `{:?}` shows for a span: `path:line:column` of its start.
    pub open spec fn debug_text(self) -> Seq<char> {
        self.path@ + seq![':'] + decimal(self.start_line_col.0 as nat) + seq![':'] + decimal(
            self.start_line_col.1 as nat,
        )
    }

    /// Renders the span as `path:line:column`.
    pub fn to_debug_string(&self) -> (s: String)
        ensures
            s@ == self.debug_text(),
    {
        let mut s = self.path.clone();
        push_char(&mut s, ':');
        let line = decimal_string(self.start_line_col.0 as u64);
        s.append(line.as_str());
        push_char(&mut s, ':');
        let col = decimal_string(self.start_line_col.1 as u64);
        s.append(col.as_str());
        proof {
            assert(s@ =~= self.debug_text());
        }
        s
    }
}

/// A fact recorded about a node: a bare marker, a named string, or a
/// relation to another node.
#[derive(Debug, PartialEq, Eq, PartialOrd, Ord, Hash)]
pub enum Fact {
    Marker(String),
    Str(String, String),
    Node(NodeId, String),
}

impl Clone for Fact {
    fn clone(&self) -> (r: Self)
        ensures
            r.same_as(*self),
    {
        match self {
            Fact::Marker(name) => Fact::Marker(name.clone()),
            Fact::Str(name, str) => Fact::Str(name.clone(), str.clone()),
            Fact::Node(node, relation) => Fact::Node(*node, relation.clone()),
        }
    }
}

impl Fact {
    /// Two facts of the same kind whose strings hold the same characters.
    pub open spec fn same_as(self, other: Fact) -> bool {
        match (self, other) {
            (Fact::Marker(a), Fact::Marker(b)) => a@ == b@,
            (Fact::Str(a, x), Fact::Str(b, y)) => a@ == b@ && x@ == y@,
            (Fact::Node(a, x), Fact::Node(b, y)) => a == b && x@ == y@,
            _ => false,
        }
    }

    /// A marker fact with the given name.
    pub fn marker(name: &str) -> (fact: Fact)
        ensures
            fact matches Fact::Marker(n) && n@ == name@,
    {
        Fact::Marker(name.to_owned())
    }

    /// A fact that names a string.
    pub fn with_str(name: &str, str: &str) -> (fact: Fact)
        ensures
            fact matches Fact::Str(n, s) && n@ == name@ && s@ == str@,
    {
        Fact::Str(name.to_owned(), str.to_owned())
    }

    /// A fact that relates this node to `node`.
    pub fn with_node(node: NodeId, relation: &str) -> (fact: Fact)
        ensures
            fact matches Fact::Node(n, r) && n == node && r@ == relation@,
    {
        Fact::Node(node, relation.to_owned())
    }

    /// Whether the fact is hidden from output: a marker or named string
    /// whose name starts with `_`.
    pub open spec fn spec_should_ignore(self) -> bool {
        match self {
            Fact::Marker(name) => name@.len() > 0 && name@[0] == '_',
            Fact::Str(name, _) => name@.len() > 0 && name@[0] == '_',
            Fact::Node(_, _) => false,
        }
    }

    /// Whether the fact is hidden from output.
    pub fn should_ignore(&self) -> (b: bool)
        ensures
            b == self.spec_should_ignore(),
    {
        match self {
            Fact::Marker(name) => starts_with_underscore(name),
            Fact::Str(name, _) => starts_with_underscore(name),
            Fact::Node(_, _) => false,
        }
    }

    /// How the fact is displayed: `name`, `name("text")`, or
    /// `NodeId(n) as "relation"`.
    pub open spec fn display_text(self) -> Seq<char> {
        match self {
            Fact::Marker(name) => name@,
            Fact::Str(name, str) => name@ + seq!['('] + debug_quoted(str@) + seq![')'],
            Fact::Node(node, relation) => node.debug_text() + seq![' ', 'a', 's', ' ']
                + debug_quoted(relation@),
        }
    }

    /// Renders the fact as it is displayed.
    pub fn to_display_string(&self) -> (s: String)
        ensures
            s@ == self.display_text(),
    {
        match self {
            Fact::Marker(name) => name.clone(),
            Fact::Str(name, str) => {
                let mut s = name.clone();
                push_char(&mut s, '(');
                let quoted = debug_quote(str.as_str());
                s.append(quoted.as_str());
                push_char(&mut s, ')');
                proof {
                    assert(s@ =~= self.display_text());
                }
                s
            },
            Fact::Node(node, relation) => {
                let mut s = node.to_debug_string();
                push_char(&mut s, ' ');
                push_char(&mut s, 'a');
                push_char(&mut s, 's');
                push_char(&mut s, ' ');
                let quoted = debug_quote(relation.as_str());
                s.append(quoted.as_str());
                proof {
                    assert(s@ =~= self.display_text());
                }
                s
            },
        }
    }
}

fn starts_with_underscore(s: &String) -> (b: bool)
    ensures
        b == (s@.len() > 0 && s@[0] == '_'),
{
    let t = s.as_str();
    if t.unicode_len() == 0 {
        false
    } else {
        t.get_char(0) == '_'
    }
}

} // verus!

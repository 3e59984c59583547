//! The tree that the parser builds: nodes with exact byte spans into the source.
//!
//! Each text of a node (a selector, an at-rule's name and parameters, a
//! declaration's property and value) is a half-open byte span `(start, end)`.
use vstd::prelude::*;

verus! {

/// A declaration `prop: value`, with its `;` when one follows it.
#[derive(Debug)]
pub struct Declaration {
    pub prop: (usize, usize),
    pub value: (usize, usize),
    pub start: usize,
    pub end: usize,
}

/// A style rule `selector { ... }`.
#[derive(Debug)]
pub struct Rule {
    pub selector: (usize, usize),
    /// The offset of the block's `{`.
    pub open: usize,
    pub children: Vec<Node>,
    pub start: usize,
    pub end: usize,
}

/// An at-rule `@name params;` or `@name params { ... }`.
#[derive(Debug)]
pub struct AtRule {
    /// The name, without its `@`.
    pub name: (usize, usize),
    pub params: (usize, usize),
    /// The offset of the block's `{`; the end of the at-rule when it has no block.
    pub open: usize,
    /// The block's children; `None` for an at-rule without a block.
    pub children: Option<Vec<Node>>,
    pub start: usize,
    pub end: usize,
}

/// A comment at the top level.
#[derive(Debug)]
pub struct Comment {
    pub start: usize,
    pub end: usize,
}

/// The whole stylesheet.
#[derive(Debug)]
pub struct Root {
    pub children: Vec<Node>,
    pub start: usize,
    pub end: usize,
}

/// A node of the tree.
#[derive(Debug)]
pub enum Node {
    Root(Root),
    AtRule(AtRule),
    Rule(Rule),
    Decl(Declaration),
    Comment(Comment),
}

/// The byte span of a node.
pub open spec fn span_of(n: Node) -> (int, int) {
    match n {
        Node::Root(r) => (r.start as int, r.end as int),
        Node::AtRule(a) => (a.start as int, a.end as int),
        Node::Rule(r) => (r.start as int, r.end as int),
        Node::Decl(d) => (d.start as int, d.end as int),
        Node::Comment(c) => (c.start as int, c.end as int),
    }
}

/// Whether a span lies within `[lo, hi]`.
pub open spec fn span_within(span: (usize, usize), lo: int, hi: int) -> bool {
    lo <= span.0 <= span.1 <= hi
}

/// Whether `s[open]` is `{` and `s[end - 1]` is `}`.
pub open spec fn braced(s: Seq<u8>, open: int, end: int) -> bool {
    0 <= open < end <= s.len() && s[open] == 0x7b && s[end - 1] == 0x7d
}

/// Whether `n` is well formed in the source `s`: its parts lie in order within
/// its span, each block runs from a `{` to a `}`, and its children follow one
/// another inside its block.
pub open spec fn node_wf(s: Seq<u8>, n: Node) -> bool
    decreases n, 1int,
{
    match n {
        Node::Root(r) => r.start <= r.end && children_wf(s, r.children@, r.start as int, r.end as int),
        Node::AtRule(a) => {
            &&& a.start < a.name.0
            &&& span_within(a.name, a.start as int, a.params.0 as int)
            &&& span_within(a.params, a.name.1 as int, a.open as int)
            &&& a.open <= a.end
            &&& match a.children {
                Some(cs) => a.open < a.end && braced(s, a.open as int, a.end as int) && children_wf(s, cs@, a.open + 1, a.end - 1),
                None => a.open == a.end,
            }
        },
        Node::Rule(r) => {
            &&& span_within(r.selector, r.start as int, r.open as int)
            &&& r.open < r.end
            &&& braced(s, r.open as int, r.end as int)
            &&& children_wf(s, r.children@, r.open + 1, r.end - 1)
        },
        Node::Decl(d) => {
            &&& d.start == d.prop.0
            &&& span_within(d.prop, d.start as int, d.value.0 as int)
            &&& span_within(d.value, d.prop.1 as int, d.end as int)
        },
        Node::Comment(c) => c.start < c.end,
    }
}

/// Whether `cs` are well-formed nodes that follow one another within `[lo, hi]`.
pub open spec fn children_wf(s: Seq<u8>, cs: Seq<Node>, lo: int, hi: int) -> bool
    decreases cs, 0int,
{
    if cs.len() == 0 {
        lo <= hi
    } else {
        &&& lo <= span_of(cs[0]).0
        &&& !(cs[0] is Root)
        &&& node_wf(s, cs[0])
        &&& children_wf(s, cs.drop_first(), span_of(cs[0]).1, hi)
    }
}

/// A well-formed node's span does not run backwards.
pub proof fn lemma_node_span(s: Seq<u8>, n: Node)
    requires
        node_wf(s, n),
    ensures
        span_of(n).0 <= span_of(n).1,
{
}

/// Children that end by `hi` also end by any later bound.
pub proof fn lemma_children_widen(s: Seq<u8>, cs: Seq<Node>, lo: int, hi: int, hi2: int)
    requires
        children_wf(s, cs, lo, hi),
        hi <= hi2,
    ensures
        children_wf(s, cs, lo, hi2),
    decreases cs.len(),
{
    if cs.len() > 0 {
        lemma_children_widen(s, cs.drop_first(), span_of(cs[0]).1, hi, hi2);
    }
}

/// A well-formed node that starts after the last child can be appended.
pub proof fn lemma_children_push(s: Seq<u8>, cs: Seq<Node>, lo: int, mid: int, n: Node)
    requires
        children_wf(s, cs, lo, mid),
        mid <= span_of(n).0,
        node_wf(s, n),
        !(n is Root),
    ensures
        children_wf(s, cs.push(n), lo, span_of(n).1),
    decreases cs.len(),
{
    lemma_node_span(s, n);
    if cs.len() == 0 {
        assert(cs.push(n).drop_first() =~= Seq::<Node>::empty());
        assert(cs.push(n)[0] == n);
        assert(children_wf(s, Seq::<Node>::empty(), span_of(n).1, span_of(n).1));
        assert(lo <= mid);
    } else {
        assert(cs.push(n)[0] == cs[0]);
        lemma_children_push(s, cs.drop_first(), span_of(cs[0]).1, mid, n);
        assert(cs.push(n).drop_first() =~= cs.drop_first().push(n));
    }
}

impl Node {
    pub fn as_root(&self) -> (r: Option<&Root>)
        ensures
            r matches Some(v) ==> *self == Node::Root(*v),
            r is None <==> !(self is Root),
    {
        if let Node::Root(v) = self {
            Some(v)
        } else {
            None
        }
    }

    pub fn as_at_rule(&self) -> (r: Option<&AtRule>)
        ensures
            r matches Some(v) ==> *self == Node::AtRule(*v),
            r is None <==> !(self is AtRule),
    {
        if let Node::AtRule(v) = self {
            Some(v)
        } else {
            None
        }
    }

    pub fn as_rule(&self) -> (r: Option<&Rule>)
        ensures
            r matches Some(v) ==> *self == Node::Rule(*v),
            r is None <==> !(self is Rule),
    {
        if let Node::Rule(v) = self {
            Some(v)
        } else {
            None
        }
    }

    pub fn as_decl(&self) -> (r: Option<&Declaration>)
        ensures
            r matches Some(v) ==> *self == Node::Decl(*v),
            r is None <==> !(self is Decl),
    {
        if let Node::Decl(v) = self {
            Some(v)
        } else {
            None
        }
    }

    pub fn as_comment(&self) -> (r: Option<&Comment>)
        ensures
            r matches Some(v) ==> *self == Node::Comment(*v),
            r is None <==> !(self is Comment),
    {
        if let Node::Comment(v) = self {
            Some(v)
        } else {
            None
        }
    }

    pub fn as_root_mut(&mut self) -> (r: Option<&mut Root>)
        ensures
            r is None <==> !(*old(self) is Root),
            r is None ==> *final(self) == *old(self),
            r matches Some(v) ==>
                *old(self)
                    == Node::Root(*v) && *final(self) == Node::Root(*final(v)),
    {
        if let Node::Root(v) = self {
            Some(v)
        } else {
            None
        }
    }

    pub fn as_at_rule_mut(&mut self) -> (r: Option<&mut AtRule>)
        ensures
            r is None <==> !(*old(self) is AtRule),
            r is None ==> *final(self) == *old(self),
            r matches Some(v) ==>
                *old(self)
                    == Node::AtRule(*v) && *final(self) == Node::AtRule(*final(v)),
    {
        if let Node::AtRule(v) = self {
            Some(v)
        } else {
            None
        }
    }

    pub fn as_rule_mut(&mut self) -> (r: Option<&mut Rule>)
        ensures
            r is None <==> !(*old(self) is Rule),
            r is None ==> *final(self) == *old(self),
            r matches Some(v) ==>
                *old(self)
                    == Node::Rule(*v) && *final(self) == Node::Rule(*final(v)),
    {
        if let Node::Rule(v) = self {
            Some(v)
        } else {
            None
        }
    }

    pub fn as_decl_mut(&mut self) -> (r: Option<&mut Declaration>)
        ensures
            r is None <==> !(*old(self) is Decl),
            r is None ==> *final(self) == *old(self),
            r matches Some(v) ==>
                *old(self)
                    == Node::Decl(*v) && *final(self) == Node::Decl(*final(v)),
    {
        if let Node::Decl(v) = self {
            Some(v)
        } else {
            None
        }
    }

    pub fn as_comment_mut(&mut self) -> (r: Option<&mut Comment>)
        ensures
            r is None <==> !(*old(self) is Comment),
            r is None ==> *final(self) == *old(self),
            r matches Some(v) ==>
                *old(self)
                    == Node::Comment(*v) && *final(self) == Node::Comment(*final(v)),
    {
        if let Node::Comment(v) = self {
            Some(v)
        } else {
            None
        }
    }

    pub fn is_root(&self) -> (r: bool)
        ensures
            r == self is Root,
    {
        matches!(self, Node::Root(..))
    }

    pub fn is_at_rule(&self) -> (r: bool)
        ensures
            r == self is AtRule,
    {
        matches!(self, Node::AtRule(..))
    }

    pub fn is_rule(&self) -> (r: bool)
        ensures
            r == self is Rule,
    {
        matches!(self, Node::Rule(..))
    }

    pub fn is_decl(&self) -> (r: bool)
        ensures
            r == self is Decl,
    {
        matches!(self, Node::Decl(..))
    }

    pub fn is_comment(&self) -> (r: bool)
        ensures
            r == self is Comment,
    {
        matches!(self, Node::Comment(..))
    }
}

} // verus!

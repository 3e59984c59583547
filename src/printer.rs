//! A readable dump of a tree: one line per node with its kind and byte range,
//! and one line per text of the node, indented by depth.
use crate::node::{children_wf, node_wf, span_of, Node, Root};
use crate::stringifier::lemma_children_bound;
use vstd::prelude::*;
use vstd::string::StringSliceAdditionalSpecFns;

verus! {

/// The decimal digits of `n`.
pub open spec fn dec(n: nat) -> Seq<u8>
    decreases n,
{
    if n < 10 {
        seq![(48 + n) as u8]
    } else {
        dec(n / 10).push((48 + n % 10) as u8)
    }
}

/// Two spaces per level.
pub open spec fn indent(level: nat) -> Seq<u8>
    decreases level,
{
    if level == 0 {
        Seq::empty()
    } else {
        indent((level - 1) as nat) + seq![32u8, 32u8]
    }
}

/// The level under `level`.
pub open spec fn deeper(level: usize) -> usize {
    if level < usize::MAX {
        (level + 1) as usize
    } else {
        level
    }
}

/// `start..end`.
pub open spec fn range_text(span: (int, int)) -> Seq<u8> {
    dec(span.0 as nat) + "..".spec_bytes() + dec(span.1 as nat)
}

/// A line `label: `text`` one level under `level`.
pub open spec fn field_line(s: Seq<u8>, level: usize, label: Seq<u8>, span: (usize, usize)) -> Seq<u8> {
    indent(deeper(level) as nat) + label + ": `".spec_bytes() + s.subrange(span.0 as int, span.1 as int)
        + "`\n".spec_bytes()
}

/// The dump of `n` at `level`.
pub open spec fn node_dump(s: Seq<u8>, n: Node, level: usize) -> Seq<u8>
    decreases n, 1int,
{
    match n {
        Node::Root(r) => indent(level as nat) + "Root@".spec_bytes() + range_text(span_of(n))
            + "\n".spec_bytes() + children_dump(s, r.children@, deeper(level)),
        Node::Rule(r) => indent(level as nat) + "Rule@".spec_bytes() + range_text(span_of(n))
            + "\n".spec_bytes() + field_line(s, level, "selector".spec_bytes(), r.selector)
            + children_dump(s, r.children@, deeper(level)),
        Node::AtRule(a) => indent(level as nat) + "AtRule@".spec_bytes() + range_text(span_of(n))
            + "\n".spec_bytes() + field_line(s, level, "name".spec_bytes(), a.name) + field_line(
            s,
            level,
            "params".spec_bytes(),
            a.params,
        ) + match a.children {
            Some(cs) => children_dump(s, cs@, deeper(level)),
            None => Seq::empty(),
        },
        Node::Decl(d) => indent(level as nat) + "Declaration@".spec_bytes() + range_text(
            span_of(n),
        ) + "\n".spec_bytes() + field_line(s, level, "prop".spec_bytes(), d.prop) + field_line(
            s,
            level,
            "value".spec_bytes(),
            d.value,
        ),
        Node::Comment(_) => Seq::empty(),
    }
}

/// The dumps of the nodes `cs` at `level`, one after another.
pub open spec fn children_dump(s: Seq<u8>, cs: Seq<Node>, level: usize) -> Seq<u8>
    decreases cs, 0int,
{
    if cs.len() == 0 {
        Seq::empty()
    } else {
        node_dump(s, cs[0], level) + children_dump(s, cs.drop_first(), level)
    }
}

/// Writes the dump of a tree into a buffer of bytes.
pub struct AstPrinter<'a> {
    css: &'a [u8],
    level: usize,
    writer: Vec<u8>,
}

impl<'a> AstPrinter<'a> {
    /// The bytes of the source the tree belongs to.
    pub closed spec fn source(&self) -> Seq<u8> {
        self.css@
    }

    /// The depth at which the next node is written.
    pub closed spec fn depth(&self) -> usize {
        self.level
    }

    /// What was written so far.
    pub closed spec fn written(&self) -> Seq<u8> {
        self.writer@
    }

    /// A printer for trees of `css` that starts at depth `level`.
    pub fn new(level: usize, css: &'a str) -> (r: AstPrinter<'a>)
        ensures
            r.source() == css.spec_bytes(),
            r.depth() == level,
            r.written() == Seq::<u8>::empty(),
    {
        AstPrinter { css: css.as_bytes(), level, writer: Vec::new() }
    }

    /// Writes the dump of `root`.
    pub fn print(&mut self, root: &Root)
        requires
            node_wf(old(self).source(), Node::Root(*root)),
            root.end <= old(self).source().len(),
        ensures
            final(self).source() == old(self).source(),
            final(self).depth() == old(self).depth(),
            final(self).written() == old(self).written() + node_dump(
                old(self).source(),
                Node::Root(*root),
                old(self).depth(),
            ),
    {
        let level = self.level;
        self.put_indent(level);
        self.put("Root@".as_bytes());
        self.put_range(root.start, root.end);
        self.put("\n".as_bytes());
        let ghost before = self.writer@;
        self.put_children(&root.children, deeper_exec(level), root.start, root.end);
        proof {
            assert(self.writer@ =~= before + children_dump(
                self.css@,
                root.children@,
                deeper(level),
            ));
        }
    }

    /// What was written.
    pub fn result(self) -> (r: Vec<u8>)
        ensures
            r@ == self.written(),
    {
        self.writer
    }

    fn put(&mut self, bytes: &[u8])
        ensures
            final(self).writer@ == old(self).writer@ + bytes@,
            final(self).css == old(self).css,
            final(self).level == old(self).level,
    {
        let mut i: usize = 0;
        while i < bytes.len()
            invariant
                i <= bytes@.len(),
                self.writer@ == old(self).writer@ + bytes@.subrange(0, i as int),
                self.css == old(self).css,
                self.level == old(self).level,
            decreases bytes@.len() - i,
        {
            self.writer.push(bytes[i]);
            proof {
                assert(bytes@.subrange(0, i + 1) =~= bytes@.subrange(0, i as int).push(bytes@[i as int]));
            }
            i = i + 1;
        }
        proof {
            assert(bytes@.subrange(0, bytes@.len() as int) =~= bytes@);
        }
    }

    fn put_indent(&mut self, level: usize)
        ensures
            final(self).writer@ == old(self).writer@ + indent(level as nat),
            final(self).css == old(self).css,
            final(self).level == old(self).level,
    {
        let mut i: usize = 0;
        while i < level
            invariant
                i <= level,
                self.writer@ == old(self).writer@ + indent(i as nat),
                self.css == old(self).css,
                self.level == old(self).level,
            decreases level - i,
        {
            self.writer.push(32);
            self.writer.push(32);
            proof {
                assert(indent((i + 1) as nat) == indent(i as nat) + seq![32u8, 32u8]);
            }
            i = i + 1;
        }
    }

    fn put_dec(&mut self, n: usize)
        ensures
            final(self).writer@ == old(self).writer@ + dec(n as nat),
            final(self).css == old(self).css,
            final(self).level == old(self).level,
        decreases n,
    {
        if n >= 10 {
            self.put_dec(n / 10);
        }
        self.writer.push((48 + n % 10) as u8);
    }

    fn put_range(&mut self, start: usize, end: usize)
        ensures
            final(self).writer@ == old(self).writer@ + range_text((start as int, end as int)),
            final(self).css == old(self).css,
            final(self).level == old(self).level,
    {
        self.put_dec(start);
        self.put("..".as_bytes());
        self.put_dec(end);
    }

    fn put_field(&mut self, level: usize, label: &str, span: (usize, usize))
        requires
            span.0 <= span.1 <= old(self).css@.len(),
        ensures
            final(self).writer@ == old(self).writer@ + field_line(
                old(self).css@,
                level,
                label.spec_bytes(),
                span,
            ),
            final(self).css == old(self).css,
            final(self).level == old(self).level,
    {
        self.put_indent(deeper_exec(level));
        self.put(label.as_bytes());
        self.put(": `".as_bytes());
        let text = vstd::slice::slice_subrange(self.css, span.0, span.1);
        self.put(text);
        self.put("`\n".as_bytes());
    }

    #[verifier::rlimit(40)]
    fn put_node(&mut self, n: &Node, level: usize)
        requires
            node_wf(old(self).css@, *n),
            !(*n is Root),
            span_of(*n).1 <= old(self).css@.len(),
        ensures
            final(self).writer@ == old(self).writer@ + node_dump(old(self).css@, *n, level),
            final(self).css == old(self).css,
            final(self).level == old(self).level,
        decreases *n, 2int,
    {
        let ghost s = self.css@;
        match n {
            Node::Rule(r) => {
                self.put_indent(level);
                self.put("Rule@".as_bytes());
                self.put_range(r.start, r.end);
                self.put("\n".as_bytes());
                self.put_field(level, "selector", r.selector);
                self.put_children(&r.children, deeper_exec(level), r.open + 1, r.end - 1);
            },
            Node::AtRule(a) => {
                self.put_indent(level);
                self.put("AtRule@".as_bytes());
                self.put_range(a.start, a.end);
                self.put("\n".as_bytes());
                self.put_field(level, "name", a.name);
                self.put_field(level, "params", a.params);
                match &a.children {
                    Some(cs) => {
                        self.put_children(cs, deeper_exec(level), a.open + 1, a.end - 1);
                    },
                    None => {},
                }
            },
            Node::Decl(d) => {
                self.put_indent(level);
                self.put("Declaration@".as_bytes());
                self.put_range(d.start, d.end);
                self.put("\n".as_bytes());
                self.put_field(level, "prop", d.prop);
                self.put_field(level, "value", d.value);
            },
            _ => {},
        }
    }

    fn put_children(&mut self, cs: &Vec<Node>, level: usize, lo: usize, hi: usize)
        requires
            children_wf(old(self).css@, cs@, lo as int, hi as int),
            hi <= old(self).css@.len(),
        ensures
            final(self).writer@ == old(self).writer@ + children_dump(old(self).css@, cs@, level),
            final(self).css == old(self).css,
            final(self).level == old(self).level,
        decreases cs@, 1int,
    {
        let ghost s = self.css@;
        let mut i: usize = 0;
        let ghost mut at: int = lo as int;
        assert(cs@.subrange(0, cs@.len() as int) =~= cs@);
        while i < cs.len()
            invariant
                i <= cs@.len(),
                s == self.css@,
                self.css == old(self).css,
                self.level == old(self).level,
                hi <= s.len(),
                children_wf(s, cs@.subrange(i as int, cs@.len() as int), at, hi as int),
                old(self).writer@ + children_dump(s, cs@, level) == self.writer@ + children_dump(
                    s,
                    cs@.subrange(i as int, cs@.len() as int),
                    level,
                ),
            decreases cs@.len() - i,
        {
            let ghost rest = cs@.subrange(i as int, cs@.len() as int);
            assert(rest[0] == cs@[i as int]);
            assert(rest.drop_first() =~= cs@.subrange(i + 1, cs@.len() as int));
            proof {
                lemma_children_bound(s, rest.drop_first(), span_of(rest[0]).1, hi as int);
            }
            self.put_node(&cs[i], level);
            proof {
                assert(children_dump(s, rest, level) == node_dump(s, cs@[i as int], level)
                    + children_dump(s, rest.drop_first(), level));
                assert(self.writer@ + children_dump(s, rest.drop_first(), level) =~= old(self).writer@
                    + children_dump(s, cs@, level));
                at = span_of(rest[0]).1;
            }
            i = i + 1;
        }
        proof {
            assert(cs@.subrange(i as int, cs@.len() as int) =~= Seq::<Node>::empty());
            assert(old(self).writer@ + children_dump(s, cs@, level) =~= self.writer@);
        }
    }
}

fn deeper_exec(level: usize) -> (r: usize)
    ensures
        r == deeper(level),
{
    if level < usize::MAX {
        level + 1
    } else {
        level
    }
}

/// The dump of `root`, a tree of `css`, from depth 0.
pub fn pretty_print_ast(css: &str, root: &Root) -> (r: Vec<u8>)
    requires
        node_wf(css.spec_bytes(), Node::Root(*root)),
        root.end <= css.spec_bytes().len(),
    ensures
        r@ == node_dump(css.spec_bytes(), Node::Root(*root), 0),
{
    let mut printer = AstPrinter::new(0, css);
    printer.print(root);
    let r = printer.result();
    proof {
        assert(r@ =~= node_dump(css.spec_bytes(), Node::Root(*root), 0));
    }
    r
}

} // verus!

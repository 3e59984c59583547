//! The stringifier: walks a tree and emits its text as a series of chunks.
//!
//! Each chunk is a byte span of the source, with the kind of node it belongs
//! to (none for the spaces and comments between nodes) and, for the two ends
//! of a block, which end it is. A caller turns chunks into text, or into a
//! table of positions, as it needs.
use crate::node::{children_wf, node_wf, span_of, Node, Root};
use vstd::prelude::*;
use vstd::string::{StrSliceExecFns, StringExecFns, StringSliceAdditionalSpecFns};

verus! {

/// The kind of a node, as a chunk records it.
#[derive(Debug, Clone, Copy, PartialEq, Eq, Structural)]
pub enum NodeKind {
    Root,
    AtRule,
    Rule,
    Decl,
    Comment,
}

/// Which end of a block a chunk is.
#[derive(Debug, Clone, Copy, PartialEq, Eq, Structural)]
pub enum Boundary {
    /// The text of a rule or at-rule up to and with its `{`.
    Start,
    /// The `}` of a block.
    End,
}

/// A piece of output: the source bytes `[start, end)`, the node they belong
/// to, and the block end they are, if any.
#[derive(Debug, Clone, Copy, PartialEq, Eq, Structural)]
pub struct Chunk {
    pub start: usize,
    pub end: usize,
    pub node: Option<NodeKind>,
    pub boundary: Option<Boundary>,
}

/// The text between nodes, `[a, b)`, as a chunk of no node; nothing when empty.
pub open spec fn between(a: int, b: int) -> Seq<Chunk> {
    if a < b {
        seq![Chunk { start: a as usize, end: b as usize, node: None, boundary: None }]
    } else {
        Seq::empty()
    }
}

/// The chunks of a block's body `[lo, hi)` holding the children `cs`.
pub open spec fn body_chunks(cs: Seq<Node>, lo: int, hi: int) -> Seq<Chunk>
    decreases cs, 0int,
{
    if cs.len() == 0 {
        between(lo, hi)
    } else {
        between(lo, span_of(cs[0]).0) + node_chunks(cs[0]) + body_chunks(
            cs.drop_first(),
            span_of(cs[0]).1,
            hi,
        )
    }
}

/// The chunk of a block node's head, up to and with its `{`.
pub open spec fn head_chunk(kind: NodeKind, start: usize, open: usize) -> Chunk {
    Chunk { start: start, end: (open + 1) as usize, node: Some(kind), boundary: Some(Boundary::Start) }
}

/// The chunk of a block node's `}`.
pub open spec fn close_chunk(kind: NodeKind, end: usize) -> Chunk {
    Chunk { start: (end - 1) as usize, end: end, node: Some(kind), boundary: Some(Boundary::End) }
}

/// The chunks that the stringifier emits for `n`.
pub open spec fn node_chunks(n: Node) -> Seq<Chunk>
    decreases n, 1int,
{
    match n {
        Node::Root(r) => body_chunks(r.children@, r.start as int, r.end as int),
        Node::Rule(r) => seq![head_chunk(NodeKind::Rule, r.start, r.open)] + body_chunks(
            r.children@,
            r.open + 1,
            r.end - 1,
        ) + seq![close_chunk(NodeKind::Rule, r.end)],
        Node::AtRule(a) => match a.children {
            Some(cs) => seq![head_chunk(NodeKind::AtRule, a.start, a.open)] + body_chunks(
                cs@,
                a.open + 1,
                a.end - 1,
            ) + seq![close_chunk(NodeKind::AtRule, a.end)],
            None => seq![
                Chunk { start: a.start, end: a.end, node: Some(NodeKind::AtRule), boundary: None },
            ],
        },
        Node::Decl(d) => seq![
            Chunk { start: d.start, end: d.end, node: Some(NodeKind::Decl), boundary: None },
        ],
        Node::Comment(c) => seq![
            Chunk { start: c.start, end: c.end, node: Some(NodeKind::Comment), boundary: None },
        ],
    }
}

/// Whether the chunks `cs` follow one another from `from` to `to`.
pub open spec fn chunks_tile(cs: Seq<Chunk>, from: int, to: int) -> bool
    decreases cs.len(),
{
    if cs.len() == 0 {
        from == to
    } else {
        cs[0].start == from && cs[0].start <= cs[0].end && chunks_tile(
            cs.drop_first(),
            cs[0].end as int,
            to,
        )
    }
}

/// The text of the chunks `cs` of the source `s`, one after another.
pub open spec fn chunks_text(s: Seq<u8>, cs: Seq<Chunk>) -> Seq<u8>
    decreases cs.len(),
{
    if cs.len() == 0 {
        Seq::empty()
    } else {
        s.subrange(cs[0].start as int, cs[0].end as int) + chunks_text(s, cs.drop_first())
    }
}

/// Emits the chunks of nodes into a list, in document order.
pub struct Stringifier {
    chunks: Vec<Chunk>,
}

impl View for Stringifier {
    type V = Seq<Chunk>;

    closed spec fn view(&self) -> Seq<Chunk> {
        self.chunks@
    }
}

impl Stringifier {
    /// A stringifier that has emitted nothing yet.
    pub fn new() -> (r: Stringifier)
        ensures
            r@ == Seq::<Chunk>::empty(),
    {
        Stringifier { chunks: Vec::new() }
    }

    /// The chunks emitted so far.
    pub fn result(self) -> (r: Vec<Chunk>)
        ensures
            r@ == self@,
    {
        self.chunks
    }

    fn emit(&mut self, c: Chunk)
        ensures
            final(self)@ == old(self)@.push(c),
    {
        self.chunks.push(c);
    }

    fn emit_between(&mut self, a: usize, b: usize)
        ensures
            final(self)@ == old(self)@ + between(a as int, b as int),
    {
        if a < b {
            self.chunks.push(Chunk { start: a, end: b, node: None, boundary: None });
        } else {
            assert(old(self)@ + between(a as int, b as int) =~= old(self)@);
        }
    }

    /// Emits the body `[lo, hi)` of a block holding `cs`.
    fn body(&mut self, cs: &Vec<Node>, lo: usize, hi: usize)
        requires
            all_blocks_fit(cs@),
        ensures
            final(self)@ == old(self)@ + body_chunks(cs@, lo as int, hi as int),
        decreases cs@, 1int,
    {
        let mut i: usize = 0;
        let mut at = lo;
        assert(cs@.subrange(0, cs@.len() as int) =~= cs@);
        while i < cs.len()
            invariant
                i <= cs@.len(),
                all_blocks_fit(cs@.subrange(i as int, cs@.len() as int)),
                old(self)@ + body_chunks(cs@, lo as int, hi as int) == self@ + body_chunks(
                    cs@.subrange(i as int, cs@.len() as int),
                    at as int,
                    hi as int,
                ),
            decreases cs@.len() - i,
        {
            let ghost rest = cs@.subrange(i as int, cs@.len() as int);
            assert(rest[0] == cs@[i as int]);
            assert(rest.drop_first() =~= cs@.subrange(i + 1, cs@.len() as int));
            let child = &cs[i];
            let (start, end) = span(child);
            self.emit_between(at, start);
            self.stringify(child);
            proof {
                assert(self@ + body_chunks(rest.drop_first(), end as int, hi as int) =~= old(self)@
                    + body_chunks(cs@, lo as int, hi as int)) by {
                    assert(body_chunks(rest, at as int, hi as int) == between(at as int, start as int)
                        + node_chunks(cs@[i as int]) + body_chunks(rest.drop_first(), end as int, hi as int));
                }
            }
            at = end;
            i = i + 1;
        }
        proof {
            assert(cs@.subrange(i as int, cs@.len() as int) =~= Seq::<Node>::empty());
        }
        self.emit_between(at, hi);
    }

    /// Emits the chunks of `node`, in document order.
    pub fn stringify(&mut self, node: &Node)
        requires
            blocks_fit(*node),
        ensures
            final(self)@ == old(self)@ + node_chunks(*node),
        decreases *node, 2int,
    {
        match node {
            Node::Root(r) => {
                self.body(&r.children, r.start, r.end);
            },
            Node::Rule(r) => {
                self.emit(
                    Chunk {
                        start: r.start,
                        end: r.open + 1,
                        node: Some(NodeKind::Rule),
                        boundary: Some(Boundary::Start),
                    },
                );
                self.body(&r.children, r.open + 1, r.end - 1);
                self.emit(
                    Chunk {
                        start: r.end - 1,
                        end: r.end,
                        node: Some(NodeKind::Rule),
                        boundary: Some(Boundary::End),
                    },
                );
            },
            Node::AtRule(a) => match &a.children {
                Some(cs) => {
                    self.emit(
                        Chunk {
                            start: a.start,
                            end: a.open + 1,
                            node: Some(NodeKind::AtRule),
                            boundary: Some(Boundary::Start),
                        },
                    );
                    self.body(cs, a.open + 1, a.end - 1);
                    self.emit(
                        Chunk {
                            start: a.end - 1,
                            end: a.end,
                            node: Some(NodeKind::AtRule),
                            boundary: Some(Boundary::End),
                        },
                    );
                },
                None => {
                    self.emit(
                        Chunk { start: a.start, end: a.end, node: Some(NodeKind::AtRule), boundary: None },
                    );
                },
            },
            Node::Decl(d) => {
                self.emit(
                    Chunk { start: d.start, end: d.end, node: Some(NodeKind::Decl), boundary: None },
                );
            },
            Node::Comment(c) => {
                self.emit(
                    Chunk { start: c.start, end: c.end, node: Some(NodeKind::Comment), boundary: None },
                );
            },
        }
    }
}

/// The span of a node.
fn span(n: &Node) -> (r: (usize, usize))
    ensures
        r.0 == span_of(*n).0 && r.1 == span_of(*n).1,
{
    match n {
        Node::Root(r) => (r.start, r.end),
        Node::AtRule(a) => (a.start, a.end),
        Node::Rule(r) => (r.start, r.end),
        Node::Decl(d) => (d.start, d.end),
        Node::Comment(c) => (c.start, c.end),
    }
}

/// Whether every block of `n` and of the nodes in it has room for its `{` and
/// its `}`: what the stringifier needs to emit them.
pub open spec fn blocks_fit(n: Node) -> bool
    decreases n, 1int,
{
    match n {
        Node::Root(r) => all_blocks_fit(r.children@),
        Node::Rule(r) => r.open < r.end && all_blocks_fit(r.children@),
        Node::AtRule(a) => match a.children {
            Some(cs) => a.open < a.end && all_blocks_fit(cs@),
            None => true,
        },
        Node::Decl(_) => true,
        Node::Comment(_) => true,
    }
}

/// Whether the blocks of every node of `cs` fit.
pub open spec fn all_blocks_fit(cs: Seq<Node>) -> bool
    decreases cs, 0int,
{
    if cs.len() == 0 {
        true
    } else {
        blocks_fit(cs[0]) && all_blocks_fit(cs.drop_first())
    }
}


// ---------------------------------------------------------------------------
// Reconstruction

proof fn lemma_blocks_fit(s: Seq<u8>, n: Node)
    requires
        node_wf(s, n),
    ensures
        blocks_fit(n),
    decreases n, 1int,
{
    match n {
        Node::Root(r) => lemma_all_blocks_fit(s, r.children@, r.start as int, r.end as int),
        Node::Rule(r) => lemma_all_blocks_fit(s, r.children@, r.open + 1, r.end - 1),
        Node::AtRule(a) => {
            if let Some(cs) = a.children {
                lemma_all_blocks_fit(s, cs@, a.open + 1, a.end - 1);
            }
        },
        _ => {},
    }
}

proof fn lemma_all_blocks_fit(s: Seq<u8>, cs: Seq<Node>, lo: int, hi: int)
    requires
        children_wf(s, cs, lo, hi),
    ensures
        all_blocks_fit(cs),
    decreases cs, 0int,
{
    if cs.len() > 0 {
        lemma_blocks_fit(s, cs[0]);
        lemma_all_blocks_fit(s, cs.drop_first(), span_of(cs[0]).1, hi);
    }
}

proof fn lemma_tile_append(a: Seq<Chunk>, b: Seq<Chunk>, x: int, y: int, z: int)
    requires
        chunks_tile(a, x, y),
        chunks_tile(b, y, z),
    ensures
        chunks_tile(a + b, x, z),
    decreases a.len(),
{
    if a.len() == 0 {
        assert(a + b =~= b);
    } else {
        lemma_tile_append(a.drop_first(), b, a[0].end as int, y, z);
        assert((a + b).drop_first() =~= a.drop_first() + b);
        assert((a + b)[0] == a[0]);
    }
}

proof fn lemma_between_tile(a: int, b: int)
    requires
        0 <= a <= b <= usize::MAX,
    ensures
        chunks_tile(between(a, b), a, b),
{
    if a < b {
        assert(between(a, b).drop_first() =~= Seq::<Chunk>::empty());
        assert(chunks_tile(Seq::<Chunk>::empty(), b, b));
        assert(between(a, b)[0].start == a);
    }
}

proof fn lemma_one_tile(c: Chunk)
    requires
        c.start <= c.end,
    ensures
        chunks_tile(seq![c], c.start as int, c.end as int),
{
    assert(seq![c].drop_first() =~= Seq::<Chunk>::empty());
    assert(chunks_tile(Seq::<Chunk>::empty(), c.end as int, c.end as int));
    assert(seq![c][0] == c);
}

/// The chunks of a well-formed node tile its span.
proof fn lemma_node_chunks_tile(s: Seq<u8>, n: Node)
    requires
        node_wf(s, n),
        span_of(n).1 <= s.len(),
        s.len() <= usize::MAX,
    ensures
        chunks_tile(node_chunks(n), span_of(n).0, span_of(n).1),
    decreases n, 1int,
{
    match n {
        Node::Root(r) => lemma_body_chunks_tile(s, r.children@, r.start as int, r.end as int),
        Node::Rule(r) => {
            let head = head_chunk(NodeKind::Rule, r.start, r.open);
            let close = close_chunk(NodeKind::Rule, r.end);
            lemma_one_tile(head);
            lemma_one_tile(close);
            lemma_body_chunks_tile(s, r.children@, r.open + 1, r.end - 1);
            let body = body_chunks(r.children@, r.open + 1, r.end - 1);
            lemma_tile_append(seq![head], body, r.start as int, r.open + 1, r.end - 1);
            lemma_tile_append(seq![head] + body, seq![close], r.start as int, r.end - 1, r.end as int);
        },
        Node::AtRule(a) => {
            match a.children {
                Some(cs) => {
                    let head = head_chunk(NodeKind::AtRule, a.start, a.open);
                    let close = close_chunk(NodeKind::AtRule, a.end);
                    lemma_one_tile(head);
                    lemma_one_tile(close);
                    lemma_body_chunks_tile(s, cs@, a.open + 1, a.end - 1);
                    let body = body_chunks(cs@, a.open + 1, a.end - 1);
                    lemma_tile_append(seq![head], body, a.start as int, a.open + 1, a.end - 1);
                    lemma_tile_append(
                        seq![head] + body,
                        seq![close],
                        a.start as int,
                        a.end - 1,
                        a.end as int,
                    );
                },
                None => {
                    lemma_one_tile(
                        Chunk { start: a.start, end: a.end, node: Some(NodeKind::AtRule), boundary: None },
                    );
                },
            }
        },
        Node::Decl(d) => {
            lemma_one_tile(
                Chunk { start: d.start, end: d.end, node: Some(NodeKind::Decl), boundary: None },
            );
        },
        Node::Comment(c) => {
            lemma_one_tile(
                Chunk { start: c.start, end: c.end, node: Some(NodeKind::Comment), boundary: None },
            );
        },
    }
}

/// The chunks of a block's body tile the body.
proof fn lemma_body_chunks_tile(s: Seq<u8>, cs: Seq<Node>, lo: int, hi: int)
    requires
        children_wf(s, cs, lo, hi),
        0 <= lo,
        hi <= s.len() <= usize::MAX,
    ensures
        chunks_tile(body_chunks(cs, lo, hi), lo, hi),
    decreases cs, 0int,
{
    if cs.len() == 0 {
        lemma_between_tile(lo, hi);
    } else {
        let (a, b) = span_of(cs[0]);
        crate::node::lemma_node_span(s, cs[0]);
        lemma_children_bound(s, cs.drop_first(), b, hi);
        lemma_between_tile(lo, a);
        lemma_node_chunks_tile(s, cs[0]);
        lemma_body_chunks_tile(s, cs.drop_first(), b, hi);
        lemma_tile_append(between(lo, a), node_chunks(cs[0]), lo, a, b);
        lemma_tile_append(
            between(lo, a) + node_chunks(cs[0]),
            body_chunks(cs.drop_first(), b, hi),
            lo,
            b,
            hi,
        );
    }
}

/// Children that follow one another within `[lo, hi]` leave `lo <= hi`.
pub proof fn lemma_children_bound(s: Seq<u8>, cs: Seq<Node>, lo: int, hi: int)
    requires
        children_wf(s, cs, lo, hi),
    ensures
        lo <= hi,
    decreases cs, 0int,
{
    if cs.len() > 0 {
        crate::node::lemma_node_span(s, cs[0]);
        lemma_children_bound(s, cs.drop_first(), span_of(cs[0]).1, hi);
    }
}

/// Chunks that tile `[from, to)` of `s` reproduce that part of `s`.
proof fn lemma_chunks_text(s: Seq<u8>, cs: Seq<Chunk>, from: int, to: int)
    requires
        chunks_tile(cs, from, to),
        0 <= from,
        to <= s.len(),
    ensures
        from <= to,
        chunks_text(s, cs) == s.subrange(from, to),
    decreases cs.len(),
{
    if cs.len() > 0 {
        lemma_chunks_text(s, cs.drop_first(), cs[0].end as int, to);
        assert(s.subrange(from, cs[0].end as int) + s.subrange(cs[0].end as int, to)
            =~= s.subrange(from, to));
    } else {
        assert(s.subrange(from, to) =~= Seq::<u8>::empty());
    }
}

/// Round trip: the chunks of a well-formed tree that spans its whole source
/// reproduce the source, byte for byte.
pub proof fn lemma_round_trip(s: Seq<u8>, root: Root)
    requires
        node_wf(s, Node::Root(root)),
        root.start == 0,
        root.end == s.len(),
        s.len() <= usize::MAX,
    ensures
        chunks_text(s, node_chunks(Node::Root(root))) == s,
{
    lemma_node_chunks_tile(s, Node::Root(root));
    lemma_chunks_text(s, node_chunks(Node::Root(root)), 0, s.len() as int);
    assert(s.subrange(0, s.len() as int) =~= s);
}

/// The source text of the body `[lo, hi)` of a block, cut at its children:
/// the text before each child, then the child's own span, and so on.
pub open spec fn span_pieces(s: Seq<u8>, cs: Seq<Node>, lo: int, hi: int) -> Seq<u8>
    decreases cs.len(),
{
    if cs.len() == 0 {
        s.subrange(lo, hi)
    } else {
        s.subrange(lo, span_of(cs[0]).0) + s.subrange(span_of(cs[0]).0, span_of(cs[0]).1)
            + span_pieces(s, cs.drop_first(), span_of(cs[0]).1, hi)
    }
}

/// Span coverage: the spans of well-formed children, with the text between
/// them, in document order, make up the span of their parent's body.
pub proof fn lemma_span_coverage(s: Seq<u8>, cs: Seq<Node>, lo: int, hi: int)
    requires
        children_wf(s, cs, lo, hi),
        0 <= lo,
        hi <= s.len(),
    ensures
        span_pieces(s, cs, lo, hi) == s.subrange(lo, hi),
    decreases cs.len(),
{
    if cs.len() > 0 {
        let (a, b) = span_of(cs[0]);
        crate::node::lemma_node_span(s, cs[0]);
        lemma_children_bound(s, cs.drop_first(), b, hi);
        lemma_span_coverage(s, cs.drop_first(), b, hi);
        assert(s.subrange(lo, a) + s.subrange(a, b) + s.subrange(b, hi) =~= s.subrange(lo, hi));
    }
}

proof fn lemma_tile_step(cs: Seq<Chunk>, i: int, from: int, to: int)
    requires
        0 <= i < cs.len(),
        chunks_tile(cs.subrange(i, cs.len() as int), from, to),
    ensures
        cs[i].start == from,
        cs[i].start <= cs[i].end,
        chunks_tile(cs.subrange(i + 1, cs.len() as int), cs[i].end as int, to),
{
    let rest = cs.subrange(i, cs.len() as int);
    assert(rest[0] == cs[i]);
    assert(rest.drop_first() =~= cs.subrange(i + 1, cs.len() as int));
}

proof fn lemma_tile_bound(cs: Seq<Chunk>, from: int, to: int)
    requires
        chunks_tile(cs, from, to),
    ensures
        from <= to,
    decreases cs.len(),
{
    if cs.len() > 0 {
        lemma_tile_bound(cs.drop_first(), cs[0].end as int, to);
    }
}

/// The text of `node`, a well-formed node of `css`: the texts of its chunks,
/// one after another, which make up the node's span. For the root that
/// [`crate::parser::parse`] returns, this is the whole of `css`.
pub fn stringify(css: &str, node: &Node) -> (r: Vec<u8>)
    requires
        node_wf(css.spec_bytes(), *node),
        span_of(*node).1 <= css.spec_bytes().len(),
    ensures
        r@ == chunks_text(css.spec_bytes(), node_chunks(*node)),
        r@ == css.spec_bytes().subrange(span_of(*node).0, span_of(*node).1),
{
    let s = css.as_bytes();
    let _len = s.len();
    let ghost sb = css.spec_bytes();
    proof {
        lemma_blocks_fit(sb, *node);
        lemma_node_chunks_tile(sb, *node);
    }
    let mut st = Stringifier::new();
    st.stringify(node);
    let chunks = st.result();
    let (from, to) = span(node);
    let mut out: Vec<u8> = Vec::new();
    let mut i: usize = 0;
    let mut cur: usize = from;
    proof {
        assert(chunks@.subrange(0, chunks@.len() as int) =~= chunks@);
        assert(out@ =~= sb.subrange(from as int, cur as int));
    }
    while i < chunks.len()
        invariant
            s@ == sb,
            sb.len() <= usize::MAX,
            to <= sb.len(),
            i <= chunks@.len(),
            from <= cur,
            chunks_tile(chunks@.subrange(i as int, chunks@.len() as int), cur as int, to as int),
            out@ == sb.subrange(from as int, cur as int),
        decreases chunks@.len() - i,
    {
        let c = chunks[i];
        proof {
            lemma_tile_step(chunks@, i as int, cur as int, to as int);
            lemma_tile_bound(chunks@.subrange(i + 1, chunks@.len() as int), c.end as int, to as int);
        }
        let mut j = c.start;
        while j < c.end
            invariant
                s@ == sb,
                from <= c.start <= j <= c.end <= to <= sb.len(),
                out@ == sb.subrange(from as int, j as int),
            decreases c.end - j,
        {
            out.push(s[j]);
            proof {
                assert(out@ =~= sb.subrange(from as int, j + 1));
            }
            j = j + 1;
        }
        cur = c.end;
        i = i + 1;
    }
    proof {
        assert(chunks@.subrange(i as int, chunks@.len() as int) =~= Seq::<Chunk>::empty());
        lemma_chunks_text(sb, node_chunks(*node), from as int, to as int);
    }
    out
}


// ---------------------------------------------------------------------------
// Names of raw values

/// What [`upper`] returns for `c`: the upper-case form of `c`, which may be
/// more than one character.
pub uninterp spec fn upper_of(c: char) -> Seq<char>;

/// Relies on `char::to_uppercase`: the upper-case form of `c`.
#[verifier::external_body]
fn upper(c: char) -> (r: String)
    ensures
        r@ == upper_of(c),
{
    c.to_uppercase().collect()
}

/// `s` with its first character in upper case.
pub fn capitalize(s: &str) -> (r: String)
    ensures
        s@.len() == 0 ==> r@ == s@,
        s@.len() > 0 ==> r@ == upper_of(s@[0]) + s@.subrange(1, s@.len() as int),
{
    if s.is_empty() {
        return String::from_str(s);
    }
    let first = s.get_char(0);
    let mut res = upper(first);
    let n = s.unicode_len();
    let rest = s.substring_char(1, n);
    res.append(rest);
    res
}
} // verus!

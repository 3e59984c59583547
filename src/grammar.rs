//! The grammar that the parser follows, over the stream of tokens: for each
//! construct, the tree it makes and where it ends in the stream, or the error
//! that stops it.
//!
//! A stream is the tokens of a source up to the first construct left unclosed,
//! with that construct if there is one (see [`crate::tokenizer::lex_stream`]).
//! Each function takes the index of the construct's first token and returns the
//! index of the first token after it.
use crate::error::{Expected, PostcssError, Unclosed};
use crate::node::Node;
use crate::tokenizer::{Token, TokenType};
use vstd::prelude::*;

verus! {

/// Tokens, and the construct left unclosed after them, if any.
pub type Stream = (Seq<Token>, Option<(Unclosed, int)>);

/// The model of a node: its spans as integers, its children as a sequence.
#[allow(inconsistent_fields)]
pub enum NodeV {
    Root { children: Seq<NodeV>, start: int, end: int },
    AtRule {
        name: (int, int),
        params: (int, int),
        open: int,
        children: Option<Seq<NodeV>>,
        start: int,
        end: int,
    },
    Rule { selector: (int, int), open: int, children: Seq<NodeV>, start: int, end: int },
    Decl { prop: (int, int), value: (int, int), start: int, end: int },
    Comment { start: int, end: int },
}

pub open spec fn span_v(span: (usize, usize)) -> (int, int) {
    (span.0 as int, span.1 as int)
}

/// The model of `n`.
pub open spec fn view_node(n: Node) -> NodeV
    decreases n, 1int,
{
    match n {
        Node::Root(r) => NodeV::Root {
            children: view_nodes(r.children@),
            start: r.start as int,
            end: r.end as int,
        },
        Node::AtRule(a) => NodeV::AtRule {
            name: span_v(a.name),
            params: span_v(a.params),
            open: a.open as int,
            children: match a.children {
                Some(cs) => Some(view_nodes(cs@)),
                None => None,
            },
            start: a.start as int,
            end: a.end as int,
        },
        Node::Rule(r) => NodeV::Rule {
            selector: span_v(r.selector),
            open: r.open as int,
            children: view_nodes(r.children@),
            start: r.start as int,
            end: r.end as int,
        },
        Node::Decl(d) => NodeV::Decl {
            prop: span_v(d.prop),
            value: span_v(d.value),
            start: d.start as int,
            end: d.end as int,
        },
        Node::Comment(c) => NodeV::Comment { start: c.start as int, end: c.end as int },
    }
}

/// The models of the nodes `cs`, in order.
pub open spec fn view_nodes(cs: Seq<Node>) -> Seq<NodeV>
    decreases cs, 0int,
{
    if cs.len() == 0 {
        Seq::empty()
    } else {
        view_nodes(cs.drop_last()).push(view_node(cs.last()))
    }
}

/// The models of nodes with one more node at the end.
pub proof fn lemma_view_nodes_push(cs: Seq<Node>, n: Node)
    ensures
        view_nodes(cs.push(n)) == view_nodes(cs).push(view_node(n)),
{
    assert(cs.push(n).drop_last() =~= cs);
}

/// The token at index `i`; `None` at the end, or the unclosed construct.
pub open spec fn peek_at(st: Stream, i: int) -> Result<Option<Token>, PostcssError> {
    if 0 <= i < st.0.len() {
        Ok(Some(st.0[i]))
    } else {
        match st.1 {
            Some((u, p)) => Err(PostcssError::Unclosed(u, p as usize)),
            None => Ok(None),
        }
    }
}

/// The byte offset where the token at index `i` starts: where the one before it ends.
pub open spec fn pos_at(st: Stream, i: int) -> usize {
    if 0 < i <= st.0.len() {
        st.0[i - 1].2
    } else {
        0
    }
}

pub open spec fn trivial(kind: TokenType) -> bool {
    kind == TokenType::Space || kind == TokenType::Comment
}

/// A structural error at index `i`.
pub open spec fn fail_at(st: Stream, i: int, expected: Expected, found: Option<Token>) -> PostcssError {
    match found {
        Some(t) => PostcssError::ParseError(expected, Some(t.0), pos_at(st, i), t.2),
        None => PostcssError::ParseError(expected, None, pos_at(st, i), pos_at(st, i)),
    }
}

/// Stands where a construct did not move forward, which no construct does.
pub open spec fn stuck() -> Result<int, PostcssError> {
    Err(PostcssError::ParseError(Expected::Token, None, 0, 0))
}

/// The spaces and comments from `i` on.
pub open spec fn skip_trivia(st: Stream, i: int) -> Result<int, PostcssError>
    decreases st.0.len() - i,
{
    match peek_at(st, i) {
        Err(e) => Err(e),
        Ok(Some(t)) => if trivial(t.0) && 0 <= i < st.0.len() {
            skip_trivia(st, i + 1)
        } else {
            Ok(i)
        },
        Ok(None) => Ok(i),
    }
}

/// One component: a group opened by `{`, `(` or `[`, or one token; and
/// whether that token was a space or a comment.
pub open spec fn component(st: Stream, i: int) -> Result<(bool, int), PostcssError>
    decreases st.0.len() - i, 1int,
{
    match peek_at(st, i) {
        Err(e) => Err(e),
        Ok(None) => Err(fail_at(st, i, Expected::Token, None)),
        Ok(Some(t)) => if t.0 == TokenType::OpenCurly || t.0 == TokenType::OpenParentheses || t.0
            == TokenType::OpenSquare {
            let (close, expected) = if t.0 == TokenType::OpenCurly {
                (TokenType::CloseCurly, Expected::CloseCurly)
            } else if t.0 == TokenType::OpenParentheses {
                (TokenType::CloseParentheses, Expected::CloseParentheses)
            } else {
                (TokenType::CloseSquare, Expected::CloseSquare)
            };
            match group(st, i, close, expected) {
                Ok(j) => Ok((false, j)),
                Err(e) => Err(e),
            }
        } else {
            Ok((trivial(t.0), i + 1))
        },
    }
}

/// A group whose opening token is at `i`, up to and with its `close`.
pub open spec fn group(st: Stream, i: int, close: TokenType, expected: Expected) -> Result<
    int,
    PostcssError,
>
    decreases st.0.len() - i, 0int,
{
    if 0 <= i < st.0.len() {
        group_rest(st, i + 1, close, expected)
    } else {
        stuck()
    }
}

/// The rest of a group from `j` on.
pub open spec fn group_rest(st: Stream, j: int, close: TokenType, expected: Expected) -> Result<
    int,
    PostcssError,
>
    decreases st.0.len() - j, 2int,
{
    match peek_at(st, j) {
        Err(e) => Err(e),
        Ok(None) => Err(fail_at(st, j, expected, None)),
        Ok(Some(t)) => if t.0 == close {
            Ok(j + 1)
        } else {
            match component(st, j) {
                Err(e) => Err(e),
                Ok((_, k)) => if k <= j || k > st.0.len() {
                    stuck()
                } else {
                    group_rest(st, k, close, expected)
                },
            }
        },
    }
}

/// What the grammar yields where a construct did not move forward, which no
/// construct does.
pub open spec fn stuck_with<T>() -> Result<T, PostcssError> {
    Err(PostcssError::ParseError(Expected::Token, None, 0, 0))
}

/// A block whose `{` is at `i`: its children, up to and with its `}`.
pub open spec fn curly_block(st: Stream, i: int, nested_rules: bool) -> Result<
    (Seq<NodeV>, int),
    PostcssError,
>
    decreases st.0.len() - i, 0int,
{
    if 0 <= i < st.0.len() {
        block_items(st, i + 1, nested_rules, Seq::empty())
    } else {
        stuck_with()
    }
}

/// The items of a block from `j` on, after the children `acc`: rules (with
/// `nested_rules`) or declarations, at-rules, stray semicolons, spaces and
/// comments, up to `}`.
pub open spec fn block_items(st: Stream, j: int, nested_rules: bool, acc: Seq<NodeV>) -> Result<
    (Seq<NodeV>, int),
    PostcssError,
>
    decreases st.0.len() - j, 5int,
{
    match peek_at(st, j) {
        Err(e) => Err(e),
        Ok(None) => Err(fail_at(st, j, Expected::CloseCurly, None)),
        Ok(Some(t)) => if t.0 == TokenType::Semicolon || trivial(t.0) {
            if 0 <= j < st.0.len() {
                block_items(st, j + 1, nested_rules, acc)
            } else {
                stuck_with()
            }
        } else if t.0 == TokenType::CloseCurly {
            Ok((acc, j + 1))
        } else {
            let item = if t.0 == TokenType::AtWord {
                at_rule(st, j)
            } else if nested_rules {
                rule(st, j, pos_at(st, j) as int, pos_at(st, j) as int)
            } else {
                declaration(st, j)
            };
            match item {
                Err(e) => Err(e),
                Ok((n, k)) => if k <= j || k > st.0.len() {
                    stuck_with()
                } else {
                    block_items(st, k, nested_rules, acc.push(n))
                },
            }
        },
    }
}

/// A style rule from `j` on, that starts at `start` with its selector ending
/// at `selector_end` so far: the rest of its selector's components, then its block.
pub open spec fn rule(st: Stream, j: int, start: int, selector_end: int) -> Result<
    (NodeV, int),
    PostcssError,
>
    decreases st.0.len() - j, 3int,
{
    match peek_at(st, j) {
        Err(e) => Err(e),
        Ok(None) => Err(fail_at(st, j, Expected::OpenCurly, None)),
        Ok(Some(t)) => if t.0 == TokenType::OpenCurly {
            match curly_block(st, j, false) {
                Err(e) => Err(e),
                Ok((cs, k)) => Ok(
                    (
                        NodeV::Rule {
                            selector: (start, selector_end),
                            open: pos_at(st, j) as int,
                            children: cs,
                            start,
                            end: pos_at(st, k) as int,
                        },
                        k,
                    ),
                ),
            }
        } else if trivial(t.0) {
            if 0 <= j < st.0.len() {
                rule(st, j + 1, start, selector_end)
            } else {
                stuck_with()
            }
        } else {
            match component(st, j) {
                Err(e) => Err(e),
                Ok((_, k)) => if k <= j || k > st.0.len() {
                    stuck_with()
                } else {
                    rule(st, k, start, pos_at(st, k) as int)
                },
            }
        },
    }
}

/// A declaration at `i`: a word, `:`, then its value.
pub open spec fn declaration(st: Stream, i: int) -> Result<(NodeV, int), PostcssError>
    decreases st.0.len() - i, 4int,
{
    match peek_at(st, i) {
        Err(e) => Err(e),
        Ok(None) => Err(fail_at(st, i, Expected::Word, None)),
        Ok(Some(t)) => if t.0 != TokenType::Word || !(0 <= i < st.0.len()) {
            Err(fail_at(st, i, Expected::Word, Some(t)))
        } else {
            match skip_trivia(st, i + 1) {
                Err(e) => Err(e),
                Ok(j) => match peek_at(st, j) {
                    Err(e) => Err(e),
                    Ok(None) => Err(fail_at(st, j, Expected::Colon, None)),
                    Ok(Some(c)) => if c.0 != TokenType::Colon || !(0 <= j < st.0.len()) {
                        Err(fail_at(st, j, Expected::Colon, Some(c)))
                    } else {
                        match skip_trivia(st, j + 1) {
                            Err(e) => Err(e),
                            Ok(k) => if k <= i || k > st.0.len() {
                                stuck_with()
                            } else {
                                value(
                                    st,
                                    k,
                                    (t.1 as int, t.2 as int),
                                    pos_at(st, k) as int,
                                    pos_at(st, k) as int,
                                )
                            },
                        }
                    },
                },
            }
        },
    }
}

/// A declaration's value from `k` on, with the `;` after it if any; `prop` is
/// its property, and its value runs from `value_start` to `value_end` so far.
pub open spec fn value(st: Stream, k: int, prop: (int, int), value_start: int, value_end: int) -> Result<
    (NodeV, int),
    PostcssError,
>
    decreases st.0.len() - k, 2int,
{
    let decl_to = |end: int|
        NodeV::Decl { prop, value: (value_start, value_end), start: prop.0, end };
    match peek_at(st, k) {
        Err(e) => Err(e),
        Ok(None) => Ok((decl_to(value_end), k)),
        Ok(Some(t)) => if t.0 == TokenType::CloseCurly {
            Ok((decl_to(value_end), k))
        } else if t.0 == TokenType::Semicolon {
            Ok((decl_to(pos_at(st, k + 1) as int), k + 1))
        } else if t.0 == TokenType::Space {
            if 0 <= k < st.0.len() {
                value(st, k + 1, prop, value_start, value_end)
            } else {
                stuck_with()
            }
        } else {
            match component(st, k) {
                Err(e) => Err(e),
                Ok((_, m)) => if m <= k || m > st.0.len() {
                    stuck_with()
                } else {
                    value(st, m, prop, value_start, pos_at(st, m) as int)
                },
            }
        },
    }
}

/// An at-rule whose at-word is at `i`: its parameters, then its block, its
/// `;`, or nothing (before `}` or at the end).
pub open spec fn at_rule(st: Stream, i: int) -> Result<(NodeV, int), PostcssError>
    decreases st.0.len() - i, 4int,
{
    if 0 <= i < st.0.len() {
        match skip_trivia(st, i + 1) {
            Err(e) => Err(e),
            Ok(j) => if j <= i || j > st.0.len() {
                stuck_with()
            } else {
                params(
                    st,
                    j,
                    (st.0[i].1 + 1, st.0[i].2 as int),
                    pos_at(st, i) as int,
                    pos_at(st, j) as int,
                    pos_at(st, j) as int,
                )
            },
        }
    } else {
        stuck_with()
    }
}

/// An at-rule's parameters from `j` on, and what ends them; the at-rule
/// starts at `start`, its name is `name`, and its parameters run from
/// `params_start` to `params_end` so far.
pub open spec fn params(
    st: Stream,
    j: int,
    name: (int, int),
    start: int,
    params_start: int,
    params_end: int,
) -> Result<(NodeV, int), PostcssError>
    decreases st.0.len() - j, 2int,
{
    let statement = |end: int|
        NodeV::AtRule {
            name,
            params: (params_start, params_end),
            open: end,
            children: None,
            start,
            end,
        };
    match peek_at(st, j) {
        Err(e) => Err(e),
        Ok(None) => Ok((statement(pos_at(st, j) as int), j)),
        Ok(Some(t)) => if t.0 == TokenType::OpenCurly {
            match curly_block(st, j, true) {
                Err(e) => Err(e),
                Ok((cs, k)) => Ok(
                    (
                        NodeV::AtRule {
                            name,
                            params: (params_start, params_end),
                            open: pos_at(st, j) as int,
                            children: Some(cs),
                            start,
                            end: pos_at(st, k) as int,
                        },
                        k,
                    ),
                ),
            }
        } else if t.0 == TokenType::Semicolon {
            Ok((statement(pos_at(st, j + 1) as int), j + 1))
        } else if t.0 == TokenType::CloseCurly {
            Ok((statement(pos_at(st, j) as int), j))
        } else {
            match component(st, j) {
                Err(e) => Err(e),
                Ok((trivia, m)) => if m <= j || m > st.0.len() {
                    stuck_with()
                } else {
                    params(
                        st,
                        m,
                        name,
                        start,
                        params_start,
                        if trivia {
                            params_end
                        } else {
                            pos_at(st, m) as int
                        },
                    )
                },
            }
        },
    }
}

/// The stylesheet from `j` on, after the children `acc`: spaces, comments,
/// at-rules and rules, to the end.
pub open spec fn stylesheet(st: Stream, j: int, acc: Seq<NodeV>) -> Result<
    (Seq<NodeV>, int),
    PostcssError,
>
    decreases st.0.len() - j,
{
    match peek_at(st, j) {
        Err(e) => Err(e),
        Ok(None) => Ok((acc, j)),
        Ok(Some(t)) => if trivial(t.0) {
            if 0 <= j < st.0.len() {
                stylesheet(
                    st,
                    j + 1,
                    if t.0 == TokenType::Comment {
                        acc.push(NodeV::Comment { start: t.1 as int, end: t.2 as int })
                    } else {
                        acc
                    },
                )
            } else {
                stuck_with()
            }
        } else {
            let item = if t.0 == TokenType::AtWord {
                at_rule(st, j)
            } else {
                rule(st, j, pos_at(st, j) as int, pos_at(st, j) as int)
            };
            match item {
                Err(e) => Err(e),
                Ok((n, k)) => if k <= j || k > st.0.len() {
                    stuck_with()
                } else {
                    stylesheet(st, k, acc.push(n))
                },
            }
        },
    }
}

/// A group's rest that the grammar accepts ends with its closing token.
pub proof fn lemma_group_rest_closes(st: Stream, j: int, close: TokenType, expected: Expected)
    requires
        0 <= j,
    ensures
        group_rest(st, j, close, expected) matches Ok(k) ==> j < k <= st.0.len() && st.0[k - 1].0
            == close,
    decreases st.0.len() - j,
{
    if let Ok(Some(t)) = peek_at(st, j) {
        if t.0 != close {
            if let Ok((_, k)) = component(st, j) {
                if j < k <= st.0.len() {
                    lemma_group_rest_closes(st, k, close, expected);
                }
            }
        }
    }
}

/// Balanced nesting: a group that the grammar accepts at `i` ends with its
/// closing token `close`, past the token at `i`; the groups inside it are
/// components, which end the same way.
pub proof fn lemma_group_balanced(st: Stream, i: int, close: TokenType, expected: Expected)
    requires
        0 <= i,
    ensures
        group(st, i, close, expected) matches Ok(k) ==> i + 1 < k <= st.0.len() && st.0[k - 1].0
            == close,
{
    if 0 <= i < st.0.len() {
        lemma_group_rest_closes(st, i + 1, close, expected);
    }
}

/// The items of a block that the grammar accepts end with `}`.
pub proof fn lemma_block_items_close(st: Stream, j: int, nested_rules: bool, acc: Seq<NodeV>)
    requires
        0 <= j,
    ensures
        block_items(st, j, nested_rules, acc) matches Ok((_, k)) ==>
            j < k <= st.0.len() && st.0[k - 1].0
            == TokenType::CloseCurly,
    decreases st.0.len() - j,
{
    if let Ok(Some(t)) = peek_at(st, j) {
        if t.0 == TokenType::Semicolon || trivial(t.0) {
            if 0 <= j < st.0.len() {
                lemma_block_items_close(st, j + 1, nested_rules, acc);
            }
        } else if t.0 != TokenType::CloseCurly {
            let item = if t.0 == TokenType::AtWord {
                at_rule(st, j)
            } else if nested_rules {
                rule(st, j, pos_at(st, j) as int, pos_at(st, j) as int)
            } else {
                declaration(st, j)
            };
            if let Ok((n, k)) = item {
                if j < k <= st.0.len() {
                    lemma_block_items_close(st, k, nested_rules, acc.push(n));
                }
            }
        }
    }
}

/// Balanced nesting of blocks: a block that the grammar accepts at `i` ends
/// with a `}`, past the token at `i`.
pub proof fn lemma_curly_block_balanced(st: Stream, i: int, nested_rules: bool)
    requires
        0 <= i,
    ensures
        curly_block(st, i, nested_rules) matches Ok((_, k)) ==> i + 1 < k <= st.0.len() && st.0[k
            - 1].0 == TokenType::CloseCurly,
{
    if 0 <= i < st.0.len() {
        lemma_block_items_close(st, i + 1, nested_rules, Seq::empty());
    }
}

/// A component that opens with `{`, `(` or `[` and that the grammar accepts
/// ends with the matching `}`, `)` or `]`.
pub proof fn lemma_component_balanced(st: Stream, i: int)
    requires
        0 <= i < st.0.len(),
    ensures
        component(st, i) matches Ok((_, k)) ==> {
            &&& i < k <= st.0.len()
            &&& st.0[i].0 == TokenType::OpenCurly ==> k > i + 1 && st.0[k - 1].0
                == TokenType::CloseCurly
            &&& st.0[i].0 == TokenType::OpenParentheses ==> k > i + 1 && st.0[k - 1].0
                == TokenType::CloseParentheses
            &&& st.0[i].0 == TokenType::OpenSquare ==> k > i + 1 && st.0[k - 1].0
                == TokenType::CloseSquare
        },
{
    lemma_group_balanced(st, i, TokenType::CloseCurly, Expected::CloseCurly);
    lemma_group_balanced(st, i, TokenType::CloseParentheses, Expected::CloseParentheses);
    lemma_group_balanced(st, i, TokenType::CloseSquare, Expected::CloseSquare);
}

} // verus!

//! The parser: a recursive descent over the block structure of the token stream.
use crate::error::{Expected, PostcssError};
use crate::input::ProcessOptions;
use crate::node::{
    braced, children_wf, lemma_children_push, lemma_children_widen, node_wf, AtRule, Comment,
    Declaration, Node, Root, Rule,
};
use crate::grammar::{
    at_rule, block_items, component, curly_block, declaration, group, group_rest,
    lemma_view_nodes_push, params, peek_at, pos_at, rule, skip_trivia, stylesheet, value, view_node,
    view_nodes, NodeV, Stream,
};
use crate::ref_ring::ring_empty;
use crate::tokenizer::{
    after_url_in, lemma_lex_bounds, lemma_lex_braces, lemma_lex_lenient, lex_stream, Token, TokenType,
    Tokenizer,
};
use vstd::prelude::*;
use vstd::string::StringSliceAdditionalSpecFns;

verus! {

/// Builds the tree of a source from its tokens, pulling one token at a time
/// and looking one token ahead.
pub struct Parser<'a> {
    lexer: Tokenizer<'a>,
    lenient: bool,
    pos: usize,
    /// The closing kinds of the groups and blocks open at this point, innermost last.
    nesting: Ghost<Seq<TokenType>>,
    /// The tokens of the whole source, and the construct left unclosed after them.
    stream: Ghost<Stream>,
    /// The index in `stream` of the next token.
    index: Ghost<int>,
}

/// Whether the token `t` of `s` is one that the tokenizer can produce at its
/// start, as far as the parser relies on it.
pub open spec fn fits(s: Seq<u8>, t: Token) -> bool {
    &&& t.1 < t.2 <= s.len()
    &&& t.0 == TokenType::OpenCurly ==> s[t.1 as int] == 0x7b && t.2 == t.1 + 1
    &&& t.0 == TokenType::CloseCurly ==> s[t.1 as int] == 0x7d && t.2 == t.1 + 1
}

impl<'a> Parser<'a> {
    /// The bytes of the source.
    pub closed spec fn source(&self) -> Seq<u8> {
        self.lexer.source()
    }

    /// The end of the last token taken; the next token starts there.
    pub closed spec fn at(&self) -> int {
        self.pos as int
    }

    pub closed spec fn is_lenient(&self) -> bool {
        self.lenient
    }

    /// The closing kinds of the groups and blocks open at this point, innermost last.
    pub closed spec fn open_groups(&self) -> Seq<TokenType> {
        self.nesting@
    }

    /// The tokens of the whole source, and the construct left unclosed after them.
    pub closed spec fn tokens(&self) -> Stream {
        self.stream@
    }

    /// The index of the next token among `tokens()`.
    pub closed spec fn next_index(&self) -> int {
        self.index@
    }

    /// The offset where the next token starts, as the grammar counts it.
    closed spec fn here(&self) -> int {
        pos_at(self.stream@, self.index@) as int
    }

    /// Whether the next token has been looked at.
    closed spec fn peeked(&self) -> bool {
        self.lexer.pending().len() == 1
    }

    closed spec fn peeked_token(&self) -> Token {
        self.lexer.pending()[0]
    }

    pub closed spec fn inv(&self) -> bool {
        &&& self.lexer.wf()
        &&& self.lexer.source().len() <= usize::MAX
        &&& !self.lexer.ignores_errors()
        &&& self.pos <= self.lexer.source().len()
        &&& self.lexer.pending().len() <= 1
        &&& self.lexer.pending().len() == 1 ==> {
            &&& self.lexer.pending()[0].1 == self.pos
            &&& self.lexer.pending()[0].2 == self.lexer.cursor()
            &&& fits(self.lexer.source(), self.lexer.pending()[0])
        }
        &&& self.lexer.pending().len() == 0 ==> self.lexer.cursor() == self.pos
        &&& self.stream@ == lex_stream(self.lexer.source(), 0, ring_empty(), self.lenient)
        &&& 0 <= self.index@ <= self.stream@.0.len()
        &&& self.pos == pos_at(self.stream@, self.index@)
        &&& self.lexer.pending().len() == 0 ==> lex_stream(
            self.lexer.source(),
            self.lexer.cursor(),
            self.lexer.words(),
            self.lenient,
        ) == (self.stream@.0.subrange(self.index@, self.stream@.0.len() as int), self.stream@.1)
        &&& self.lexer.pending().len() == 1 ==> {
            &&& self.index@ < self.stream@.0.len()
            &&& self.lexer.pending()[0] == self.stream@.0[self.index@]
            &&& lex_stream(self.lexer.source(), self.lexer.cursor(), self.lexer.words(), self.lenient)
                == (self.stream@.0.subrange(self.index@ + 1, self.stream@.0.len() as int), self.stream@.1)
        }
    }

    /// A parser at the start of `css`. With `lenient`, unclosed strings,
    /// comments and brackets are taken as best-effort tokens.
    pub fn new(css: &'a str, lenient: bool) -> (r: Parser<'a>)
        ensures
            r.inv(),
            r.source() == css.spec_bytes(),
            r.at() == 0,
            r.is_lenient() == lenient,
            r.open_groups() == Seq::<TokenType>::empty(),
            r.tokens() == lex_stream(css.spec_bytes(), 0, ring_empty(), lenient),
            r.next_index() == 0,
    {
        let lexer = Tokenizer::new(css, false);
        let ghost st = lex_stream(lexer.source(), 0, ring_empty(), lenient);
        proof {
            assert(st.0.subrange(0, st.0.len() as int) =~= st.0);
        }
        Parser {
            lexer,
            lenient,
            pos: 0,
            nesting: Ghost(Seq::empty()),
            stream: Ghost(st),
            index: Ghost(0),
        }
    }

    /// The next token, left in place; `None` at the end of the input.
    fn peek(&mut self) -> (r: Result<Option<Token>, PostcssError>)
        requires
            old(self).inv(),
        ensures
            final(self).open_groups() == old(self).open_groups(),
            final(self).inv(),
            final(self).source() == old(self).source(),
            final(self).at() == old(self).at(),
            final(self).is_lenient() == old(self).is_lenient(),
            r matches Ok(None) ==> final(self).at() == final(self).source().len(),
            r matches Ok(Some(t)) ==> final(self).peeked() && final(self).peeked_token() == t,
            r matches Ok(Some(t)) ==> t.1 == final(self).at() && fits(final(self).source(), t),
            r matches Err(e) ==> e is Unclosed && !old(self).is_lenient(),
            final(self).tokens() == old(self).tokens(),
            final(self).next_index() == old(self).next_index(),
            r == peek_at(old(self).tokens(), old(self).next_index()),
    {
        if self.lexer.end_of_file() {
            proof {
                let st = self.stream@;
                let i = self.index@;
                assert(st.0.subrange(i, st.0.len() as int).len() == 0);
            }
            return Ok(None);
        }
        let ghost s = self.lexer.source();
        let ghost url = after_url_in(s, self.lexer.words());
        proof {
            if self.lexer.pending().len() == 0 {
                lemma_lex_bounds(s, self.pos as int, url, self.lenient);
                lemma_lex_braces(s, self.pos as int, url, self.lenient);
                if self.lenient {
                    lemma_lex_lenient(s, self.pos as int, url);
                }
            }
        }
        match self.lexer.next_token(self.lenient) {
            Ok(t) => {
                self.lexer.back(t);
                proof {
                    assert(self.lexer.pending() =~= seq![t]);
                    if self.lexer.pending().len() == 1 && old(self).lexer.pending().len() == 0 {
                        let st = self.stream@;
                        let i = self.index@;
                        let whole = st.0.subrange(i, st.0.len() as int);
                        let rest = lex_stream(s, self.lexer.cursor(), self.lexer.words(), self.lenient);
                        assert(whole == seq![t] + rest.0);
                        assert(whole[0] == t);
                        assert(whole.len() > 0);
                        assert(st.0[i] == whole[0]);
                        assert(rest.0 =~= st.0.subrange(i + 1, st.0.len() as int)) by {
                            assert(rest.0 =~= whole.drop_first());
                        }
                    }
                }
                Ok(Some(t))
            },
            Err(e) => {
                proof {
                    let st = self.stream@;
                    let i = self.index@;
                    assert(st.0.subrange(i, st.0.len() as int).len() == 0);
                }
                Err(e)
            },
        }
    }

    /// Takes the token looked at.
    fn bump(&mut self) -> (t: Token)
        requires
            old(self).inv(),
            old(self).peeked(),
        ensures
            final(self).open_groups() == old(self).open_groups(),
            final(self).inv(),
            final(self).source() == old(self).source(),
            final(self).is_lenient() == old(self).is_lenient(),
            t == old(self).peeked_token(),
            final(self).at() == t.2,
            !final(self).peeked(),
            final(self).tokens() == old(self).tokens(),
            final(self).next_index() == old(self).next_index() + 1,
            t == old(self).tokens().0[old(self).next_index()],
    {
        match self.lexer.next_token(self.lenient) {
            Ok(t) => {
                self.pos = t.2;
                self.index = Ghost(self.index@ + 1);
                t
            },
            Err(_) => {
                proof {
                    assert(false);
                }
                Token(TokenType::Unknown, 0, 0)
            },
        }
    }

    /// Takes the spaces and comments that come next.
    fn skip_whitespace_comment(&mut self) -> (r: Result<(), PostcssError>)
        requires
            old(self).inv(),
        ensures
            old(self).next_index() <= final(self).next_index(),
            final(self).tokens() == old(self).tokens(),
            r is Ok ==>
                skip_trivia(old(self).tokens(), old(self).next_index())
                    == Ok::<int, PostcssError>(final(self).next_index()),
            r matches Err(e) ==>
                skip_trivia(old(self).tokens(), old(self).next_index())
                    == Err::<int, PostcssError>(e),
            final(self).open_groups() == old(self).open_groups(),
            final(self).inv(),
            final(self).source() == old(self).source(),
            final(self).is_lenient() == old(self).is_lenient(),
            old(self).at() <= final(self).at(),
            r matches Err(e) ==> e is Unclosed && !old(self).is_lenient(),
    {
        loop
            invariant
                old(self).next_index() <= self.next_index(),
                self.tokens() == old(self).tokens(),
                skip_trivia(self.tokens(), self.next_index())
                    == skip_trivia(old(self).tokens(), old(self).next_index()),
                self.open_groups() == old(self).open_groups(),
                self.inv(),
                self.source() == old(self).source(),
                self.is_lenient() == old(self).is_lenient(),
                old(self).at() <= self.at(),
            decreases self.source().len() - self.at(),
        {
            match self.peek()? {
                Some(t) => {
                    if t.0 == TokenType::Space || t.0 == TokenType::Comment {
                        self.bump();
                    } else {
                        return Ok(());
                    }
                },
                None => {
                    return Ok(());
                },
            }
        }
    }

    /// One component: a `{...}`, `(...)` or `[...]` group taken whole, or one
    /// token. Returns whether it was a space or a comment.
    fn parse_component(&mut self) -> (r: Result<bool, PostcssError>)
        requires
            old(self).inv(),
        ensures
            final(self).tokens() == old(self).tokens(),
            r matches Ok(b) ==>
                component(old(self).tokens(), old(self).next_index())
                    == Ok::<(bool, int), PostcssError>((b, final(self).next_index())),
            r is Ok ==> old(self).next_index() < final(self).next_index(),
            r matches Err(e) ==>
                component(old(self).tokens(), old(self).next_index())
                    == Err::<(bool, int), PostcssError>(e),
            r is Ok ==> final(self).open_groups() == old(self).open_groups(),
            final(self).inv(),
            final(self).source() == old(self).source(),
            final(self).is_lenient() == old(self).is_lenient(),
            old(self).at() <= final(self).at(),
            r is Ok ==> old(self).at() < final(self).at(),
            r matches Err(e) ==> (e is Unclosed ==> !old(self).is_lenient()),
        decreases old(self).source().len() - old(self).at(), 2int,
    {
        match self.peek()? {
            Some(t) => {
                if t.0 == TokenType::OpenCurly {
                    self.parse_group(TokenType::CloseCurly, Expected::CloseCurly)?;
                    Ok(false)
                } else if t.0 == TokenType::OpenParentheses {
                    self.parse_group(TokenType::CloseParentheses, Expected::CloseParentheses)?;
                    Ok(false)
                } else if t.0 == TokenType::OpenSquare {
                    self.parse_group(TokenType::CloseSquare, Expected::CloseSquare)?;
                    Ok(false)
                } else {
                    let t = self.bump();
                    Ok(t.0 == TokenType::Space || t.0 == TokenType::Comment)
                }
            },
            None => Err(PostcssError::ParseError(Expected::Token, None, self.pos, self.pos)),
        }
    }

    /// A group opened by the token looked at, up to and with its `close`.
    fn parse_group(&mut self, close: TokenType, expected: Expected) -> (r: Result<(), PostcssError>)
        requires
            old(self).inv(),
            old(self).peeked(),
        ensures
            final(self).tokens() == old(self).tokens(),
            r is Ok ==>
                group(old(self).tokens(), old(self).next_index(), close, expected)
                    == Ok::<int, PostcssError>(final(self).next_index()),
            r is Ok ==> old(self).next_index() < final(self).next_index(),
            r matches Err(e) ==>
                group(old(self).tokens(), old(self).next_index(), close, expected)
                    == Err::<int, PostcssError>(e),
            r is Ok ==> final(self).open_groups() == old(self).open_groups(),
            final(self).inv(),
            final(self).source() == old(self).source(),
            final(self).is_lenient() == old(self).is_lenient(),
            old(self).at() < final(self).at(),
            r matches Err(e) ==> (e is Unclosed ==> !old(self).is_lenient()),
        decreases old(self).source().len() - old(self).at(), 1int,
    {
        self.bump();
        self.nesting = Ghost(self.nesting@.push(close));
        loop
            invariant
                self.tokens() == old(self).tokens(),
                old(self).next_index() < self.next_index(),
                group_rest(self.tokens(), self.next_index(), close, expected)
                    == group(old(self).tokens(), old(self).next_index(), close, expected),
                self.open_groups() == old(self).open_groups().push(close),
                self.inv(),
                self.source() == old(self).source(),
                self.is_lenient() == old(self).is_lenient(),
                old(self).at() < self.at(),
            decreases self.source().len() - self.at(),
        {
            match self.peek()? {
                Some(t) => {
                    if t.0 == close {
                        self.bump();
                        proof {
                            assert(self.nesting@.last() == close);
                        }
                        self.nesting = Ghost(self.nesting@.drop_last());
                        proof {
                            assert(self.nesting@ =~= old(self).nesting@);
                        }
                        return Ok(());
                    }
                    self.parse_component()?;
                },
                None => {
                    return Err(PostcssError::ParseError(expected, None, self.pos, self.pos));
                },
            }
        }
    }

    /// A block `{...}` whose `{` is the token looked at: its rules (with
    /// `nested_rules`) or declarations, and its at-rules.
    fn parse_curly_block(&mut self, nested_rules: bool) -> (r: Result<Vec<Node>, PostcssError>)
        requires
            old(self).inv(),
            old(self).peeked(),
            old(self).peeked_token().0 == TokenType::OpenCurly,
        ensures
            final(self).tokens() == old(self).tokens(),
            r matches Ok(cs) ==>
                curly_block(old(self).tokens(), old(self).next_index(), nested_rules)
                    == Ok::<(Seq<NodeV>, int), PostcssError>((view_nodes(cs@), final(self).next_index())),
            r is Ok ==> old(self).next_index() < final(self).next_index(),
            r matches Err(e) ==>
                curly_block(old(self).tokens(), old(self).next_index(), nested_rules)
                    == Err::<(Seq<NodeV>, int), PostcssError>(e),
            r is Ok ==> final(self).open_groups() == old(self).open_groups(),
            final(self).inv(),
            final(self).source() == old(self).source(),
            final(self).is_lenient() == old(self).is_lenient(),
            old(self).at() < final(self).at(),
            r matches Ok(cs) ==> {
                &&& old(self).at() + 2 <= final(self).at()
                &&& braced(final(self).source(), old(self).at(), final(self).at())
                &&& children_wf(final(self).source(), cs@, old(self).at() + 1, final(self).at() - 1)
            },
            r matches Err(e) ==> (e is Unclosed ==> !old(self).is_lenient()),
        decreases old(self).source().len() - old(self).at(), 1int,
    {
        let ghost s = self.source();
        let mut ret: Vec<Node> = Vec::new();
        self.bump();
        self.nesting = Ghost(self.nesting@.push(TokenType::CloseCurly));
        let ghost lo = self.at();
        let ghost mut last = self.at();
        loop
            invariant
                self.tokens() == old(self).tokens(),
                old(self).next_index() < self.next_index(),
                block_items(self.tokens(), self.next_index(), nested_rules, view_nodes(ret@))
                    == curly_block(old(self).tokens(), old(self).next_index(), nested_rules),
                self.open_groups() == old(self).open_groups().push(TokenType::CloseCurly),
                self.inv(),
                self.source() == s,
                s == old(self).source(),
                self.is_lenient() == old(self).is_lenient(),
                lo == old(self).at() + 1,
                s[old(self).at()] == 0x7b,
                lo <= last <= self.at(),
                children_wf(s, ret@, lo, last),
            decreases s.len() - self.at(),
        {
            match self.peek()? {
                Some(t) => {
                    if t.0 == TokenType::Semicolon || t.0 == TokenType::Space || t.0
                        == TokenType::Comment {
                        self.bump();
                    } else if t.0 == TokenType::CloseCurly {
                        let ghost close = self.at();
                        self.bump();
                        self.nesting = Ghost(self.nesting@.drop_last());
                        proof {
                            assert(self.nesting@ =~= old(self).nesting@);
                        }
                        proof {
                            lemma_children_widen(s, ret@, lo, last, close);
                        }
                        return Ok(ret);
                    } else if t.0 == TokenType::AtWord {
                        let a = self.parse_at_rule()?;
                        proof {
                            lemma_children_push(s, ret@, lo, last, Node::AtRule(a));
                            lemma_view_nodes_push(ret@, Node::AtRule(a));
                            last = a.end as int;
                        }
                        ret.push(Node::AtRule(a));
                    } else if nested_rules {
                        let rule = self.parse_rule()?;
                        proof {
                            lemma_children_push(s, ret@, lo, last, Node::Rule(rule));
                            lemma_view_nodes_push(ret@, Node::Rule(rule));
                            last = rule.end as int;
                        }
                        ret.push(Node::Rule(rule));
                    } else {
                        let d = self.parse_declaration()?;
                        proof {
                            lemma_children_push(s, ret@, lo, last, Node::Decl(d));
                            lemma_view_nodes_push(ret@, Node::Decl(d));
                            last = d.end as int;
                        }
                        ret.push(Node::Decl(d));
                    }
                },
                None => {
                    return Err(
                        PostcssError::ParseError(Expected::CloseCurly, None, self.pos, self.pos),
                    );
                },
            }
        }
    }

    /// A style rule: its selector, up to its `{`, and its block.
    fn parse_rule(&mut self) -> (r: Result<Rule, PostcssError>)
        requires
            old(self).inv(),
        ensures
            final(self).tokens() == old(self).tokens(),
            r matches Ok(x) ==>
                rule(old(self).tokens(), old(self).next_index(), old(self).here(), old(self).here())
                    == Ok::<(NodeV, int), PostcssError>((view_node(Node::Rule(x)), final(self).next_index())),
            r is Ok ==> old(self).next_index() < final(self).next_index(),
            r matches Err(e) ==>
                rule(old(self).tokens(), old(self).next_index(), old(self).here(), old(self).here())
                    == Err::<(NodeV, int), PostcssError>(e),
            r is Ok ==> final(self).open_groups() == old(self).open_groups(),
            final(self).inv(),
            final(self).source() == old(self).source(),
            final(self).is_lenient() == old(self).is_lenient(),
            old(self).at() <= final(self).at(),
            r matches Ok(rule) ==> {
                &&& node_wf(final(self).source(), Node::Rule(rule))
                &&& rule.start == old(self).at()
                &&& rule.end == final(self).at()
            },
            r matches Err(e) ==> (e is Unclosed ==> !old(self).is_lenient()),
        decreases old(self).source().len() - old(self).at(), 3int,
    {
        let ghost s = self.source();
        let start = self.pos;
        let mut selector_end = self.pos;
        loop
            invariant
                self.tokens() == old(self).tokens(),
                old(self).next_index() <= self.next_index(),
                rule(self.tokens(), self.next_index(), start as int, selector_end as int)
                    == rule(old(self).tokens(), old(self).next_index(), old(self).here(), old(self).here()),
                self.open_groups() == old(self).open_groups(),
                self.inv(),
                self.source() == s,
                s == old(self).source(),
                self.is_lenient() == old(self).is_lenient(),
                start == old(self).at(),
                start <= selector_end <= self.at(),
            decreases s.len() - self.at(),
        {
            match self.peek()? {
                Some(t) => {
                    if t.0 == TokenType::OpenCurly {
                        let open = self.pos;
                        let children = self.parse_curly_block(false)?;
                        return Ok(
                            Rule {
                                selector: (start, selector_end),
                                open,
                                children,
                                start,
                                end: self.pos,
                            },
                        );
                    } else if t.0 == TokenType::Space || t.0 == TokenType::Comment {
                        self.bump();
                    } else {
                        self.parse_component()?;
                        selector_end = self.pos;
                    }
                },
                None => {
                    return Err(
                        PostcssError::ParseError(Expected::OpenCurly, None, self.pos, self.pos),
                    );
                },
            }
        }
    }

    /// A declaration `prop: value`, with the `;` after it when there is one.
    fn parse_declaration(&mut self) -> (r: Result<Declaration, PostcssError>)
        requires
            old(self).inv(),
        ensures
            final(self).tokens() == old(self).tokens(),
            r matches Ok(x) ==>
                declaration(old(self).tokens(), old(self).next_index())
                    == Ok::<(NodeV, int), PostcssError>((view_node(Node::Decl(x)), final(self).next_index())),
            r is Ok ==> old(self).next_index() < final(self).next_index(),
            r matches Err(e) ==>
                declaration(old(self).tokens(), old(self).next_index())
                    == Err::<(NodeV, int), PostcssError>(e),
            r is Ok ==> final(self).open_groups() == old(self).open_groups(),
            final(self).inv(),
            final(self).source() == old(self).source(),
            final(self).is_lenient() == old(self).is_lenient(),
            old(self).at() <= final(self).at(),
            r matches Ok(d) ==> {
                &&& node_wf(final(self).source(), Node::Decl(d))
                &&& d.start == old(self).at()
                &&& d.end <= final(self).at()
                &&& old(self).at() < final(self).at()
            },
            r matches Err(e) ==> (e is Unclosed ==> !old(self).is_lenient()),
        decreases old(self).source().len() - old(self).at(), 1int,
    {
        let ghost s = self.source();
        match self.peek()? {
            Some(t) => {
                if t.0 != TokenType::Word {
                    return Err(
                        PostcssError::ParseError(Expected::Word, Some(t.0), self.pos, t.2),
                    );
                }
            },
            None => {
                return Err(PostcssError::ParseError(Expected::Word, None, self.pos, self.pos));
            },
        }
        let prop_token = self.bump();
        let prop = (prop_token.1, prop_token.2);
        self.skip_whitespace_comment()?;
        match self.peek()? {
            Some(t) => {
                if t.0 != TokenType::Colon {
                    return Err(
                        PostcssError::ParseError(Expected::Colon, Some(t.0), self.pos, t.2),
                    );
                }
            },
            None => {
                return Err(PostcssError::ParseError(Expected::Colon, None, self.pos, self.pos));
            },
        }
        self.bump();
        self.skip_whitespace_comment()?;
        let value_start = self.pos;
        let mut value_end = self.pos;
        loop
            invariant
                self.tokens() == old(self).tokens(),
                old(self).next_index() < self.next_index(),
                value(self.tokens(), self.next_index(), (prop.0 as int, prop.1 as int), value_start as int, value_end as int)
                    == declaration(old(self).tokens(), old(self).next_index()),
                self.open_groups() == old(self).open_groups(),
                self.inv(),
                self.source() == s,
                s == old(self).source(),
                self.is_lenient() == old(self).is_lenient(),
                prop.0 == old(self).at(),
                prop.0 < prop.1 <= value_start <= value_end <= self.at(),
            decreases s.len() - self.at(),
        {
            match self.peek()? {
                Some(t) => {
                    if t.0 == TokenType::CloseCurly {
                        return Ok(
                            Declaration {
                                prop,
                                value: (value_start, value_end),
                                start: prop.0,
                                end: value_end,
                            },
                        );
                    } else if t.0 == TokenType::Semicolon {
                        self.bump();
                        return Ok(
                            Declaration {
                                prop,
                                value: (value_start, value_end),
                                start: prop.0,
                                end: self.pos,
                            },
                        );
                    } else if t.0 == TokenType::Space {
                        self.bump();
                    } else {
                        self.parse_component()?;
                        value_end = self.pos;
                    }
                },
                None => {
                    return Ok(
                        Declaration {
                            prop,
                            value: (value_start, value_end),
                            start: prop.0,
                            end: value_end,
                        },
                    );
                },
            }
        }
    }

    /// An at-rule whose at-word is the token looked at: its name, its
    /// parameters, and its block if it has one.
    fn parse_at_rule(&mut self) -> (r: Result<AtRule, PostcssError>)
        requires
            old(self).inv(),
            old(self).peeked(),
        ensures
            final(self).tokens() == old(self).tokens(),
            r matches Ok(x) ==>
                at_rule(old(self).tokens(), old(self).next_index())
                    == Ok::<(NodeV, int), PostcssError>((view_node(Node::AtRule(x)), final(self).next_index())),
            r is Ok ==> old(self).next_index() < final(self).next_index(),
            r matches Err(e) ==>
                at_rule(old(self).tokens(), old(self).next_index())
                    == Err::<(NodeV, int), PostcssError>(e),
            r is Ok ==> final(self).open_groups() == old(self).open_groups(),
            final(self).inv(),
            final(self).source() == old(self).source(),
            final(self).is_lenient() == old(self).is_lenient(),
            old(self).at() < final(self).at(),
            r matches Ok(a) ==> {
                &&& node_wf(final(self).source(), Node::AtRule(a))
                &&& a.start == old(self).at()
                &&& a.end <= final(self).at()
            },
            r matches Err(e) ==> (e is Unclosed ==> !old(self).is_lenient()),
        decreases old(self).source().len() - old(self).at(), 1int,
    {
        let ghost s = self.source();
        let start = self.pos;
        let name_token = self.bump();
        let name = (name_token.1 + 1, name_token.2);
        self.skip_whitespace_comment()?;
        let params_start = self.pos;
        let mut params_end = self.pos;
        loop
            invariant
                self.tokens() == old(self).tokens(),
                old(self).next_index() < self.next_index(),
                params(self.tokens(), self.next_index(), (name.0 as int, name.1 as int), start as int, params_start as int, params_end as int)
                    == at_rule(old(self).tokens(), old(self).next_index()),
                self.open_groups() == old(self).open_groups(),
                self.inv(),
                self.source() == s,
                s == old(self).source(),
                self.is_lenient() == old(self).is_lenient(),
                start == old(self).at(),
                start < name.0 <= name.1 <= params_start <= params_end <= self.at(),
            decreases s.len() - self.at(),
        {
            match self.peek()? {
                Some(t) => {
                    if t.0 == TokenType::OpenCurly {
                        let open = self.pos;
                        let children = self.parse_curly_block(true)?;
                        return Ok(
                            AtRule {
                                name,
                                params: (params_start, params_end),
                                open,
                                children: Some(children),
                                start,
                                end: self.pos,
                            },
                        );
                    } else if t.0 == TokenType::Semicolon {
                        self.bump();
                        return Ok(
                            AtRule {
                                name,
                                params: (params_start, params_end),
                                open: self.pos,
                                children: None,
                                start,
                                end: self.pos,
                            },
                        );
                    } else if t.0 == TokenType::CloseCurly {
                        return Ok(
                            AtRule {
                                name,
                                params: (params_start, params_end),
                                open: self.pos,
                                children: None,
                                start,
                                end: self.pos,
                            },
                        );
                    } else if !self.parse_component()? {
                        params_end = self.pos;
                    }
                },
                None => {
                    return Ok(
                            AtRule {
                                name,
                                params: (params_start, params_end),
                                open: self.pos,
                                children: None,
                                start,
                                end: self.pos,
                            },
                        );
                },
            }
        }
    }

    /// The whole stylesheet: its rules, at-rules and comments, in order.
    pub fn parse(self) -> (r: Result<Root, PostcssError>)
        requires
            self.next_index() == 0,
            self.inv(),
            self.at() == 0,
        ensures
            r is Ok <==> stylesheet(self.tokens(), 0, Seq::empty()) is Ok,
            r matches Err(e) ==>
                stylesheet(self.tokens(), 0, Seq::empty())
                    == Err::<(Seq<NodeV>, int), PostcssError>(e),
            r matches Ok(root) ==>
                stylesheet(self.tokens(), 0, Seq::empty()) matches Ok((cs, _)) && cs
                    == view_nodes(root.children@),
            r matches Ok(root) ==> {
                &&& node_wf(self.source(), Node::Root(root))
                &&& root.start == 0
                &&& root.end == self.source().len()
            },
            r matches Err(e) ==> (e is Unclosed ==> !self.is_lenient()),
    {
        let mut parser = self;
        let ghost s = parser.source();
        let ghost lenient = parser.is_lenient();
        let mut children: Vec<Node> = Vec::new();
        let ghost mut last: int = 0;
        loop
            invariant
                parser.tokens() == self.tokens(),
                stylesheet(parser.tokens(), parser.next_index(), view_nodes(children@))
                    == stylesheet(self.tokens(), 0, Seq::empty()),
                parser.inv(),
                parser.source() == s,
                parser.is_lenient() == lenient,
                s == self.source(),
                lenient == self.is_lenient(),
                0 <= last <= parser.at(),
                children_wf(s, children@, 0, last),
            decreases s.len() - parser.at(),
        {
            match parser.peek()? {
                Some(t) => {
                    if t.0 == TokenType::Space {
                        parser.bump();
                    } else if t.0 == TokenType::Comment {
                        let t = parser.bump();
                        let c = Comment { start: t.1, end: t.2 };
                        proof {
                            lemma_children_push(s, children@, 0, last, Node::Comment(c));
                            lemma_view_nodes_push(children@, Node::Comment(c));
                            last = t.2 as int;
                        }
                        children.push(Node::Comment(c));
                    } else if t.0 == TokenType::AtWord {
                        let a = parser.parse_at_rule()?;
                        proof {
                            lemma_children_push(s, children@, 0, last, Node::AtRule(a));
                            lemma_view_nodes_push(children@, Node::AtRule(a));
                            last = a.end as int;
                        }
                        children.push(Node::AtRule(a));
                    } else {
                        let rule = parser.parse_rule()?;
                        proof {
                            lemma_children_push(s, children@, 0, last, Node::Rule(rule));
                            lemma_view_nodes_push(children@, Node::Rule(rule));
                            last = rule.end as int;
                        }
                        children.push(Node::Rule(rule));
                    }
                },
                None => {
                    proof {
                        lemma_children_widen(s, children@, 0, last, parser.at());
                    }
                    return Ok(Root { children, start: 0, end: parser.pos });
                },
            }
        }
    }
}

} // verus!

verus! {

/// The token stream of `s` under the options `opts`.
pub open spec fn css_tokens(s: Seq<u8>, opts: Option<ProcessOptions>) -> Stream {
    lex_stream(s, 0, ring_empty(), opts matches Some(o) && o.ignore_errors)
}

/// Parses `css` into its tree. With `opts.ignore_errors`, unclosed strings,
/// comments and brackets are taken as best-effort tokens instead of errors;
/// structural errors (a missing `{`, `}` or `:`, or a token where a property
/// name was expected) are errors either way.
pub fn parse(css: &str, opts: Option<ProcessOptions>) -> (r: Result<Root, PostcssError>)
    ensures
        r matches Ok(root) ==> {
            &&& node_wf(css.spec_bytes(), Node::Root(root))
            &&& root.start == 0
            &&& root.end == css.spec_bytes().len()
        },
        (opts matches Some(o) && o.ignore_errors) ==> !(r matches Err(PostcssError::Unclosed(..))),
        r is Ok <==> stylesheet(css_tokens(css.spec_bytes(), opts), 0, Seq::empty()) is Ok,
        r matches Err(e) ==>
            stylesheet(css_tokens(css.spec_bytes(), opts), 0, Seq::empty())
                == Err::<
            (Seq<NodeV>, int),
            PostcssError,
        >(e),
        r matches Ok(root) ==>
            stylesheet(css_tokens(css.spec_bytes(), opts), 0, Seq::empty()) matches Ok(
            (cs, _),
        ) && cs == view_nodes(root.children@),
{
    let lenient = match opts {
        Some(o) => o.ignore_errors,
        None => false,
    };
    let parser = Parser::new(css, lenient);
    parser.parse()
}

} // verus!

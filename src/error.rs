//! Errors raised while tokenizing and parsing.
use crate::tokenizer::TokenType;
use vstd::prelude::*;

verus! {

/// The construct that was left open at the end of the input.
#[derive(Debug, Clone, Copy, PartialEq, Eq, Structural)]
pub enum Unclosed {
    String,
    Comment,
    Bracket,
}

impl Unclosed {
    /// The construct's name, as diagnostics print it.
    pub fn what(&self) -> (r: &'static str)
        ensures
            *self == Unclosed::String ==> r@ == "string"@,
            *self == Unclosed::Comment ==> r@ == "comment"@,
            *self == Unclosed::Bracket ==> r@ == "bracket"@,
    {
        match self {
            Unclosed::String => "string",
            Unclosed::Comment => "comment",
            Unclosed::Bracket => "bracket",
        }
    }
}

/// What the parser expected where it stopped.
#[derive(Debug, Clone, Copy, PartialEq, Eq, Structural)]
pub enum Expected {
    /// `{` opening a rule's block.
    OpenCurly,
    /// `}` closing a block.
    CloseCurly,
    /// `)` closing a parenthesised group.
    CloseParentheses,
    /// `]` closing a square-bracketed group.
    CloseSquare,
    /// A word: a declaration's property name.
    Word,
    /// `:` after a declaration's property name.
    Colon,
    /// Any token.
    Token,
}

/// An error of the tokenizer or of the parser.
#[derive(Debug, Clone, Copy, PartialEq, Eq)]
pub enum PostcssError {
    /// A string, comment or bracket that was not closed, with the byte offset
    /// where it starts.
    Unclosed(Unclosed, usize),
    /// A structural error: what was expected, the kind of token found instead
    /// (`None` at the end of the input), and the byte range of the offending place.
    ParseError(Expected, Option<TokenType>, usize, usize),
}

} // verus!

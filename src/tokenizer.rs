//! The tokenizer: turns CSS source text into tokens, one per call.
//!
//! A token is a kind and a half-open byte span `[start, end)` of the source.
//! What a token is, given the bytes, the offset and the last word seen, is
//! stated by [`lex`]; [`Tokenizer::next_token`] computes exactly that.
use crate::error::{PostcssError, Unclosed};
use crate::ref_ring::{ring_empty, ring_pop, ring_push, ring_top, RefRing, RingView};
use crate::search::{find_byte, find_slice, occurs_at};
use vstd::prelude::*;
use vstd::string::StringSliceAdditionalSpecFns;

verus! {

/// The kind of a token.
#[derive(Debug, Clone, Copy, PartialEq, Eq, Structural)]
pub enum TokenType {
    OpenParentheses,
    CloseParentheses,
    Space,
    Word,
    String,
    OpenSquare,
    CloseSquare,
    OpenCurly,
    CloseCurly,
    Semicolon,
    Colon,
    Comment,
    AtWord,
    Brackets,
    Unknown,
}

/// A token: its kind and its byte span `[start, end)` in the source.
#[derive(Debug, Clone, Copy, PartialEq, Eq, Structural)]
pub struct Token(pub TokenType, pub usize, pub usize);

impl Token {
    pub fn new(kind: TokenType, start: usize, end: usize) -> (r: Token)
        ensures
            r == Token(kind, start, end),
    {
        Token(kind, start, end)
    }
}

// ---------------------------------------------------------------------------
// Bytes

pub const SINGLE_QUOTE: u8 = 0x27;
pub const DOUBLE_QUOTE: u8 = 0x22;
pub const BACKSLASH: u8 = 0x5c;
pub const SLASH: u8 = 0x2f;
pub const NEWLINE: u8 = 0x0a;
pub const SPACE: u8 = 0x20;
pub const FEED: u8 = 0x0c;
pub const TAB: u8 = 0x09;
pub const CR: u8 = 0x0d;
pub const OPEN_SQUARE: u8 = 0x5b;
pub const CLOSE_SQUARE: u8 = 0x5d;
pub const OPEN_PARENTHESES: u8 = 0x28;
pub const CLOSE_PARENTHESES: u8 = 0x29;
pub const OPEN_CURLY: u8 = 0x7b;
pub const CLOSE_CURLY: u8 = 0x7d;
pub const SEMICOLON: u8 = 0x3b;
pub const ASTERISK: u8 = 0x2a;
pub const COLON: u8 = 0x3a;
pub const AT: u8 = 0x40;
pub const EXCLAMATION: u8 = 0x21;
pub const HASH: u8 = 0x23;

/// The byte at `i`, or 0 past either end.
pub open spec fn byte_at(s: Seq<u8>, i: int) -> u8 {
    if 0 <= i < s.len() {
        s[i]
    } else {
        0
    }
}

pub open spec fn is_space(b: u8) -> bool {
    b == SPACE || b == NEWLINE || b == TAB || b == CR || b == FEED
}

pub open spec fn is_hex(b: u8) -> bool {
    (0x30 <= b <= 0x39) || (0x41 <= b <= 0x46) || (0x61 <= b <= 0x66)
}

/// The one-byte tokens: `[ ] { } : ; )`.
pub open spec fn is_single(b: u8) -> bool {
    b == OPEN_SQUARE || b == CLOSE_SQUARE || b == OPEN_CURLY || b == CLOSE_CURLY || b == COLON
        || b == SEMICOLON || b == CLOSE_PARENTHESES
}

pub open spec fn single_type(b: u8) -> TokenType {
    if b == OPEN_SQUARE {
        TokenType::OpenSquare
    } else if b == CLOSE_SQUARE {
        TokenType::CloseSquare
    } else if b == OPEN_CURLY {
        TokenType::OpenCurly
    } else if b == CLOSE_CURLY {
        TokenType::CloseCurly
    } else if b == COLON {
        TokenType::Colon
    } else if b == SEMICOLON {
        TokenType::Semicolon
    } else if b == CLOSE_PARENTHESES {
        TokenType::CloseParentheses
    } else {
        TokenType::Unknown
    }
}

/// The bytes that end an at-word's name.
pub open spec fn ends_name(b: u8) -> bool {
    is_space(b) || b == DOUBLE_QUOTE || b == HASH || b == SINGLE_QUOTE || b == OPEN_PARENTHESES
        || b == CLOSE_PARENTHESES || b == SLASH || b == SEMICOLON || b == OPEN_SQUARE
        || b == BACKSLASH || b == CLOSE_SQUARE || b == OPEN_CURLY || b == CLOSE_CURLY
}

/// The bytes that end a word, besides a `/` that starts a comment.
pub open spec fn ends_word(b: u8) -> bool {
    is_space(b) || b == EXCLAMATION || b == DOUBLE_QUOTE || b == HASH || b == SINGLE_QUOTE
        || b == OPEN_PARENTHESES || b == CLOSE_PARENTHESES || b == COLON || b == SEMICOLON
        || b == AT || b == OPEN_SQUARE || b == BACKSLASH || b == CLOSE_SQUARE || b == OPEN_CURLY
        || b == CLOSE_CURLY
}

/// Whether a word that reaches index `i` stops there.
pub open spec fn word_stops(s: Seq<u8>, i: int) -> bool {
    ends_word(s[i]) || (s[i] == SLASH && byte_at(s, i + 1) == ASTERISK)
}

/// The bytes inside a plain `(...)` that keep it from being one token.
pub open spec fn is_bad_in_bracket(b: u8) -> bool {
    b == NEWLINE || b == DOUBLE_QUOTE || b == SINGLE_QUOTE || b == OPEN_PARENTHESES || b == SLASH
        || b == BACKSLASH
}

// ---------------------------------------------------------------------------
// Runs and searches

/// The end of the run of spaces that starts at `i`.
pub open spec fn space_end(s: Seq<u8>, i: int) -> int
    decreases s.len() - i,
{
    if 0 <= i < s.len() && is_space(s[i]) {
        space_end(s, i + 1)
    } else {
        i
    }
}

/// The end of the run of hexadecimal digits that starts at `i`.
pub open spec fn hex_end(s: Seq<u8>, i: int) -> int
    decreases s.len() - i,
{
    if 0 <= i < s.len() && is_hex(s[i]) {
        hex_end(s, i + 1)
    } else {
        i
    }
}

/// The end of the run of backslashes that starts at `i`.
pub open spec fn backslash_end(s: Seq<u8>, i: int) -> int
    decreases s.len() - i,
{
    if 0 <= i < s.len() && s[i] == BACKSLASH {
        backslash_end(s, i + 1)
    } else {
        i
    }
}

/// The end of the at-word's name that starts at `i`.
pub open spec fn name_end(s: Seq<u8>, i: int) -> int
    decreases s.len() - i,
{
    if 0 <= i < s.len() && !ends_name(s[i]) {
        name_end(s, i + 1)
    } else {
        i
    }
}

/// The end of the word whose rest starts at `i`.
pub open spec fn word_end(s: Seq<u8>, i: int) -> int
    decreases s.len() - i,
{
    if 0 <= i < s.len() && !word_stops(s, i) {
        word_end(s, i + 1)
    } else {
        i
    }
}

/// The number of backslashes right before index `i`.
pub open spec fn backslashes_before(s: Seq<u8>, i: int) -> nat
    decreases i,
{
    if 0 < i <= s.len() && s[i - 1] == BACKSLASH {
        1 + backslashes_before(s, i - 1)
    } else {
        0
    }
}

/// Whether the byte at `i` is escaped by an odd number of backslashes before it.
pub open spec fn is_escaped(s: Seq<u8>, i: int) -> bool {
    backslashes_before(s, i) % 2 == 1
}

/// The first index at or after `i` holding `b`.
pub open spec fn first_of(s: Seq<u8>, b: u8, i: int) -> Option<int>
    decreases s.len() - i,
{
    if i < 0 || i >= s.len() {
        None
    } else if s[i] == b {
        Some(i)
    } else {
        first_of(s, b, i + 1)
    }
}

/// The first index at or after `i` holding an unescaped `b`.
pub open spec fn close_of(s: Seq<u8>, b: u8, i: int) -> Option<int>
    decreases s.len() - i,
{
    if i < 0 || i >= s.len() {
        None
    } else if s[i] == b && !is_escaped(s, i) {
        Some(i)
    } else {
        close_of(s, b, i + 1)
    }
}

/// Whether `*/` starts at `j`.
pub open spec fn closes_comment_at(s: Seq<u8>, j: int) -> bool {
    0 <= j && j + 1 < s.len() && s[j] == ASTERISK && s[j + 1] == SLASH
}

/// The first index at or after `i` where `*/` starts.
pub open spec fn comment_close(s: Seq<u8>, i: int) -> Option<int>
    decreases s.len() - i,
{
    if i < 0 || i + 1 >= s.len() {
        None
    } else if closes_comment_at(s, i) {
        Some(i)
    } else {
        comment_close(s, i + 1)
    }
}

/// Whether `s[from..to]` holds a byte that keeps a plain `(...)` from being one token.
pub open spec fn has_bad_byte(s: Seq<u8>, from: int, to: int) -> bool {
    exists|k: int| from <= k < to && is_bad_in_bracket(#[trigger] s[k])
}

pub open spec fn min(a: int, b: int) -> int {
    if a <= b {
        a
    } else {
        b
    }
}

/// The end of an escape sequence that starts with the backslash at `pos`.
///
/// A run of backslashes escapes the byte after it when the run is odd and that
/// byte is neither a space nor `/`. An escaped hexadecimal digit takes the
/// digits after it and one space after those along.
pub open spec fn escape_end(s: Seq<u8>, pos: int) -> int {
    let b = backslash_end(s, pos);
    let code = byte_at(s, b);
    if (b - pos) % 2 == 1 && code != SLASH && !is_space(code) {
        let e = if is_hex(code) {
            let h = hex_end(s, b + 1);
            if byte_at(s, h) == SPACE {
                h + 1
            } else {
                h
            }
        } else {
            b + 1
        };
        min(e, s.len() as int)
    } else {
        b
    }
}

/// Whether a `(` at `pos` that follows the word `url` opens a raw url.
pub open spec fn opens_raw_url(s: Seq<u8>, pos: int) -> bool {
    let n = byte_at(s, pos + 1);
    !(n == SINGLE_QUOTE || n == DOUBLE_QUOTE || is_space(n))
}

/// The token that starts at `pos < s.len()`, as `(kind, start, end)`, or what was
/// left unclosed.
///
/// `after_url` tells whether the most recent word not yet looked back at is
/// `url`; `lenient` turns each unclosed construct into a best-effort token.
pub open spec fn lex(s: Seq<u8>, pos: int, after_url: bool, lenient: bool) -> Result<
    (TokenType, int, int),
    Unclosed,
> {
    let c = s[pos];
    if is_space(c) {
        Ok((TokenType::Space, pos, space_end(s, pos + 1)))
    } else if is_single(c) {
        Ok((single_type(c), pos, pos + 1))
    } else if c == OPEN_PARENTHESES {
        if after_url && opens_raw_url(s, pos) {
            match close_of(s, CLOSE_PARENTHESES, pos + 1) {
                Some(j) => Ok((TokenType::Brackets, pos, j + 1)),
                None => if lenient {
                    Ok((TokenType::Brackets, pos, pos + 1))
                } else {
                    Err(Unclosed::Bracket)
                },
            }
        } else {
            match first_of(s, CLOSE_PARENTHESES, pos + 1) {
                Some(j) => if has_bad_byte(s, pos + 1, j) {
                    Ok((TokenType::OpenParentheses, pos, pos + 1))
                } else {
                    Ok((TokenType::Brackets, pos, j + 1))
                },
                None => Ok((TokenType::OpenParentheses, pos, pos + 1)),
            }
        }
    } else if c == SINGLE_QUOTE || c == DOUBLE_QUOTE {
        match close_of(s, c, pos + 1) {
            Some(j) => Ok((TokenType::String, pos, j + 1)),
            None => if lenient {
                Ok((TokenType::String, pos, min(pos + 2, s.len() as int)))
            } else {
                Err(Unclosed::String)
            },
        }
    } else if c == AT {
        Ok((TokenType::AtWord, pos, name_end(s, pos + 1)))
    } else if c == BACKSLASH {
        Ok((TokenType::Word, pos, escape_end(s, pos)))
    } else if c == SLASH && byte_at(s, pos + 1) == ASTERISK {
        match comment_close(s, pos + 2) {
            Some(k) => Ok((TokenType::Comment, pos, k + 2)),
            None => if lenient {
                Ok((TokenType::Comment, pos, s.len() as int))
            } else {
                Err(Unclosed::Comment)
            },
        }
    } else {
        Ok((TokenType::Word, pos, word_end(s, pos + 1)))
    }
}


// ---------------------------------------------------------------------------
// Lemmas on searches

proof fn lemma_first_of_skip(s: Seq<u8>, b: u8, from: int, k: int)
    requires
        0 <= from <= k <= s.len(),
        forall|j: int| from <= j < k ==> s[j] != b,
    ensures
        first_of(s, b, from) == first_of(s, b, k),
    decreases k - from,
{
    if from < k {
        lemma_first_of_skip(s, b, from + 1, k);
    }
}

proof fn lemma_close_of_skip(s: Seq<u8>, b: u8, from: int, k: int)
    requires
        0 <= from <= k <= s.len(),
        forall|j: int| from <= j < k ==> s[j] != b,
    ensures
        close_of(s, b, from) == close_of(s, b, k),
    decreases k - from,
{
    if from < k {
        lemma_close_of_skip(s, b, from + 1, k);
    }
}

proof fn lemma_comment_close_skip(s: Seq<u8>, from: int, k: int)
    requires
        0 <= from <= k,
        k + 1 <= s.len(),
        forall|j: int| from <= j < k ==> !#[trigger] closes_comment_at(s, j),
    ensures
        comment_close(s, from) == comment_close(s, k),
    decreases k - from,
{
    if from < k {
        lemma_comment_close_skip(s, from + 1, k);
    }
}

proof fn lemma_comment_close_none(s: Seq<u8>, from: int)
    requires
        0 <= from,
        forall|j: int| from <= j ==> !#[trigger] closes_comment_at(s, j),
    ensures
        comment_close(s, from) is None,
    decreases s.len() - from,
{
    if from + 1 < s.len() {
        lemma_comment_close_none(s, from + 1);
    }
}

// ---------------------------------------------------------------------------
// Scanning

/// The byte at `n`, or 0 past the end.
pub fn char_code_at(s: &[u8], n: usize) -> (r: u8)
    ensures
        r == byte_at(s@, n as int),
{
    if n >= s.len() {
        0
    } else {
        s[n]
    }
}

fn is_space_byte(b: u8) -> (r: bool)
    ensures
        r == is_space(b),
{
    b == SPACE || b == NEWLINE || b == TAB || b == CR || b == FEED
}

/// Whether the byte at `n` is a hexadecimal digit.
pub fn is_hex_char(s: &[u8], n: usize) -> (r: bool)
    ensures
        r == (n < s@.len() && is_hex(s@[n as int])),
{
    if n >= s.len() {
        return false;
    }
    let b = s[n];
    (0x30 <= b && b <= 0x39) || (0x41 <= b && b <= 0x46) || (0x61 <= b && b <= 0x66)
}

/// The kind of a one-byte token.
pub fn get_token_type(ch: u8) -> (r: TokenType)
    ensures
        r == single_type(ch),
{
    if ch == OPEN_SQUARE {
        TokenType::OpenSquare
    } else if ch == CLOSE_SQUARE {
        TokenType::CloseSquare
    } else if ch == OPEN_CURLY {
        TokenType::OpenCurly
    } else if ch == CLOSE_CURLY {
        TokenType::CloseCurly
    } else if ch == COLON {
        TokenType::Colon
    } else if ch == SEMICOLON {
        TokenType::Semicolon
    } else if ch == CLOSE_PARENTHESES {
        TokenType::CloseParentheses
    } else {
        TokenType::Unknown
    }
}

/// Whether the bytes of `content` after its first one hold one that keeps a
/// plain `(...)` from being one token.
pub fn is_bad_bracket(content: &[u8]) -> (r: bool)
    ensures
        r == has_bad_byte(content@, 1, content@.len() as int),
{
    let mut i: usize = 1;
    while i < content.len()
        invariant
            1 <= i,
            !has_bad_byte(content@, 1, i as int),
        decreases content.len() - i,
    {
        let b = content[i];
        if b == NEWLINE || b == DOUBLE_QUOTE || b == SINGLE_QUOTE || b == OPEN_PARENTHESES || b
            == SLASH || b == BACKSLASH {
            assert(is_bad_in_bracket(content@[i as int]));
            return true;
        }
        i = i + 1;
    }
    false
}

fn space_run(s: &[u8], i: usize) -> (r: usize)
    requires
        i <= s@.len(),
    ensures
        r == space_end(s@, i as int),
        i <= r <= s@.len(),
{
    let mut j = i;
    while j < s.len() && is_space_byte(s[j])
        invariant
            i <= j <= s@.len(),
            space_end(s@, j as int) == space_end(s@, i as int),
        decreases s@.len() - j,
    {
        j = j + 1;
    }
    j
}

fn hex_run(s: &[u8], i: usize) -> (r: usize)
    requires
        i <= s@.len(),
    ensures
        r == hex_end(s@, i as int),
        i <= r <= s@.len(),
{
    let mut j = i;
    while j < s.len() && is_hex_char(s, j)
        invariant
            i <= j <= s@.len(),
            hex_end(s@, j as int) == hex_end(s@, i as int),
        decreases s@.len() - j,
    {
        j = j + 1;
    }
    j
}

fn backslash_run(s: &[u8], i: usize) -> (r: usize)
    requires
        i <= s@.len(),
    ensures
        r == backslash_end(s@, i as int),
        i <= r <= s@.len(),
{
    let mut j = i;
    while j < s.len() && s[j] == BACKSLASH
        invariant
            i <= j <= s@.len(),
            backslash_end(s@, j as int) == backslash_end(s@, i as int),
        decreases s@.len() - j,
    {
        j = j + 1;
    }
    j
}

/// The end of the at-word's name that starts at `start`.
pub fn index_of_at_end(s: &[u8], start: usize) -> (r: usize)
    requires
        start <= s@.len(),
    ensures
        r == name_end(s@, start as int),
        start <= r <= s@.len(),
{
    let mut i = start;
    while i < s.len()
        invariant
            start <= i <= s@.len(),
            name_end(s@, i as int) == name_end(s@, start as int),
        decreases s@.len() - i,
    {
        let b = s[i];
        if is_space_byte(b) || b == DOUBLE_QUOTE || b == HASH || b == SINGLE_QUOTE || b
            == OPEN_PARENTHESES || b == CLOSE_PARENTHESES || b == SLASH || b == SEMICOLON || b
            == OPEN_SQUARE || b == BACKSLASH || b == CLOSE_SQUARE || b == OPEN_CURLY || b
            == CLOSE_CURLY {
            return i;
        }
        i = i + 1;
    }
    i
}

/// The end of the word whose rest starts at `start`.
pub fn index_of_word_end(s: &[u8], start: usize) -> (r: usize)
    requires
        start <= s@.len(),
    ensures
        r == word_end(s@, start as int),
        start <= r <= s@.len(),
{
    let mut i = start;
    while i < s.len()
        invariant
            start <= i <= s@.len(),
            word_end(s@, i as int) == word_end(s@, start as int),
        decreases s@.len() - i,
    {
        let b = s[i];
        if is_space_byte(b) || b == EXCLAMATION || b == DOUBLE_QUOTE || b == HASH || b
            == SINGLE_QUOTE || b == OPEN_PARENTHESES || b == CLOSE_PARENTHESES || b == COLON || b
            == SEMICOLON || b == AT || b == OPEN_SQUARE || b == BACKSLASH || b == CLOSE_SQUARE || b
            == OPEN_CURLY || b == CLOSE_CURLY {
            return i;
        }
        if b == SLASH && char_code_at(s, i + 1) == ASTERISK {
            return i;
        }
        i = i + 1;
    }
    i
}

/// Whether the byte at `j` is escaped by an odd run of backslashes before it.
fn escaped_at(s: &[u8], j: usize) -> (r: bool)
    requires
        j <= s@.len(),
    ensures
        r == is_escaped(s@, j as int),
{
    let mut k = j;
    let mut n: usize = 0;
    while k > 0 && s[k - 1] == BACKSLASH
        invariant
            k <= j <= s@.len(),
            n + k == j,
            backslashes_before(s@, j as int) == n + backslashes_before(s@, k as int),
        decreases k,
    {
        k = k - 1;
        n = n + 1;
    }
    n % 2 == 1
}

/// The first index at or after `from` holding `b`.
pub fn index_of_byte(s: &[u8], b: u8, from: usize) -> (r: Option<usize>)
    requires
        from <= s@.len(),
    ensures
        r matches Some(j) ==> first_of(s@, b, from as int) == Some(j as int),
        r is None ==> first_of(s@, b, from as int) is None,
{
    let rest = vstd::slice::slice_subrange(s, from, s.len());
    match find_byte(b, rest) {
        Some(k) => {
            proof {
                assert forall|j: int| from <= j < from + k implies s@[j] != b by {
                    assert(rest@[j - from] == s@[j]);
                }
                assert(rest@[k as int] == s@[from + k]);
                lemma_first_of_skip(s@, b, from as int, from + k);
            }
            Some(from + k)
        },
        None => {
            proof {
                assert forall|j: int| from <= j < s@.len() implies s@[j] != b by {
                    assert(rest@[j - from] == s@[j]);
                }
                lemma_first_of_skip(s@, b, from as int, s@.len() as int);
            }
            None
        },
    }
}

/// The first index at or after `from` holding `b` that no odd run of
/// backslashes escapes.
fn index_of_close(s: &[u8], b: u8, from: usize) -> (r: Option<usize>)
    requires
        from <= s@.len(),
    ensures
        r matches Some(j) ==> close_of(s@, b, from as int) == Some(j as int),
        r is None ==> close_of(s@, b, from as int) is None,
{
    let mut i = from;
    loop
        invariant
            from <= i <= s@.len(),
            close_of(s@, b, i as int) == close_of(s@, b, from as int),
        decreases s@.len() - i,
    {
        let rest = vstd::slice::slice_subrange(s, i, s.len());
        match find_byte(b, rest) {
            Some(k) => {
                let j = i + k;
                proof {
                    assert forall|t: int| i <= t < j implies s@[t] != b by {
                        assert(rest@[t - i] == s@[t]);
                    }
                    assert(rest@[k as int] == s@[j as int]);
                    lemma_close_of_skip(s@, b, i as int, j as int);
                }
                if !escaped_at(s, j) {
                    return Some(j);
                }
                i = j + 1;
            },
            None => {
                proof {
                    assert forall|t: int| i <= t < s@.len() implies s@[t] != b by {
                        assert(rest@[t - i] == s@[t]);
                    }
                    lemma_close_of_skip(s@, b, i as int, s@.len() as int);
                }
                return None;
            },
        }
    }
}

/// The first index at or after `from` where `*/` starts.
pub fn index_of_end_comment(s: &[u8], from: usize) -> (r: Option<usize>)
    requires
        from <= s@.len(),
    ensures
        r matches Some(k) ==> comment_close(s@, from as int) == Some(k as int),
        r is None ==> comment_close(s@, from as int) is None,
{
    let rest = vstd::slice::slice_subrange(s, from, s.len());
    let needle: [u8; 2] = [ASTERISK, SLASH];
    let nd: &[u8] = &needle;
    proof {
        assert(nd@ == seq![ASTERISK, SLASH]);
    }
    match find_slice(rest, nd) {
        Some(k) => {
            proof {
                assert(rest@.subrange(k as int, k + 2) == nd@);
                assert(rest@.subrange(k as int, k + 2)[0] == s@[from + k]);
                assert(rest@.subrange(k as int, k + 2)[1] == s@[from + k + 1]);
                assert forall|j: int| from <= j < from + k implies !closes_comment_at(s@, j) by {
                    if closes_comment_at(s@, j) {
                        assert(rest@.subrange(j - from, j - from + 2) =~= nd@);
                        assert(occurs_at(rest@, nd@, j - from));
                    }
                }
                lemma_comment_close_skip(s@, from as int, from + k);
            }
            Some(from + k)
        },
        None => {
            proof {
                assert forall|j: int| from <= j implies !closes_comment_at(s@, j) by {
                    if closes_comment_at(s@, j) {
                        assert(rest@.subrange(j - from, j - from + 2) =~= nd@);
                        assert(!occurs_at(rest@, nd@, j - from));
                    }
                }
                lemma_comment_close_none(s@, from as int);
            }
            None
        },
    }
}


// ---------------------------------------------------------------------------
// The token stream

/// The bytes of `url`.
pub open spec fn url_bytes() -> Seq<u8> {
    seq![0x75u8, 0x72u8, 0x6cu8]
}

/// Whether the word that a pop of `ring` takes out is `url`.
pub open spec fn after_url_in(s: Seq<u8>, ring: RingView) -> bool {
    match ring_top(ring) {
        Some((a, b)) => a <= b <= s.len() && s.subrange(a as int, b as int) == url_bytes(),
        None => false,
    }
}

/// The ring of words after the token `(kind, start, end)`: a `(` takes the last
/// word out, a word goes in.
pub open spec fn next_ring(s: Seq<u8>, ring: RingView, kind: TokenType, start: int, end: int) -> RingView {
    if s[start] == OPEN_PARENTHESES {
        ring_pop(ring)
    } else if kind == TokenType::Word {
        ring_push(ring, (start as usize, end as usize))
    } else {
        ring
    }
}

/// The tokens of `s` from `pos` on, given the ring of words at `pos`, or the
/// first construct left unclosed and where it starts.
pub open spec fn lex_all(s: Seq<u8>, pos: int, ring: RingView, lenient: bool) -> Result<
    Seq<Token>,
    (Unclosed, int),
>
    decreases s.len() - pos,
{
    if pos < 0 || pos >= s.len() {
        Ok(Seq::empty())
    } else {
        match lex(s, pos, after_url_in(s, ring), lenient) {
            Err(u) => Err((u, pos)),
            Ok((kind, start, end)) => if end <= pos || end > s.len() {
                Ok(Seq::empty())
            } else {
                match lex_all(s, end, next_ring(s, ring, kind, start, end), lenient) {
                    Ok(rest) => Ok(seq![Token(kind, start as usize, end as usize)] + rest),
                    Err(e) => Err(e),
                }
            },
        }
    }
}

/// The tokens of `s` from `pos` on, up to the first construct left unclosed,
/// and that construct with where it starts, if there is one.
pub open spec fn lex_stream(s: Seq<u8>, pos: int, ring: RingView, lenient: bool) -> (
    Seq<Token>,
    Option<(Unclosed, int)>,
)
    decreases s.len() - pos,
{
    if pos < 0 || pos >= s.len() {
        (Seq::empty(), None)
    } else {
        match lex(s, pos, after_url_in(s, ring), lenient) {
            Err(u) => (Seq::empty(), Some((u, pos))),
            Ok((kind, start, end)) => if end <= pos || end > s.len() {
                (Seq::empty(), None)
            } else {
                let rest = lex_stream(s, end, next_ring(s, ring, kind, start, end), lenient);
                (seq![Token(kind, start as usize, end as usize)] + rest.0, rest.1)
            },
        }
    }
}

/// Whether `ts` are non-empty spans that follow one another from `from` to `to`.
pub open spec fn tiles(ts: Seq<Token>, from: int, to: int) -> bool
    decreases ts.len(),
{
    if ts.len() == 0 {
        from == to
    } else {
        ts[0].1 == from && ts[0].1 < ts[0].2 && tiles(ts.drop_first(), ts[0].2 as int, to)
    }
}

/// The texts of the tokens `ts` of `s`, one after another.
pub open spec fn texts(s: Seq<u8>, ts: Seq<Token>) -> Seq<u8>
    decreases ts.len(),
{
    if ts.len() == 0 {
        Seq::empty()
    } else {
        s.subrange(ts[0].1 as int, ts[0].2 as int) + texts(s, ts.drop_first())
    }
}

// ---------------------------------------------------------------------------
// Bounds

proof fn lemma_space_end(s: Seq<u8>, i: int)
    requires
        0 <= i <= s.len(),
    ensures
        i <= space_end(s, i) <= s.len(),
    decreases s.len() - i,
{
    if i < s.len() && is_space(s[i]) {
        lemma_space_end(s, i + 1);
    }
}

proof fn lemma_hex_end(s: Seq<u8>, i: int)
    requires
        0 <= i,
    ensures
        i <= hex_end(s, i),
        i <= s.len() ==> hex_end(s, i) <= s.len(),
    decreases s.len() - i,
{
    if 0 <= i < s.len() && is_hex(s[i]) {
        lemma_hex_end(s, i + 1);
    }
}

proof fn lemma_backslash_end(s: Seq<u8>, i: int)
    requires
        0 <= i <= s.len(),
    ensures
        i <= backslash_end(s, i) <= s.len(),
    decreases s.len() - i,
{
    if i < s.len() && s[i] == BACKSLASH {
        lemma_backslash_end(s, i + 1);
    }
}

proof fn lemma_name_end(s: Seq<u8>, i: int)
    requires
        0 <= i <= s.len(),
    ensures
        i <= name_end(s, i) <= s.len(),
    decreases s.len() - i,
{
    if i < s.len() && !ends_name(s[i]) {
        lemma_name_end(s, i + 1);
    }
}

proof fn lemma_word_end(s: Seq<u8>, i: int)
    requires
        0 <= i <= s.len(),
    ensures
        i <= word_end(s, i) <= s.len(),
    decreases s.len() - i,
{
    if i < s.len() && !word_stops(s, i) {
        lemma_word_end(s, i + 1);
    }
}

proof fn lemma_first_of(s: Seq<u8>, b: u8, i: int)
    ensures
        first_of(s, b, i) matches Some(j) ==> i <= j < s.len() && s[j] == b,
    decreases s.len() - i,
{
    if 0 <= i < s.len() && s[i] != b {
        lemma_first_of(s, b, i + 1);
    }
}

proof fn lemma_close_of(s: Seq<u8>, b: u8, i: int)
    ensures
        close_of(s, b, i) matches Some(j) ==> i <= j < s.len() && s[j] == b,
    decreases s.len() - i,
{
    if 0 <= i < s.len() && !(s[i] == b && !is_escaped(s, i)) {
        lemma_close_of(s, b, i + 1);
    }
}

proof fn lemma_comment_close(s: Seq<u8>, i: int)
    ensures
        comment_close(s, i) matches Some(k) ==> i <= k && k + 1 < s.len(),
    decreases s.len() - i,
{
    if 0 <= i && i + 1 < s.len() && !closes_comment_at(s, i) {
        lemma_comment_close(s, i + 1);
    }
}

/// Every token starts where it is asked for and ends after that, within the source.
pub proof fn lemma_lex_bounds(s: Seq<u8>, pos: int, after_url: bool, lenient: bool)
    requires
        0 <= pos < s.len(),
    ensures
        lex(s, pos, after_url, lenient) matches Ok((kind, start, end)) ==> start == pos && pos
            < end <= s.len(),
{
    lemma_space_end(s, pos + 1);
    lemma_name_end(s, pos + 1);
    lemma_word_end(s, pos + 1);
    lemma_first_of(s, CLOSE_PARENTHESES, pos + 1);
    lemma_close_of(s, CLOSE_PARENTHESES, pos + 1);
    lemma_close_of(s, s[pos], pos + 1);
    lemma_comment_close(s, pos + 2);
    if s[pos] == BACKSLASH {
        lemma_backslash_end(s, pos + 1);
        let b = backslash_end(s, pos);
        assert(b == backslash_end(s, pos + 1));
        lemma_hex_end(s, b + 1);
    }
}

/// A `{` or `}` token is that byte.
pub proof fn lemma_lex_braces(s: Seq<u8>, pos: int, after_url: bool, lenient: bool)
    requires
        0 <= pos < s.len(),
    ensures
        lex(s, pos, after_url, lenient) matches Ok((kind, start, end)) ==> {
            &&& kind == TokenType::OpenCurly ==> s[pos] == OPEN_CURLY && end == pos + 1
            &&& kind == TokenType::CloseCurly ==> s[pos] == CLOSE_CURLY && end == pos + 1
        },
{
}

/// In lenient mode nothing is left unclosed.
pub proof fn lemma_lex_lenient(s: Seq<u8>, pos: int, after_url: bool)
    requires
        0 <= pos < s.len(),
    ensures
        lex(s, pos, after_url, true) is Ok,
{
}

/// The tokens of a source tile it from `pos` to its end.
pub proof fn lemma_lex_all_tiles(s: Seq<u8>, pos: int, ring: RingView, lenient: bool)
    requires
        0 <= pos <= s.len(),
        s.len() <= usize::MAX,
    ensures
        lex_all(s, pos, ring, lenient) matches Ok(ts) ==> tiles(ts, pos, s.len() as int),
    decreases s.len() - pos,
{
    if pos < s.len() {
        lemma_lex_bounds(s, pos, after_url_in(s, ring), lenient);
        match lex(s, pos, after_url_in(s, ring), lenient) {
            Ok((kind, start, end)) => {
                let r2 = next_ring(s, ring, kind, start, end);
                lemma_lex_all_tiles(s, end, r2, lenient);
                if let Ok(rest) = lex_all(s, end, r2, lenient) {
                    let ts = seq![Token(kind, start as usize, end as usize)] + rest;
                    assert(lex_all(s, pos, ring, lenient) == Ok::<Seq<Token>, (Unclosed, int)>(ts));
                    assert(ts.drop_first() =~= rest);
                    assert(ts[0].1 == pos && ts[0].2 == end);
                }
            },
            Err(_) => {},
        }
    }
}

/// In lenient mode the whole source is tokenized.
pub proof fn lemma_lex_all_lenient(s: Seq<u8>, pos: int, ring: RingView)
    ensures
        lex_all(s, pos, ring, true) is Ok,
    decreases s.len() - pos,
{
    if 0 <= pos < s.len() {
        lemma_lex_bounds(s, pos, after_url_in(s, ring), true);
        if let Ok((kind, start, end)) = lex(s, pos, after_url_in(s, ring), true) {
            lemma_lex_all_lenient(s, end, next_ring(s, ring, kind, start, end));
        }
    }
}

/// Spans that tile `[from, to)` of `s` reproduce that part of `s`, one after another.
pub proof fn lemma_tiles_texts(s: Seq<u8>, ts: Seq<Token>, from: int, to: int)
    requires
        tiles(ts, from, to),
        0 <= from,
        to <= s.len(),
    ensures
        texts(s, ts) == s.subrange(from, to),
    decreases ts.len(),
{
    if ts.len() > 0 {
        lemma_tiles_bounds(ts.drop_first(), ts[0].2 as int, to);
        lemma_tiles_texts(s, ts.drop_first(), ts[0].2 as int, to);
        assert(s.subrange(from, ts[0].2 as int) + s.subrange(ts[0].2 as int, to) =~= s.subrange(
            from,
            to,
        ));
    }
}

proof fn lemma_tiles_bounds(ts: Seq<Token>, from: int, to: int)
    requires
        tiles(ts, from, to),
    ensures
        from <= to,
    decreases ts.len(),
{
    if ts.len() > 0 {
        lemma_tiles_bounds(ts.drop_first(), ts[0].2 as int, to);
    }
}

/// Token exhaustiveness: the texts of the tokens of `s`, in order, are `s`.
pub proof fn lemma_tokens_reproduce_source(s: Seq<u8>, lenient: bool)
    requires
        s.len() <= usize::MAX,
    ensures
        lex_all(s, 0, ring_empty(), lenient) matches Ok(ts) ==> texts(s, ts) == s,
{
    lemma_lex_all_tiles(s, 0, ring_empty(), lenient);
    if let Ok(ts) = lex_all(s, 0, ring_empty(), lenient) {
        lemma_tiles_texts(s, ts, 0, s.len() as int);
        assert(s.subrange(0, s.len() as int) =~= s);
    }
}

// ---------------------------------------------------------------------------
// The tokenizer

/// Pulls tokens out of a source, one per call, with room to push tokens back.
pub struct Tokenizer<'a> {
    css: &'a [u8],
    ignore: bool,
    pos: usize,
    buffer: RefRing,
    returned: Vec<Token>,
}

impl<'a> Tokenizer<'a> {
    /// The bytes of the source.
    pub closed spec fn source(&self) -> Seq<u8> {
        self.css@
    }

    /// The offset of the next byte to read.
    pub closed spec fn cursor(&self) -> int {
        self.pos as int
    }

    /// The tokens pushed back, the last one to come out first.
    pub closed spec fn pending(&self) -> Seq<Token> {
        self.returned@
    }

    /// The ring of recent words.
    pub closed spec fn words(&self) -> RingView {
        self.buffer@
    }

    /// Whether every unclosed construct becomes a best-effort token.
    pub closed spec fn ignores_errors(&self) -> bool {
        self.ignore
    }

    pub closed spec fn wf(&self) -> bool {
        &&& self.css@.len() <= usize::MAX
        &&& self.pos <= self.css@.len()
        &&& self.buffer.wf()
    }

    pub open spec fn at_end(&self) -> bool {
        self.pending().len() == 0 && self.cursor() >= self.source().len()
    }

    /// A tokenizer at the start of `css`. With `ignore_errors`, unclosed strings,
    /// comments and brackets become best-effort tokens instead of errors.
    pub fn new(css: &'a str, ignore_errors: bool) -> (r: Tokenizer<'a>)
        ensures
            r.wf(),
            r.source() == css.spec_bytes(),
            r.source().len() <= usize::MAX,
            r.cursor() == 0,
            r.pending().len() == 0,
            r.words() == ring_empty(),
            r.ignores_errors() == ignore_errors,
    {
        let bytes = css.as_bytes();
        let _len = bytes.len();
        Tokenizer {
            css: bytes,
            ignore: ignore_errors,
            pos: 0,
            buffer: RefRing::new(),
            returned: Vec::new(),
        }
    }

    /// The offset of the next byte to read.
    pub fn position(&self) -> (r: usize)
        ensures
            r == self.cursor(),
    {
        self.pos
    }

    /// Whether no token is left: nothing pushed back and the source read to its end.
    pub fn end_of_file(&self) -> (r: bool)
        ensures
            r == self.at_end(),
    {
        self.returned.len() == 0 && self.pos >= self.css.len()
    }

    /// Pushes `token` back: the next call of `next_token` returns it.
    pub fn back(&mut self, token: Token)
        requires
            old(self).wf(),
        ensures
            final(self).wf(),
            final(self).pending() == old(self).pending().push(token),
            final(self).source() == old(self).source(),
            final(self).cursor() == old(self).cursor(),
            final(self).words() == old(self).words(),
            final(self).ignores_errors() == old(self).ignores_errors(),
    {
        self.returned.push(token);
    }

    /// The next token: the last one pushed back if any, else the one that starts
    /// at the cursor, as [`lex`] states it. With `ignore_unclosed`, this call
    /// turns unclosed constructs into best-effort tokens as well.
    pub fn next_token(&mut self, ignore_unclosed: bool) -> (r: Result<Token, PostcssError>)
        requires
            old(self).wf(),
            !old(self).at_end(),
        ensures
            final(self).wf(),
            final(self).source() == old(self).source(),
            final(self).ignores_errors() == old(self).ignores_errors(),
            r is Err ==> final(self).cursor() == old(self).cursor() && final(self).pending()
                == old(self).pending() && final(self).words() == old(self).words(),
            old(self).pending().len() > 0 ==> {
                &&& r == Ok::<Token, PostcssError>(old(self).pending().last())
                &&& final(self).pending() == old(self).pending().drop_last()
                &&& final(self).cursor() == old(self).cursor()
                &&& final(self).words() == old(self).words()
            },
            old(self).pending().len() == 0 ==> match lex(
                old(self).source(),
                old(self).cursor(),
                after_url_in(old(self).source(), old(self).words()),
                old(self).ignores_errors() || ignore_unclosed,
            ) {
                Ok((kind, start, end)) => {
                    &&& r == Ok::<Token, PostcssError>(Token(kind, start as usize, end as usize))
                    &&& final(self).cursor() == end
                    &&& final(self).pending().len() == 0
                    &&& final(self).words() == next_ring(
                        old(self).source(),
                        old(self).words(),
                        kind,
                        start,
                        end,
                    )
                },
                Err(u) => r == Err::<Token, PostcssError>(
                    PostcssError::Unclosed(u, old(self).cursor() as usize),
                ),
            },
    {
        if self.returned.len() > 0 {
            let t = self.returned.pop().unwrap();
            return Ok(t);
        }
        let s = self.css;
        let pos = self.pos;
        let len = s.len();
        let lenient = self.ignore || ignore_unclosed;
        let code = s[pos];
        let ghost after_url = after_url_in(s@, self.buffer@);
        proof {
            lemma_lex_bounds(s@, pos as int, after_url, lenient);
        }
        if is_space_byte(code) {
            let next = space_run(s, pos + 1);
            self.pos = next;
            return Ok(Token(TokenType::Space, pos, next));
        }
        if code == OPEN_SQUARE || code == CLOSE_SQUARE || code == OPEN_CURLY || code == CLOSE_CURLY
            || code == COLON || code == SEMICOLON || code == CLOSE_PARENTHESES {
            self.pos = pos + 1;
            return Ok(Token(get_token_type(code), pos, pos + 1));
        }
        if code == OPEN_PARENTHESES {
            let prev = self.buffer.last();
            let is_url = match prev {
                Some((a, b)) => a <= b && b <= len && b - a == 3 && s[a] == 0x75 && s[a + 1] == 0x72
                    && s[a + 2] == 0x6c,
                None => false,
            };
            proof {
                if let Some((a, b)) = prev {
                    if a <= b <= len {
                        if b - a == 3 && s@[a as int] == 0x75 && s@[a + 1] == 0x72 && s@[a + 2]
                            == 0x6c {
                            assert(s@.subrange(a as int, b as int) =~= url_bytes());
                        }
                        if s@.subrange(a as int, b as int) == url_bytes() {
                            assert(url_bytes().len() == 3);
                            assert(b - a == 3);
                            assert(s@.subrange(a as int, b as int)[0] == s@[a as int]);
                            assert(s@.subrange(a as int, b as int)[1] == s@[a + 1]);
                            assert(s@.subrange(a as int, b as int)[2] == s@[a + 2]);
                        }
                    }
                }
                assert(is_url == after_url);
            }
            let n = char_code_at(s, pos + 1);
            if is_url && !(n == SINGLE_QUOTE || n == DOUBLE_QUOTE || is_space_byte(n)) {
                match index_of_close(s, CLOSE_PARENTHESES, pos + 1) {
                    Some(j) => {
                        self.buffer.pop();
                        self.pos = j + 1;
                        return Ok(Token(TokenType::Brackets, pos, j + 1));
                    },
                    None => {
                        if lenient {
                            self.buffer.pop();
                            self.pos = pos + 1;
                            return Ok(Token(TokenType::Brackets, pos, pos + 1));
                        }
                        return Err(PostcssError::Unclosed(Unclosed::Bracket, pos));
                    },
                }
            } else {
                self.buffer.pop();
                match index_of_byte(s, CLOSE_PARENTHESES, pos + 1) {
                    Some(i) => {
                        proof {
                            lemma_first_of(s@, CLOSE_PARENTHESES, pos + 1);
                        }
                        let content = vstd::slice::slice_subrange(s, pos, i + 1);
                        let bad = is_bad_bracket(content);
                        proof {
                            lemma_first_of(s@, CLOSE_PARENTHESES, pos + 1);
                            if bad {
                                let k = choose|k: int|
                                    1 <= k < content@.len() && is_bad_in_bracket(
                                        #[trigger] content@[k],
                                    );
                                assert(content@[k] == s@[pos + k]);
                                assert(pos + k != i);
                                assert(is_bad_in_bracket(s@[pos + k]));
                            } else {
                                assert forall|k: int| pos + 1 <= k < i implies !is_bad_in_bracket(
                                    #[trigger] s@[k],
                                ) by {
                                    assert(content@[k - pos] == s@[k]);
                                }
                            }
                        }
                        if bad {
                            self.pos = pos + 1;
                            return Ok(Token(TokenType::OpenParentheses, pos, pos + 1));
                        }
                        self.pos = i + 1;
                        return Ok(Token(TokenType::Brackets, pos, i + 1));
                    },
                    None => {
                        self.pos = pos + 1;
                        return Ok(Token(TokenType::OpenParentheses, pos, pos + 1));
                    },
                }
            }
        }
        if code == SINGLE_QUOTE || code == DOUBLE_QUOTE {
            match index_of_close(s, code, pos + 1) {
                Some(j) => {
                    self.pos = j + 1;
                    return Ok(Token(TokenType::String, pos, j + 1));
                },
                None => {
                    if lenient {
                        let end = if pos + 1 < len {
                            pos + 2
                        } else {
                            len
                        };
                        self.pos = end;
                        return Ok(Token(TokenType::String, pos, end));
                    }
                    return Err(PostcssError::Unclosed(Unclosed::String, pos));
                },
            }
        }
        if code == AT {
            let end = index_of_at_end(s, pos + 1);
            self.pos = end;
            return Ok(Token(TokenType::AtWord, pos, end));
        }
        if code == BACKSLASH {
            let b = backslash_run(s, pos);
            let c = char_code_at(s, b);
            let mut end = b;
            if (b - pos) % 2 == 1 && c != SLASH && !is_space_byte(c) {
                end = if is_hex_char(s, b) {
                    let h = hex_run(s, b + 1);
                    if char_code_at(s, h) == SPACE {
                        h + 1
                    } else {
                        h
                    }
                } else if b < len {
                    b + 1
                } else {
                    len
                };
                if end > len {
                    end = len;
                }
            }
            self.buffer.push((pos, end));
            self.pos = end;
            return Ok(Token(TokenType::Word, pos, end));
        }
        if code == SLASH && char_code_at(s, pos + 1) == ASTERISK {
            let end = match index_of_end_comment(s, pos + 2) {
                Some(k) => k + 2,
                None => {
                    if !lenient {
                        return Err(PostcssError::Unclosed(Unclosed::Comment, pos));
                    }
                    len
                },
            };
            self.pos = end;
            return Ok(Token(TokenType::Comment, pos, end));
        }
        let end = index_of_word_end(s, pos + 1);
        self.buffer.push((pos, end));
        self.pos = end;
        Ok(Token(TokenType::Word, pos, end))
    }
}

/// All the tokens of `input`, unclosed constructs taken as best-effort tokens.
pub fn tokenize(input: &str) -> (r: Vec<Token>)
    ensures
        lex_all(input.spec_bytes(), 0, ring_empty(), true) == Ok::<Seq<Token>, (Unclosed, int)>(r@),
{
    let mut tokenizer = Tokenizer::new(input, false);
    let mut res: Vec<Token> = Vec::new();
    let ghost s = input.spec_bytes();
    proof {
        lemma_lex_all_lenient(s, 0, ring_empty());
        assert(Seq::<Token>::empty() + lex_all(s, 0, ring_empty(), true)->Ok_0 =~= lex_all(s, 0, ring_empty(), true)->Ok_0);
    }
    while !tokenizer.end_of_file()
        invariant
            tokenizer.wf(),
            tokenizer.source() == s,
            tokenizer.pending().len() == 0,
            !tokenizer.ignores_errors(),
            0 <= tokenizer.cursor() <= s.len(),
            lex_all(s, 0, ring_empty(), true) matches Ok(all) && all == res@ + (lex_all(
                s,
                tokenizer.cursor(),
                tokenizer.words(),
                true,
            )->Ok_0),
            lex_all(s, tokenizer.cursor(), tokenizer.words(), true) is Ok,
        decreases s.len() - tokenizer.cursor(),
    {
        let ghost pos = tokenizer.cursor();
        let ghost ring = tokenizer.words();
        proof {
            lemma_lex_bounds(s, pos, after_url_in(s, ring), true);
            lemma_lex_lenient(s, pos, after_url_in(s, ring));
        }
        match tokenizer.next_token(true) {
            Ok(t) => {
                proof {
                    let rest = lex_all(s, pos, ring, true)->Ok_0;
                    lemma_lex_all_lenient(s, t.2 as int, tokenizer.words());
                    let tail = lex_all(s, t.2 as int, tokenizer.words(), true);
                    assert(rest == seq![t] + tail->Ok_0);
                    assert(res@.push(t) + tail->Ok_0 =~= res@ + rest);
                }
                res.push(t);
            },
            Err(_) => {},
        }
    }
    proof {
        assert(res@ + Seq::<Token>::empty() =~= res@);
    }
    res
}
} // verus!

//! The source text handed to the parser, with its origin label, and line and
//! column lookup for byte offsets.
use vstd::prelude::*;
use vstd::string::{StringExecFns, StringSliceAdditionalSpecFns};

verus! {

/// Options of a parse.
pub struct ProcessOptions {
    /// The name of the file the source came from, for diagnostics.
    pub from: Option<String>,
    /// Whether unclosed strings, comments and brackets become best-effort
    /// tokens instead of errors.
    pub ignore_errors: bool,
}

/// A place in the source: its byte offset, and its line and column, both
/// counted from 1.
#[derive(Debug, Clone, Copy, PartialEq, Eq, Structural)]
pub struct Position {
    pub offset: usize,
    pub column: usize,
    pub line: usize,
}

impl Position {
    pub fn new(offset: usize, line: usize, column: usize) -> (r: Position)
        ensures
            r == (Position { offset, column, line }),
    {
        Position { offset, column, line }
    }
}

/// A line and column in a named file.
#[derive(Debug)]
pub struct FilePosition {
    pub file: String,
    pub line: usize,
    pub column: usize,
}

/// A source text and the name of the file it came from, if known.
pub struct Input<'a> {
    pub css: &'a str,
    pub file: Option<String>,
    pub ignore_errors: bool,
}

/// The line, counted from 1, on which the byte at `offset` stands.
pub open spec fn line_of(s: Seq<u8>, offset: int) -> int
    decreases offset,
{
    if offset <= 0 {
        1
    } else {
        line_of(s, offset - 1) + if s[offset - 1] == 0x0a {
            1int
        } else {
            0int
        }
    }
}

/// The offset at which the line of the byte at `offset` starts.
pub open spec fn line_start(s: Seq<u8>, offset: int) -> int
    decreases offset,
{
    if offset <= 0 {
        0
    } else if s[offset - 1] == 0x0a {
        offset
    } else {
        line_start(s, offset - 1)
    }
}

impl<'a> Input<'a> {
    /// The source `css`, with the file name and the lenient flag of `opts`.
    pub fn new(css: &'a str, opts: Option<ProcessOptions>) -> (r: Input<'a>)
        ensures
            r.css == css,
            opts is None ==> r.file is None && !r.ignore_errors,
            opts matches Some(o) ==> r.file == o.from && r.ignore_errors == o.ignore_errors,
    {
        match opts {
            Some(o) => Input { css, file: o.from, ignore_errors: o.ignore_errors },
            None => Input { css, file: None, ignore_errors: false },
        }
    }

    /// The name of the file the source came from, or `<input css>`.
    pub fn from(&self) -> (r: String)
        ensures
            self.file matches Some(f) ==> r@ == f@,
            self.file is None ==> r@ == "<input css>"@,
    {
        match &self.file {
            Some(f) => f.clone(),
            None => String::from_str("<input css>"),
        }
    }

    /// Where `line` and `column` of the source stand in the file it came
    /// from; `None` when the file is not known.
    pub fn origin(&self, line: usize, column: usize) -> (r: Option<FilePosition>)
        ensures
            self.file is None ==> r is None,
            self.file matches Some(f) ==> r matches Some(p) && p.file@ == f@ && p.line == line
                && p.column == column,
    {
        match &self.file {
            Some(f) => Some(FilePosition { file: f.clone(), line, column }),
            None => None,
        }
    }

    /// The line and column of the byte at `offset`; `None` past the end (and
    /// at `usize::MAX`, which no text reaches).
    pub fn from_offset(&self, offset: usize) -> (r: Option<Position>)
        ensures
            offset > self.css.spec_bytes().len() || offset == usize::MAX ==> r is None,
            offset <= self.css.spec_bytes().len() && offset < usize::MAX ==> r == Some(
                Position {
                    offset,
                    line: line_of(self.css.spec_bytes(), offset as int) as usize,
                    column: (offset - line_start(self.css.spec_bytes(), offset as int) + 1) as usize,
                },
            ),
    {
        let s = self.css.as_bytes();
        if offset > s.len() || offset == usize::MAX {
            return None;
        }
        let mut line: usize = 1;
        let mut start: usize = 0;
        let mut i: usize = 0;
        while i < offset
            invariant
                s@ == self.css.spec_bytes(),
                offset <= s@.len(),
                offset < usize::MAX,
                i <= offset,
                1 <= line <= i + 1,
                start <= i,
                line == line_of(s@, i as int),
                start == line_start(s@, i as int),
            decreases offset - i,
        {
            if s[i] == 0x0a {
                line = line + 1;
                start = i + 1;
            }
            i = i + 1;
        }
        Some(Position::new(offset, line, offset - start + 1))
    }
}

} // verus!

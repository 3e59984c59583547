//! Splitting a value into its parts, leaving quotes, escapes and function
//! arguments whole.
use vstd::prelude::*;

verus! {

/// What [`trim`] returns for `s`: `s` without its leading and trailing white space.
pub uninterp spec fn trim_of(s: Seq<char>) -> Seq<char>;

/// Relies on `str::trim`: the text without leading and trailing white space.
#[verifier::external_body]
fn trim(s: &str) -> (r: String)
    ensures
        r@ == trim_of(s@),
{
    s.trim().to_string()
}

/// Relies on `str::chars`: the characters of the text, in order.
#[verifier::external_body]
fn chars_of(s: &str) -> (r: Vec<char>)
    ensures
        r@ == s@,
{
    s.chars().collect()
}

/// Relies on `String: FromIterator<char>`: the text made of the characters, in order.
#[verifier::external_body]
fn collect_string(v: &Vec<char>) -> (r: String)
    ensures
        r@ == v@,
{
    v.iter().collect()
}

/// The state of a split after some characters: the parts cut off so far (each
/// trimmed), the current part, the depth of open parentheses, the open quote
/// (`'\0'` when none), and whether the last character was an escaping backslash.
pub struct SplitState {
    pub array: Seq<Seq<char>>,
    pub current: Seq<char>,
    pub func: nat,
    pub quote: char,
    pub escape: bool,
}

/// Whether `c` cuts the value here: a separator outside quotes and parentheses
/// that no backslash escapes.
pub open spec fn splits_at(st: SplitState, c: char, separators: Seq<char>) -> bool {
    !st.escape && c != '\\' && st.quote == '\0' && c != '"' && c != '\'' && c != '(' && c != ')'
        && st.func == 0 && separators.contains(c)
}

/// The state after the character `c`.
pub open spec fn split_step(st: SplitState, c: char, separators: Seq<char>) -> SplitState {
    if splits_at(st, c, separators) {
        SplitState {
            array: if st.current.len() > 0 {
                st.array.push(trim_of(st.current))
            } else {
                st.array
            },
            current: Seq::empty(),
            ..st
        }
    } else {
        let current = st.current.push(c);
        if st.escape {
            SplitState { current, escape: false, ..st }
        } else if c == '\\' {
            SplitState { current, escape: true, ..st }
        } else if st.quote != '\0' {
            SplitState { current, quote: if c == st.quote { '\0' } else { st.quote }, ..st }
        } else if c == '"' || c == '\'' {
            SplitState { current, quote: c, ..st }
        } else if c == '(' {
            SplitState { current, func: st.func + 1, ..st }
        } else if c == ')' {
            SplitState { current, func: if st.func > 0 { (st.func - 1) as nat } else { 0 }, ..st }
        } else {
            SplitState { current, ..st }
        }
    }
}

/// The state after the first `n` characters of `input`.
pub open spec fn split_prefix(input: Seq<char>, separators: Seq<char>, n: int) -> SplitState
    decreases n,
{
    if n <= 0 {
        SplitState { array: Seq::empty(), current: Seq::empty(), func: 0, quote: '\0', escape: false }
    } else {
        split_step(split_prefix(input, separators, n - 1), input[n - 1], separators)
    }
}

/// The parts of `input`: cut at each separator outside quotes and parentheses
/// that no backslash escapes, each part trimmed, empty parts between
/// separators left out. The last part is kept even when empty if `last` holds.
pub open spec fn split_spec(input: Seq<char>, separators: Seq<char>, last: bool) -> Seq<Seq<char>> {
    let st = split_prefix(input, separators, input.len() as int);
    if last || st.current.len() > 0 {
        st.array.push(trim_of(st.current))
    } else {
        st.array
    }
}

/// Whether the texts `r` are, in order, the character sequences `parts`.
pub open spec fn texts_are(r: Seq<String>, parts: Seq<Seq<char>>) -> bool {
    r.len() == parts.len() && forall|i: int| 0 <= i < r.len() ==> #[trigger] r[i]@ == parts[i]
}

fn contains_char(v: &Vec<char>, c: char) -> (r: bool)
    ensures
        r == v@.contains(c),
{
    let mut i: usize = 0;
    while i < v.len()
        invariant
            i <= v@.len(),
            forall|j: int| 0 <= j < i ==> v@[j] != c,
        decreases v@.len() - i,
    {
        if v[i] == c {
            assert(v@[i as int] == c);
            return true;
        }
        i = i + 1;
    }
    false
}

/// Safely splits values: at each of `separators` outside quotes and
/// parentheses that no backslash escapes. Each part is trimmed.
pub fn split(input: &str, separators: Vec<char>, last: bool) -> (r: Vec<String>)
    ensures
        texts_are(r@, split_spec(input@, separators@, last)),
{
    let chars = chars_of(input);
    let mut array: Vec<String> = Vec::new();
    let mut current: Vec<char> = Vec::new();
    let mut func: usize = 0;
    let mut quote: char = '\0';
    let mut escape = false;
    let mut i: usize = 0;
    while i < chars.len()
        invariant
            chars@ == input@,
            i <= chars@.len(),
            func <= i,
            ({
                let st = split_prefix(input@, separators@, i as int);
                &&& texts_are(array@, st.array)
                &&& current@ == st.current
                &&& func == st.func
                &&& quote == st.quote
                &&& escape == st.escape
            }),
        decreases chars@.len() - i,
    {
        let letter = chars[i];
        let mut cut = false;
        if escape {
            escape = false;
        } else if letter == '\\' {
            escape = true;
        } else if quote != '\0' {
            if letter == quote {
                quote = '\0';
            }
        } else if letter == '"' || letter == '\'' {
            quote = letter;
        } else if letter == '(' {
            func = func + 1;
        } else if letter == ')' {
            if func > 0 {
                func = func - 1;
            }
        } else if func == 0 && contains_char(&separators, letter) {
            cut = true;
        }
        if cut {
            if current.len() > 0 {
                let part = collect_string(&current);
                let t = trim(part.as_str());
                array.push(t);
            }
            current = Vec::new();
        } else {
            current.push(letter);
        }
        i = i + 1;
    }
    if last || current.len() > 0 {
        let part = collect_string(&current);
        let t = trim(part.as_str());
        array.push(t);
    }
    array
}

/// Safely splits space-separated values (such as those for `background`,
/// `border-radius`, and other shorthand properties).
pub fn space(input: &str) -> (r: Vec<String>)
    ensures
        texts_are(r@, split_spec(input@, seq![' ', '\n', '\t'], false)),
{
    let spaces = vec![' ', '\n', '\t'];
    proof {
        assert(spaces@ =~= seq![' ', '\n', '\t']);
    }
    split(input, spaces, false)
}

/// Safely splits comma-separated values (such as those for `transition-*`
/// and `background` properties).
pub fn comma(input: &str) -> (r: Vec<String>)
    ensures
        texts_are(r@, split_spec(input@, seq![','], true)),
{
    let commas = vec![','];
    proof {
        assert(commas@ =~= seq![',']);
    }
    split(input, commas, true)
}

} // verus!

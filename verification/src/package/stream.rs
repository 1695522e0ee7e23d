//! A text stream that prefixes each line with tree connectors.

use crate::text::{chars_of, split, split_on, string_of, views_of};
use vstd::prelude::*;
use vstd::string::StringExecFns;

verus! {

/// Connector of a level that has further entries below the current line.
pub const DOWN_SYMBOL: &'static str = "│  ";

/// Connector of an entry that is followed by siblings.
pub const TEE_SYMBOL: &'static str = "├──";

/// Connector of the last entry of a level.
pub const ELL_SYMBOL: &'static str = "└──";

/// Filler of a level that has no further entries.
pub const BLANK_SYMBOL: &'static str = "   ";

/// Whether a level of the tree still draws its vertical line.
#[derive(Debug, Clone, Copy, PartialEq, Eq, Structural)]
pub enum Indent {
    /// The level has further entries: its vertical line is drawn.
    Line,
    /// The level is finished: its column stays blank.
    Gap,
}

/// Text written so far, and one `Indent` per open level of the tree.
#[derive(Debug)]
pub struct Stream {
    pub stream: String,
    pub indents: Vec<Indent>,
}

/// The connector drawn for the level at position `i` of `indents`.
pub open spec fn symbol_at(indents: Seq<Indent>, i: int, final_line: bool) -> Seq<char> {
    match indents[i] {
        Indent::Gap => BLANK_SYMBOL@,
        Indent::Line => if i + 1 < indents.len() {
            DOWN_SYMBOL@
        } else if final_line {
            ELL_SYMBOL@
        } else {
            TEE_SYMBOL@
        },
    }
}

/// The connectors of the first `n` levels of `indents`, left to right.
pub open spec fn prefix_of(indents: Seq<Indent>, n: int, final_line: bool) -> Seq<char>
    decreases n,
{
    if n <= 0 {
        Seq::empty()
    } else {
        prefix_of(indents, n - 1, final_line) + symbol_at(indents, n - 1, final_line)
    }
}

/// `stream` after one more line `text` under `indents`: a line break where
/// `stream` already holds text, then the connectors, then `text`.
pub open spec fn with_line(
    stream: Seq<char>,
    indents: Seq<Indent>,
    text: Seq<char>,
    final_line: bool,
) -> Seq<char> {
    (if stream.len() > 0 {
        stream.push('\n')
    } else {
        stream
    }) + prefix_of(indents, indents.len() as int, final_line) + text
}

/// `stream` after the first `n` of `lines`, each written as by `with_line`.
pub open spec fn with_lines(
    stream: Seq<char>,
    indents: Seq<Indent>,
    lines: Seq<Seq<char>>,
    n: int,
    final_line: bool,
) -> Seq<char>
    decreases n,
{
    if n <= 0 {
        stream
    } else {
        with_line(with_lines(stream, indents, lines, n - 1, final_line), indents, lines[n - 1], final_line)
    }
}

/// `stream` after `text` was written: each of its lines as by `with_line`.
pub open spec fn written(
    stream: Seq<char>,
    indents: Seq<Indent>,
    text: Seq<char>,
    final_line: bool,
) -> Seq<char> {
    let lines = split_on(text, '\n');
    with_lines(stream, indents, lines, lines.len() as int, final_line)
}

impl Stream {
    /// An empty stream with no open level.
    pub fn new() -> (s: Self)
        ensures
            s.stream@ == Seq::<char>::empty(),
            s.indents@ == Seq::<Indent>::empty(),
    {
        Self { indents: Vec::new(), stream: String::new() }
    }

    /// Writes each line of `str` on a line of its own, behind the connectors
    /// of the open levels. The innermost level draws the last-entry connector
    /// where `final_line` is set, the sibling connector otherwise.
    pub fn write_line(&mut self, str: &str, final_line: bool)
        ensures
            final(self).stream@ == written(old(self).stream@, old(self).indents@, str@, final_line),
            final(self).indents@ == old(self).indents@,
    {
        let text = chars_of(str);
        let lines = split(&text, '\n');
        let mut n: usize = 0;
        while n < lines.len()
            invariant
                n <= lines.len(),
                views_of(lines@) == split_on(str@, '\n'),
                self.indents@ == old(self).indents@,
                self.stream@ == with_lines(
                    old(self).stream@,
                    old(self).indents@,
                    views_of(lines@),
                    n as int,
                    final_line,
                ),
            decreases lines.len() - n,
        {
            let ghost before = self.stream@;
            if !self.stream.as_str().is_empty() {
                self.stream.push('\n');
            }
            let ghost base = self.stream@;
            let mut i: usize = 0;
            while i < self.indents.len()
                invariant
                    i <= self.indents.len(),
                    self.indents@ == old(self).indents@,
                    self.stream@ == base + prefix_of(self.indents@, i as int, final_line),
                decreases self.indents.len() - i,
            {
                let symbol = match self.indents[i] {
                    Indent::Gap => BLANK_SYMBOL,
                    Indent::Line => if i + 1 < self.indents.len() {
                        DOWN_SYMBOL
                    } else if final_line {
                        ELL_SYMBOL
                    } else {
                        TEE_SYMBOL
                    },
                };
                self.stream.append(symbol);
                i = i + 1;
            }
            let line = string_of(&lines[n]);
            self.stream.append(line.as_str());
            proof {
                assert(views_of(lines@)[n as int] == lines@[n as int]@);
            }
            n = n + 1;
        }
    }
}

} // verus!

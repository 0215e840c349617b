use vstd::prelude::*;

use crate::render::write_chars;
use crate::text::string_from_chars;

verus! {

/// What went wrong while reading a document.
#[derive(Debug, Clone, Copy, PartialEq, Eq, Structural)]
pub enum ParseErrorKind {
    /// The first key/value line of the document is indented.
    StartedIndented,
    /// One run of indentation holds both tabs and spaces.
    MixedIndent,
    /// A tab-indented line stands where spaces set the indentation.
    TabsWithSpaces,
    /// A space-indented line stands where tabs set the indentation.
    SpacesWithTabs,
    /// The file could not be read.
    FileReadError,
}

/// A parse failure together with the 1-based number of the line that caused it.
#[derive(Debug, Clone, Copy, PartialEq, Eq, Structural)]
pub struct ParseError {
    pub line: usize,
    pub kind: ParseErrorKind,
}

/// The decimal digit `d`.
pub open spec fn digit(d: nat) -> char {
    seq!['0', '1', '2', '3', '4', '5', '6', '7', '8', '9'][d as int]
}

/// `n` written in decimal, without leading zeros.
pub open spec fn decimal(n: nat) -> Seq<char>
    decreases n,
{
    if n < 10 {
        seq![digit(n)]
    } else {
        decimal(n / 10).push(digit(n % 10))
    }
}

/// The text that describes `e`.
pub open spec fn message(e: ParseError) -> Seq<char> {
    match e.kind {
        ParseErrorKind::StartedIndented => "Cannot start document with an indented section. Line "@ + decimal(
            e.line as nat,
        ),
        ParseErrorKind::MixedIndent => "Indent mixed between tabs and spaces on line "@ + decimal(e.line as nat),
        ParseErrorKind::TabsWithSpaces => "Tabular indent in space block. Line "@ + decimal(e.line as nat),
        ParseErrorKind::SpacesWithTabs => "Space indent in tab block. Line "@ + decimal(e.line as nat),
        ParseErrorKind::FileReadError => "Failed to open file!"@,
    }
}

/// Appends `n` in decimal.
pub(crate) fn write_decimal(n: usize, out: &mut Vec<char>)
    ensures
        final(out)@ == old(out)@ + decimal(n as nat),
    decreases n,
{
    let ghost start = out@;
    if n >= 10 {
        write_decimal(n / 10, out);
    }
    let digits: [char; 10] = ['0', '1', '2', '3', '4', '5', '6', '7', '8', '9'];
    let d = digits[n % 10];
    assert(d == digit((n % 10) as nat)) by {
        assert(digits@ =~= seq!['0', '1', '2', '3', '4', '5', '6', '7', '8', '9']);
    }
    out.push(d);
    assert(out@ =~= start + decimal(n as nat));
}

impl ParseError {
    /// A sentence that describes the error and names its line.
    pub fn to_string(&self) -> (r: String)
        ensures
            r@ == message(*self),
    {
        let mut out: Vec<char> = Vec::new();
        match self.kind {
            ParseErrorKind::StartedIndented => {
                write_chars("Cannot start document with an indented section. Line ", &mut out);
                write_decimal(self.line, &mut out);
            },
            ParseErrorKind::MixedIndent => {
                write_chars("Indent mixed between tabs and spaces on line ", &mut out);
                write_decimal(self.line, &mut out);
            },
            ParseErrorKind::TabsWithSpaces => {
                write_chars("Tabular indent in space block. Line ", &mut out);
                write_decimal(self.line, &mut out);
            },
            ParseErrorKind::SpacesWithTabs => {
                write_chars("Space indent in tab block. Line ", &mut out);
                write_decimal(self.line, &mut out);
            },
            ParseErrorKind::FileReadError => {
                write_chars("Failed to open file!", &mut out);
            },
        }
        assert(out@ =~= message(*self));
        string_from_chars(out.as_slice())
    }
}

} // verus!

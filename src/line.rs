use vstd::prelude::*;

use crate::error::ParseErrorKind;
use crate::indent::{Indent, indent_of};
use crate::render::{render_line, write_line};
use crate::text::{char_is_whitespace, is_blank, string_from_chars};
use crate::value::{Value, ValueView, indent_end, indent_len, lemma_indent_len, node_of};

verus! {

/// One entry of a document: a key/value line with its children, a comment,
/// or a blank line kept as it was written.
#[derive(Debug, PartialEq)]
pub enum Line {
    Value(Value),
    Comment { indent: Indent, comment: String },
    Blank(String),
}

/// The mathematical content of a [`Line`].
pub enum LineView {
    Value(ValueView),
    Comment { indent: Indent, comment: Seq<char> },
    Blank(Seq<char>),
}

impl Line {
    /// This entry as a mathematical value.
    pub open spec fn view(&self) -> LineView
        decreases self,
    {
        match self {
            Line::Value(v) => LineView::Value(v.view()),
            Line::Comment { indent, comment } => LineView::Comment { indent: *indent, comment: comment@ },
            Line::Blank(b) => LineView::Blank(b@),
        }
    }
}

impl From<Value> for Line {
    fn from(value: Value) -> Line {
        Line::Value(value)
    }
}

impl vstd::std_specs::convert::FromSpecImpl<Value> for Line {
    open spec fn obeys_from_spec() -> bool {
        true
    }

    open spec fn from_spec(v: Value) -> Line {
        Line::Value(v)
    }
}

impl From<(Indent, String)> for Line {
    fn from(comment: (Indent, String)) -> Line {
        Line::Comment { indent: comment.0, comment: comment.1 }
    }
}

impl vstd::std_specs::convert::FromSpecImpl<(Indent, String)> for Line {
    open spec fn obeys_from_spec() -> bool {
        true
    }

    open spec fn from_spec(c: (Indent, String)) -> Line {
        Line::Comment { indent: c.0, comment: c.1 }
    }
}

impl From<(Indent, &str)> for Line {
    fn from(comment: (Indent, &str)) -> Line {
        Line::Comment { indent: comment.0, comment: comment.1.to_owned() }
    }
}

// No spec value is a `String` with given text, so this conversion states
// nothing about its result.
impl vstd::std_specs::convert::FromSpecImpl<(Indent, &str)> for Line {
    open spec fn obeys_from_spec() -> bool {
        false
    }

    open spec fn from_spec(c: (Indent, &str)) -> Line {
        arbitrary()
    }
}

/// The views of the entries `s`, in order.
pub open spec fn lines_view(s: Seq<Line>) -> Seq<LineView>
    decreases s,
{
    if s.len() == 0 {
        Seq::empty()
    } else {
        lines_view(s.subrange(0, s.len() - 1)).push(s[s.len() - 1].view())
    }
}

pub proof fn lemma_lines_view(s: Seq<Line>)
    ensures
        lines_view(s).len() == s.len(),
        forall|i: int| 0 <= i < s.len() ==> #[trigger] lines_view(s)[i] == s[i].view(),
    decreases s.len(),
{
    if s.len() > 0 {
        let t = s.subrange(0, s.len() - 1);
        lemma_lines_view(t);
        assert forall|i: int| 0 <= i < s.len() implies #[trigger] lines_view(s)[i] == s[i].view() by {
            if i < s.len() - 1 {
                assert(t[i] == s[i]);
            }
        }
    }
}

pub proof fn lemma_lines_view_push(s: Seq<Line>, x: Line)
    ensures
        lines_view(s.push(x)) == lines_view(s).push(x.view()),
{
    assert(s.push(x).subrange(0, s.len() as int) =~= s);
}

pub proof fn lemma_lines_view_drop_last(s: Seq<Line>)
    requires
        s.len() > 0,
    ensures
        lines_view(s.drop_last()) == lines_view(s).drop_last(),
        lines_view(s).last() == s.last().view(),
{
    assert(s.drop_last() =~= s.subrange(0, s.len() - 1));
    lemma_lines_view(s);
    lemma_lines_view(s.drop_last());
    assert(lines_view(s.drop_last()) =~= lines_view(s).drop_last());
}

pub proof fn lemma_lines_view_update(s: Seq<Line>, i: int, x: Line)
    requires
        0 <= i < s.len(),
    ensures
        lines_view(s.update(i, x)) == lines_view(s).update(i, x.view()),
{
    lemma_lines_view(s);
    lemma_lines_view(s.update(i, x));
    assert(lines_view(s.update(i, x)) =~= lines_view(s).update(i, x.view()));
}

pub proof fn lemma_lines_view_skip(s: Seq<Line>, c: int)
    requires
        0 <= c <= s.len(),
    ensures
        lines_view(s.skip(c)) == lines_view(s).skip(c),
{
    lemma_lines_view(s);
    lemma_lines_view(s.skip(c));
    assert(lines_view(s.skip(c)) =~= lines_view(s).skip(c));
}

/// The entry that one line of text stands for: a blank line, a comment
/// (its text follows a `#` after the indentation), or a key/value line.
pub open spec fn tokenize(l: Seq<char>) -> Result<LineView, ParseErrorKind> {
    if is_blank(l) {
        Ok(LineView::Blank(l))
    } else {
        let n = indent_len(l);
        let rest = l.skip(n as int);
        match indent_of(l.take(n as int)) {
            Err(e) => Err(e),
            Ok(i) => if rest.len() > 0 && rest[0] == '#' {
                Ok(LineView::Comment { indent: i, comment: rest.skip(1) })
            } else {
                Ok(LineView::Value(node_of(i, rest)))
            },
        }
    }
}

/// `r` is what the reading `m` describes: the same entry, or the same error.
pub open spec fn line_read_as(r: Result<Line, ParseErrorKind>, m: Result<LineView, ParseErrorKind>) -> bool {
    match m {
        Ok(v) => r is Ok && r->Ok_0.view() == v,
        Err(e) => r is Err && r->Err_0 == e,
    }
}

/// The line holds only whitespace.
pub fn blank_line(w: &Vec<char>) -> (r: bool)
    ensures
        r == is_blank(w@),
{
    let mut i: usize = 0;
    while i < w.len()
        invariant
            i <= w@.len(),
            is_blank(w@.take(i as int)),
        decreases w@.len() - i,
    {
        if !char_is_whitespace(w[i]) {
            return false;
        }
        assert(w@.take(i + 1) =~= w@.take(i as int).push(w@[i as int]));
        i = i + 1;
    }
    assert(w@.take(i as int) =~= w@);
    true
}

impl Line {
    /// Writes this entry and everything nested under it.
    pub fn to_string(&self) -> (r: String)
        ensures
            r@ == render_line(self.view()),
    {
        let mut out: Vec<char> = Vec::new();
        write_line(self, &mut out);
        string_from_chars(out.as_slice())
    }

    /// Reads one line of text.
    pub fn tokenize(w: &Vec<char>) -> (r: Result<Line, ParseErrorKind>)
        ensures
            line_read_as(r, tokenize(w@)),
    {
        if blank_line(w) {
            return Ok(Line::Blank(string_from_chars(w.as_slice())));
        }
        let n = indent_end(w, 0);
        assert(w@.skip(0) =~= w@);
        proof {
            lemma_indent_len(w@);
        }
        assert(w@.subrange(0, n as int) =~= w@.take(n as int));
        let i = match Indent::from_chars(w, 0, n) {
            Ok(i) => i,
            Err(e) => return Err(e),
        };
        if n < w.len() && w[n] == '#' {
            let comment = string_from_chars(&w.as_slice()[n + 1..w.len()]);
            assert(comment@ =~= w@.skip(n as int).skip(1));
            Ok(Line::Comment { indent: i, comment })
        } else {
            Ok(Line::Value(Value::from_indent_chars(i, w, n)))
        }
    }
}

} // verus!

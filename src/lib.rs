//! A reader and writer for an indentation-nested key/value configuration
//! format. Each line holds a key and an optional value; a line indented
//! deeper than the one before it becomes that line's child. Parsing keeps
//! comments and blank lines so that a parsed document writes back unchanged.

pub mod assemble;
pub mod confitem;
pub mod error;
pub mod indent;
pub mod laws;
pub mod line;
pub mod query;
pub mod render;
pub mod text;
pub mod value;

pub use confitem::ConfItem;
pub use error::{ParseError, ParseErrorKind};
pub use indent::Indent;
pub use line::Line;
pub use value::Value;

use vstd::prelude::*;

use assemble::{
    attach_value, find_last_value, lemma_last_value_index, parse_lines, push_entry, push_last,
};
use line::{LineView, lemma_lines_view, lemma_lines_view_push, lemma_lines_view_update, lines_view};
use query::{
    find_child, find_child_mut, find_children, find_path, first_index, first_with_key, keyed,
    path_target, ref_view, split_on, split_path, str_view,
};
use render::{render_lines, write_lines};
use value::opt_view;
use text::{chars_of, split_lines, string_from_chars, text_lines};

verus! {

/// A parsed configuration document: its top-level entries, in order.
#[derive(Debug, PartialEq)]
pub struct Confindent {
    pub children: Vec<Line>,
}

/// The document that the text `s` holds, or the first error in it.
pub open spec fn parse_document(s: Seq<char>) -> Result<Seq<LineView>, ParseError> {
    parse_lines(text_lines(s))
}

/// Once a prefix of the lines fails, the whole fails with the same error.
pub proof fn lemma_parse_error_stays(ls: Seq<Seq<char>>, k: int)
    requires
        0 <= k <= ls.len(),
        parse_lines(ls.take(k)) is Err,
    ensures
        parse_lines(ls) == parse_lines(ls.take(k)),
    decreases ls.len(),
{
    if ls.len() > k {
        assert(ls.drop_last().take(k) =~= ls.take(k));
        lemma_parse_error_stays(ls.drop_last(), k);
    } else {
        assert(ls.take(k) =~= ls);
    }
}

/// Index of the first key/value entry of `s` at or after `from`, or the
/// length of `s` where there is none.
pub open spec fn next_value_at(s: Seq<LineView>, from: int) -> int
    decreases s.len() - from,
{
    if from >= s.len() {
        s.len() as int
    } else if s[from] is Value {
        from
    } else {
        next_value_at(s, from + 1)
    }
}

pub proof fn lemma_next_value_at(s: Seq<LineView>, from: int)
    requires
        0 <= from <= s.len(),
    ensures
        from <= next_value_at(s, from) <= s.len(),
        forall|i: int| from <= i < next_value_at(s, from) ==> !(#[trigger] s[i] is Value),
        next_value_at(s, from) < s.len() ==> s[next_value_at(s, from)] is Value,
    decreases s.len() - from,
{
    if from < s.len() && !(s[from] is Value) {
        lemma_next_value_at(s, from + 1);
    }
}

/// Hands out the key/value entries of a list of entries, skipping comments
/// and blank lines.
pub struct ValueIterator<'a> {
    lines: &'a Vec<Line>,
    pos: usize,
}

impl<'a> ValueIterator<'a> {
    /// The entries walked.
    pub closed spec fn entries(&self) -> Seq<LineView> {
        lines_view(self.lines@)
    }

    /// Where the walk stands.
    pub closed spec fn position(&self) -> int {
        self.pos as int
    }

    /// A walk over `lines` from their start.
    pub(crate) fn over(lines: &'a Vec<Line>) -> (r: ValueIterator<'a>)
        ensures
            r.entries() == lines_view(lines@),
            r.position() == 0,
    {
        ValueIterator { lines, pos: 0 }
    }

    /// The next key/value entry, if any is left.
    pub fn next(&mut self) -> (r: Option<&'a Value>)
        ensures
            final(self).entries() == old(self).entries(),
            ({
                let s = old(self).entries();
                let k = next_value_at(s, old(self).position());
                &&& k < s.len() ==> r is Some && r->Some_0@ == s[k]->Value_0 && final(self).position() == k + 1
                &&& k >= s.len() ==> r is None && final(self).position() == old(self).position()
            }),
    {
        let ghost s = lines_view(self.lines@);
        proof {
            lemma_lines_view(self.lines@);
        }
        let lines = self.lines;
        let mut i = self.pos;
        while i < lines.len()
            invariant
                s == lines_view(lines@),
                lines == self.lines,
                self.pos == old(self).pos,
                self.lines == old(self).lines,
                forall|j: int| 0 <= j < s.len() ==> #[trigger] s[j] == lines@[j].view(),
                s.len() == lines@.len(),
                i >= self.pos,
                next_value_at(s, self.pos as int) == next_value_at(s, i as int),
            decreases lines@.len() - i,
        {
            match &lines[i] {
                Line::Value(v) => {
                    self.pos = i + 1;
                    return Some(v);
                },
                _ => {},
            }
            i = i + 1;
        }
        None
    }
}

/// Hands out the key/value entries of a list of entries to change in place,
/// skipping comments and blank lines.
pub struct ValueIteratorMut<'a> {
    pub inner: &'a mut [Line],
}

impl<'a> ValueIteratorMut<'a> {
    /// A walk over `lines` from their start.
    pub(crate) fn over(lines: &'a mut Vec<Line>) -> (r: ValueIteratorMut<'a>)
        ensures
            r.inner@ == old(lines)@,
            final(lines)@ == final(r.inner)@,
    {
        ValueIteratorMut { inner: lines.as_mut_slice() }
    }

    /// The next key/value entry, to change in place, if any is left.
    pub fn next(&mut self) -> (r: Option<&'a mut Value>)
        ensures
            ({
                let s = old(self).inner@;
                let k = next_value_at(lines_view(s), 0);
                &&& k < s.len() ==> r is Some && s[k] == Line::Value(*r->Some_0)
                    && final(self).inner@ == s.skip(k + 1)
                    && final(old(self).inner)@ == s.take(k).push(Line::Value(*final(r->Some_0))) + final(final(self).inner)@
                &&& k >= s.len() ==> r is None && final(self).inner@ == Seq::<Line>::empty()
                    && final(old(self).inner)@ == s + final(final(self).inner)@
            }),
    {
        let ghost s = self.inner@;
        proof {
            lemma_lines_view(s);
        }
        let n = self.inner.len();
        let mut skipped: usize = 0;
        assert(s.take(0) + final(self.inner)@ =~= final(self.inner)@);
        loop
            invariant
                skipped <= s.len() == n,
                s == old(self).inner@,
                self.inner@ == s.skip(skipped as int),
                final(old(self).inner)@ == s.take(skipped as int) + final(self.inner)@,
                next_value_at(lines_view(s), 0) == next_value_at(lines_view(s), skipped as int),
                lines_view(s).len() == s.len(),
                forall|j: int| 0 <= j < s.len() ==> #[trigger] lines_view(s)[j] == s[j].view(),
            decreases s.len() - skipped,
        {
            let mut rest: &'a mut [Line] = &mut [];
            std::mem::swap(&mut self.inner, &mut rest);
            if rest.len() == 0 {
                assert(skipped == s.len());
                assert(rest@ =~= Seq::<Line>::empty());
                assert(s.take(skipped as int) =~= s);
                self.inner = rest;
                return None;
            }
            let ghost fr = final(rest)@;
            assert(final(old(self).inner)@ == s.take(skipped as int) + fr);
            let (first, tail) = rest.split_at_mut(1);
            let ghost ff = final(first)@;
            let ghost ft = final(tail)@;
            assert(fr == ff + ft);
            assert(tail@ =~= s.skip(skipped + 1));
            self.inner = tail;
            assert(first@[0] == s[skipped as int]);
            match &mut first[0] {
                Line::Value(v) => {
                    assert(next_value_at(lines_view(s), skipped as int) == skipped);
                    assert(ff =~= seq![Line::Value(*final(v))]);
                    assert(s.take(skipped as int).push(Line::Value(*final(v))) + ft =~= s.take(
                        skipped as int,
                    ) + (ff + ft));
                    assert(s[skipped as int] == Line::Value(*v));
                    return Some(v);
                },
                _ => {},
            }
            assert(ff =~= seq![s[skipped as int]]);
            assert(s.take(skipped + 1) + ft =~= s.take(skipped as int) + (ff + ft));
            skipped = skipped + 1;
        }
    }
}

impl Confindent {
    /// The top-level entries, as mathematical values.
    pub open spec fn view(&self) -> Seq<LineView> {
        lines_view(self.children@)
    }

    /// An empty document.
    pub fn new() -> (r: Confindent)
        ensures
            r@ == Seq::<LineView>::empty(),
    {
        Confindent { children: Vec::new() }
    }

    /// Appends the entry `line` of the next line of text.
    fn push(&mut self, line: Line) -> (r: Result<(), ParseErrorKind>)
        ensures
            match push_entry(old(self)@, line.view()) {
                Ok(d) => r is Ok && final(self)@ == d,
                Err(k) => r == Err::<(), ParseErrorKind>(k) && final(self)@ == old(self)@,
            },
    {
        let ghost s = self.children@;
        proof {
            lemma_lines_view(s);
        }
        match line {
            Line::Value(v) => {
                let ghost v0 = v;
                let top = match v.indent {
                    Indent::Empty => true,
                    _ => false,
                };
                if top {
                    self.children.push(Line::Value(v));
                    proof {
                        lemma_lines_view_push(s, Line::Value(v0));
                    }
                    return Ok(());
                }
                let i = match find_last_value(&self.children) {
                    None => return Err(ParseErrorKind::StartedIndented),
                    Some(i) => i,
                };
                proof {
                    lemma_last_value_index(lines_view(s));
                    assert(lines_view(s)[i as int] == s[i as int].view());
                }
                let ghost p0 = s[i as int]->Value_0;
                let ghost mut p1 = p0;
                let r = match &mut self.children[i] {
                    Line::Value(p) => {
                        let pindent = p.indent;
                        let r = attach_value(&mut p.children, pindent, v);
                        proof {
                            p1 = *p;
                        }
                        r
                    },
                    _ => {
                        assert(false);
                        Err(ParseErrorKind::StartedIndented)
                    },
                };
                proof {
                    assert(self.children@ == s.update(i as int, Line::Value(p1)));
                    lemma_lines_view_update(s, i as int, Line::Value(p1));
                    assert(p1.view() == assemble::with_children(p0.view(), p1.view().children));
                    if r is Err {
                        assert(p1.view() == p0.view());
                        assert(lines_view(self.children@) =~= lines_view(s));
                    }
                }
                r
            },
            other => {
                push_last(&mut self.children, other);
                Ok(())
            },
        }
    }

    /// The first top-level entry with key `key`.
    pub fn child(&self, key: &str) -> (r: Option<&Value>)
        ensures
            ref_view(r) == first_with_key(self@, key@),
    {
        find_child(&self.children, &key.to_owned())
    }

    /// The first top-level entry with key `key`, to change in place.
    pub fn child_mut(&mut self, key: &str) -> (r: Option<&mut Value>)
        ensures
            ({
                let s = old(self)@;
                let i = first_index(s, key@);
                &&& i == s.len() ==> r is None && final(self)@ == s
                &&& i < s.len() ==> r is Some && (*r->Some_0)@ == s[i]->Value_0
                    && final(self)@ == s.update(i, LineView::Value((*final(r->Some_0))@))
            }),
    {
        find_child_mut(&mut self.children, &key.to_owned())
    }

    /// Every top-level entry with key `key`, in order.
    pub fn children(&self, key: &str) -> (r: Vec<&Value>)
        ensures
            r@.len() == keyed(self@, key@).len(),
            forall|i: int| 0 <= i < r@.len() ==> (#[trigger] r@[i])@ == keyed(self@, key@)[i],
    {
        find_children(&self.children, &key.to_owned())
    }

    /// Some top-level entry has key `key`.
    pub fn has_child(&self, key: &str) -> (r: bool)
        ensures
            r == first_with_key(self@, key@) is Some,
    {
        find_child(&self.children, &key.to_owned()).is_some()
    }

    /// The value of the first top-level entry with key `key`.
    pub fn child_value(&self, key: &str) -> (r: Option<&str>)
        ensures
            match first_with_key(self@, key@) {
                Some(c) => str_view(r) == c.value,
                None => r is None,
            },
    {
        match find_child(&self.children, &key.to_owned()) {
            Some(c) => c.value(),
            None => None,
        }
    }

    /// The value of the first top-level entry with key `key`, copied.
    pub fn child_owned(&self, key: &str) -> (r: Option<String>)
        ensures
            match first_with_key(self@, key@) {
                Some(c) => opt_view(r) == c.value,
                None => r is None,
            },
    {
        match find_child(&self.children, &key.to_owned()) {
            Some(c) => c.value_owned(),
            None => None,
        }
    }

    /// The value of the entry that `path` leads to: its pieces between
    /// occurrences of `delimeter` are keys, starting at the top level and
    /// going one level down for each.
    pub fn get_delim(&self, path: &str, delimeter: char) -> (r: Option<&str>)
        ensures
            match path_target(self@, split_on(path@, delimeter)) {
                Some(c) => str_view(r) == c.value,
                None => r is None,
            },
    {
        let segs = split_path(path, delimeter);
        assert(segs@.map_values(|s: String| s@) =~= split_on(path@, delimeter));
        match find_path(&self.children, &segs) {
            Some(c) => c.value(),
            None => None,
        }
    }

    /// The value of the entry that the `/`-separated keys of `path` lead to.
    pub fn get(&self, path: &str) -> (r: Option<&str>)
        ensures
            match path_target(self@, split_on(path@, '/')) {
                Some(c) => str_view(r) == c.value,
                None => r is None,
            },
    {
        self.get_delim(path, '/')
    }

    /// The top-level key/value entries, one at a time.
    pub fn values(&self) -> (r: ValueIterator<'_>)
        ensures
            r.entries() == self@,
            r.position() == 0,
    {
        ValueIterator::over(&self.children)
    }

    /// The top-level key/value entries, one at a time, to change in place.
    pub fn values_mut(&mut self) -> (r: ValueIteratorMut<'_>)
        ensures
            r.inner@ == old(self).children@,
            final(self).children@ == final(r.inner)@,
    {
        ValueIteratorMut::over(&mut self.children)
    }

    /// Writes the document out: each entry on a line of its own, ended by a
    /// line feed, with the entries nested under it right after it.
    pub fn to_string(&self) -> (r: String)
        ensures
            r@ == render_lines(self@),
    {
        let mut out: Vec<char> = Vec::new();
        write_lines(&self.children, &mut out);
        string_from_chars(out.as_slice())
    }

    /// Reads a whole document. Lines are cut at line feeds (a carriage
    /// return before one is dropped); the first line that is malformed ends
    /// the read with its 1-based number.
    pub fn from_str(s: &str) -> (r: Result<Confindent, ParseError>)
        ensures
            match parse_document(s@) {
                Ok(d) => r is Ok && r->Ok_0@ == d,
                Err(e) => r == Err::<Confindent, ParseError>(e),
            },
    {
        let w = chars_of(s);
        let lines = split_lines(&w);
        let ghost ls = text_lines(s@);
        let mut doc = Confindent::new();
        let mut i: usize = 0;
        assert(ls.take(0) =~= Seq::<Seq<char>>::empty());
        while i < lines.len()
            invariant
                i <= lines@.len() == ls.len(),
                ls == text_lines(s@),
                forall|k: int| 0 <= k < lines@.len() ==> (#[trigger] lines@[k])@ == ls[k],
                parse_lines(ls.take(i as int)) == Ok::<Seq<LineView>, ParseError>(doc@),
            decreases lines@.len() - i,
        {
            assert(ls.take(i + 1).drop_last() =~= ls.take(i as int));
            assert(ls.take(i + 1).last() == ls[i as int]);
            let line = match Line::tokenize(&lines[i]) {
                Ok(l) => l,
                Err(kind) => {
                    proof {
                        lemma_parse_error_stays(ls, i + 1);
                    }
                    return Err(ParseError { line: i + 1, kind });
                },
            };
            match doc.push(line) {
                Ok(()) => {},
                Err(kind) => {
                    proof {
                        lemma_parse_error_stays(ls, i + 1);
                    }
                    return Err(ParseError { line: i + 1, kind });
                },
            }
            i = i + 1;
        }
        assert(ls.take(i as int) =~= ls);
        Ok(doc)
    }
}

impl std::str::FromStr for Confindent {
    type Err = ParseError;

    fn from_str(s: &str) -> Result<Confindent, ParseError> {
        Confindent::from_str(s)
    }
}

} // verus!

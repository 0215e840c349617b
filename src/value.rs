use vstd::prelude::*;

use crate::assemble::with_children;
use crate::error::ParseErrorKind;
use crate::indent::{Indent, indent_of, is_indent_char};
use crate::line::{Line, LineView, lemma_lines_view, lemma_lines_view_skip, lines_view};
use crate::query::{
    find_child, find_child_mut, find_children, find_path, first_index, first_with_key, keyed,
    path_target, ref_view, split_on, split_path, str_view,
};
use crate::render::{render_line, write_head, write_lines};
use crate::text::{chars_of, lemma_run_len, lemma_run_len_is, run_len, string_from_chars};
use crate::{ValueIterator, ValueIteratorMut, lemma_next_value_at, next_value_at};

verus! {

/// A key, its optional value, and the entries nested under it.
#[derive(Debug, PartialEq)]
pub struct Value {
    pub indent: Indent,
    pub key: String,
    pub value: Option<String>,
    pub children: Vec<Line>,
}

/// The mathematical content of a [`Value`].
pub struct ValueView {
    pub indent: Indent,
    pub key: Seq<char>,
    pub value: Option<Seq<char>>,
    pub children: Seq<LineView>,
}

/// `l` is a key/value entry whose key is `k`.
pub open spec fn line_has_key(l: Line, k: Seq<char>) -> bool {
    l is Value && l->Value_0.key@ == k
}

/// `s` with its key/value entries whose key is `k` replaced, in order, by
/// the entries `vs`.
pub open spec fn refill(s: Seq<Line>, k: Seq<char>, vs: Seq<Value>) -> Seq<Line>
    decreases s.len(),
{
    if s.len() == 0 {
        Seq::empty()
    } else if line_has_key(s.last(), k) {
        refill(s.drop_last(), k, vs.drop_last()).push(Line::Value(vs.last()))
    } else {
        refill(s.drop_last(), k, vs).push(s.last())
    }
}

/// Entries that are not key/value entries pass through `refill` and
/// `keyed` unchanged.
pub proof fn lemma_plain_stretch(s: Seq<Line>, l: Seq<LineView>, k: Seq<char>, vs: Seq<Value>, c: int, j: int)
    requires
        0 <= c,
        0 <= j,
        c + j <= s.len(),
        l.len() == s.len(),
        forall|i: int| 0 <= i < s.len() ==> #[trigger] l[i] == s[i].view(),
        forall|i: int| c <= i < c + j ==> !(#[trigger] l[i] is Value),
    ensures
        refill(s.take(c + j), k, vs) == refill(s.take(c), k, vs) + s.subrange(c, c + j),
        keyed(l.take(c + j), k) == keyed(l.take(c), k),
    decreases j,
{
    if j > 0 {
        lemma_plain_stretch(s, l, k, vs, c, j - 1);
        assert(s.take(c + j).drop_last() =~= s.take(c + j - 1));
        assert(l.take(c + j).drop_last() =~= l.take(c + j - 1));
        assert(l[c + j - 1] == s[c + j - 1].view());
        assert(refill(s.take(c + j), k, vs) =~= refill(s.take(c), k, vs) + s.subrange(c, c + j));
    } else {
        assert(s.subrange(c, c) =~= Seq::<Line>::empty());
        assert(refill(s.take(c), k, vs) + s.subrange(c, c) =~= refill(s.take(c), k, vs));
    }
}

/// `v` with its value replaced by `x`.
pub open spec fn with_value(v: ValueView, x: Option<Seq<char>>) -> ValueView {
    ValueView { indent: v.indent, key: v.key, value: x, children: v.children }
}

/// The text of an optional string.
pub open spec fn opt_view(o: Option<String>) -> Option<Seq<char>> {
    match o {
        Some(s) => Some(s@),
        None => None,
    }
}

/// Length of the indentation that starts `l`.
pub open spec fn indent_len(l: Seq<char>) -> nat {
    run_len(l, |c: char| is_indent_char(c))
}

/// Length of the key that starts `rest`: everything before its first space.
pub open spec fn key_len(rest: Seq<char>) -> nat {
    run_len(rest, |c: char| c != ' ')
}

pub proof fn lemma_indent_len(l: Seq<char>)
    ensures
        indent_len(l) <= l.len(),
        forall|k: int| 0 <= k < indent_len(l) ==> is_indent_char(#[trigger] l[k]),
        indent_len(l) < l.len() ==> !is_indent_char(l[indent_len(l) as int]),
{
    lemma_run_len(l, |c: char| is_indent_char(c));
}

pub proof fn lemma_key_len(rest: Seq<char>)
    ensures
        key_len(rest) <= rest.len(),
        forall|k: int| 0 <= k < key_len(rest) ==> #[trigger] rest[k] != ' ',
        key_len(rest) < rest.len() ==> rest[key_len(rest) as int] == ' ',
{
    lemma_run_len(rest, |c: char| c != ' ');
}

/// The entry that the text `rest`, after indentation `i`, stands for: the
/// key runs to the first space, and the value is what follows that space,
/// if anything does.
pub open spec fn node_of(i: Indent, rest: Seq<char>) -> ValueView {
    let k = key_len(rest);
    ValueView {
        indent: i,
        key: rest.take(k as int),
        value: if k + 1 >= rest.len() {
            None
        } else {
            Some(rest.skip((k + 1) as int))
        },
        children: Seq::empty(),
    }
}

/// The entry that the whole line `l` stands for, without regard to
/// comments.
pub open spec fn value_line(l: Seq<char>) -> Result<ValueView, ParseErrorKind> {
    let n = indent_len(l);
    match indent_of(l.take(n as int)) {
        Ok(i) => Ok(node_of(i, l.skip(n as int))),
        Err(e) => Err(e),
    }
}

/// `r` is what the read described by `m` gives: the same entry, or the
/// same error.
pub open spec fn read_as(r: Result<Value, ParseErrorKind>, m: Result<ValueView, ParseErrorKind>) -> bool {
    match m {
        Ok(v) => r is Ok && r->Ok_0@ == v,
        Err(e) => r is Err && r->Err_0 == e,
    }
}

/// Position of the first character of `w[start..]` that is neither a tab nor
/// a space, measured from `start`.
pub(crate) fn indent_end(w: &Vec<char>, start: usize) -> (r: usize)
    requires
        start <= w@.len(),
    ensures
        r == indent_len(w@.skip(start as int)),
        start + r <= w@.len(),
{
    let ghost rest = w@.skip(start as int);
    let mut i = start;
    while i < w.len() && (w[i] == ' ' || w[i] == '\t')
        invariant
            start <= i <= w@.len(),
            rest == w@.skip(start as int),
            forall|k: int| start <= k < i ==> is_indent_char(#[trigger] w@[k]),
        decreases w@.len() - i,
    {
        i = i + 1;
    }
    proof {
        assert forall|k: int| 0 <= k < i - start implies is_indent_char(#[trigger] rest[k]) by {
            assert(rest[k] == w@[start + k]);
        }
        if i < w@.len() {
            assert(rest[i - start] == w@[i as int]);
        }
        lemma_run_len_is(rest, |c: char| is_indent_char(c), (i - start) as nat);
    }
    i - start
}

impl Value {
    /// A new unindented entry with no children.
    pub fn new(key: &str, value: Option<&str>) -> (r: Value)
        ensures
            r@ == (ValueView { indent: Indent::Empty, key: key@, value: str_view(value), children: Seq::empty() }),
    {
        let v = match value {
            Some(x) => Some(x.to_owned()),
            None => None,
        };
        let r = Value { indent: Indent::Empty, key: key.to_owned(), value: v, children: Vec::new() };
        assert(r@.children =~= Seq::empty());
        r
    }

    /// The value of this entry.
    pub fn value(&self) -> (r: Option<&str>)
        ensures
            str_view(r) == self@.value,
    {
        match &self.value {
            Some(s) => Some(s.as_str()),
            None => None,
        }
    }

    /// The value of this entry, copied.
    pub fn value_owned(&self) -> (r: Option<String>)
        ensures
            opt_view(r) == self@.value,
    {
        match &self.value {
            Some(s) => Some(s.clone()),
            None => None,
        }
    }

    /// The value of this entry, to change in place.
    pub fn value_mut(&mut self) -> (r: Option<&mut String>)
        ensures
            old(self)@.value is None ==> r is None && final(self)@ == old(self)@,
            old(self)@.value is Some ==> r is Some && (*r->Some_0)@ == old(self)@.value->Some_0
                && final(self)@ == with_value(old(self)@, Some((*final(r->Some_0))@)),
    {
        match &mut self.value {
            Some(s) => Some(s),
            None => None,
        }
    }

    /// The children that are key/value entries, one at a time.
    pub fn values(&self) -> (r: ValueIterator<'_>)
        ensures
            r.entries() == self@.children,
            r.position() == 0,
    {
        ValueIterator::over(&self.children)
    }

    /// The children that are key/value entries, one at a time, to change
    /// in place.
    pub fn values_mut(&mut self) -> (r: ValueIteratorMut<'_>)
        ensures
            r.inner@ == old(self).children@,
            final(self).children@ == final(r.inner)@,
            final(self).key == old(self).key,
            final(self).value == old(self).value,
            final(self).indent == old(self).indent,
    {
        ValueIteratorMut::over(&mut self.children)
    }

    /// Every child with key `key`, in order, to change in place.
    pub fn children_mut(&mut self, key: &str) -> (r: Vec<&mut Value>)
        ensures
            r@.len() == keyed(old(self)@.children, key@).len(),
            forall|i: int| 0 <= i < r@.len() ==> (*#[trigger] r@[i])@ == keyed(old(self)@.children, key@)[i],
            final(self).children@ == refill(old(self).children@, key@, r@.map_values(|x: &mut Value| *final(x))),
            final(self).key == old(self).key,
            final(self).value == old(self).value,
            final(self).indent == old(self).indent,
    {
        let q = key.to_owned();
        let ghost s = self.children@;
        let ghost l = lines_view(s);
        proof {
            lemma_lines_view(s);
        }
        let mut it = ValueIteratorMut::over(&mut self.children);
        // What the children will hold once every entry handed out is done with.
        let ghost total = final(it.inner)@;
        let mut r: Vec<&mut Value> = Vec::new();
        let ghost mut c: int = 0;
        assert(s.take(0) =~= Seq::<Line>::empty());
        assert(l.take(0) =~= Seq::<LineView>::empty());
        assert(s.skip(0) =~= s);
        loop
            invariant
                0 <= c <= s.len(),
                s == old(self).children@,
                l == lines_view(s),
                l.len() == s.len(),
                forall|j: int| 0 <= j < s.len() ==> #[trigger] l[j] == s[j].view(),
                q@ == key@,
                it.inner@ == s.skip(c),
                total == refill(s.take(c), key@, r@.map_values(|x: &mut Value| *final(x))) + final(it.inner)@,
                r@.len() == keyed(l.take(c), key@).len(),
                forall|i: int| 0 <= i < r@.len() ==> (*#[trigger] r@[i])@ == keyed(l.take(c), key@)[i],
            ensures
                c == s.len(),
            decreases s.len() - c,
        {
            let ghost before = it.inner@;
            let ghost old_r = r@;
            match it.next() {
                None => {
                    proof {
                        lemma_lines_view_skip(s, c);
                        lemma_next_value_at(l.skip(c), 0);
                        assert forall|i: int| c <= i < s.len() implies !(#[trigger] l[i] is Value) by {
                            assert(l[i] == l.skip(c)[i - c]);
                        }
                        lemma_plain_stretch(s, l, key@, r@.map_values(|x: &mut Value| *final(x)), c, s.len() - c);
                        assert(s.subrange(c, s.len() as int) =~= s.skip(c));
                        assert(it.inner@ =~= s.skip(s.len() as int));
                        c = s.len() as int;
                    }
                    break;
                },
                Some(v) => {
                    let ghost j = next_value_at(lines_view(before), 0);
                    proof {
                        lemma_lines_view_skip(s, c);
                        lemma_next_value_at(l.skip(c), 0);
                        assert forall|i: int| c <= i < c + j implies !(#[trigger] l[i] is Value) by {
                            assert(l[i] == l.skip(c)[i - c]);
                        }
                        lemma_plain_stretch(s, l, key@, r@.map_values(|x: &mut Value| *final(x)), c, j);
                        assert(s.subrange(c, c + j) =~= before.take(j));
                        assert(s[c + j] == before[j]);
                        assert(s.take(c + j + 1).drop_last() =~= s.take(c + j));
                        assert(l.take(c + j + 1).drop_last() =~= l.take(c + j));
                        assert(l[c + j] == s[c + j].view());
                        assert(it.inner@ =~= s.skip(c + j + 1));
                    }
                    let ghost fv = *final(v);
                    let ghost vs = old_r.map_values(|x: &mut Value| *final(x));
                    if v.key == q {
                        let ghost cur = *v;
                        r.push(v);
                        assert(r@.map_values(|x: &mut Value| *final(x)) =~= vs.push(fv));
                        assert(vs.push(fv).drop_last() =~= vs);
                        assert(refill(s.take(c + j + 1), key@, vs.push(fv)) == refill(s.take(c + j), key@, vs).push(
                            Line::Value(fv),
                        ));
                        assert(keyed(l.take(c + j + 1), key@) == keyed(l.take(c + j), key@).push(cur.view()));
                    } else {
                        assert(fv == *v);
                        assert(refill(s.take(c + j + 1), key@, vs) == refill(s.take(c + j), key@, vs).push(
                            Line::Value(fv),
                        ));
                    }
                    proof {
                        c = c + j + 1;
                    }
                },
            }
        }
        assert(s.take(s.len() as int) =~= s);
        assert(l.take(s.len() as int) =~= l);
        r
    }

    /// The first child with key `key`, to change in place.
    pub fn child_mut(&mut self, key: &str) -> (r: Option<&mut Value>)
        ensures
            ({
                let s = old(self)@.children;
                let i = first_index(s, key@);
                &&& i == s.len() ==> r is None && final(self)@ == old(self)@
                &&& i < s.len() ==> r is Some && (*r->Some_0)@ == s[i]->Value_0
                    && final(self)@ == with_children(old(self)@, s.update(i, LineView::Value((*final(r->Some_0))@)))
            }),
    {
        find_child_mut(&mut self.children, &key.to_owned())
    }

    /// The first child with key `key`.
    pub fn child(&self, key: &str) -> (r: Option<&Value>)
        ensures
            ref_view(r) == first_with_key(self@.children, key@),
    {
        find_child(&self.children, &key.to_owned())
    }

    /// Every child with key `key`, in order.
    pub fn children(&self, key: &str) -> (r: Vec<&Value>)
        ensures
            r@.len() == keyed(self@.children, key@).len(),
            forall|i: int| 0 <= i < r@.len() ==> (#[trigger] r@[i]).view() == keyed(self@.children, key@)[i],
    {
        find_children(&self.children, &key.to_owned())
    }

    /// Some child has key `key`.
    pub fn has_child(&self, key: &str) -> (r: bool)
        ensures
            r == first_with_key(self@.children, key@) is Some,
    {
        find_child(&self.children, &key.to_owned()).is_some()
    }

    /// The value of the first child with key `key`.
    pub fn child_value(&self, key: &str) -> (r: Option<&str>)
        ensures
            match first_with_key(self@.children, key@) {
                Some(c) => str_view(r) == c.value,
                None => r is None,
            },
    {
        match find_child(&self.children, &key.to_owned()) {
            Some(c) => c.value(),
            None => None,
        }
    }

    /// The value of the first child with key `key`, copied.
    pub fn child_owned(&self, key: &str) -> (r: Option<String>)
        ensures
            match first_with_key(self@.children, key@) {
                Some(c) => opt_view(r) == c.value,
                None => r is None,
            },
    {
        match find_child(&self.children, &key.to_owned()) {
            Some(c) => c.value_owned(),
            None => None,
        }
    }

    /// The value of the entry that `path` leads to: its pieces between
    /// occurrences of `delimeter` are keys, one level down each.
    pub fn get_delim(&self, path: &str, delimeter: char) -> (r: Option<&str>)
        ensures
            match path_target(self@.children, split_on(path@, delimeter)) {
                Some(c) => str_view(r) == c.value,
                None => r is None,
            },
    {
        let segs = split_path(path, delimeter);
        assert(segs@.map_values(|s: String| s@) =~= split_on(path@, delimeter));
        match find_path(&self.children, &segs) {
            Some(c) => c.value(),
            None => None,
        }
    }

    /// The value of the entry that the `/`-separated keys of `path` lead to.
    pub fn get(&self, path: &str) -> (r: Option<&str>)
        ensures
            match path_target(self@.children, split_on(path@, '/')) {
                Some(c) => str_view(r) == c.value,
                None => r is None,
            },
    {
        self.get_delim(path, '/')
    }

    /// Writes this entry and everything nested under it, as a document
    /// would hold them.
    pub fn to_string(&self) -> (r: String)
        ensures
            r@ == render_line(LineView::Value(self@)),
    {
        let mut out: Vec<char> = Vec::new();
        write_head(self, &mut out);
        write_lines(&self.children, &mut out);
        string_from_chars(out.as_slice())
    }

    /// Builds an entry with no children; an empty `value` stands for none.
    pub fn from_parts(indent: Indent, key: &str, value: &str) -> (r: Value)
        ensures
            r@ == (ValueView {
                indent,
                key: key@,
                value: if value@.len() == 0 {
                    None
                } else {
                    Some(value@)
                },
                children: Seq::empty(),
            }),
    {
        let v = if value.is_empty() { None } else { Some(value.to_owned()) };
        let r = Value { indent, key: key.to_owned(), value: v, children: Vec::new() };
        assert(r@.children =~= Seq::empty());
        r
    }

    /// Index of the first character of `s` that is neither a tab nor a
    /// space, or the length of `s` where there is none.
    pub fn whitespace_end_index(s: &str) -> (r: usize)
        ensures
            r == indent_len(s@),
    {
        let w = chars_of(s);
        assert(w@.skip(0) =~= s@);
        indent_end(&w, 0)
    }

    /// Cuts `s` into its indentation and the text after it.
    pub fn split_whitespace(s: &str) -> (r: Result<(Indent, &str), ParseErrorKind>)
        ensures
            match indent_of(s@.take(indent_len(s@) as int)) {
                Ok(i) => (r matches Ok((j, rest)) && j == i && rest@ == s@.skip(indent_len(s@) as int)),
                Err(e) => r == Err::<(Indent, &str), ParseErrorKind>(e),
            },
    {
        let w = chars_of(s);
        let n = Value::whitespace_end_index(s);
        proof {
            lemma_indent_len(s@);
        }
        let i = Indent::from_chars(&w, 0, n);
        assert(w@.subrange(0, n as int) =~= s@.take(n as int));
        match i {
            Ok(i) => {
                let rest = s.substring_char(n, w.len());
                assert(rest@ =~= s@.skip(n as int));
                Ok((i, rest))
            },
            Err(e) => Err(e),
        }
    }

    /// Builds the entry that the text `w[start..]` stands for, after
    /// indentation `indent`.
    pub(crate) fn from_indent_chars(indent: Indent, w: &Vec<char>, start: usize) -> (r: Value)
        requires
            start <= w@.len(),
        ensures
            r@ == node_of(indent, w@.skip(start as int)),
    {
        let ghost rest = w@.skip(start as int);
        let mut i = start;
        while i < w.len() && w[i] != ' '
            invariant
                start <= i <= w@.len(),
                rest == w@.skip(start as int),
                forall|k: int| start <= k < i ==> #[trigger] w@[k] != ' ',
            decreases w@.len() - i,
        {
            i = i + 1;
        }
        proof {
            assert forall|k: int| 0 <= k < i - start implies #[trigger] rest[k] != ' ' by {
                assert(rest[k] == w@[start + k]);
            }
            if i < w@.len() {
                assert(rest[i - start] == w@[i as int]);
            }
            lemma_run_len_is(rest, |c: char| c != ' ', (i - start) as nat);
        }
        let key = string_from_chars(&w.as_slice()[start..i]);
        assert(key@ =~= rest.take(i - start));
        let value = if i >= w.len() || i + 1 == w.len() {
            None
        } else {
            let v = string_from_chars(&w.as_slice()[i + 1..w.len()]);
            assert(v@ =~= rest.skip(i - start + 1));
            Some(v)
        };
        let r = Value { indent, key, value, children: Vec::new() };
        assert(r@.children =~= Seq::empty());
        r
    }

    /// Builds the entry that `line`, after indentation `indent`, stands for.
    pub fn from_indent_str(indent: Indent, line: &str) -> (r: Value)
        ensures
            r@ == node_of(indent, line@),
    {
        let w = chars_of(line);
        assert(w@.skip(0) =~= line@);
        Value::from_indent_chars(indent, &w, 0)
    }

    /// Reads one key/value line, indentation included.
    pub fn from_str(line: &str) -> (r: Result<Value, ParseErrorKind>)
        ensures
            read_as(r, value_line(line@)),
    {
        let w = chars_of(line);
        Value::from_chars(&w)
    }

    /// Reads the key/value line `w`, indentation included.
    pub(crate) fn from_chars(w: &Vec<char>) -> (r: Result<Value, ParseErrorKind>)
        ensures
            read_as(r, value_line(w@)),
    {
        let n = indent_end(w, 0);
        assert(w@.skip(0) =~= w@);
        proof {
            lemma_indent_len(w@);
        }
        assert(w@.subrange(0, n as int) =~= w@.take(n as int));
        match Indent::from_chars(w, 0, n) {
            Ok(i) => Ok(Value::from_indent_chars(i, w, n)),
            Err(e) => Err(e),
        }
    }

    /// This entry as a mathematical value.
    pub open spec fn view(&self) -> ValueView
        decreases self,
    {
        ValueView {
            indent: self.indent,
            key: self.key@,
            value: opt_view(self.value),
            children: lines_view(self.children@),
        }
    }
}

} // verus!

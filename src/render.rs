use vstd::prelude::*;

use crate::indent::{Indent, indent_chars};
use crate::line::{Line, LineView, lemma_lines_view_push, lines_view};
use crate::value::{Value, ValueView};

verus! {

/// The line that writes the key and value of `v`: its indentation, its
/// key, and a space and its value where it has one, then a line feed.
pub open spec fn head(v: ValueView) -> Seq<char> {
    indent_chars(v.indent) + v.key + match v.value {
        Some(x) => seq![' '] + x,
        None => Seq::empty(),
    } + seq!['\n']
}

/// The text of the entry `e` and of everything nested under it.
pub open spec fn render_line(e: LineView) -> Seq<char>
    decreases e,
{
    match e {
        LineView::Blank(t) => t + seq!['\n'],
        LineView::Comment { indent, comment } => indent_chars(indent) + seq!['#'] + comment + seq!['\n'],
        LineView::Value(v) => head(v) + render_lines(v.children),
    }
}

/// The text of the entries `s`, one after another.
pub open spec fn render_lines(s: Seq<LineView>) -> Seq<char>
    decreases s,
{
    if s.len() == 0 {
        Seq::empty()
    } else {
        render_lines(s.subrange(0, s.len() - 1)) + render_line(s[s.len() - 1])
    }
}

pub proof fn lemma_render_push(s: Seq<LineView>, e: LineView)
    ensures
        render_lines(s.push(e)) == render_lines(s) + render_line(e),
{
    assert(s.push(e).subrange(0, s.len() as int) =~= s);
}

pub(crate) fn write_chars(cs: &str, out: &mut Vec<char>)
    ensures
        final(out)@ == old(out)@ + cs@,
{
    let ghost start = out@;
    for c in it: cs.chars()
        invariant
            it.seq() == cs@,
            out@ == start + cs@.take(it.index()),
    {
        assert(cs@.take(it.index() + 1) =~= cs@.take(it.index()).push(c));
        out.push(c);
    }
    assert(cs@.take(cs@.len() as int) =~= cs@);
}

pub(crate) fn write_indent(i: Indent, out: &mut Vec<char>)
    ensures
        final(out)@ == old(out)@ + indent_chars(i),
{
    let ghost start = out@;
    let (c, n) = match i {
        Indent::Empty => (' ', 0),
        Indent::Tabs { count, .. } => ('\t', count),
        Indent::Spaces { count, .. } => (' ', count),
    };
    let mut k: usize = 0;
    while k < n
        invariant
            k <= n,
            out@ == start + Seq::new(k as nat, |j: int| c),
        decreases n - k,
    {
        out.push(c);
        k = k + 1;
        assert(out@ =~= start + Seq::new(k as nat, |j: int| c));
    }
    assert(Seq::new(n as nat, |j: int| c) =~= indent_chars(i));
}

pub(crate) fn write_line(l: &Line, out: &mut Vec<char>)
    ensures
        final(out)@ == old(out)@ + render_line(l.view()),
    decreases l,
{
    let ghost start = out@;
    match l {
        Line::Blank(t) => {
            write_chars(t.as_str(), out);
            out.push('\n');
            assert(out@ =~= start + render_line(l.view()));
        },
        Line::Comment { indent, comment } => {
            write_indent(*indent, out);
            out.push('#');
            write_chars(comment.as_str(), out);
            out.push('\n');
            assert(out@ =~= start + render_line(l.view()));
        },
        Line::Value(v) => {
            write_head(v, out);
            let ghost mid = out@;
            write_lines(&v.children, out);
            assert(out@ =~= start + render_line(l.view()));
        },
    }
}

pub(crate) fn write_head(v: &Value, out: &mut Vec<char>)
    ensures
        final(out)@ == old(out)@ + head(v.view()),
{
    let ghost start = out@;
    write_indent(v.indent, out);
    write_chars(v.key.as_str(), out);
    match &v.value {
        Some(x) => {
            out.push(' ');
            write_chars(x.as_str(), out);
        },
        None => {},
    }
    out.push('\n');
    assert(out@ =~= start + head(v.view()));
}

pub(crate) fn write_lines(ls: &Vec<Line>, out: &mut Vec<char>)
    ensures
        final(out)@ == old(out)@ + render_lines(lines_view(ls@)),
    decreases ls,
{
    let ghost start = out@;
    let mut i: usize = 0;
    assert(ls@.take(0) =~= Seq::<Line>::empty());
    assert(out@ =~= start + render_lines(lines_view(ls@.take(0))));
    while i < ls.len()
        invariant
            i <= ls@.len(),
            out@ == start + render_lines(lines_view(ls@.take(i as int))),
        decreases ls@.len() - i,
    {
        assert(decreases_to!(ls => ls@[i as int]));
        write_line(&ls[i], out);
        proof {
            assert(ls@.take(i + 1) =~= ls@.take(i as int).push(ls@[i as int]));
            lemma_lines_view_push(ls@.take(i as int), ls@[i as int]);
            lemma_render_push(lines_view(ls@.take(i as int)), ls@[i as int].view());
        }
        i = i + 1;
        assert(out@ =~= start + render_lines(lines_view(ls@.take(i as int))));
    }
    assert(ls@.take(i as int) =~= ls@);
}

} // verus!

use vstd::prelude::*;

use crate::error::{ParseError, ParseErrorKind};
use crate::indent::{Indent, width, with_delta};
use crate::line::{
    Line, LineView, lemma_lines_view, lemma_lines_view_push, lemma_lines_view_update, lines_view,
    tokenize,
};
use crate::value::{Value, ValueView};

verus! {

/// `v` with its children replaced by `children`.
pub open spec fn with_children(v: ValueView, children: Seq<LineView>) -> ValueView {
    ValueView { indent: v.indent, key: v.key, value: v.value, children }
}

/// Index of the last key/value entry of `lines`, or -1 where there is none.
pub open spec fn last_value_index(lines: Seq<LineView>) -> int
    decreases lines.len(),
{
    if lines.len() == 0 {
        -1
    } else if lines.last() is Value {
        lines.len() - 1
    } else {
        last_value_index(lines.drop_last())
    }
}

pub proof fn lemma_last_value_index(lines: Seq<LineView>)
    ensures
        -1 <= last_value_index(lines) < lines.len(),
        last_value_index(lines) >= 0 ==> lines[last_value_index(lines)] is Value,
        forall|j: int| last_value_index(lines) < j < lines.len() ==> !(#[trigger] lines[j] is Value),
    decreases lines.len(),
{
    if lines.len() > 0 && !(lines.last() is Value) {
        let t = lines.drop_last();
        lemma_last_value_index(t);
        assert forall|j: int| last_value_index(lines) < j < lines.len() implies !(#[trigger] lines[j] is Value) by {
            if j < lines.len() - 1 {
                assert(t[j] == lines[j]);
            }
        }
        if last_value_index(t) >= 0 {
            assert(t[last_value_index(t)] == lines[last_value_index(t)]);
        }
    }
}

pub proof fn lemma_last_value_index_is(lines: Seq<LineView>, n: int)
    requires
        -1 <= n < lines.len(),
        n >= 0 ==> lines[n] is Value,
        forall|j: int| n < j < lines.len() ==> !(#[trigger] lines[j] is Value),
    ensures
        last_value_index(lines) == n,
    decreases lines.len(),
{
    if lines.len() > 0 && n < lines.len() - 1 {
        let t = lines.drop_last();
        assert forall|j: int| n < j < t.len() implies !(#[trigger] t[j] is Value) by {
            assert(t[j] == lines[j]);
        }
        if n >= 0 {
            assert(t[n] == lines[n]);
        }
        assert(!(lines[lines.len() - 1] is Value));
        lemma_last_value_index_is(t, n);
    }
}

/// `lines` holds a key/value entry.
pub open spec fn has_value(lines: Seq<LineView>) -> bool {
    0 <= last_value_index(lines) < lines.len()
}

/// The last key/value entry of `lines`, where there is one.
pub open spec fn last_value(lines: Seq<LineView>) -> ValueView {
    lines[last_value_index(lines)]->Value_0
}

/// `lines` with its last key/value entry given the children `children`.
pub open spec fn replace_last_children(lines: Seq<LineView>, children: Seq<LineView>) -> Seq<LineView> {
    lines.update(last_value_index(lines), LineView::Value(with_children(last_value(lines), children)))
}

/// Appends `e` at the deepest open position: as the last child of the last
/// key/value entry, and of its last key/value child in turn, down to an
/// entry with no key/value child; at the end of `lines` where it holds no
/// key/value entry.
pub open spec fn push_deepest(lines: Seq<LineView>, e: LineView) -> Seq<LineView>
    decreases lines,
{
    if has_value(lines) {
        let v = lines[last_value_index(lines)]->Value_0;
        proof {
            lemma_last_value_index(lines);
            assert(decreases_to!(lines => lines[last_value_index(lines)]));
        }
        lines.update(
            last_value_index(lines),
            LineView::Value(with_children(v, push_deepest(v.children, e))),
        )
    } else {
        lines.push(e)
    }
}

/// Two indentations of the same kind: both tabs, both spaces or both none.
pub open spec fn same_kind(a: Indent, b: Indent) -> bool {
    (a is Empty && b is Empty) || (a is Tabs && b is Tabs) || (a is Spaces && b is Spaces)
}

/// The error for an indented line whose kind differs from that of the
/// entries it meets.
pub open spec fn mismatch(a: Indent) -> ParseErrorKind {
    if a is Tabs {
        ParseErrorKind::TabsWithSpaces
    } else {
        ParseErrorKind::SpacesWithTabs
    }
}

/// Adds `node` as the last child of a parent indented by `parent` whose
/// children are `children`.
pub open spec fn place(children: Seq<LineView>, parent: Indent, node: ValueView) -> Result<Seq<LineView>, ParseErrorKind> {
    match with_delta(node.indent, parent) {
        Ok(i) => Ok(
            children.push(
                LineView::Value(
                    ValueView { indent: i, key: node.key, value: node.value, children: node.children },
                ),
            ),
        ),
        Err(k) => Err(k),
    }
}

/// Finds the place of the indented `node` below a parent indented by
/// `parent` whose children are `children`. Where the parent has no key/value
/// child, `node` becomes its first one. Where its last key/value child is
/// indented as `node` is, `node` becomes that child's sibling. Otherwise the
/// search goes on among that child's own children.
pub open spec fn attach(children: Seq<LineView>, parent: Indent, node: ValueView) -> Result<Seq<LineView>, ParseErrorKind>
    decreases children,
{
    if has_value(children) {
        let c = children[last_value_index(children)]->Value_0;
        proof {
            lemma_last_value_index(children);
            assert(decreases_to!(children => children[last_value_index(children)]));
        }
        if !same_kind(c.indent, node.indent) {
            Err(mismatch(node.indent))
        } else if width(c.indent) == width(node.indent) {
            place(children, parent, node)
        } else {
            match attach(c.children, c.indent, node) {
                Ok(cc) => Ok(children.update(last_value_index(children), LineView::Value(with_children(c, cc)))),
                Err(k) => Err(k),
            }
        }
    } else {
        place(children, parent, node)
    }
}

/// Adds the entry `e` of the next line to the document `doc`. Blank lines
/// and comments go to the deepest open position; an unindented key/value
/// line starts a new top-level entry; an indented one is placed under the
/// last top-level key/value entry.
pub open spec fn push_entry(doc: Seq<LineView>, e: LineView) -> Result<Seq<LineView>, ParseErrorKind> {
    match e {
        LineView::Value(v) => if v.indent is Empty {
            Ok(doc.push(e))
        } else if has_value(doc) {
            match attach(last_value(doc).children, last_value(doc).indent, v) {
                Ok(cc) => Ok(replace_last_children(doc, cc)),
                Err(k) => Err(k),
            }
        } else {
            Err(ParseErrorKind::StartedIndented)
        },
        _ => Ok(push_deepest(doc, e)),
    }
}

/// The document that the lines `ls` make, or the first error in them with
/// its 1-based line number.
pub open spec fn parse_lines(ls: Seq<Seq<char>>) -> Result<Seq<LineView>, ParseError>
    decreases ls.len(),
{
    if ls.len() == 0 {
        Ok(Seq::empty())
    } else {
        match parse_lines(ls.drop_last()) {
            Err(e) => Err(e),
            Ok(doc) => match tokenize(ls.last()) {
                Err(k) => Err(ParseError { line: ls.len() as usize, kind: k }),
                Ok(e) => match push_entry(doc, e) {
                    Ok(d) => Ok(d),
                    Err(k) => Err(ParseError { line: ls.len() as usize, kind: k }),
                },
            },
        }
    }
}

/// Index of the last key/value entry of `lines`, if any.
pub(crate) fn find_last_value(lines: &Vec<Line>) -> (r: Option<usize>)
    ensures
        match r {
            Some(i) => has_value(lines_view(lines@)) && i == last_value_index(lines_view(lines@)),
            None => !has_value(lines_view(lines@)),
        },
{
    let ghost s = lines_view(lines@);
    proof {
        lemma_lines_view(lines@);
        lemma_last_value_index(s);
    }
    let mut i = lines.len();
    while i > 0
        invariant
            i <= lines@.len() == s.len(),
            s == lines_view(lines@),
            forall|j: int| 0 <= j < s.len() ==> #[trigger] s[j] == lines@[j].view(),
            forall|j: int| i <= j < s.len() ==> !(#[trigger] s[j] is Value),
        decreases i,
    {
        let is_value = match &lines[i - 1] {
            Line::Value(_) => true,
            _ => false,
        };
        if is_value {
            proof {
                lemma_last_value_index_is(s, i - 1);
            }
            return Some(i - 1);
        }
        i = i - 1;
    }
    proof {
        lemma_last_value_index_is(s, -1);
    }
    None
}

/// Appends `e` at the deepest open position of `lines`.
pub(crate) fn push_last(lines: &mut Vec<Line>, e: Line)
    ensures
        lines_view(final(lines)@) == push_deepest(lines_view(old(lines)@), e.view()),
    decreases *old(lines),
{
    let ghost s = lines@;
    proof {
        lemma_lines_view(s);
    }
    let i = match find_last_value(lines) {
        None => {
            lines.push(e);
            proof {
                lemma_lines_view_push(s, e);
            }
            return;
        },
        Some(i) => i,
    };
    proof {
        lemma_last_value_index(lines_view(s));
        assert(lines_view(s)[i as int] == s[i as int].view());
    }
    let ghost mut v1 = s[i as int]->Value_0;
    assert(decreases_to!(s => s[i as int]));
    match &mut lines[i] {
        Line::Value(v) => {
            push_last(&mut v.children, e);
            proof {
                v1 = *v;
            }
        },
        _ => {
            assert(false);
        },
    }
    proof {
        let v0 = s[i as int]->Value_0;
        assert(lines@ == s.update(i as int, Line::Value(v1)));
        lemma_lines_view_update(s, i as int, Line::Value(v1));
        assert(v1.view() == with_children(v0.view(), push_deepest(v0.view().children, e.view())));
        assert(lines_view(lines@) =~= push_deepest(lines_view(s), e.view()));
    }
}

fn kinds_match(a: Indent, b: Indent) -> (r: bool)
    ensures
        r == same_kind(a, b),
{
    match (a, b) {
        (Indent::Empty, Indent::Empty) => true,
        (Indent::Tabs { .. }, Indent::Tabs { .. }) => true,
        (Indent::Spaces { .. }, Indent::Spaces { .. }) => true,
        _ => false,
    }
}

fn indent_width(a: Indent) -> (r: usize)
    ensures
        r == width(a),
{
    match a {
        Indent::Empty => 0,
        Indent::Tabs { count, .. } => count,
        Indent::Spaces { count, .. } => count,
    }
}

/// Adds `node` as the last child of a parent indented by `parent`.
fn place_value(children: &mut Vec<Line>, parent: Indent, node: Value) -> (r: Result<(), ParseErrorKind>)
    ensures
        match place(lines_view(old(children)@), parent, node.view()) {
            Ok(cc) => r is Ok && lines_view(final(children)@) == cc,
            Err(k) => r == Err::<(), ParseErrorKind>(k) && final(children)@ == old(children)@,
        },
{
    let ghost s = children@;
    let mut node = node;
    let ghost n0 = node;
    match node.indent.delta_from(&parent) {
        Ok(()) => {
            let ghost n1 = node;
            children.push(Line::Value(node));
            proof {
                lemma_lines_view_push(s, Line::Value(n1));
                assert(n1.view() == (ValueView {
                    indent: n1.indent,
                    key: n0.view().key,
                    value: n0.view().value,
                    children: n0.view().children,
                }));
            }
            Ok(())
        },
        Err(k) => Err(k),
    }
}

/// Places the indented `node` below a parent indented by `parent` whose
/// children are `children`; on failure `children` stay as they were.
pub(crate) fn attach_value(children: &mut Vec<Line>, parent: Indent, node: Value) -> (r: Result<(), ParseErrorKind>)
    ensures
        match attach(lines_view(old(children)@), parent, node.view()) {
            Ok(cc) => r is Ok && lines_view(final(children)@) == cc,
            Err(k) => r == Err::<(), ParseErrorKind>(k) && lines_view(final(children)@) == lines_view(
                old(children)@,
            ),
        },
    decreases *old(children),
{
    let ghost s = children@;
    proof {
        lemma_lines_view(s);
    }
    let i = match find_last_value(children) {
        None => return place_value(children, parent, node),
        Some(i) => i,
    };
    proof {
        lemma_last_value_index(lines_view(s));
        assert(lines_view(s)[i as int] == s[i as int].view());
    }
    // 1: of the other kind; 2: a sibling; 3: go deeper
    let step: u8 = match &children[i] {
        Line::Value(c) => if !kinds_match(c.indent, node.indent) {
            1
        } else if indent_width(c.indent) == indent_width(node.indent) {
            2
        } else {
            3
        },
        _ => 1,
    };
    if step == 2 {
        return place_value(children, parent, node);
    }
    if step == 1 {
        return Err(mismatch_kind(node.indent));
    }
    let ghost c0 = s[i as int]->Value_0;
    let ghost mut c1 = c0;
    assert(decreases_to!(s => s[i as int]));
    let r = match &mut children[i] {
        Line::Value(c) => {
            let cindent = c.indent;
            let r = attach_value(&mut c.children, cindent, node);
            proof {
                c1 = *c;
            }
            r
        },
        _ => {
            assert(false);
            Err(ParseErrorKind::StartedIndented)
        },
    };
    proof {
        assert(children@ == s.update(i as int, Line::Value(c1)));
        lemma_lines_view_update(s, i as int, Line::Value(c1));
        assert(c1.view() == with_children(c0.view(), c1.view().children));
        if r is Err {
            assert(c1.view() == c0.view());
            assert(lines_view(children@) =~= lines_view(s));
        }
    }
    r
}

fn mismatch_kind(a: Indent) -> (r: ParseErrorKind)
    ensures
        r == mismatch(a),
{
    match a {
        Indent::Tabs { .. } => ParseErrorKind::TabsWithSpaces,
        _ => ParseErrorKind::SpacesWithTabs,
    }
}

} // verus!

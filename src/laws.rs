use vstd::prelude::*;

use crate::assemble::{
    attach, has_value, last_value, last_value_index, lemma_last_value_index, lemma_last_value_index_is, parse_lines, place, push_deepest, push_entry,
    replace_last_children, same_kind,
};
use crate::indent::{Indent, all_are, indent_chars, indent_of, width, with_delta};
use crate::line::{LineView, tokenize};
use crate::parse_document;
use crate::render::{head, render_line, render_lines};
use crate::text::{is_blank, join_lines, split_state, strip_cr, text_lines};
use crate::value::{ValueView, indent_len, key_len, lemma_indent_len, lemma_key_len, node_of};

verus! {

/// `lines` ends in a key/value entry.
pub open spec fn ends_in_value(lines: Seq<LineView>) -> bool {
    lines.len() > 0 && lines[lines.len() - 1] is Value
}

/// A key/value line whose text after the indentation ends in the one space
/// that would part key and value. The entry keeps no value, so writing it
/// back drops that space.
pub open spec fn drops_trailing_space(l: Seq<char>) -> bool {
    let rest = l.skip(indent_len(l) as int);
    !is_blank(l) && !(rest.len() > 0 && rest[0] == '#') && key_len(rest) + 1 == rest.len()
}

/// `s` holds a carriage return right before a line feed.
pub open spec fn has_crlf(s: Seq<char>) -> bool {
    exists|i: int| 0 <= i < s.len() - 1 && #[trigger] s[i] == '\r' && s[i + 1] == '\n'
}

proof fn lemma_indent_chars_delta(i: Indent, p: Indent)
    requires
        with_delta(i, p) is Ok,
    ensures
        indent_chars(with_delta(i, p)->Ok_0) == indent_chars(i),
{
}

proof fn lemma_render_last(s: Seq<LineView>)
    requires
        s.len() > 0,
    ensures
        render_lines(s) == render_lines(s.drop_last()) + render_line(s.last()),
{
    assert(s.subrange(0, s.len() - 1) =~= s.drop_last());
}

proof fn lemma_render_replace_last(s: Seq<LineView>, cc: Seq<LineView>, extra: Seq<char>)
    requires
        ends_in_value(s),
        last_value_index(s) == s.len() - 1,
        render_lines(cc) == render_lines(last_value(s).children) + extra,
    ensures
        render_lines(replace_last_children(s, cc)) == render_lines(s) + extra,
{
    let t = replace_last_children(s, cc);
    lemma_render_last(s);
    lemma_render_last(t);
    assert(t.drop_last() =~= s.drop_last());
    let v = last_value(s);
    assert(render_line(t.last()) == head(v) + render_lines(cc));
    assert(render_line(s.last()) == head(v) + render_lines(v.children));
    assert(render_lines(t) =~= render_lines(s) + extra);
}

proof fn lemma_render_push_deepest(s: Seq<LineView>, parent: Indent, top: bool, e: LineView)
    requires
        well_nested(s, parent, top),
    ensures
        render_lines(push_deepest(s, e)) == render_lines(s) + render_line(e),
    decreases s,
{
    lemma_well_nested_last(s, parent, top);
    if ends_in_value(s) {
        let v = s[s.len() - 1]->Value_0;
        lemma_render_push_deepest(v.children, v.indent, false, e);
        assert(push_deepest(s, e) == replace_last_children(s, push_deepest(v.children, e)));
        lemma_render_replace_last(s, push_deepest(v.children, e), render_line(e));
    } else {
        assert(s.push(e).drop_last() =~= s);
        lemma_render_last(s.push(e));
    }
}

proof fn lemma_render_place(children: Seq<LineView>, parent: Indent, node: ValueView)
    requires
        place(children, parent, node) is Ok,
    ensures
        render_lines(place(children, parent, node)->Ok_0) == render_lines(children) + render_line(
            LineView::Value(node),
        ),
{
    let r = place(children, parent, node)->Ok_0;
    lemma_indent_chars_delta(node.indent, parent);
    assert(r.drop_last() =~= children);
    lemma_render_last(r);
}

proof fn lemma_render_attach(children: Seq<LineView>, parent: Indent, node: ValueView)
    requires
        attach(children, parent, node) is Ok,
        well_nested(children, parent, false),
    ensures
        render_lines(attach(children, parent, node)->Ok_0) == render_lines(children) + render_line(
            LineView::Value(node),
        ),
    decreases children,
{
    lemma_well_nested_last(children, parent, false);
    if ends_in_value(children) {
        let c = children[children.len() - 1]->Value_0;
        if crate::indent::width(c.indent) == crate::indent::width(node.indent) {
            lemma_render_place(children, parent, node);
        } else {
            lemma_render_attach(c.children, c.indent, node);
            let cc = attach(c.children, c.indent, node)->Ok_0;
            assert(attach(children, parent, node)->Ok_0 == replace_last_children(children, cc));
            lemma_render_replace_last(children, cc, render_line(LineView::Value(node)));
        }
    } else {
        lemma_render_place(children, parent, node);
    }
}

proof fn lemma_render_push_entry(doc: Seq<LineView>, e: LineView)
    requires
        push_entry(doc, e) is Ok,
        well_nested(doc, Indent::Empty, true),
    ensures
        render_lines(push_entry(doc, e)->Ok_0) == render_lines(doc) + render_line(e),
{
    lemma_well_nested_last(doc, Indent::Empty, true);
    match e {
        LineView::Value(v) => {
            if v.indent is Empty {
                assert(doc.push(e).drop_last() =~= doc);
                lemma_render_last(doc.push(e));
            } else {
                let top = last_value(doc);
                lemma_render_attach(top.children, top.indent, v);
                lemma_render_replace_last(
                    doc,
                    attach(top.children, top.indent, v)->Ok_0,
                    render_line(e),
                );
            }
        },
        _ => {
            lemma_render_push_deepest(doc, Indent::Empty, true, e);
        },
    }
}

proof fn lemma_indent_written_back(w: Seq<char>)
    requires
        indent_of(w) is Ok,
        w.len() <= usize::MAX,
    ensures
        indent_chars(indent_of(w)->Ok_0) == w,
{
    if w.len() > 0 {
        if all_are(w, '\t') {
            assert(indent_chars(indent_of(w)->Ok_0) =~= w);
        } else {
            assert(indent_chars(indent_of(w)->Ok_0) =~= w);
        }
    } else {
        assert(indent_chars(Indent::Empty) =~= w);
    }
}

proof fn lemma_line_written_back(l: Seq<char>)
    requires
        tokenize(l) is Ok,
        l.len() <= usize::MAX,
        !drops_trailing_space(l),
    ensures
        render_line(tokenize(l)->Ok_0) == l + seq!['\n'],
{
    if !is_blank(l) {
        lemma_indent_len(l);
        let n = indent_len(l);
        let pre = l.take(n as int);
        let rest = l.skip(n as int);
        lemma_indent_written_back(pre);
        assert(l =~= pre + rest);
        if rest.len() > 0 && rest[0] == '#' {
            assert(rest =~= seq!['#'] + rest.skip(1));
            assert(render_line(tokenize(l)->Ok_0) =~= l + seq!['\n']);
        } else {
            lemma_key_len(rest);
            let k = key_len(rest);
            let v = node_of(indent_of(pre)->Ok_0, rest);
            assert(render_lines(v.children) =~= Seq::<char>::empty());
            if k + 1 >= rest.len() {
                assert(k == rest.len());
                assert(rest.take(k as int) =~= rest);
            } else {
                assert(rest =~= rest.take(k as int) + seq![' '] + rest.skip((k + 1) as int));
            }
            assert(render_line(tokenize(l)->Ok_0) =~= l + seq!['\n']);
        }
    }
}

proof fn lemma_split_state(t: Seq<char>)
    requires
        !has_crlf(t),
    ensures
        join_lines(split_state(t).0) + split_state(t).1 == t,
    decreases t.len(),
{
    if t.len() > 0 {
        let t0 = t.drop_last();
        assert(!has_crlf(t0)) by {
            if has_crlf(t0) {
                let i = choose|i: int| 0 <= i < t0.len() - 1 && #[trigger] t0[i] == '\r' && t0[i + 1] == '\n';
                assert(t[i] == '\r' && t[i + 1] == '\n');
            }
        }
        lemma_split_state(t0);
        let (d, cur) = split_state(t0);
        if t.last() == '\n' {
            if cur.len() > 0 {
                assert(cur.last() == t0.last()) by {
                    assert(t0 =~= join_lines(d) + cur);
                    assert(t0[t0.len() - 1] == cur[cur.len() - 1]);
                }
                assert(t[t.len() - 2] == t0.last());
                assert(cur.last() != '\r');
            }
            assert(strip_cr(cur) == cur);
            let d2 = d.push(cur);
            assert(d2.drop_last() =~= d);
            assert(join_lines(d2) + Seq::<char>::empty() =~= t);
        } else {
            assert(t =~= t0.push(t.last()));
            assert(join_lines(d) + cur.push(t.last()) =~= t);
        }
    }
}

proof fn lemma_join_lines_len(ls: Seq<Seq<char>>, i: int)
    requires
        0 <= i < ls.len(),
    ensures
        ls[i].len() < join_lines(ls).len(),
    decreases ls.len(),
{
    if i < ls.len() - 1 {
        assert(ls.drop_last()[i] == ls[i]);
        lemma_join_lines_len(ls.drop_last(), i);
    }
}

proof fn lemma_join_text_lines(s: Seq<char>)
    requires
        s.len() == 0 || s.last() == '\n',
        !has_crlf(s),
    ensures
        join_lines(text_lines(s)) == s,
{
    lemma_split_state(s);
    if s.len() > 0 {
        assert(split_state(s).1.len() == 0);
    }
    assert(join_lines(split_state(s).0) + Seq::<char>::empty() =~= join_lines(split_state(s).0));
}

proof fn lemma_parse_render(ls: Seq<Seq<char>>)
    requires
        parse_lines(ls) is Ok,
        forall|i: int| 0 <= i < ls.len() ==> !drops_trailing_space(#[trigger] ls[i]),
        forall|i: int| 0 <= i < ls.len() ==> (#[trigger] ls[i]).len() <= usize::MAX,
    ensures
        render_lines(parse_lines(ls)->Ok_0) == join_lines(ls),
    decreases ls.len(),
{
    if ls.len() > 0 {
        let l0 = ls.drop_last();
        assert forall|i: int| 0 <= i < l0.len() implies !drops_trailing_space(#[trigger] l0[i]) && l0[i].len() <= usize::MAX by {
            assert(l0[i] == ls[i]);
        }
        lemma_parse_render(l0);
        lemma_parse_lines_well_nested(l0);
        let d0 = parse_lines(l0)->Ok_0;
        let e = tokenize(ls.last())->Ok_0;
        lemma_render_push_entry(d0, e);
        lemma_line_written_back(ls.last());
        assert(render_lines(parse_lines(ls)->Ok_0) =~= join_lines(ls));
    } else {
        assert(render_lines(Seq::<LineView>::empty()) =~= join_lines(ls));
    }
}

/// Writing back a parsed document gives the text it was read from, where
/// that text ends with a line feed (or is empty), holds no carriage return
/// right before a line feed, and holds no key/value line that ends in the
/// space that would part its key from its value.
pub proof fn lemma_round_trip(s: Seq<char>)
    requires
        parse_document(s) is Ok,
        s.len() == 0 || s.last() == '\n',
        !has_crlf(s),
        forall|i: int| 0 <= i < text_lines(s).len() ==> !drops_trailing_space(#[trigger] text_lines(s)[i]),
        s.len() <= usize::MAX,
    ensures
        render_lines(parse_document(s)->Ok_0) == s,
{
    lemma_join_text_lines(s);
    assert forall|i: int| 0 <= i < text_lines(s).len() implies (#[trigger] text_lines(s)[i]).len() <= usize::MAX by {
        lemma_join_lines_len(text_lines(s), i);
    }
    lemma_parse_render(text_lines(s));
}

/// Reading back the written form of a parsed document gives that same
/// document, for every text that the round trip above covers.
pub proof fn lemma_reparse(s: Seq<char>)
    requires
        parse_document(s) is Ok,
        s.len() == 0 || s.last() == '\n',
        !has_crlf(s),
        forall|i: int| 0 <= i < text_lines(s).len() ==> !drops_trailing_space(#[trigger] text_lines(s)[i]),
        s.len() <= usize::MAX,
    ensures
        parse_document(render_lines(parse_document(s)->Ok_0)) == parse_document(s),
{
    lemma_round_trip(s);
}

/// `a` and `b` are the same indentation: the same kind and the same width.
pub open spec fn same_indent(a: Indent, b: Indent) -> bool {
    same_kind(a, b) && width(a) == width(b)
}

/// `s` holds no key/value entry.
pub open spec fn no_values(s: Seq<LineView>) -> bool {
    forall|j: int| 0 <= j < s.len() ==> !(#[trigger] s[j] is Value)
}

/// The nesting rules hold among the entries `s`, which stand at the top
/// level (`top`) or under a parent indented by `parent`: top-level key/value
/// entries are not indented; nested ones are indented, with the kind of
/// their parent where it has one; all key/value entries of one list share
/// one indentation; no comment or blank line follows a key/value entry in
/// the same list; and the same holds, in turn, among the children of each.
pub open spec fn well_nested(s: Seq<LineView>, parent: Indent, top: bool) -> bool
    decreases s,
{
    if s.len() == 0 {
        true
    } else {
        let init = s.subrange(0, s.len() - 1);
        &&& well_nested(init, parent, top)
        &&& match s[s.len() - 1] {
            LineView::Value(v) => {
                &&& (top ==> v.indent is Empty)
                &&& (!top ==> !(v.indent is Empty) && (parent is Empty || same_kind(v.indent, parent)))
                &&& forall|j: int| 0 <= j < init.len() && #[trigger] init[j] is Value ==> same_indent(init[j]->Value_0.indent, v.indent)
                &&& well_nested(v.children, v.indent, false)
            },
            _ => no_values(init),
        }
    }
}

proof fn lemma_well_nested_last_value(s: Seq<LineView>, parent: Indent, top: bool, j: int)
    requires
        well_nested(s, parent, top),
        0 <= j < s.len(),
        s[j] is Value,
    ensures
        ends_in_value(s),
{
    if !ends_in_value(s) {
        assert(s.subrange(0, s.len() - 1)[j] == s[j]);
    }
}

proof fn lemma_well_nested_last(s: Seq<LineView>, parent: Indent, top: bool)
    requires
        well_nested(s, parent, top),
    ensures
        has_value(s) <==> ends_in_value(s),
        has_value(s) ==> last_value_index(s) == s.len() - 1,
{
    lemma_last_value_index(s);
    if ends_in_value(s) {
        lemma_last_value_index_is(s, s.len() - 1);
    }
    if has_value(s) {
        lemma_well_nested_last_value(s, parent, top, last_value_index(s));
        lemma_last_value_index_is(s, s.len() - 1);
    }
}

proof fn lemma_well_nested_push_deepest(s: Seq<LineView>, parent: Indent, top: bool, e: LineView)
    requires
        well_nested(s, parent, top),
        !(e is Value),
    ensures
        well_nested(push_deepest(s, e), parent, top),
    decreases s,
{
    let t = push_deepest(s, e);
    lemma_well_nested_last(s, parent, top);
    if ends_in_value(s) {
        let v = s[s.len() - 1]->Value_0;
        lemma_well_nested_push_deepest(v.children, v.indent, false, e);
        assert(t.subrange(0, t.len() - 1) =~= s.subrange(0, s.len() - 1));
    } else {
        assert(t.subrange(0, t.len() - 1) =~= s);
        assert forall|j: int| 0 <= j < s.len() implies !(#[trigger] s[j] is Value) by {
            if s[j] is Value {
                lemma_well_nested_last_value(s, parent, top, j);
            }
        }
    }
}

proof fn lemma_well_nested_place(children: Seq<LineView>, parent: Indent, node: ValueView)
    requires
        well_nested(children, parent, false),
        place(children, parent, node) is Ok,
        !(node.indent is Empty),
        node.children.len() == 0,
        ends_in_value(children) ==> same_indent(children[children.len() - 1]->Value_0.indent, node.indent),
    ensures
        well_nested(place(children, parent, node)->Ok_0, parent, false),
{
    let t = place(children, parent, node)->Ok_0;
    let i = with_delta(node.indent, parent)->Ok_0;
    assert(t.subrange(0, t.len() - 1) =~= children);
    assert(same_indent(i, node.indent));
    assert forall|j: int| 0 <= j < children.len() && #[trigger] children[j] is Value implies same_indent(
        children[j]->Value_0.indent,
        i,
    ) by {
        lemma_well_nested_last_value(children, parent, false, j);
        lemma_well_nested_siblings(children, parent, false, j);
    }
    assert(well_nested(node.children, i, false));
    assert(t[t.len() - 1] == LineView::Value(
        ValueView { indent: i, key: node.key, value: node.value, children: node.children },
    ));
}

proof fn lemma_well_nested_siblings(s: Seq<LineView>, parent: Indent, top: bool, j: int)
    requires
        well_nested(s, parent, top),
        0 <= j < s.len(),
        s[j] is Value,
        ends_in_value(s),
    ensures
        same_indent(s[j]->Value_0.indent, last_value(s).indent),
{
    if j < s.len() - 1 {
        assert(s.subrange(0, s.len() - 1)[j] == s[j]);
    }
}

proof fn lemma_well_nested_attach(children: Seq<LineView>, parent: Indent, node: ValueView)
    requires
        well_nested(children, parent, false),
        attach(children, parent, node) is Ok,
        !(node.indent is Empty),
        node.children.len() == 0,
    ensures
        well_nested(attach(children, parent, node)->Ok_0, parent, false),
    decreases children,
{
    lemma_well_nested_last(children, parent, false);
    if ends_in_value(children) {
        let c = children[children.len() - 1]->Value_0;
        if width(c.indent) == width(node.indent) {
            lemma_well_nested_place(children, parent, node);
        } else {
            lemma_well_nested_attach(c.children, c.indent, node);
            let t = attach(children, parent, node)->Ok_0;
            assert(t.subrange(0, t.len() - 1) =~= children.subrange(0, children.len() - 1));
        }
    } else {
        lemma_well_nested_place(children, parent, node);
    }
}

proof fn lemma_well_nested_push_entry(doc: Seq<LineView>, e: LineView)
    requires
        well_nested(doc, Indent::Empty, true),
        push_entry(doc, e) is Ok,
        e is Value ==> e->Value_0.children.len() == 0,
    ensures
        well_nested(push_entry(doc, e)->Ok_0, Indent::Empty, true),
{
    let t = push_entry(doc, e)->Ok_0;
    lemma_well_nested_last(doc, Indent::Empty, true);
    match e {
        LineView::Value(v) => {
            if v.indent is Empty {
                assert(t.subrange(0, t.len() - 1) =~= doc);
                assert forall|j: int| 0 <= j < doc.len() && #[trigger] doc[j] is Value implies same_indent(
                    doc[j]->Value_0.indent,
                    v.indent,
                ) by {
                    lemma_well_nested_last_value(doc, Indent::Empty, true, j);
                    lemma_well_nested_siblings(doc, Indent::Empty, true, j);
                }
                assert(well_nested(v.children, v.indent, false));
            } else {
                let top = last_value(doc);
                lemma_well_nested_attach(top.children, top.indent, v);
                assert(t.subrange(0, t.len() - 1) =~= doc.subrange(0, doc.len() - 1));
            }
        },
        _ => {
            lemma_well_nested_push_deepest(doc, Indent::Empty, true, e);
        },
    }
}

/// Every document that parsing returns keeps the nesting rules: top-level
/// entries are not indented, children share the indentation kind of their
/// parent, siblings share one indentation, and comments and blank lines
/// never follow a key/value entry in the same list.
pub proof fn lemma_parsed_well_nested(s: Seq<char>)
    requires
        parse_document(s) is Ok,
    ensures
        well_nested(parse_document(s)->Ok_0, Indent::Empty, true),
{
    lemma_parse_lines_well_nested(text_lines(s));
}

proof fn lemma_parse_lines_well_nested(ls: Seq<Seq<char>>)
    requires
        parse_lines(ls) is Ok,
    ensures
        well_nested(parse_lines(ls)->Ok_0, Indent::Empty, true),
    decreases ls.len(),
{
    if ls.len() > 0 {
        lemma_parse_lines_well_nested(ls.drop_last());
        let d0 = parse_lines(ls.drop_last())->Ok_0;
        let e = tokenize(ls.last())->Ok_0;
        lemma_well_nested_push_entry(d0, e);
    }
}

} // verus!

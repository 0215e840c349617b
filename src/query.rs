use vstd::prelude::*;

use crate::line::{Line, LineView, lemma_lines_view, lemma_lines_view_update, lines_view};
use crate::text::string_from_chars;
use crate::value::{Value, ValueView};

verus! {

/// `e` is a key/value entry whose key is `k`.
pub open spec fn has_key(e: LineView, k: Seq<char>) -> bool {
    e is Value && e->Value_0.key == k
}

/// Index of the first key/value entry of `s` whose key is `k`, or the
/// length of `s` where there is none.
pub open spec fn first_index(s: Seq<LineView>, k: Seq<char>) -> int
    decreases s.len(),
{
    if s.len() == 0 {
        0
    } else if has_key(s[0], k) {
        0
    } else {
        1 + first_index(s.drop_first(), k)
    }
}

pub proof fn lemma_first_index(s: Seq<LineView>, k: Seq<char>)
    ensures
        0 <= first_index(s, k) <= s.len(),
        forall|j: int| 0 <= j < first_index(s, k) ==> !has_key(#[trigger] s[j], k),
        first_index(s, k) < s.len() ==> has_key(s[first_index(s, k)], k),
    decreases s.len(),
{
    if s.len() > 0 && !has_key(s[0], k) {
        lemma_first_index(s.drop_first(), k);
        assert forall|j: int| 0 <= j < first_index(s, k) implies !has_key(#[trigger] s[j], k) by {
            if j > 0 {
                assert(s[j] == s.drop_first()[j - 1]);
            }
        }
    }
}

pub proof fn lemma_first_index_is(s: Seq<LineView>, k: Seq<char>, n: int)
    requires
        0 <= n <= s.len(),
        forall|j: int| 0 <= j < n ==> !has_key(#[trigger] s[j], k),
        n < s.len() ==> has_key(s[n], k),
    ensures
        first_index(s, k) == n,
    decreases n,
{
    if n > 0 {
        assert forall|j: int| 0 <= j < n - 1 implies !has_key(#[trigger] s.drop_first()[j], k) by {
            assert(s.drop_first()[j] == s[j + 1]);
        }
        if n - 1 < s.drop_first().len() {
            assert(s.drop_first()[n - 1] == s[n]);
        }
        lemma_first_index_is(s.drop_first(), k, n - 1);
        assert(!has_key(s[0], k));
    }
}

/// The first key/value entry of `s` whose key is `k`.
pub open spec fn first_with_key(s: Seq<LineView>, k: Seq<char>) -> Option<ValueView> {
    let i = first_index(s, k);
    if i < s.len() {
        Some(s[i]->Value_0)
    } else {
        None
    }
}

/// The key/value entries of `s` whose key is `k`, in order.
pub open spec fn keyed(s: Seq<LineView>, k: Seq<char>) -> Seq<ValueView>
    decreases s.len(),
{
    if s.len() == 0 {
        Seq::empty()
    } else if has_key(s.last(), k) {
        keyed(s.drop_last(), k).push(s.last()->Value_0)
    } else {
        keyed(s.drop_last(), k)
    }
}

/// The entry that the keys `segs` lead to, one level down for each key,
/// taking the first entry with that key at each level.
pub open spec fn path_target(s: Seq<LineView>, segs: Seq<Seq<char>>) -> Option<ValueView>
    decreases segs.len(),
{
    if segs.len() == 0 {
        None
    } else {
        match first_with_key(s, segs[0]) {
            None => None,
            Some(c) => if segs.len() == 1 {
                Some(c)
            } else {
                path_target(c.children, segs.drop_first())
            },
        }
    }
}

/// The pieces of `p` between occurrences of `d`, and the piece after the last.
pub open spec fn split_on_state(p: Seq<char>, d: char) -> (Seq<Seq<char>>, Seq<char>)
    decreases p.len(),
{
    if p.len() == 0 {
        (Seq::empty(), Seq::empty())
    } else {
        let (done, cur) = split_on_state(p.drop_last(), d);
        if p.last() == d {
            (done.push(cur), Seq::empty())
        } else {
            (done, cur.push(p.last()))
        }
    }
}

/// The pieces of `p` between occurrences of `d`: one more than there are
/// occurrences, empty pieces included.
pub open spec fn split_on(p: Seq<char>, d: char) -> Seq<Seq<char>> {
    split_on_state(p, d).0.push(split_on_state(p, d).1)
}

/// The view of an optional entry.
pub open spec fn ref_view(r: Option<&Value>) -> Option<ValueView> {
    match r {
        Some(v) => Some(v.view()),
        None => None,
    }
}

/// The text of an optional string slice.
pub open spec fn str_view(r: Option<&str>) -> Option<Seq<char>> {
    match r {
        Some(s) => Some(s@),
        None => None,
    }
}

/// Index of the first key/value entry of `lines` whose key is `key`, or the
/// length of `lines`.
pub(crate) fn find_index(lines: &Vec<Line>, key: &String) -> (r: usize)
    ensures
        r == first_index(lines_view(lines@), key@),
{
    let ghost s = lines_view(lines@);
    proof {
        lemma_lines_view(lines@);
    }
    let mut i: usize = 0;
    while i < lines.len()
        invariant
            i <= lines@.len() == s.len(),
            s == lines_view(lines@),
            forall|j: int| 0 <= j < s.len() ==> #[trigger] s[j] == lines@[j].view(),
            forall|j: int| 0 <= j < i ==> !has_key(#[trigger] s[j], key@),
        decreases lines@.len() - i,
    {
        let hit = match &lines[i] {
            Line::Value(v) => v.key == *key,
            _ => false,
        };
        if hit {
            proof {
                lemma_first_index_is(s, key@, i as int);
            }
            return i;
        }
        i = i + 1;
    }
    proof {
        lemma_first_index_is(s, key@, i as int);
    }
    i
}

/// The first key/value entry of `lines` whose key is `key`.
pub(crate) fn find_child<'a>(lines: &'a Vec<Line>, key: &String) -> (r: Option<&'a Value>)
    ensures
        ref_view(r) == first_with_key(lines_view(lines@), key@),
{
    let i = find_index(lines, key);
    proof {
        lemma_lines_view(lines@);
        lemma_first_index(lines_view(lines@), key@);
    }
    if i < lines.len() {
        match &lines[i] {
            Line::Value(v) => Some(v),
            _ => None,
        }
    } else {
        None
    }
}

/// The first key/value entry of `lines` whose key is `key`, to change in
/// place.
pub(crate) fn find_child_mut<'a>(lines: &'a mut Vec<Line>, key: &String) -> (r: Option<&'a mut Value>)
    ensures
        ({
            let s = lines_view(old(lines)@);
            let i = first_index(s, key@);
            &&& i == s.len() ==> r is None && lines_view(final(lines)@) == s
            &&& i < s.len() ==> r is Some && (*r->Some_0).view() == s[i]->Value_0
                && lines_view(final(lines)@) == s.update(i, LineView::Value((*final(r->Some_0)).view()))
        }),
{
    let ghost s0 = lines@;
    let i = find_index(lines, key);
    proof {
        lemma_lines_view(lines@);
        lemma_first_index(lines_view(lines@), key@);
    }
    if i < lines.len() {
        match &mut lines[i] {
            Line::Value(v) => {
                proof {
                    lemma_lines_view_update(s0, i as int, Line::Value(*final(v)));
                }
                Some(v)
            },
            _ => None,
        }
    } else {
        None
    }
}

/// Every key/value entry of `lines` whose key is `key`, in order.
pub(crate) fn find_children<'a>(lines: &'a Vec<Line>, key: &String) -> (r: Vec<&'a Value>)
    ensures
        r@.len() == keyed(lines_view(lines@), key@).len(),
        forall|i: int| 0 <= i < r@.len() ==> (#[trigger] r@[i]).view() == keyed(lines_view(lines@), key@)[i],
{
    let ghost s = lines_view(lines@);
    proof {
        lemma_lines_view(lines@);
    }
    let mut r: Vec<&'a Value> = Vec::new();
    let mut i: usize = 0;
    assert(s.take(0) =~= Seq::<LineView>::empty());
    while i < lines.len()
        invariant
            i <= lines@.len() == s.len(),
            s == lines_view(lines@),
            forall|j: int| 0 <= j < s.len() ==> #[trigger] s[j] == lines@[j].view(),
            r@.len() == keyed(s.take(i as int), key@).len(),
            forall|j: int| 0 <= j < r@.len() ==> (#[trigger] r@[j]).view() == keyed(s.take(i as int), key@)[j],
        decreases lines@.len() - i,
    {
        assert(s.take(i + 1).drop_last() =~= s.take(i as int));
        assert(s.take(i + 1).last() == s[i as int]);
        match &lines[i] {
            Line::Value(v) => {
                if v.key == *key {
                    r.push(v);
                }
            },
            _ => {},
        }
        i = i + 1;
    }
    assert(s.take(i as int) =~= s);
    r
}

/// Cuts `p` at each `d`.
pub(crate) fn split_path(p: &str, d: char) -> (r: Vec<String>)
    ensures
        r@.len() == split_on(p@, d).len(),
        forall|i: int| 0 <= i < r@.len() ==> (#[trigger] r@[i])@ == split_on(p@, d)[i],
{
    let w = crate::text::chars_of(p);
    let mut r: Vec<String> = Vec::new();
    let mut start: usize = 0;
    let mut i: usize = 0;
    while i < w.len()
        invariant
            start <= i <= w@.len(),
            w@ == p@,
            r@.len() == split_on_state(w@.take(i as int), d).0.len(),
            forall|k: int| 0 <= k < r@.len() ==> (#[trigger] r@[k])@ == split_on_state(w@.take(i as int), d).0[k],
            w@.subrange(start as int, i as int) == split_on_state(w@.take(i as int), d).1,
        decreases w@.len() - i,
    {
        assert(w@.take(i + 1).drop_last() =~= w@.take(i as int));
        assert(w@.take(i + 1).last() == w@[i as int]);
        if w[i] == d {
            let piece = string_from_chars(&w.as_slice()[start..i]);
            r.push(piece);
            start = i + 1;
            assert(w@.subrange(start as int, i + 1) =~= Seq::<char>::empty());
        } else {
            assert(w@.subrange(start as int, i + 1) =~= w@.subrange(start as int, i as int).push(w@[i as int]));
        }
        i = i + 1;
    }
    assert(w@.take(i as int) =~= p@);
    let last = string_from_chars(&w.as_slice()[start..w.len()]);
    r.push(last);
    r
}

/// The entry that the keys `segs` lead to from the entries `lines`.
pub(crate) fn find_path<'a>(lines: &'a Vec<Line>, segs: &Vec<String>) -> (r: Option<&'a Value>)
    ensures
        ref_view(r) == path_target(lines_view(lines@), segs@.map_values(|s: String| s@)),
{
    let ghost ks = segs@.map_values(|s: String| s@);
    if segs.len() == 0 {
        return None;
    }
    assert(ks[0] == segs@[0]@);
    let mut cur: &'a Value = match find_child(lines, &segs[0]) {
        None => return None,
        Some(c) => c,
    };
    let mut i: usize = 1;
    while i < segs.len()
        invariant
            1 <= i <= segs@.len(),
            ks == segs@.map_values(|s: String| s@),
            i < segs@.len() ==> path_target(lines_view(lines@), ks) == path_target(
                cur.view().children,
                ks.skip(i as int),
            ),
            i == segs@.len() ==> path_target(lines_view(lines@), ks) == Some(cur.view()),
        decreases segs@.len() - i,
    {
        assert(ks.skip(i as int)[0] == segs@[i as int]@);
        assert(ks.skip(i as int).drop_first() =~= ks.skip(i + 1));
        cur = match find_child(&cur.children, &segs[i]) {
            None => return None,
            Some(c) => c,
        };
        i = i + 1;
    }
    Some(cur)
}

} // verus!

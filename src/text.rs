use vstd::prelude::*;
use vstd::string::*;

verus! {

/// Collects the characters of `s`.
pub fn chars_of(s: &str) -> (r: Vec<char>)
    ensures
        r@ == s@,
{
    let n = s.unicode_len();
    let mut r: Vec<char> = Vec::new();
    for c in it: s.chars()
        invariant
            n == s@.len(),
            it.seq() == s@,
            r@ == s@.take(it.index()),
    {
        r.push(c);
    }
    r
}

/// Relies on `String: FromIterator<&char>`, which builds the string made of
/// exactly the given characters, in order.
#[verifier::external_body]
pub(crate) fn string_from_chars(cs: &[char]) -> (r: String)
    ensures
        r@ == cs@,
{
    cs.iter().collect()
}

/// `c` has the Unicode White_Space property.
pub open spec fn is_whitespace(c: char) -> bool {
    ('\u{9}' <= c && c <= '\u{d}') || c == ' ' || c == '\u{85}' || c == '\u{a0}' || c == '\u{1680}'
        || ('\u{2000}' <= c && c <= '\u{200a}') || c == '\u{2028}' || c == '\u{2029}' || c
        == '\u{202f}' || c == '\u{205f}' || c == '\u{3000}'
}

pub fn char_is_whitespace(c: char) -> (r: bool)
    ensures
        r == is_whitespace(c),
{
    ('\u{9}' <= c && c <= '\u{d}') || c == ' ' || c == '\u{85}' || c == '\u{a0}' || c == '\u{1680}'
        || ('\u{2000}' <= c && c <= '\u{200a}') || c == '\u{2028}' || c == '\u{2029}' || c
        == '\u{202f}' || c == '\u{205f}' || c == '\u{3000}'
}

/// A line that holds nothing but whitespace (or nothing at all).
pub open spec fn is_blank(l: Seq<char>) -> bool {
    forall|i: int| 0 <= i < l.len() ==> is_whitespace(#[trigger] l[i])
}

/// Length of the longest prefix of `l` whose characters all satisfy `p`.
pub open spec fn run_len(l: Seq<char>, p: spec_fn(char) -> bool) -> nat
    decreases l.len(),
{
    if l.len() == 0 || !p(l[0]) {
        0
    } else {
        1 + run_len(l.drop_first(), p)
    }
}

pub proof fn lemma_run_len(l: Seq<char>, p: spec_fn(char) -> bool)
    ensures
        run_len(l, p) <= l.len(),
        forall|k: int| 0 <= k < run_len(l, p) ==> p(#[trigger] l[k]),
        run_len(l, p) < l.len() ==> !p(l[run_len(l, p) as int]),
    decreases l.len(),
{
    if l.len() > 0 && p(l[0]) {
        lemma_run_len(l.drop_first(), p);
        assert forall|k: int| 0 <= k < run_len(l, p) implies p(#[trigger] l[k]) by {
            if k > 0 {
                assert(l[k] == l.drop_first()[k - 1]);
            }
        }
    }
}

/// The run `n` is the one that `run_len` measures.
pub proof fn lemma_run_len_is(l: Seq<char>, p: spec_fn(char) -> bool, n: nat)
    requires
        n <= l.len(),
        forall|k: int| 0 <= k < n ==> p(#[trigger] l[k]),
        n < l.len() ==> !p(l[n as int]),
    ensures
        run_len(l, p) == n,
    decreases n,
{
    if n > 0 {
        assert forall|k: int| 0 <= k < n - 1 implies p(#[trigger] l.drop_first()[k]) by {
            assert(l.drop_first()[k] == l[k + 1]);
        }
        if n - 1 < l.drop_first().len() {
            assert(l.drop_first()[n - 1] == l[n as int]);
        }
        lemma_run_len_is(l.drop_first(), p, (n - 1) as nat);
        assert(p(l[0]));
    }
}

/// Drops a carriage return that ends `l`.
pub open spec fn strip_cr(l: Seq<char>) -> Seq<char> {
    if l.len() > 0 && l.last() == '\r' {
        l.drop_last()
    } else {
        l
    }
}

/// The finished lines of `s`, and the text after the last line feed.
pub open spec fn split_state(s: Seq<char>) -> (Seq<Seq<char>>, Seq<char>)
    decreases s.len(),
{
    if s.len() == 0 {
        (Seq::empty(), Seq::empty())
    } else {
        let (done, cur) = split_state(s.drop_last());
        if s.last() == '\n' {
            (done.push(strip_cr(cur)), Seq::empty())
        } else {
            (done, cur.push(s.last()))
        }
    }
}

/// The lines of `s`: it is cut at each line feed, a carriage return just
/// before a line feed is dropped, and a final line feed ends the last line
/// rather than starting an empty one.
pub open spec fn text_lines(s: Seq<char>) -> Seq<Seq<char>> {
    let (done, cur) = split_state(s);
    if cur.len() > 0 {
        done.push(cur)
    } else {
        done
    }
}

/// Each of `ls` followed by a line feed.
pub open spec fn join_lines(ls: Seq<Seq<char>>) -> Seq<char>
    decreases ls.len(),
{
    if ls.len() == 0 {
        Seq::empty()
    } else {
        join_lines(ls.drop_last()) + ls.last() + seq!['\n']
    }
}

/// Cuts `s` into its lines.
pub fn split_lines(s: &Vec<char>) -> (r: Vec<Vec<char>>)
    ensures
        r@.len() == text_lines(s@).len(),
        forall|i: int| 0 <= i < r@.len() ==> (#[trigger] r@[i])@ == text_lines(s@)[i],
{
    let mut r: Vec<Vec<char>> = Vec::new();
    let mut cur: Vec<char> = Vec::new();
    let mut i: usize = 0;
    while i < s.len()
        invariant
            i <= s@.len(),
            r@.len() == split_state(s@.take(i as int)).0.len(),
            forall|k: int| 0 <= k < r@.len() ==> (#[trigger] r@[k])@ == split_state(s@.take(i as int)).0[k],
            cur@ == split_state(s@.take(i as int)).1,
        decreases s@.len() - i,
    {
        assert(s@.take(i + 1).drop_last() =~= s@.take(i as int));
        assert(s@.take(i + 1).last() == s@[i as int]);
        if s[i] == '\n' {
            if cur.len() > 0 && cur[cur.len() - 1] == '\r' {
                cur.pop();
            }
            r.push(cur);
            cur = Vec::new();
        } else {
            cur.push(s[i]);
        }
        i = i + 1;
    }
    assert(s@.take(i as int) =~= s@);
    if cur.len() > 0 {
        r.push(cur);
    }
    r
}

} // verus!

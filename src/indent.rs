use vstd::prelude::*;

use crate::error::ParseErrorKind;
use crate::text::chars_of;

verus! {

/// The leading whitespace of a line: none, a run of tabs, or a run of spaces.
#[derive(Debug, Clone, Copy, PartialEq, Eq, Structural)]
pub enum Indent {
    Empty,
    Tabs {
        count: usize,
        /// How many tabs this line adds over its parent.
        delta: usize,
    },
    Spaces {
        count: usize,
        /// How many spaces this line adds over its parent.
        delta: usize,
    },
}

/// Every character of `w` is `c`.
pub open spec fn all_are(w: Seq<char>, c: char) -> bool {
    forall|i: int| 0 <= i < w.len() ==> w[i] == c
}

/// `c` may stand in a run of indentation.
pub open spec fn is_indent_char(c: char) -> bool {
    c == ' ' || c == '\t'
}

/// The indentation that the whitespace `w` stands for: its delta is its
/// whole width, as if its parent were the document root.
pub open spec fn indent_of(w: Seq<char>) -> Result<Indent, ParseErrorKind> {
    if w.len() == 0 {
        Ok(Indent::Empty)
    } else if all_are(w, '\t') {
        Ok(Indent::Tabs { count: w.len() as usize, delta: w.len() as usize })
    } else if all_are(w, ' ') {
        Ok(Indent::Spaces { count: w.len() as usize, delta: w.len() as usize })
    } else {
        Err(ParseErrorKind::MixedIndent)
    }
}

/// Width of a run of indentation, whatever character it is made of.
pub open spec fn width(i: Indent) -> nat {
    match i {
        Indent::Empty => 0,
        Indent::Tabs { count, .. } => count as nat,
        Indent::Spaces { count, .. } => count as nat,
    }
}

/// The characters that write `i`.
pub open spec fn indent_chars(i: Indent) -> Seq<char> {
    match i {
        Indent::Empty => Seq::empty(),
        Indent::Tabs { count, .. } => Seq::new(count as nat, |k: int| '\t'),
        Indent::Spaces { count, .. } => Seq::new(count as nat, |k: int| ' '),
    }
}

/// `i`, placed under a parent indented by `parent`: its delta becomes the
/// distance between the two widths. A line cannot use tabs under a parent
/// indented with spaces, nor the other way round; an unindented line has no
/// indented parent.
pub open spec fn with_delta(i: Indent, parent: Indent) -> Result<Indent, ParseErrorKind> {
    match i {
        Indent::Empty => match parent {
            Indent::Empty => Ok(i),
            _ => Err(ParseErrorKind::StartedIndented),
        },
        Indent::Tabs { count, .. } => match parent {
            Indent::Empty => Ok(Indent::Tabs { count, delta: count }),
            Indent::Tabs { count: pc, .. } => Ok(
                Indent::Tabs { count, delta: (if pc >= count { pc - count } else { count - pc }) as usize },
            ),
            Indent::Spaces { .. } => Err(ParseErrorKind::TabsWithSpaces),
        },
        Indent::Spaces { count, .. } => match parent {
            Indent::Empty => Ok(Indent::Spaces { count, delta: count }),
            Indent::Spaces { count: pc, .. } => Ok(
                Indent::Spaces { count, delta: (if pc >= count { pc - count } else { count - pc }) as usize },
            ),
            Indent::Tabs { .. } => Err(ParseErrorKind::SpacesWithTabs),
        },
    }
}

/// `i` grown by `n` characters of its own kind, with `n` as its delta.
pub open spec fn grown(i: Indent, n: usize) -> Indent {
    match i {
        Indent::Empty => Indent::Empty,
        Indent::Tabs { count, .. } => Indent::Tabs { count: (count + n) as usize, delta: n },
        Indent::Spaces { count, .. } => Indent::Spaces { count: (count + n) as usize, delta: n },
    }
}

impl Indent {
    /// This indentation grown by `rhs` characters of its own kind; `rhs`
    /// becomes its delta. An empty indentation stays empty, as it has no
    /// kind to grow by.
    pub fn add(self, rhs: usize) -> (r: Indent)
        requires
            width(self) + rhs <= usize::MAX,
        ensures
            r == grown(self, rhs),
    {
        match self {
            Indent::Tabs { count, .. } => Indent::Tabs { count: count + rhs, delta: rhs },
            Indent::Spaces { count, .. } => Indent::Spaces { count: count + rhs, delta: rhs },
            Indent::Empty => Indent::Empty,
        }
    }

    /// Grows this indentation in place, as [`Indent::add`] does.
    pub fn add_assign(&mut self, rhs: usize)
        requires
            width(*old(self)) + rhs <= usize::MAX,
        ensures
            *final(self) == grown(*old(self), rhs),
    {
        *self = self.add(rhs);
    }

    /// Reads a run of indentation. `s` must hold nothing but tabs and spaces.
    pub fn from_str(s: &str) -> (r: Result<Indent, ParseErrorKind>)
        requires
            forall|i: int| 0 <= i < s@.len() ==> is_indent_char(#[trigger] s@[i]),
        ensures
            r == indent_of(s@),
    {
        let w = chars_of(s);
        assert(w@.subrange(0, w@.len() as int) =~= s@);
        Indent::from_chars(&w, 0, w.len())
    }

    /// Reads the run of indentation `w[start..end]`.
    pub fn from_chars(w: &Vec<char>, start: usize, end: usize) -> (r: Result<Indent, ParseErrorKind>)
        requires
            start <= end <= w@.len(),
            forall|i: int| start <= i < end ==> is_indent_char(#[trigger] w@[i]),
        ensures
            r == indent_of(w@.subrange(start as int, end as int)),
    {
        let ghost run = w@.subrange(start as int, end as int);
        if start == end {
            return Ok(Indent::Empty);
        }
        let first = w[start];
        let mut i = start + 1;
        while i < end
            invariant
                start < i <= end <= w@.len(),
                run == w@.subrange(start as int, end as int),
                first == w@[start as int],
                forall|k: int| start <= k < i ==> w@[k] == first,
            decreases end - i,
        {
            if w[i] != first {
                assert(!all_are(run, '\t') && !all_are(run, ' ')) by {
                    assert(run[(i - start) as int] == w@[i as int]);
                    assert(run[0] == first);
                }
                return Err(ParseErrorKind::MixedIndent);
            }
            i = i + 1;
        }
        let count = end - start;
        assert(all_are(run, first)) by {
            assert forall|k: int| 0 <= k < run.len() implies run[k] == first by {
                assert(run[k] == w@[start + k]);
            }
        }
        if first == '\t' {
            Ok(Indent::Tabs { count, delta: count })
        } else {
            assert(is_indent_char(w@[start as int]));
            assert(!all_are(run, '\t')) by {
                assert(run[0] == first);
            }
            Ok(Indent::Spaces { count, delta: count })
        }
    }

    /// Sets the delta of this indentation from the indentation of its parent
    /// `other`. Fails, leaving `self` as it was, where the two do not fit
    /// together.
    pub fn delta_from(&mut self, other: &Indent) -> (r: Result<(), ParseErrorKind>)
        ensures
            match with_delta(*old(self), *other) {
                Ok(i) => r is Ok && *final(self) == i,
                Err(k) => r == Err::<(), ParseErrorKind>(k) && *final(self) == *old(self),
            },
    {
        match *self {
            Indent::Empty => match other {
                Indent::Empty => Ok(()),
                _ => Err(ParseErrorKind::StartedIndented),
            },
            Indent::Tabs { count, .. } => match other {
                Indent::Empty => {
                    *self = Indent::Tabs { count, delta: count };
                    Ok(())
                },
                Indent::Tabs { count: pc, .. } => {
                    let d = if *pc >= count { *pc - count } else { count - *pc };
                    *self = Indent::Tabs { count, delta: d };
                    Ok(())
                },
                Indent::Spaces { .. } => Err(ParseErrorKind::TabsWithSpaces),
            },
            Indent::Spaces { count, .. } => match other {
                Indent::Empty => {
                    *self = Indent::Spaces { count, delta: count };
                    Ok(())
                },
                Indent::Spaces { count: pc, .. } => {
                    let d = if *pc >= count { *pc - count } else { count - *pc };
                    *self = Indent::Spaces { count, delta: d };
                    Ok(())
                },
                Indent::Tabs { .. } => Err(ParseErrorKind::SpacesWithTabs),
            },
        }
    }
}

} // verus!

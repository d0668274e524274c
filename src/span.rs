//! Source spans: a piece of the program text, by character positions.

use vstd::prelude::*;
use vstd::string::*;

verus! {

/// A region `[start, end)` of `input`, counted in characters.
#[derive(Clone, Copy, Debug)]
pub struct Span<'p> {
    pub input: &'p str,
    pub start: usize,
    pub end: usize,
}

/// Number of newline characters in `s`.
pub open spec fn count_newlines(s: Seq<char>) -> nat
    decreases s.len(),
{
    if s.len() == 0 {
        0
    } else {
        count_newlines(s.drop_last()) + if s.last() == '\n' { 1nat } else { 0nat }
    }
}

/// Position just after the last newline in `s[0..=i]`, or 0 when there is none.
pub open spec fn line_begin(s: Seq<char>, i: int) -> int
    decreases i + 1,
{
    if i < 0 {
        0
    } else if s[i] == '\n' {
        i + 1
    } else {
        line_begin(s, i - 1)
    }
}

/// Width of `s` in an annotated error message: a newline takes two columns,
/// any other character one.
pub open spec fn display_width(s: Seq<char>) -> nat
    decreases s.len(),
{
    if s.len() == 0 {
        0
    } else {
        display_width(s.drop_last()) + if s.last() == '\n' { 2nat } else { 1nat }
    }
}

proof fn lemma_count_newlines_bound(s: Seq<char>)
    ensures
        count_newlines(s) <= s.len(),
    decreases s.len(),
{
    if s.len() > 0 {
        lemma_count_newlines_bound(s.drop_last());
    }
}

proof fn lemma_display_width_bound(s: Seq<char>)
    ensures
        display_width(s) <= 2 * s.len(),
    decreases s.len(),
{
    if s.len() > 0 {
        lemma_display_width_bound(s.drop_last());
    }
}

impl<'p> Span<'p> {
    /// The text that the span covers.
    pub fn as_str(&self) -> (r: &'p str)
        requires
            self.start <= self.end <= self.input@.len(),
        ensures
            r@ == self.input@.subrange(self.start as int, self.end as int),
    {
        self.input.substring_char(self.start, self.end)
    }

    /// Line (from 1) on which the span starts.
    pub fn line_no(&self) -> (r: usize)
        requires
            self.start < self.input@.len() < usize::MAX,
        ensures
            r == 1 + count_newlines(self.input@.subrange(0, self.start + 1)),
    {
        let mut curr: usize = 1;
        let mut i: usize = 0;
        while i <= self.start
            invariant
                i <= self.start + 1,
                self.start < self.input@.len() < usize::MAX,
                curr == 1 + count_newlines(self.input@.subrange(0, i as int)),
            decreases self.start + 1 - i,
        {
            let c = self.input.get_char(i);
            proof {
                let s = self.input@;
                assert(s.subrange(0, i + 1).drop_last() =~= s.subrange(0, i as int));
                lemma_count_newlines_bound(s.subrange(0, i as int));
            }
            if c == '\n' {
                curr = curr + 1;
            }
            i = i + 1;
        }
        curr
    }

    /// The span widened to the beginning of the line on which it starts.
    pub fn from_line_begin(&self) -> (r: Span<'p>)
        requires
            self.start < self.input@.len() < usize::MAX,
        ensures
            r.input == self.input,
            r.start == line_begin(self.input@, self.start as int),
            r.end == self.end,
    {
        let mut i: usize = self.start + 1;
        let mut found = false;
        let mut begin: usize = 0;
        while i > 0 && !found
            invariant
                i <= self.start + 1,
                self.start < self.input@.len() < usize::MAX,
                found ==> begin == line_begin(self.input@, self.start as int),
                !found ==> begin == 0,
                !found ==> line_begin(self.input@, self.start as int) == line_begin(
                    self.input@,
                    i - 1,
                ),
            decreases i + if found { 0int } else { 1int },
        {
            if self.input.get_char(i - 1) == '\n' {
                found = true;
                begin = i;
            } else {
                i = i - 1;
            }
        }
        proof {
            if !found {
                assert(line_begin(self.input@, -1) == 0);
            }
        }
        Span { input: self.input, start: begin, end: self.end }
    }

    /// Column of position `pos` in an annotated message that starts at
    /// this span: each newline between them counts twice.
    pub fn distance_from_start(&self, pos: usize) -> (r: usize)
        requires
            self.start <= pos < self.input@.len(),
            self.input@.len() < usize::MAX / 2,
        ensures
            r == display_width(self.input@.subrange(self.start as int, pos as int)),
    {
        let mut curr: usize = 0;
        let mut indx: usize = self.start;
        while indx < pos
            invariant
                self.start <= indx <= pos < self.input@.len() < usize::MAX / 2,
                curr == display_width(self.input@.subrange(self.start as int, indx as int)),
            decreases pos - indx,
        {
            let c = self.input.get_char(indx);
            proof {
                let s = self.input@;
                assert(s.subrange(self.start as int, indx + 1).drop_last() =~= s.subrange(
                    self.start as int,
                    indx as int,
                ));
                lemma_display_width_bound(s.subrange(self.start as int, indx as int));
            }
            if c == '\n' {
                curr = curr + 2;
            } else {
                curr = curr + 1;
            }
            indx = indx + 1;
        }
        curr
    }
}

/// The span from the start of `span1` to the end of `span2`.
pub fn union_spans<'p>(span1: &Span<'p>, span2: &Span<'p>) -> (r: Span<'p>)
    ensures
        r.input == span1.input,
        r.start == span1.start,
        r.end == span2.end,
{
    Span { input: span1.input, start: span1.start, end: span2.end }
}

} // verus!

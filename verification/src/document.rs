//! The rich document model: per-line formatting kept alongside the text as
//! sorted, non-overlapping spans of character formats.

use std::ops::Range;

use vstd::prelude::*;

use crate::appearance::{Color, Font};

verus! {

/// Per-character formatting attributes.
#[derive(Debug, Clone, Copy, PartialEq, Eq, Structural)]
pub struct SpanFormat {
    pub bold: bool,
    pub italic: bool,
    pub underline: bool,
    pub font: Option<Font>,
    /// Font size, as the bit pattern of an `f32`.
    pub size: Option<u32>,
    pub color: Option<Color>,
}

/// Plain text: no attribute set.
pub open spec fn default_format() -> SpanFormat {
    SpanFormat { bold: false, italic: false, underline: false, font: None, size: None, color: None }
}

impl Default for SpanFormat {
    fn default() -> (f: Self)
        ensures
            f == default_format(),
    {
        SpanFormat { bold: false, italic: false, underline: false, font: None, size: None, color: None }
    }
}

impl SpanFormat {
    /// Returns true if all fields are at their default (plain text) values.
    pub fn is_default(&self) -> (b: bool)
        ensures
            b == (*self == default_format()),
    {
        !self.bold && !self.italic && !self.underline && self.font.is_none() && self.size.is_none()
            && self.color.is_none()
    }
}

/// Text alignment.
#[derive(Debug, Clone, Copy, PartialEq, Eq, Structural, Default)]
pub enum Alignment {
    #[default]
    Left,
    Center,
    Right,
    Justify,
}

/// Per-line formatting attributes.
#[derive(Debug, Clone, Copy, PartialEq, Eq, Structural)]
pub struct LineFormat {
    pub alignment: Alignment,
    /// Heading level 1-6, or None for normal text.
    pub heading_level: Option<u8>,
    /// Space after the line, as the bit pattern of an `f32`.
    pub spacing_after: u32,
}

/// Left aligned body text with no space after.
pub open spec fn default_line_format() -> LineFormat {
    LineFormat { alignment: Alignment::Left, heading_level: None, spacing_after: 0 }
}

impl Default for LineFormat {
    fn default() -> (f: Self)
        ensures
            f == default_line_format(),
    {
        Self { alignment: Alignment::Left, heading_level: None, spacing_after: 0 }
    }
}

/// A line with its formatting.
#[derive(Debug)]
pub struct FormattedLine {
    pub format: LineFormat,
    pub spans: Vec<(Range<usize>, SpanFormat)>,
}

impl FormattedLine {
    fn new() -> (l: Self)
        ensures
            l.format == default_line_format(),
            l.spans@ == Seq::<(Range<usize>, SpanFormat)>::empty(),
    {
        Self { format: LineFormat::default(), spans: Vec::new() }
    }
}

// ---------------------------------------------------------------------------
// Span lists and the formats they give
// ---------------------------------------------------------------------------

pub open spec fn holds(r: Range<usize>, col: int) -> bool {
    r.start <= col < r.end
}

/// Non-empty spans, sorted and pairwise disjoint.
pub open spec fn ordered(s: Seq<(Range<usize>, SpanFormat)>) -> bool {
    &&& forall|i: int| 0 <= i < s.len() ==> (#[trigger] s[i]).0.start < s[i].0.end
    &&& forall|i: int, j: int| 0 <= i < j < s.len() ==> (#[trigger] s[i]).0.end <= (
    #[trigger] s[j]).0.start
}

/// The canonical form of a line's spans: ordered, no span with the plain
/// format, and no two touching spans with the same format.
pub open spec fn canonical(s: Seq<(Range<usize>, SpanFormat)>) -> bool {
    &&& ordered(s)
    &&& forall|i: int| 0 <= i < s.len() ==> (#[trigger] s[i]).1 != default_format()
    &&& forall|i: int|
        0 <= i && i + 1 < s.len() && (#[trigger] s[i]).0.end == s[i + 1].0.start ==> s[i].1
            != s[i + 1].1
}

/// The format at a column: that of the span holding it, plain text otherwise.
pub open spec fn format_of(s: Seq<(Range<usize>, SpanFormat)>, col: int) -> SpanFormat {
    if exists|k: int| 0 <= k < s.len() && holds(s[k].0, col) {
        s[choose|k: int| 0 <= k < s.len() && holds(s[k].0, col)].1
    } else {
        default_format()
    }
}

/// The end of the last span, or 0 for a line without spans.
pub open spec fn spans_end(s: Seq<(Range<usize>, SpanFormat)>) -> int {
    if s.len() == 0 {
        0
    } else {
        s.last().0.end as int
    }
}

pub proof fn lemma_format_of_at(s: Seq<(Range<usize>, SpanFormat)>, col: int, k: int)
    requires
        ordered(s),
        0 <= k < s.len(),
        holds(s[k].0, col),
    ensures
        format_of(s, col) == s[k].1,
{
    let j = choose|j: int| 0 <= j < s.len() && holds(s[j].0, col);
    assert(0 <= j < s.len() && holds(s[j].0, col));
    if j < k {
        assert(s[j].0.end <= s[k].0.start);
    } else if k < j {
        assert(s[k].0.end <= s[j].0.start);
    }
}

/// Appending a span after the others changes the format only on the span.
pub proof fn lemma_format_of_push(
    s: Seq<(Range<usize>, SpanFormat)>,
    x: (Range<usize>, SpanFormat),
    col: int,
)
    requires
        ordered(s.push(x)),
    ensures
        format_of(s.push(x), col) == if holds(x.0, col) {
            x.1
        } else {
            format_of(s, col)
        },
{
    let t = s.push(x);
    assert(ordered(s)) by {
        assert forall|i: int| 0 <= i < s.len() implies (#[trigger] s[i]).0.start < s[i].0.end by {
            assert(t[i] == s[i]);
        }
        assert forall|i: int, j: int| 0 <= i < j < s.len() implies (#[trigger] s[i]).0.end <= (
        #[trigger] s[j]).0.start by {
            assert(t[i] == s[i] && t[j] == s[j]);
        }
    }
    if holds(x.0, col) {
        lemma_format_of_at(t, col, s.len() as int);
    } else if exists|k: int| 0 <= k < s.len() && holds(s[k].0, col) {
        let k = choose|k: int| 0 <= k < s.len() && holds(s[k].0, col);
        assert(t[k] == s[k]);
        lemma_format_of_at(t, col, k);
        lemma_format_of_at(s, col, k);
    } else {
        assert forall|k: int| 0 <= k < t.len() implies !holds(#[trigger] t[k].0, col) by {
            if k < s.len() {
                assert(t[k] == s[k]);
            }
        }
    }
}

/// Appending keeps spans ordered when the new span is non-empty and starts
/// at or after the end of the others.
pub proof fn lemma_ordered_push(s: Seq<(Range<usize>, SpanFormat)>, x: (Range<usize>, SpanFormat))
    requires
        ordered(s),
        x.0.start < x.0.end,
        spans_end(s) <= x.0.start,
    ensures
        ordered(s.push(x)),
        spans_end(s.push(x)) == x.0.end,
{
    let t = s.push(x);
    assert forall|i: int, j: int| 0 <= i < j < t.len() implies (#[trigger] t[i]).0.end <= (
    #[trigger] t[j]).0.start by {
        if j == s.len() {
            assert(t[i] == s[i]);
            if i < s.len() - 1 {
                assert(s[i].0.end <= s[s.len() - 1].0.start);
            }
        } else {
            assert(t[i] == s[i] && t[j] == s[j]);
        }
    }
    assert forall|i: int| 0 <= i < t.len() implies (#[trigger] t[i]).0.start < t[i].0.end by {
        if i < s.len() {
            assert(t[i] == s[i]);
        }
    }
}

/// In ordered spans, every span ends by the end of the last one.
pub proof fn lemma_spans_end(s: Seq<(Range<usize>, SpanFormat)>)
    requires
        ordered(s),
    ensures
        forall|i: int| 0 <= i < s.len() ==> (#[trigger] s[i]).0.end <= spans_end(s),
{
    assert forall|i: int| 0 <= i < s.len() implies (#[trigger] s[i]).0.end <= spans_end(s) by {
        if i < s.len() - 1 {
            assert(s[i].0.end <= s[s.len() - 1].0.start);
        }
    }
}

} // verus!

verus! {

/// The rich document model -- parallel formatting storage alongside the
/// text: one [`LineFormat`] and one span list per line.
#[derive(Debug)]
pub struct RichDocument {
    lines: Vec<FormattedLine>,
}

pub open spec fn line_view(l: FormattedLine) -> (LineFormat, Seq<(Range<usize>, SpanFormat)>) {
    (l.format, l.spans@)
}

impl View for RichDocument {
    type V = Seq<(LineFormat, Seq<(Range<usize>, SpanFormat)>)>;

    closed spec fn view(&self) -> Seq<(LineFormat, Seq<(Range<usize>, SpanFormat)>)> {
        self.lines@.map_values(|l: FormattedLine| line_view(l))
    }
}

pub open spec fn empty_line() -> (LineFormat, Seq<(Range<usize>, SpanFormat)>) {
    (default_line_format(), Seq::empty())
}

impl RichDocument {
    /// Every line's spans are in canonical form.
    pub open spec fn well_formed(&self) -> bool {
        forall|i: int| 0 <= i < self@.len() ==> canonical(#[trigger] self@[i].1)
    }

    /// Create an empty document with one default-formatted line.
    pub fn new() -> (d: Self)
        ensures
            d@ == seq![empty_line()],
            d.well_formed(),
    {
        let mut lines: Vec<FormattedLine> = Vec::new();
        lines.push(FormattedLine::new());
        let d = Self { lines };
        assert(d@ =~= seq![empty_line()]);
        d
    }

    /// Create a document with `n` default-formatted lines.
    pub fn with_lines(n: usize) -> (d: Self)
        ensures
            d@ == Seq::new(n as nat, |i: int| empty_line()),
            d.well_formed(),
    {
        let mut lines: Vec<FormattedLine> = Vec::new();
        while lines.len() < n
            invariant
                lines@.len() <= n,
                forall|i: int| 0 <= i < lines@.len() ==> line_view(#[trigger] lines@[i]) == empty_line(),
            decreases n - lines@.len(),
        {
            lines.push(FormattedLine::new());
        }
        let d = Self { lines };
        assert(d@ =~= Seq::new(n as nat, |i: int| empty_line()));
        d
    }

    /// The number of lines in the document.
    pub fn line_count(&self) -> (n: usize)
        ensures
            n == self@.len(),
    {
        self.lines.len()
    }

    /// Get an immutable reference to a line's format.
    pub fn line_format(&self, line: usize) -> (f: &LineFormat)
        requires
            line < self@.len(),
        ensures
            *f == self@[line as int].0,
    {
        &self.lines[line].format
    }

    /// Get the spans for a given line.
    pub fn spans(&self, line: usize) -> (s: &[(Range<usize>, SpanFormat)])
        requires
            line < self@.len(),
        ensures
            s@ == self@[line as int].1,
    {
        self.lines[line].spans.as_slice()
    }

    /// Returns the format at a specific position. If no span covers that
    /// position, returns `SpanFormat::default()`.
    pub fn format_at(&self, line: usize, col: usize) -> (f: SpanFormat)
        requires
            self.well_formed(),
            line < self@.len(),
        ensures
            f == format_of(self@[line as int].1, col as int),
    {
        let spans = &self.lines[line].spans;
        let ghost s = spans@;
        assert(s == self@[line as int].1);
        let mut k: usize = 0;
        while k < spans.len()
            invariant
                s == spans@,
                s == self@[line as int].1,
                ordered(s),
                k <= s.len(),
                forall|j: int| 0 <= j < k ==> !holds(#[trigger] s[j].0, col as int),
            decreases s.len() - k,
        {
            if spans[k].0.start <= col && col < spans[k].0.end {
                proof {
                    lemma_format_of_at(s, col as int, k as int);
                }
                return spans[k].1;
            }
            k += 1;
        }
        SpanFormat::default()
    }

    /// Grow or shrink to exactly `n` lines. New lines get default formatting.
    pub fn ensure_lines(&mut self, n: usize)
        requires
            old(self).well_formed(),
        ensures
            final(self).well_formed(),
            final(self)@.len() == n,
            forall|i: int| 0 <= i < n && i < old(self)@.len() ==> #[trigger] final(self)@[i] == old(
                self,
            )@[i],
            forall|i: int| old(self)@.len() <= i < n ==> #[trigger] final(self)@[i] == empty_line(),
    {
        let old_len = self.lines.len();
        if n > old_len {
            let additional = n - old_len;
            let mut k: usize = 0;
            while k < additional
                invariant
                    k <= additional,
                    additional == n - old_len,
                    self.lines@.len() == old_len + k,
                    forall|i: int| 0 <= i < old_len ==> #[trigger] self.lines@[i] == old(self).lines@[i],
                    forall|i: int|
                        old_len <= i < old_len + k ==> line_view(#[trigger] self.lines@[i])
                            == empty_line(),
                decreases additional - k,
            {
                self.lines.push(FormattedLine::new());
                k += 1;
            }
        } else if n < old_len {
            self.lines.truncate(n);
        }
        proof {
            assert forall|i: int| 0 <= i < self@.len() implies canonical(#[trigger] self@[i].1) by {
                if i < old_len {
                    assert(self.lines@[i] == old(self).lines@[i]);
                    assert(old(self)@[i] == line_view(old(self).lines@[i]));
                }
            }
        }
    }
}

} // verus!

verus! {

// ---------------------------------------------------------------------------
// Span list helpers
// ---------------------------------------------------------------------------

pub proof fn lemma_ordered_take(s: Seq<(Range<usize>, SpanFormat)>, k: int)
    requires
        ordered(s),
        0 <= k <= s.len(),
    ensures
        ordered(s.take(k)),
        s.take(k + 1) == s.take(k).push(s[k]) || k == s.len(),
{
    let t = s.take(k);
    assert forall|i: int| 0 <= i < t.len() implies (#[trigger] t[i]).0.start < t[i].0.end by {
        assert(t[i] == s[i]);
    }
    assert forall|i: int, j: int| 0 <= i < j < t.len() implies (#[trigger] t[i]).0.end <= (
    #[trigger] t[j]).0.start by {
        assert(t[i] == s[i] && t[j] == s[j]);
    }
    if k < s.len() {
        assert(s.take(k + 1) =~= s.take(k).push(s[k]));
    }
}

/// The format of a growing prefix of ordered spans.
pub proof fn lemma_format_of_take_step(s: Seq<(Range<usize>, SpanFormat)>, k: int, col: int)
    requires
        ordered(s),
        0 <= k < s.len(),
    ensures
        format_of(s.take(k + 1), col) == if holds(s[k].0, col) {
            s[k].1
        } else {
            format_of(s.take(k), col)
        },
{
    lemma_ordered_take(s, k + 1);
    lemma_ordered_take(s, k);
    lemma_format_of_push(s.take(k), s[k], col);
}

/// No span of ordered spans ending by `end` holds a column at or after it.
pub proof fn lemma_format_of_past_end(s: Seq<(Range<usize>, SpanFormat)>, col: int)
    requires
        ordered(s),
        spans_end(s) <= col,
    ensures
        format_of(s, col) == default_format(),
{
    lemma_spans_end(s);
    assert forall|k: int| 0 <= k < s.len() implies !holds(#[trigger] s[k].0, col) by {
        assert(s[k].0.end <= spans_end(s));
    }
}

fn copy_span(x: &(Range<usize>, SpanFormat)) -> (y: (Range<usize>, SpanFormat))
    ensures
        y == *x,
{
    (x.0.start..x.0.end, x.1)
}

/// Merge consecutive spans that touch and have identical `SpanFormat`,
/// and drop spans with the plain format, which add no information.
fn merge_spans(s: &[(Range<usize>, SpanFormat)]) -> (r: Vec<(Range<usize>, SpanFormat)>)
    requires
        ordered(s@),
    ensures
        canonical(r@),
        forall|col: int| #[trigger] format_of(r@, col) == format_of(s@, col),
        spans_end(r@) <= spans_end(s@),
{
    let ghost t = s@;
    let mut merged: Vec<(Range<usize>, SpanFormat)> = Vec::new();
    let mut k: usize = 0;
    while k < s.len()
        invariant
            t == s@,
            ordered(t),
            k <= t.len(),
            canonical(merged@),
            forall|col: int| #[trigger] format_of(merged@, col) == format_of(t.take(k as int), col),
            k < t.len() ==> spans_end(merged@) <= t[k as int].0.start,
            spans_end(merged@) <= spans_end(t.take(k as int)),
            merged@.len() > 0 ==> merged@.last().1 != default_format(),
        decreases t.len() - k,
    {
        let ghost before = merged@;
        let (range, fmt) = copy_span(&s[k]);
        proof {
            lemma_ordered_take(t, k as int);
            lemma_ordered_take(t, k as int + 1);
            assert forall|col: int| #[trigger] format_of(t.take(k + 1), col) == if holds(
                t[k as int].0,
                col,
            ) {
                t[k as int].1
            } else {
                format_of(t.take(k as int), col)
            } by {
                lemma_format_of_take_step(t, k as int, col);
            }
            if k + 1 < t.len() {
                assert(t[k as int].0.end <= t[k + 1].0.start);
            }
        }
        if fmt.is_default() {
            // Plain text spans add no information.
            proof {
                assert forall|col: int| #[trigger] format_of(merged@, col) == format_of(
                    t.take(k + 1),
                    col,
                ) by {
                    if holds(t[k as int].0, col) {
                        lemma_format_of_past_end(merged@, col);
                    }
                }
                assert(spans_end(t.take(k + 1)) == t[k as int].0.end);
                lemma_spans_end(t.take(k as int));
            }
        } else if merged.len() > 0 && merged[merged.len() - 1].0.end == range.start
            && merged[merged.len() - 1].1 == fmt {
            // Extend the current span.
            let last = merged.len() - 1;
            let start = merged[last].0.start;
            merged.set(last, (start..range.end, fmt));
            proof {
                let prev = before.drop_last();
                assert(before =~= prev.push(before.last()));
                assert(merged@ =~= prev.push((start..range.end, fmt)));
                assert(ordered(prev)) by {
                    lemma_ordered_take(before, before.len() - 1);
                    assert(prev =~= before.take(before.len() - 1));
                }
                if prev.len() > 0 {
                    assert(prev.last() == before[before.len() - 2]);
                    assert(before[before.len() - 2].0.end <= before.last().0.start);
                }
                lemma_ordered_push(prev, (start..range.end, fmt));
                assert forall|col: int| #[trigger] format_of(merged@, col) == format_of(
                    t.take(k + 1),
                    col,
                ) by {
                    lemma_format_of_push(prev, (start..range.end, fmt), col);
                    lemma_format_of_push(prev, before.last(), col);
                }
                assert(canonical(merged@)) by {
                    assert forall|i: int| 0 <= i < merged@.len() implies (#[trigger] merged@[i]).1
                        != default_format() by {
                        if i < merged@.len() - 1 {
                            assert(merged@[i] == before[i]);
                        }
                    }
                    assert forall|i: int|
                        0 <= i && i + 1 < merged@.len() && (#[trigger] merged@[i]).0.end
                            == merged@[i + 1].0.start implies merged@[i].1 != merged@[i + 1].1 by {
                        assert(merged@[i] == before[i]);
                        if i + 1 < merged@.len() - 1 {
                            assert(merged@[i + 1] == before[i + 1]);
                        } else {
                            assert(before[i].0.end <= before[i + 1].0.start);
                            assert(before[i + 1].0.start < before[i + 1].0.end);
                        }
                    }
                }
                assert(spans_end(t.take(k + 1)) == t[k as int].0.end);
            }
        } else {
            merged.push((range, fmt));
            proof {
                lemma_ordered_push(before, (range, fmt));
                assert forall|col: int| #[trigger] format_of(merged@, col) == format_of(
                    t.take(k + 1),
                    col,
                ) by {
                    lemma_format_of_push(before, (range, fmt), col);
                }
                assert(canonical(merged@)) by {
                    assert forall|i: int| 0 <= i < merged@.len() implies (#[trigger] merged@[i]).1
                        != default_format() by {
                        if i < merged@.len() - 1 {
                            assert(merged@[i] == before[i]);
                        }
                    }
                    assert forall|i: int|
                        0 <= i && i + 1 < merged@.len() && (#[trigger] merged@[i]).0.end
                            == merged@[i + 1].0.start implies merged@[i].1 != merged@[i + 1].1 by {
                        assert(merged@[i] == before[i]);
                        if i + 1 < merged@.len() - 1 {
                            assert(merged@[i + 1] == before[i + 1]);
                        }
                    }
                }
                assert(spans_end(t.take(k + 1)) == t[k as int].0.end);
            }
        }
        k += 1;
    }
    assert(t.take(k as int) =~= t);
    merged
}

} // verus!

verus! {

// ---------------------------------------------------------------------------
// Reshaping a line's spans
// ---------------------------------------------------------------------------

/// The column `x` falls strictly inside the range.
pub open spec fn straddles(r: Range<usize>, x: int) -> bool {
    r.start < x < r.end
}

/// No span has a boundary strictly around `x`: `x` is a span boundary or
/// lies outside every span.
pub open spec fn no_straddle(s: Seq<(Range<usize>, SpanFormat)>, x: int) -> bool {
    forall|i: int| 0 <= i < s.len() ==> !straddles(#[trigger] s[i].0, x)
}

/// Some span holds the column.
pub open spec fn covers(s: Seq<(Range<usize>, SpanFormat)>, q: int) -> bool {
    exists|i: int| 0 <= i < s.len() && holds(s[i].0, q)
}

/// In canonical spans the format changes right at the end of every span.
pub proof fn lemma_canonical_end_differs(s: Seq<(Range<usize>, SpanFormat)>, k: int)
    requires
        canonical(s),
        0 <= k < s.len(),
    ensures
        format_of(s, s[k].0.end as int) != s[k].1,
{
    let e = s[k].0.end as int;
    if exists|j: int| 0 <= j < s.len() && holds(s[j].0, e) {
        let j = choose|j: int| 0 <= j < s.len() && holds(s[j].0, e);
        lemma_format_of_at(s, e, j);
        if j < k {
            assert(s[j].0.end <= s[k].0.start);
        } else if j > k + 1 {
            assert(s[k + 1].0.end <= s[j].0.start);
            assert(s[k].0.end <= s[k + 1].0.start);
        }
        assert(j == k + 1);
        assert(s[k].0.end <= s[k + 1].0.start);
    }
}

/// Ordered spans with non-plain formats, whose format changes at the end of
/// every span, are canonical.
pub proof fn lemma_canonical_by_ends(t: Seq<(Range<usize>, SpanFormat)>)
    requires
        ordered(t),
        forall|i: int| 0 <= i < t.len() ==> (#[trigger] t[i]).1 != default_format(),
        forall|i: int| 0 <= i < t.len() ==> format_of(t, (#[trigger] t[i]).0.end as int) != t[i].1,
    ensures
        canonical(t),
{
    assert forall|i: int|
        0 <= i && i + 1 < t.len() && (#[trigger] t[i]).0.end == t[i + 1].0.start implies t[i].1
            != t[i + 1].1 by {
        lemma_format_of_at(t, t[i].0.end as int, i + 1);
    }
}

/// One step of rebuilding ordered spans: the prefix of `t` seen so far gains
/// `t[k]`.
proof fn lemma_take_step(t: Seq<(Range<usize>, SpanFormat)>, k: int)
    requires
        ordered(t),
        0 <= k < t.len(),
    ensures
        ordered(t.take(k)),
        ordered(t.take(k + 1)),
        forall|col: int| #[trigger]
            format_of(t.take(k + 1), col) == if holds(t[k].0, col) {
                t[k].1
            } else {
                format_of(t.take(k), col)
            },
        k + 1 < t.len() ==> t[k].0.end <= t[k + 1].0.start,
        spans_end(t.take(k + 1)) == t[k].0.end,
{
    lemma_ordered_take(t, k);
    lemma_ordered_take(t, k + 1);
    assert forall|col: int| #[trigger]
        format_of(t.take(k + 1), col) == if holds(t[k].0, col) {
            t[k].1
        } else {
            format_of(t.take(k), col)
        } by {
        lemma_format_of_take_step(t, k, col);
    }
}

/// The format at `col` in ordered spans.
fn span_format_at(spans: &[(Range<usize>, SpanFormat)], col: usize) -> (f: SpanFormat)
    requires
        ordered(spans@),
    ensures
        f == format_of(spans@, col as int),
{
    let mut k: usize = 0;
    while k < spans.len()
        invariant
            ordered(spans@),
            k <= spans@.len(),
            forall|j: int| 0 <= j < k ==> !holds(#[trigger] spans@[j].0, col as int),
        decreases spans@.len() - k,
    {
        if spans[k].0.start <= col && col < spans[k].0.end {
            proof {
                lemma_format_of_at(spans@, col as int, k as int);
            }
            return spans[k].1;
        }
        k += 1;
    }
    SpanFormat::default()
}

impl RichDocument {
    /// Every line but `line` keeps its spans in canonical form.
    pub open spec fn well_formed_except(&self, line: int) -> bool {
        forall|i: int| 0 <= i < self@.len() && i != line ==> canonical(#[trigger] self@[i].1)
    }

    /// Replace the spans of `line`, keeping its line format.
    fn replace_spans(&mut self, line: usize, spans: Vec<(Range<usize>, SpanFormat)>)
        requires
            line < old(self)@.len(),
        ensures
            final(self)@ == old(self)@.update(line as int, (old(self)@[line as int].0, spans@)),
    {
        let format = self.lines[line].format;
        self.lines.set(line, FormattedLine { format, spans });
        assert(self@ =~= old(self)@.update(line as int, (old(self)@[line as int].0, spans@)));
    }

    /// Split any span on `line` that contains `col` (strictly inside, not at
    /// a boundary) into two spans at `col`.
    fn split_span_at(&mut self, line: usize, col: usize)
        requires
            line < old(self)@.len(),
            ordered(old(self)@[line as int].1),
        ensures
            final(self)@.len() == old(self)@.len(),
            forall|i: int| 0 <= i < old(self)@.len() && i != line ==> #[trigger] final(self)@[i] == old(self)@[i],
            final(self)@[line as int].0 == old(self)@[line as int].0,
            ordered(final(self)@[line as int].1),
            forall|q: int| #[trigger] format_of(final(self)@[line as int].1, q) == format_of(old(self)@[line as int].1, q),
            no_straddle(final(self)@[line as int].1, col as int),
            forall|x: int| #[trigger] no_straddle(old(self)@[line as int].1, x) ==> no_straddle(final(self)@[line as int].1, x),
    {
        let spans = &self.lines[line].spans;
        let ghost t = spans@;
        assert(t == self@[line as int].1);
        let mut out: Vec<(Range<usize>, SpanFormat)> = Vec::new();
        let mut k: usize = 0;
        while k < spans.len()
            invariant
                t == spans@,
                ordered(t),
                k <= t.len(),
                ordered(out@),
                forall|q: int| #[trigger] format_of(out@, q) == format_of(t.take(k as int), q),
                k < t.len() ==> spans_end(out@) <= t[k as int].0.start,
                no_straddle(out@, col as int),
                forall|x: int| #[trigger] no_straddle(t, x) ==> no_straddle(out@, x),
            decreases t.len() - k,
        {
            let ghost before = out@;
            let (range, fmt) = copy_span(&spans[k]);
            proof {
                lemma_take_step(t, k as int);
            }
            if range.start < col && col < range.end {
                let first = (range.start..col, fmt);
                let second = (col..range.end, fmt);
                out.push(first);
                proof {
                    lemma_ordered_push(before, first);
                }
                out.push(second);
                proof {
                    let mid = before.push(first);
                    lemma_ordered_push(mid, second);
                    assert forall|q: int| #[trigger] format_of(out@, q) == format_of(t.take(k + 1), q) by {
                        lemma_format_of_push(mid, second, q);
                        lemma_format_of_push(before, first, q);
                    }
                    assert forall|x: int| #[trigger] no_straddle(t, x) implies no_straddle(out@, x) by {
                        assert(!straddles(t[k as int].0, x));
                        assert forall|i: int| 0 <= i < out@.len() implies !straddles(#[trigger] out@[i].0, x) by {
                            if i < before.len() {
                                assert(out@[i] == before[i]);
                            }
                        }
                    }
                    assert forall|i: int| 0 <= i < out@.len() implies !straddles(#[trigger] out@[i].0, col as int) by {
                        if i < before.len() {
                            assert(out@[i] == before[i]);
                        }
                    }
                }
            } else {
                out.push((range, fmt));
                proof {
                    lemma_ordered_push(before, (range, fmt));
                    assert forall|q: int| #[trigger] format_of(out@, q) == format_of(t.take(k + 1), q) by {
                        lemma_format_of_push(before, (range, fmt), q);
                    }
                    assert forall|x: int| #[trigger] no_straddle(t, x) implies no_straddle(out@, x) by {
                        assert(!straddles(t[k as int].0, x));
                        assert forall|i: int| 0 <= i < out@.len() implies !straddles(#[trigger] out@[i].0, x) by {
                            if i < before.len() {
                                assert(out@[i] == before[i]);
                            }
                        }
                    }
                    assert forall|i: int| 0 <= i < out@.len() implies !straddles(#[trigger] out@[i].0, col as int) by {
                        if i < before.len() {
                            assert(out@[i] == before[i]);
                        }
                    }
                }
            }
            k += 1;
        }
        assert(t.take(k as int) =~= t);
        self.replace_spans(line, out);
    }

    /// Fill any gaps in span coverage within `range` with default-format spans.
    fn fill_gaps(&mut self, line: usize, range: Range<usize>)
        requires
            line < old(self)@.len(),
            ordered(old(self)@[line as int].1),
            range.start < range.end,
        ensures
            final(self)@.len() == old(self)@.len(),
            forall|i: int| 0 <= i < old(self)@.len() && i != line ==> #[trigger] final(self)@[i] == old(self)@[i],
            final(self)@[line as int].0 == old(self)@[line as int].0,
            ordered(final(self)@[line as int].1),
            forall|q: int| #[trigger] format_of(final(self)@[line as int].1, q) == format_of(old(self)@[line as int].1, q),
            forall|q: int| range.start <= q < range.end ==> #[trigger] covers(final(self)@[line as int].1, q),
            forall|x: int| (x <= range.start || x >= range.end) && #[trigger] no_straddle(old(self)@[line as int].1, x) ==> no_straddle(final(self)@[line as int].1, x),
    {
        let spans = &self.lines[line].spans;
        let ghost t = spans@;
        assert(t == self@[line as int].1);
        let mut out: Vec<(Range<usize>, SpanFormat)> = Vec::new();
        let mut cursor: usize = range.start;
        let mut k: usize = 0;
        while k < spans.len()
            invariant
                t == spans@,
                ordered(t),
                range.start < range.end,
                k <= t.len(),
                ordered(out@),
                range.start <= cursor,
                forall|q: int| #[trigger] format_of(out@, q) == format_of(t.take(k as int), q),
                k < t.len() ==> spans_end(out@) <= t[k as int].0.start,
                cursor < range.end ==> spans_end(out@) <= cursor,
                forall|q: int| range.start <= q < cursor && q < range.end ==> #[trigger] covers(out@, q),
                forall|x: int| (x <= range.start || x >= range.end) && #[trigger] no_straddle(t, x) ==> no_straddle(out@, x),
            decreases t.len() - k,
        {
            let ghost before = out@;
            let ghost cursor0 = cursor;
            let ghost mut gapped = false;
            let (r, fmt) = copy_span(&spans[k]);
            proof {
                lemma_take_step(t, k as int);
            }
            if r.start < range.end && r.end > range.start {
                let overlap_start = if r.start > range.start { r.start } else { range.start };
                if cursor < overlap_start {
                    let gap = (cursor..overlap_start, SpanFormat::default());
                    out.push(gap);
                    proof {
                        gapped = true;
                        lemma_ordered_push(before, gap);
                        assert forall|q: int| #[trigger] format_of(out@, q) == format_of(t.take(k as int), q) by {
                            lemma_format_of_push(before, gap, q);
                            if holds(gap.0, q) {
                                lemma_format_of_past_end(before, q);
                            }
                        }
                    }
                }
                if r.end > cursor {
                    cursor = r.end;
                }
            } else if r.start >= range.end && cursor < range.end {
                let gap = (cursor..range.end, SpanFormat::default());
                out.push(gap);
                proof {
                    gapped = true;
                    lemma_ordered_push(before, gap);
                    assert forall|q: int| #[trigger] format_of(out@, q) == format_of(t.take(k as int), q) by {
                        lemma_format_of_push(before, gap, q);
                        if holds(gap.0, q) {
                            lemma_format_of_past_end(before, q);
                        }
                    }
                }
                cursor = range.end;
            }
            let ghost mid = out@;
            out.push((r, fmt));
            proof {
                lemma_ordered_push(mid, (r, fmt));
                assert forall|q: int| #[trigger] format_of(out@, q) == format_of(t.take(k + 1), q) by {
                    lemma_format_of_push(mid, (r, fmt), q);
                }
                assert forall|q: int| range.start <= q < cursor && q < range.end implies #[trigger] covers(out@, q) by {
                    if q < cursor0 {
                        assert(covers(before, q));
                        let i = choose|i: int| 0 <= i < before.len() && #[trigger] holds(before[i].0, q);
                        assert(out@[i] == before[i]);
                        assert(holds(out@[i].0, q));
                    } else if holds(r, q) {
                        assert(holds(out@[mid.len() as int].0, q));
                    } else {
                        assert(gapped);
                        assert(out@[before.len() as int] == mid[before.len() as int]);
                        assert(holds(out@[before.len() as int].0, q));
                    }
                }
                assert forall|x: int| (x <= range.start || x >= range.end) && #[trigger] no_straddle(t, x) implies no_straddle(out@, x) by {
                    assert(!straddles(t[k as int].0, x));
                    assert forall|i: int| 0 <= i < out@.len() implies !straddles(#[trigger] out@[i].0, x) by {
                        if i < before.len() {
                            assert(out@[i] == before[i]);
                        }
                    }
                }
            }
            k += 1;
        }
        assert(t.take(k as int) =~= t);
        if cursor < range.end {
            let ghost before = out@;
            let gap = (cursor..range.end, SpanFormat::default());
            out.push(gap);
            proof {
                lemma_ordered_push(before, gap);
                assert forall|q: int| #[trigger] format_of(out@, q) == format_of(t, q) by {
                    lemma_format_of_push(before, gap, q);
                    if holds(gap.0, q) {
                        lemma_format_of_past_end(before, q);
                    }
                }
                assert forall|q: int| range.start <= q < range.end implies #[trigger] covers(out@, q) by {
                    if q < cursor {
                        assert(covers(before, q));
                        let i = choose|i: int| 0 <= i < before.len() && #[trigger] holds(before[i].0, q);
                        assert(out@[i] == before[i]);
                        assert(holds(out@[i].0, q));
                    } else {
                        assert(holds(out@[before.len() as int].0, q));
                    }
                }
                assert forall|x: int| (x <= range.start || x >= range.end) && #[trigger] no_straddle(t, x) implies no_straddle(out@, x) by {
                    assert forall|i: int| 0 <= i < out@.len() implies !straddles(#[trigger] out@[i].0, x) by {
                        if i < before.len() {
                            assert(out@[i] == before[i]);
                        }
                    }
                }
            }
        }
        self.replace_spans(line, out);
    }

    /// Ensure that span boundaries align with the given range boundaries.
    /// After this call, there will be span boundaries at `range.start` and
    /// `range.end` (splitting any span that straddles those points), and any
    /// gap within the range is filled with a default-format span.
    fn ensure_span_coverage(&mut self, line: usize, range: Range<usize>)
        requires
            line < old(self)@.len(),
            ordered(old(self)@[line as int].1),
        ensures
            final(self)@.len() == old(self)@.len(),
            forall|i: int| 0 <= i < old(self)@.len() && i != line ==> #[trigger] final(self)@[i] == old(self)@[i],
            final(self)@[line as int].0 == old(self)@[line as int].0,
            ordered(final(self)@[line as int].1),
            forall|q: int| #[trigger] format_of(final(self)@[line as int].1, q) == format_of(old(self)@[line as int].1, q),
            forall|q: int| range.start <= q < range.end ==> #[trigger] covers(final(self)@[line as int].1, q),
            range.start < range.end ==> no_straddle(final(self)@[line as int].1, range.start as int),
            range.start < range.end ==> no_straddle(final(self)@[line as int].1, range.end as int),
    {
        if range.start >= range.end {
            return;
        }
        // Step 1: Split any span that straddles range.start.
        self.split_span_at(line, range.start);
        let ghost first = self@[line as int].1;
        // Step 2: Split any span that straddles range.end.
        self.split_span_at(line, range.end);
        let ghost second = self@[line as int].1;
        assert(no_straddle(first, range.start as int));
        assert(no_straddle(second, range.start as int));
        // Step 3: Fill gaps within the range with default-format spans.
        self.fill_gaps(line, range.start..range.end);
        assert(no_straddle(self@[line as int].1, range.start as int));
        assert(no_straddle(self@[line as int].1, range.end as int));
    }

    /// Merge consecutive spans on `line` that have identical `SpanFormat`,
    /// and remove any spans that are now default-format (plain text).
    fn merge_adjacent_spans(&mut self, line: usize)
        requires
            line < old(self)@.len(),
            ordered(old(self)@[line as int].1),
        ensures
            final(self)@.len() == old(self)@.len(),
            forall|i: int| 0 <= i < old(self)@.len() && i != line ==> #[trigger] final(self)@[i] == old(self)@[i],
            final(self)@[line as int].0 == old(self)@[line as int].0,
            canonical(final(self)@[line as int].1),
            forall|q: int| #[trigger] format_of(final(self)@[line as int].1, q) == format_of(old(self)@[line as int].1, q),
            spans_end(final(self)@[line as int].1) <= spans_end(old(self)@[line as int].1),
    {
        let merged = merge_spans(self.lines[line].spans.as_slice());
        self.replace_spans(line, merged);
    }

    /// Generic span mutation: ensures coverage of `col_range`, splits/merges
    /// spans as needed, and applies `setter` to the format of every span
    /// overlapping the range.
    pub fn set_format_property(
        &mut self,
        line: usize,
        col_range: Range<usize>,
        setter: impl Fn(SpanFormat) -> SpanFormat,
    )
        requires
            old(self).well_formed(),
            line < old(self)@.len(),
            forall|f: SpanFormat| #[trigger] call_requires(setter, (f,)),
        ensures
            final(self).well_formed(),
            final(self)@.len() == old(self)@.len(),
            forall|i: int| 0 <= i < old(self)@.len() && i != line ==> #[trigger] final(self)@[i] == old(self)@[i],
            final(self)@[line as int].0 == old(self)@[line as int].0,
            forall|q: int| col_range.start <= q < col_range.end ==> call_ensures(
                setter,
                (format_of(old(self)@[line as int].1, q),),
                #[trigger] format_of(final(self)@[line as int].1, q),
            ),
            forall|q: int| !(col_range.start <= q < col_range.end) ==> #[trigger] format_of(final(self)@[line as int].1, q)
                == format_of(old(self)@[line as int].1, q),
    {
        if col_range.start >= col_range.end {
            return;
        }
        let ghost before = self@[line as int].1;
        self.ensure_span_coverage(line, col_range.start..col_range.end);
        let spans = &self.lines[line].spans;
        let ghost t = spans@;
        assert(t == self@[line as int].1);
        let mut out: Vec<(Range<usize>, SpanFormat)> = Vec::new();
        let mut k: usize = 0;
        while k < spans.len()
            invariant
                t == spans@,
                k <= t.len(),
                out@.len() == k,
                forall|f: SpanFormat| #[trigger] call_requires(setter, (f,)),
                forall|i: int| 0 <= i < k ==> (#[trigger] out@[i]).0 == t[i].0,
                forall|i: int|
                    0 <= i < k && (#[trigger] t[i]).0.start < col_range.end && t[i].0.end > col_range.start
                        ==> call_ensures(setter, (t[i].1,), out@[i].1),
                forall|i: int|
                    0 <= i < k && !((#[trigger] t[i]).0.start < col_range.end && t[i].0.end > col_range.start)
                        ==> out@[i].1 == t[i].1,
            decreases t.len() - k,
        {
            let (range, fmt) = copy_span(&spans[k]);
            if range.start < col_range.end && range.end > col_range.start {
                let changed = setter(fmt);
                out.push((range, changed));
            } else {
                out.push((range, fmt));
            }
            k += 1;
        }
        proof {
            assert(ordered(out@)) by {
                assert forall|i: int| 0 <= i < out@.len() implies (#[trigger] out@[i]).0.start < out@[i].0.end by {
                    assert(out@[i].0 == t[i].0);
                }
                assert forall|i: int, j: int| 0 <= i < j < out@.len() implies (#[trigger] out@[i]).0.end <= (
                #[trigger] out@[j]).0.start by {
                    assert(out@[i].0 == t[i].0 && out@[j].0 == t[j].0);
                }
            }
            assert forall|q: int| #[trigger] format_of(out@, q) == if col_range.start <= q < col_range.end {
                out@[choose|i: int| 0 <= i < t.len() && holds(t[i].0, q)].1
            } else {
                format_of(t, q)
            } by {
                if covers(t, q) {
                    let i = choose|i: int| 0 <= i < t.len() && holds(t[i].0, q);
                    assert(out@[i].0 == t[i].0);
                    lemma_format_of_at(out@, q, i);
                    lemma_format_of_at(t, q, i);
                    assert(!straddles(t[i].0, col_range.start as int));
                    assert(!straddles(t[i].0, col_range.end as int));
                } else {
                    assert forall|j: int| 0 <= j < out@.len() implies !holds(#[trigger] out@[j].0, q) by {
                        assert(out@[j].0 == t[j].0);
                    }
                }
            }
            assert forall|q: int| col_range.start <= q < col_range.end implies call_ensures(
                setter,
                (format_of(t, q),),
                format_of(out@, q),
            ) by {
                assert(covers(t, q));
                let i = choose|i: int| 0 <= i < t.len() && holds(t[i].0, q);
                lemma_format_of_at(t, q, i);
            }
        }
        self.replace_spans(line, out);
        self.merge_adjacent_spans(line);
        assert forall|i: int| 0 <= i < self@.len() implies canonical(#[trigger] self@[i].1) by {
            if i != line {
                assert(self@[i] == old(self)@[i]);
            }
        }
        assert(before == old(self)@[line as int].1);
    }

    /// Check whether all characters in `range` have a property.
    /// If there are no spans covering part of the range, those positions have
    /// `SpanFormat::default()`, so the property is evaluated on that too.
    fn all_in_range_have(&self, line: usize, range: &Range<usize>, pred: Property) -> (b: bool)
        requires
            self.well_formed(),
            line < self@.len(),
        ensures
            b == all_have(self@[line as int].1, range.start as int, range.end as int, pred),
    {
        if range.start >= range.end {
            return true;
        }
        let spans = &self.lines[line].spans;
        let ghost t = spans@;
        assert(t == self@[line as int].1);
        let plain = SpanFormat::default();
        let mut cursor: usize = range.start;
        let mut k: usize = 0;
        while k < spans.len()
            invariant
                t == spans@,
                t == self@[line as int].1,
                ordered(t),
                k <= t.len(),
                range.start <= cursor,
                range.start < range.end,
                plain == default_format(),
                forall|j: int| 0 <= j < k && (#[trigger] t[j]).0.start < range.end ==> t[j].0.end <= cursor,
                forall|q: int| range.start <= q < cursor && q < range.end ==> has_property(#[trigger] format_of(t, q), pred),
            decreases t.len() - k,
        {
            let (r, fmt) = copy_span(&spans[k]);
            if r.start < range.end && r.end > range.start {
                let overlap_start = if r.start > range.start { r.start } else { range.start };
                proof {
                    assert forall|q: int| cursor <= q < r.start implies #[trigger] format_of(t, q) == default_format() by {
                        assert forall|j: int| 0 <= j < t.len() implies !holds(#[trigger] t[j].0, q) by {
                            if j > k {
                                assert(t[k as int].0.end <= t[j].0.start);
                            }
                        }
                    }
                    lemma_format_of_at(t, overlap_start as int, k as int);
                }
                if cursor < overlap_start {
                    // Gap before this span -- default format applies.
                    if !pred.check(&plain) {
                        assert(format_of(t, cursor as int) == default_format());
                        return false;
                    }
                }
                if !pred.check(&fmt) {
                    assert(format_of(t, overlap_start as int) == fmt);
                    return false;
                }
                proof {
                    assert forall|q: int| range.start <= q < r.end && q < range.end implies has_property(#[trigger] format_of(t, q), pred) by {
                        if q >= cursor {
                            if q < r.start {
                                assert(format_of(t, q) == default_format());
                            } else {
                                lemma_format_of_at(t, q, k as int);
                            }
                        }
                    }
                }
                if r.end > cursor {
                    cursor = r.end;
                }
            }
            proof {
                if k + 1 < t.len() {
                    assert(t[k as int].0.end <= t[k + 1].0.start);
                }
            }
            k += 1;
        }
        proof {
            assert forall|q: int| cursor <= q < range.end implies #[trigger] format_of(t, q) == default_format() by {
                assert forall|j: int| 0 <= j < t.len() implies !holds(#[trigger] t[j].0, q) by {}
            }
        }
        // Check trailing gap.
        if cursor < range.end && !pred.check(&plain) {
            assert(format_of(t, cursor as int) == default_format());
            return false;
        }
        proof {
            assert forall|q: int| range.start <= q < range.end implies has_property(#[trigger] format_of(t, q), pred) by {
                if q >= cursor {
                    assert(format_of(t, q) == default_format());
                }
            }
        }
        true
    }

    /// Toggle bold on the given character range. If all characters in the range
    /// are already bold, remove bold; otherwise make them all bold.
    pub fn toggle_bold(&mut self, line: usize, col_range: Range<usize>)
        requires
            old(self).well_formed(),
            line < old(self)@.len(),
        ensures
            final(self).well_formed(),
            final(self)@.len() == old(self)@.len(),
            forall|i: int| 0 <= i < old(self)@.len() && i != line ==> #[trigger] final(self)@[i] == old(self)@[i],
            final(self)@[line as int].0 == old(self)@[line as int].0,
            forall|q: int| #[trigger] format_of(final(self)@[line as int].1, q)
                == toggled(old(self)@[line as int].1, col_range, Property::Bold, q),
    {
        let all_bold = self.all_in_range_have(line, &col_range, Property::Bold);
        let setter = move |f: SpanFormat| -> (g: SpanFormat)
            ensures
                g == with_property(f, Property::Bold, !all_bold),
            {
                let mut g = f;
                g.bold = !all_bold;
                g
            };
        self.set_format_property(line, col_range, setter);
    }

    /// Toggle italic on the given character range.
    pub fn toggle_italic(&mut self, line: usize, col_range: Range<usize>)
        requires
            old(self).well_formed(),
            line < old(self)@.len(),
        ensures
            final(self).well_formed(),
            final(self)@.len() == old(self)@.len(),
            forall|i: int| 0 <= i < old(self)@.len() && i != line ==> #[trigger] final(self)@[i] == old(self)@[i],
            final(self)@[line as int].0 == old(self)@[line as int].0,
            forall|q: int| #[trigger] format_of(final(self)@[line as int].1, q)
                == toggled(old(self)@[line as int].1, col_range, Property::Italic, q),
    {
        let all_italic = self.all_in_range_have(line, &col_range, Property::Italic);
        let setter = move |f: SpanFormat| -> (g: SpanFormat)
            ensures
                g == with_property(f, Property::Italic, !all_italic),
            {
                let mut g = f;
                g.italic = !all_italic;
                g
            };
        self.set_format_property(line, col_range, setter);
    }

    /// Toggle underline on the given character range.
    pub fn toggle_underline(&mut self, line: usize, col_range: Range<usize>)
        requires
            old(self).well_formed(),
            line < old(self)@.len(),
        ensures
            final(self).well_formed(),
            final(self)@.len() == old(self)@.len(),
            forall|i: int| 0 <= i < old(self)@.len() && i != line ==> #[trigger] final(self)@[i] == old(self)@[i],
            final(self)@[line as int].0 == old(self)@[line as int].0,
            forall|q: int| #[trigger] format_of(final(self)@[line as int].1, q)
                == toggled(old(self)@[line as int].1, col_range, Property::Underline, q),
    {
        let all_underline = self.all_in_range_have(line, &col_range, Property::Underline);
        let setter = move |f: SpanFormat| -> (g: SpanFormat)
            ensures
                g == with_property(f, Property::Underline, !all_underline),
            {
                let mut g = f;
                g.underline = !all_underline;
                g
            };
        self.set_format_property(line, col_range, setter);
    }
}

/// The on/off character attributes that can be toggled.
#[derive(Debug, Clone, Copy, PartialEq, Eq, Structural)]
pub enum Property {
    Bold,
    Italic,
    Underline,
}

pub open spec fn has_property(f: SpanFormat, p: Property) -> bool {
    match p {
        Property::Bold => f.bold,
        Property::Italic => f.italic,
        Property::Underline => f.underline,
    }
}

/// The format with the attribute set to `v`.
pub open spec fn with_property(f: SpanFormat, p: Property, v: bool) -> SpanFormat {
    match p {
        Property::Bold => SpanFormat { bold: v, ..f },
        Property::Italic => SpanFormat { italic: v, ..f },
        Property::Underline => SpanFormat { underline: v, ..f },
    }
}

/// Every column in `[start, end)` has the attribute.
pub open spec fn all_have(s: Seq<(Range<usize>, SpanFormat)>, start: int, end: int, p: Property) -> bool {
    forall|q: int| start <= q < end ==> has_property(#[trigger] format_of(s, q), p)
}

/// The format at `q` after toggling the attribute over `range`: off if every
/// column of the range had it, on otherwise.
pub open spec fn toggled(s: Seq<(Range<usize>, SpanFormat)>, range: Range<usize>, p: Property, q: int) -> SpanFormat {
    if range.start <= q < range.end {
        with_property(format_of(s, q), p, !all_have(s, range.start as int, range.end as int, p))
    } else {
        format_of(s, q)
    }
}

impl Property {
    fn check(&self, f: &SpanFormat) -> (b: bool)
        ensures
            b == has_property(*f, *self),
    {
        match self {
            Property::Bold => f.bold,
            Property::Italic => f.italic,
            Property::Underline => f.underline,
        }
    }
}


/// The format at `q` after inserting `len` characters at `col`: the inserted
/// text takes the format at `col`, and what followed moves right.
pub open spec fn inserted(s: Seq<(Range<usize>, SpanFormat)>, col: int, len: int, q: int) -> SpanFormat {
    if q < col {
        format_of(s, q)
    } else if q < col + len {
        format_of(s, col)
    } else {
        format_of(s, q - len)
    }
}

/// The format at `q` after deleting the columns `[start, end)`: what
/// followed moves left over the gap.
pub open spec fn deleted(s: Seq<(Range<usize>, SpanFormat)>, start: int, end: int, q: int) -> SpanFormat {
    if start >= end || q < start {
        format_of(s, q)
    } else {
        format_of(s, q + (end - start))
    }
}

/// Where a span boundary at `p` lands after inserting `len` at `col`.
pub open spec fn insert_shift(p: int, col: int, len: int) -> int {
    if p <= col {
        p
    } else {
        p + len
    }
}

/// Where a span boundary at `p` lands after deleting `[start, end)`.
pub open spec fn delete_shift(p: int, start: int, end: int) -> int {
    if p <= start {
        p
    } else if p <= end {
        start
    } else {
        p - (end - start)
    }
}

impl RichDocument {
    /// Shift all spans on this line that start at or after `col` to the right
    /// by `len`. Spans that contain `col` are extended. New text inherits the
    /// format at the insertion point.
    pub fn insert_at(&mut self, line: usize, col: usize, len: usize)
        requires
            old(self).well_formed(),
            line < old(self)@.len(),
            spans_end(old(self)@[line as int].1) + len <= usize::MAX,
        ensures
            final(self).well_formed(),
            final(self)@.len() == old(self)@.len(),
            forall|i: int| 0 <= i < old(self)@.len() && i != line ==> #[trigger] final(self)@[i] == old(self)@[i],
            final(self)@[line as int].0 == old(self)@[line as int].0,
            forall|q: int| #[trigger] format_of(final(self)@[line as int].1, q)
                == inserted(old(self)@[line as int].1, col as int, len as int, q),
    {
        if len == 0 {
            return;
        }
        let spans = &self.lines[line].spans;
        let ghost t = spans@;
        assert(t == self@[line as int].1);
        proof {
            lemma_spans_end(t);
        }
        let mut out: Vec<(Range<usize>, SpanFormat)> = Vec::new();
        let mut found_containing = false;
        let mut k: usize = 0;
        while k < spans.len()
            invariant
                t == spans@,
                ordered(t),
                len > 0,
                k <= t.len(),
                forall|i: int| 0 <= i < t.len() ==> (#[trigger] t[i]).0.end + len <= usize::MAX,
                ordered(out@),
                forall|q: int| #[trigger] format_of(out@, q) == inserted(t.take(k as int), col as int, len as int, q),
                k < t.len() ==> spans_end(out@) <= insert_shift(t[k as int].0.start as int, col as int, len as int),
                found_containing == covers(t.take(k as int), col as int),
            decreases t.len() - k,
        {
            let ghost before = out@;
            let (range, fmt) = copy_span(&spans[k]);
            let mut start = range.start;
            let mut end = range.end;
            if range.start <= col && col < range.end {
                // Span contains the insertion point -- extend it.
                end = end + len;
                found_containing = true;
            } else if range.start >= col {
                // Span starts at or after insertion -- shift right.
                start = start + len;
                end = end + len;
            }
            // Spans ending at or before col are unaffected.
            let moved = (start..end, fmt);
            out.push(moved);
            proof {
                lemma_take_step(t, k as int);
                assert(start == insert_shift(range.start as int, col as int, len as int));
                assert(end == insert_shift(range.end as int, col as int, len as int));
                lemma_ordered_push(before, moved);
                assert forall|q: int| #[trigger] format_of(out@, q) == inserted(t.take(k + 1), col as int, len as int, q) by {
                    lemma_format_of_push(before, moved, q);
                }
                if k + 1 < t.len() {
                    assert(range.end <= t[k + 1].0.start);
                }
                let tk = t.take(k as int);
                let tk1 = t.take(k + 1);
                if found_containing {
                    if covers(tk, col as int) {
                        let j = choose|j: int| 0 <= j < tk.len() && holds(tk[j].0, col as int);
                        assert(tk1[j] == tk[j]);
                    } else {
                        assert(holds(tk1[k as int].0, col as int));
                    }
                } else {
                    assert forall|j: int| 0 <= j < tk1.len() implies !holds(#[trigger] tk1[j].0, col as int) by {
                        if j < k {
                            assert(tk1[j] == tk[j]);
                        }
                    }
                }
            }
            k += 1;
        }
        assert(t.take(k as int) =~= t);
        // If no span contained the insertion point, inherit the format at col
        // and create a new span for the inserted text.
        if !found_containing {
            let inherited = span_format_at(out.as_slice(), col);
            proof {
                assert forall|j: int| 0 <= j < t.len() implies !holds(#[trigger] t[j].0, col as int) by {}
                assert(format_of(t, col as int) == default_format());
                assert(format_of(out@, col as int) == inserted(t, col as int, len as int, col as int));
            }
            if !inherited.is_default() {
                // Find the right position to insert the new span (sorted by start).
                let mut insert_pos: usize = 0;
                while insert_pos < out.len() && out[insert_pos].0.start <= col
                    invariant
                        insert_pos <= out@.len(),
                    decreases out@.len() - insert_pos,
                {
                    insert_pos += 1;
                }
                out.insert(insert_pos, (col..col + len, inherited));
            }
        }
        self.replace_spans(line, out);
        self.merge_adjacent_spans(line);
        assert forall|i: int| 0 <= i < self@.len() implies canonical(#[trigger] self@[i].1) by {
            if i != line {
                assert(self@[i] == old(self)@[i]);
            }
        }
    }

    /// Remove characters in the range `[col_start, col_end)`, shift subsequent
    /// spans left, remove spans that become empty, and merge adjacent spans with
    /// the same format.
    pub fn delete_range(&mut self, line: usize, col_start: usize, col_end: usize)
        requires
            old(self).well_formed(),
            line < old(self)@.len(),
        ensures
            final(self).well_formed(),
            final(self)@.len() == old(self)@.len(),
            forall|i: int| 0 <= i < old(self)@.len() && i != line ==> #[trigger] final(self)@[i] == old(self)@[i],
            final(self)@[line as int].0 == old(self)@[line as int].0,
            forall|q: int| #[trigger] format_of(final(self)@[line as int].1, q)
                == deleted(old(self)@[line as int].1, col_start as int, col_end as int, q),
    {
        if col_start >= col_end {
            return;
        }
        let delete_len = col_end - col_start;
        // Rebuild spans from scratch with correct new boundaries.
        let spans = &self.lines[line].spans;
        let ghost t = spans@;
        assert(t == self@[line as int].1);
        let mut out: Vec<(Range<usize>, SpanFormat)> = Vec::new();
        let mut k: usize = 0;
        while k < spans.len()
            invariant
                t == spans@,
                ordered(t),
                col_start < col_end,
                delete_len == col_end - col_start,
                k <= t.len(),
                ordered(out@),
                forall|q: int| #[trigger] format_of(out@, q) == deleted(t.take(k as int), col_start as int, col_end as int, q),
                k < t.len() ==> spans_end(out@) <= delete_shift(t[k as int].0.start as int, col_start as int, col_end as int),
            decreases t.len() - k,
        {
            let ghost before = out@;
            let (range, fmt) = copy_span(&spans[k]);
            let old_start = range.start;
            let old_end = range.end;

            let new_start;
            let new_end;

            if old_end <= col_start {
                // Entirely before deletion -- unchanged.
                new_start = old_start;
                new_end = old_end;
            } else if old_start >= col_end {
                // Entirely after deletion -- shift left.
                new_start = old_start - delete_len;
                new_end = old_end - delete_len;
            } else {
                // Overlaps the deletion.
                // Characters surviving before the deleted region:
                let chars_before = col_start.saturating_sub(old_start);
                // Characters surviving after the deleted region:
                let chars_after = old_end.saturating_sub(col_end);
                new_start = if old_start < col_start { old_start } else { col_start };
                new_end = new_start + chars_before + chars_after;
            }
            proof {
                lemma_take_step(t, k as int);
                assert(new_start == delete_shift(old_start as int, col_start as int, col_end as int));
                assert(new_end == delete_shift(old_end as int, col_start as int, col_end as int));
                if k + 1 < t.len() {
                    assert(old_end <= t[k + 1].0.start);
                }
            }
            if new_start < new_end {
                let moved = (new_start..new_end, fmt);
                out.push(moved);
                proof {
                    lemma_ordered_push(before, moved);
                    assert forall|q: int| #[trigger] format_of(out@, q) == deleted(t.take(k + 1), col_start as int, col_end as int, q) by {
                        lemma_format_of_push(before, moved, q);
                    }
                }
            } else {
                proof {
                    assert forall|q: int| #[trigger] format_of(out@, q) == deleted(t.take(k + 1), col_start as int, col_end as int, q) by {
                        let p = if q < col_start { q } else { q + delete_len };
                        assert(!holds(range, p));
                    }
                }
            }
            k += 1;
        }
        assert(t.take(k as int) =~= t);
        self.replace_spans(line, out);
        self.merge_adjacent_spans(line);
        assert forall|i: int| 0 <= i < self@.len() implies canonical(#[trigger] self@[i].1) by {
            if i != line {
                assert(self@[i] == old(self)@[i]);
            }
        }
    }

    /// Split a line at `col` (for Enter key). Spans before `col` stay on
    /// the current line; spans at/after `col` move to a new line inserted
    /// after. The new line inherits the split line's `LineFormat`.
    pub fn split_line(&mut self, line: usize, col: usize)
        requires
            old(self).well_formed(),
            line < old(self)@.len(),
        ensures
            final(self).well_formed(),
            final(self)@.len() == old(self)@.len() + 1,
            forall|i: int| 0 <= i < line ==> #[trigger] final(self)@[i] == old(self)@[i],
            forall|i: int| line < i < old(self)@.len() ==> #[trigger] final(self)@[i + 1] == old(self)@[i],
            final(self)@[line as int].0 == old(self)@[line as int].0,
            final(self)@[line + 1].0 == old(self)@[line as int].0,
            forall|q: int| #[trigger] format_of(final(self)@[line as int].1, q) == if q < col {
                format_of(old(self)@[line as int].1, q)
            } else {
                default_format()
            },
            forall|q: int| #[trigger] format_of(final(self)@[line + 1].1, q) == if q >= 0 {
                format_of(old(self)@[line as int].1, q + col)
            } else {
                default_format()
            },
    {
        assert(self.lines@.len() == self@.len());
        let count = self.lines.len();
        assert(line < count);
        let next = line + 1;
        let current = &self.lines[line];
        let line_format = current.format;
        let ghost t = current.spans@;
        assert(t == self@[line as int].1);

        let mut before_spans: Vec<(Range<usize>, SpanFormat)> = Vec::new();
        let mut after_spans: Vec<(Range<usize>, SpanFormat)> = Vec::new();
        proof {
            lemma_split_start(t, col as int);
        }

        let mut k: usize = 0;
        while k < current.spans.len()
            invariant
                t == current.spans@,
                canonical(t),
                k <= t.len(),
                split_before_inv(t, k as int, col as int, before_spans@),
                split_after_inv(t, k as int, col as int, after_spans@),
            decreases t.len() - k,
        {
            let ghost b0 = before_spans@;
            let ghost a0 = after_spans@;
            let (range, fmt) = copy_span(&current.spans[k]);
            if range.end <= col {
                // Entirely before the split.
                before_spans.push((range, fmt));
                proof {
                    lemma_split_before_keep(t, k as int, col as int, b0);
                    lemma_split_after_skip(t, k as int, col as int, a0);
                }
            } else if range.start >= col {
                // Entirely after the split -- shift to start of new line.
                let new_range = (range.start - col)..(range.end - col);
                after_spans.push((new_range, fmt));
                proof {
                    lemma_split_before_skip(t, k as int, col as int, b0);
                    lemma_split_after_shift(t, k as int, col as int, a0);
                }
            } else {
                // Spans the split point -- split it.
                before_spans.push((range.start..col, fmt));
                after_spans.push((0..(range.end - col), fmt));
                proof {
                    lemma_split_before_clip(t, k as int, col as int, b0);
                    lemma_split_after_clip(t, k as int, col as int, a0);
                }
            }
            k += 1;
        }
        proof {
            lemma_split_finish(t, col as int, before_spans@, after_spans@);
        }
        let ghost after_view = after_spans@;
        let ghost before_view = before_spans@;
        self.replace_spans(line, before_spans);

        let new_line = FormattedLine { format: line_format, spans: after_spans };
        assert(self.lines@.len() == self@.len());
        self.lines.insert(next, new_line);
        proof {
            let mid = old(self)@.update(line as int, (line_format, before_view));
            assert(self@ =~= mid.insert(line + 1, (line_format, after_view)));
            assert forall|i: int| 0 <= i < self@.len() implies canonical(#[trigger] self@[i].1) by {
                if i < line {
                    assert(self@[i] == old(self)@[i]);
                } else if i > line + 1 {
                    assert(self@[i] == old(self)@[i - 1]);
                }
            }
        }
    }

    /// Merge line `line` with the next line (for Backspace at line start).
    /// Spans from the next line are offset by the current line's logical
    /// length -- the end of its last span -- and appended. The next line is
    /// then removed.
    pub fn merge_lines(&mut self, line: usize)
        requires
            old(self).well_formed(),
            line < usize::MAX,
            line + 1 < old(self)@.len() ==> spans_end(old(self)@[line as int].1) + spans_end(
                old(self)@[line + 1].1,
            ) <= usize::MAX,
        ensures
            final(self).well_formed(),
            line + 1 >= old(self)@.len() ==> final(self)@ == old(self)@,
            line + 1 < old(self)@.len() ==> {
                &&& final(self)@.len() == old(self)@.len() - 1
                &&& forall|i: int| 0 <= i < line ==> #[trigger] final(self)@[i] == old(self)@[i]
                &&& forall|i: int| line + 1 < i < old(self)@.len() ==> #[trigger] final(self)@[i - 1] == old(self)@[i]
                &&& final(self)@[line as int].0 == old(self)@[line as int].0
                &&& forall|q: int| #[trigger] format_of(final(self)@[line as int].1, q) == joined(
                    old(self)@[line as int].1,
                    old(self)@[line + 1].1,
                    q,
                )
            },
    {
        if line + 1 >= self.lines.len() {
            return;
        }
        // The offset: the end of the last span on the current line, or 0 if
        // there are no spans.
        let current = &self.lines[line].spans;
        let ghost a = current@;
        let ghost b = self@[line + 1].1;
        assert(a == self@[line as int].1);
        let offset = if current.len() == 0 { 0 } else { current[current.len() - 1].0.end };
        assert(offset == spans_end(a));
        let mut joined_spans = copy_spans(current.as_slice());
        let next_spans = &self.lines[line + 1].spans;
        assert(next_spans@ == b);
        proof {
            lemma_spans_end(b);
            assert forall|q: int| #[trigger] format_of(joined_spans@, q) == if q < offset {
                format_of(a, q)
            } else {
                format_of(b.take(0), q - offset)
            } by {
                if q >= offset {
                    lemma_format_of_past_end(a, q);
                }
            }
        }
        let mut k: usize = 0;
        while k < next_spans.len()
            invariant
                b == next_spans@,
                canonical(b),
                k <= b.len(),
                offset == spans_end(a),
                forall|i: int| 0 <= i < b.len() ==> (#[trigger] b[i]).0.end + offset <= usize::MAX,
                ordered(joined_spans@),
                forall|q: int| #[trigger] format_of(joined_spans@, q) == if q < offset {
                    format_of(a, q)
                } else {
                    format_of(b.take(k as int), q - offset)
                },
                k < b.len() ==> spans_end(joined_spans@) <= b[k as int].0.start + offset,
            decreases b.len() - k,
        {
            let ghost j0 = joined_spans@;
            let (range, fmt) = copy_span(&next_spans[k]);
            let shifted = ((range.start + offset)..(range.end + offset), fmt);
            joined_spans.push(shifted);
            proof {
                lemma_take_step(b, k as int);
                lemma_ordered_push(j0, shifted);
                assert forall|q: int| #[trigger] format_of(joined_spans@, q) == if q < offset {
                    format_of(a, q)
                } else {
                    format_of(b.take(k + 1), q - offset)
                } by {
                    lemma_format_of_push(j0, shifted, q);
                }
                if k + 1 < b.len() {
                    assert(range.end <= b[k + 1].0.start);
                }
            }
            k += 1;
        }
        assert(b.take(k as int) =~= b);
        self.replace_spans(line, joined_spans);
        assert(self.lines@.len() == self@.len());
        self.lines.remove(line + 1);
        proof {
            let mid = old(self)@.update(line as int, (old(self)@[line as int].0, joined_spans@));
            assert(self@ =~= mid.remove(line + 1));
        }
        self.merge_adjacent_spans(line);
        assert forall|i: int| 0 <= i < self@.len() implies canonical(#[trigger] self@[i].1) by {
            if i < line {
                assert(self@[i] == old(self)@[i]);
            } else if i > line {
                assert(self@[i] == old(self)@[i + 1]);
            }
        }
    }

    /// Get a mutable reference to a line's format.
    pub fn line_format_mut(&mut self, line: usize) -> (f: &mut LineFormat)
        requires
            line < old(self)@.len(),
        ensures
            *f == old(self)@[line as int].0,
            final(self)@ == old(self)@.update(line as int, (*final(f), old(self)@[line as int].1)),
    {
        &mut self.lines[line].format
    }
}

/// The format at `q` after appending the line `b` to the line `a` at the
/// end of `a`'s last span.
pub open spec fn joined(a: Seq<(Range<usize>, SpanFormat)>, b: Seq<(Range<usize>, SpanFormat)>, q: int) -> SpanFormat {
    if q < spans_end(a) {
        format_of(a, q)
    } else {
        format_of(b, q - spans_end(a))
    }
}

fn copy_spans(s: &[(Range<usize>, SpanFormat)]) -> (r: Vec<(Range<usize>, SpanFormat)>)
    ensures
        r@ == s@,
{
    let mut r: Vec<(Range<usize>, SpanFormat)> = Vec::new();
    let mut k: usize = 0;
    while k < s.len()
        invariant
            k <= s@.len(),
            r@ == s@.take(k as int),
        decreases s@.len() - k,
    {
        r.push(copy_span(&s[k]));
        assert(r@ =~= s@.take(k + 1));
        k += 1;
    }
    assert(s@.take(k as int) =~= s@);
    r
}

/// What the spans kept on a line split at `col` satisfy once the first `k`
/// spans of `t` are dealt with.
#[verifier::opaque]
spec fn split_before_inv(t: Seq<(Range<usize>, SpanFormat)>, k: int, col: int, b: Seq<(Range<usize>, SpanFormat)>) -> bool {
    &&& ordered(b)
    &&& forall|q: int| #[trigger] format_of(b, q) == if q < col {
        format_of(t.take(k), q)
    } else {
        default_format()
    }
    &&& k < t.len() ==> spans_end(b) <= t[k].0.start
    &&& forall|i: int| 0 <= i < b.len() ==> (#[trigger] b[i]).1 != default_format()
    &&& forall|i: int| 0 <= i < b.len() ==> (#[trigger] b[i]).0.end == col
        || (b[i].0.end < col && format_of(t, b[i].0.end as int) != b[i].1)
}

/// What the spans moved to the new line of a split at `col` satisfy once the
/// first `k` spans of `t` are dealt with.
#[verifier::opaque]
spec fn split_after_inv(t: Seq<(Range<usize>, SpanFormat)>, k: int, col: int, a: Seq<(Range<usize>, SpanFormat)>) -> bool {
    &&& ordered(a)
    &&& forall|q: int| #[trigger] format_of(a, q) == if q >= 0 {
        format_of(t.take(k), q + col)
    } else {
        default_format()
    }
    &&& k < t.len() && a.len() > 0 ==> spans_end(a) + col <= t[k].0.start
    &&& forall|i: int| 0 <= i < a.len() ==> (#[trigger] a[i]).1 != default_format()
    &&& forall|i: int| 0 <= i < a.len() ==> format_of(t, (#[trigger] a[i]).0.end + col) != a[i].1
}

proof fn lemma_split_start(t: Seq<(Range<usize>, SpanFormat)>, col: int)
    requires
        canonical(t),
        0 <= col,
    ensures
        split_before_inv(t, 0, col, Seq::empty()),
        split_after_inv(t, 0, col, Seq::empty()),
{
    reveal(split_before_inv);
    reveal(split_after_inv);
    let e = Seq::<(Range<usize>, SpanFormat)>::empty();
    assert forall|q: int| #[trigger] format_of(e, q) == default_format() by {}
    assert forall|q: int| #[trigger] format_of(t.take(0), q) == default_format() by {}
}

proof fn lemma_split_before_keep(t: Seq<(Range<usize>, SpanFormat)>, k: int, col: int, b: Seq<(Range<usize>, SpanFormat)>)
    requires
        canonical(t),
        0 <= k < t.len(),
        0 <= col,
        t[k].0.end <= col,
        split_before_inv(t, k, col, b),
    ensures
        split_before_inv(t, k + 1, col, b.push(t[k])),
{
    reveal(split_before_inv);
    lemma_take_step(t, k);
    lemma_canonical_end_differs(t, k);
    let x = t[k];
    let b1 = b.push(x);
    lemma_ordered_push(b, x);
    assert forall|q: int| #[trigger] format_of(b1, q) == if q < col {
        format_of(t.take(k + 1), q)
    } else {
        default_format()
    } by {
        lemma_format_of_push(b, x, q);
    }
    assert forall|i: int| 0 <= i < b1.len() implies (#[trigger] b1[i]).0.end == col
        || (b1[i].0.end < col && format_of(t, b1[i].0.end as int) != b1[i].1) by {
        if i < b.len() {
            assert(b1[i] == b[i]);
        }
    }
    assert forall|i: int| 0 <= i < b1.len() implies (#[trigger] b1[i]).1 != default_format() by {
        if i < b.len() {
            assert(b1[i] == b[i]);
        }
    }
}

proof fn lemma_split_before_clip(t: Seq<(Range<usize>, SpanFormat)>, k: int, col: int, b: Seq<(Range<usize>, SpanFormat)>)
    requires
        canonical(t),
        0 <= k < t.len(),
        t[k].0.start < col < t[k].0.end,
        col <= usize::MAX,
        split_before_inv(t, k, col, b),
    ensures
        split_before_inv(t, k + 1, col, b.push((t[k].0.start..col as usize, t[k].1))),
{
    reveal(split_before_inv);
    lemma_take_step(t, k);
    let x = (t[k].0.start..col as usize, t[k].1);
    let b1 = b.push(x);
    lemma_ordered_push(b, x);
    assert forall|q: int| #[trigger] format_of(b1, q) == if q < col {
        format_of(t.take(k + 1), q)
    } else {
        default_format()
    } by {
        lemma_format_of_push(b, x, q);
    }
    assert forall|i: int| 0 <= i < b1.len() implies (#[trigger] b1[i]).0.end == col
        || (b1[i].0.end < col && format_of(t, b1[i].0.end as int) != b1[i].1) by {
        if i < b.len() {
            assert(b1[i] == b[i]);
        }
    }
    assert forall|i: int| 0 <= i < b1.len() implies (#[trigger] b1[i]).1 != default_format() by {
        if i < b.len() {
            assert(b1[i] == b[i]);
        }
    }
}

proof fn lemma_split_before_skip(t: Seq<(Range<usize>, SpanFormat)>, k: int, col: int, b: Seq<(Range<usize>, SpanFormat)>)
    requires
        canonical(t),
        0 <= k < t.len(),
        t[k].0.start >= col,
        split_before_inv(t, k, col, b),
    ensures
        split_before_inv(t, k + 1, col, b),
{
    reveal(split_before_inv);
    lemma_take_step(t, k);
}

proof fn lemma_split_after_skip(t: Seq<(Range<usize>, SpanFormat)>, k: int, col: int, a: Seq<(Range<usize>, SpanFormat)>)
    requires
        canonical(t),
        0 <= k < t.len(),
        0 <= col,
        t[k].0.end <= col,
        split_after_inv(t, k, col, a),
    ensures
        split_after_inv(t, k + 1, col, a),
{
    reveal(split_after_inv);
    lemma_take_step(t, k);
    if k + 1 < t.len() && a.len() > 0 {
        assert(t[k].0.end <= t[k + 1].0.start);
    }
}

proof fn lemma_split_after_shift(t: Seq<(Range<usize>, SpanFormat)>, k: int, col: int, a: Seq<(Range<usize>, SpanFormat)>)
    requires
        canonical(t),
        0 <= k < t.len(),
        0 <= col <= t[k].0.start,
        split_after_inv(t, k, col, a),
    ensures
        split_after_inv(t, k + 1, col, a.push((((t[k].0.start - col) as usize)..((t[k].0.end - col) as usize), t[k].1))),
{
    reveal(split_after_inv);
    lemma_take_step(t, k);
    lemma_canonical_end_differs(t, k);
    let x = (((t[k].0.start - col) as usize)..((t[k].0.end - col) as usize), t[k].1);
    let a1 = a.push(x);
    lemma_ordered_push(a, x);
    assert forall|q: int| #[trigger] format_of(a1, q) == if q >= 0 {
        format_of(t.take(k + 1), q + col)
    } else {
        default_format()
    } by {
        lemma_format_of_push(a, x, q);
    }
    assert forall|i: int| 0 <= i < a1.len() implies format_of(t, (#[trigger] a1[i]).0.end + col) != a1[i].1 by {
        if i < a.len() {
            assert(a1[i] == a[i]);
        }
    }
    assert forall|i: int| 0 <= i < a1.len() implies (#[trigger] a1[i]).1 != default_format() by {
        if i < a.len() {
            assert(a1[i] == a[i]);
        }
    }
}

proof fn lemma_split_after_clip(t: Seq<(Range<usize>, SpanFormat)>, k: int, col: int, a: Seq<(Range<usize>, SpanFormat)>)
    requires
        canonical(t),
        0 <= k < t.len(),
        t[k].0.start < col < t[k].0.end,
        split_after_inv(t, k, col, a),
    ensures
        split_after_inv(t, k + 1, col, a.push((0..((t[k].0.end - col) as usize), t[k].1))),
{
    reveal(split_after_inv);
    lemma_take_step(t, k);
    lemma_canonical_end_differs(t, k);
    let x = (0..((t[k].0.end - col) as usize), t[k].1);
    let a1 = a.push(x);
    if a.len() > 0 {
        lemma_spans_end(a);
        let i = a.len() - 1;
        // Spans move to the new line only past `col`, and none has yet.
        assert(false) by {
            lemma_format_of_at(a, a[i].0.start as int, i);
            lemma_spans_end(t.take(k));
            assert(spans_end(t.take(k)) <= t[k].0.start) by {
                if k > 0 {
                    assert(t.take(k).last() == t[k - 1]);
                    assert(t[k - 1].0.end <= t[k].0.start);
                }
            }
            lemma_format_of_past_end(t.take(k), a[i].0.start + col);
        }
    }
    lemma_ordered_push(a, x);
    assert forall|q: int| #[trigger] format_of(a1, q) == if q >= 0 {
        format_of(t.take(k + 1), q + col)
    } else {
        default_format()
    } by {
        lemma_format_of_push(a, x, q);
    }
    assert forall|i: int| 0 <= i < a1.len() implies format_of(t, (#[trigger] a1[i]).0.end + col) != a1[i].1 by {}
    assert forall|i: int| 0 <= i < a1.len() implies (#[trigger] a1[i]).1 != default_format() by {}
}

proof fn lemma_split_finish(
    t: Seq<(Range<usize>, SpanFormat)>,
    col: int,
    b: Seq<(Range<usize>, SpanFormat)>,
    a: Seq<(Range<usize>, SpanFormat)>,
)
    requires
        canonical(t),
        split_before_inv(t, t.len() as int, col, b),
        split_after_inv(t, t.len() as int, col, a),
    ensures
        canonical(b),
        canonical(a),
        forall|q: int| #[trigger] format_of(b, q) == if q < col {
            format_of(t, q)
        } else {
            default_format()
        },
        forall|q: int| #[trigger] format_of(a, q) == if q >= 0 {
            format_of(t, q + col)
        } else {
            default_format()
        },
{
    reveal(split_before_inv);
    reveal(split_after_inv);
    assert(t.take(t.len() as int) =~= t);
    assert forall|i: int| 0 <= i < b.len() implies format_of(b, (#[trigger] b[i]).0.end as int) != b[i].1 by {}
    lemma_canonical_by_ends(b);
    assert forall|i: int| 0 <= i < a.len() implies format_of(a, (#[trigger] a[i]).0.end as int) != a[i].1 by {}
    lemma_canonical_by_ends(a);
}

/// Dropping the first span of canonical spans leaves canonical spans that
/// agree with the whole list past the end of the first span.
proof fn lemma_canonical_drop_first(a: Seq<(Range<usize>, SpanFormat)>)
    requires
        canonical(a),
        a.len() > 0,
    ensures
        canonical(a.drop_first()),
        forall|q: int| #[trigger] format_of(a.drop_first(), q) == if q < a[0].0.end {
            default_format()
        } else {
            format_of(a, q)
        },
{
    let d = a.drop_first();
    assert forall|i: int| 0 <= i < d.len() implies #[trigger] d[i] == a[i + 1] by {}
    assert forall|i: int, j: int| 0 <= i < j < d.len() implies (#[trigger] d[i]).0.end <= (
    #[trigger] d[j]).0.start by {
        assert(d[i] == a[i + 1] && d[j] == a[j + 1]);
    }
    assert forall|i: int|
        0 <= i && i + 1 < d.len() && (#[trigger] d[i]).0.end == d[i + 1].0.start implies d[i].1
            != d[i + 1].1 by {
        assert(d[i] == a[i + 1] && d[i + 1] == a[i + 2]);
    }
    assert forall|q: int| #[trigger] format_of(d, q) == if q < a[0].0.end {
        default_format()
    } else {
        format_of(a, q)
    } by {
        if q < a[0].0.end {
            assert forall|k: int| 0 <= k < d.len() implies !holds(#[trigger] d[k].0, q) by {
                assert(a[0].0.end <= a[k + 1].0.start);
            }
        } else if covers(a, q) {
            let k = choose|k: int| 0 <= k < a.len() && holds(a[k].0, q);
            lemma_format_of_at(a, q, k);
            lemma_format_of_at(d, q, k - 1);
        } else {
            assert forall|k: int| 0 <= k < d.len() implies !holds(#[trigger] d[k].0, q) by {
                assert(!holds(a[k + 1].0, q));
            }
        }
    }
}

/// Canonical spans are determined by the formats they give: two canonical
/// span lists that agree on the format of every column are the same list.
/// So the format of each column, which the editing operations state, fixes
/// the spans they leave.
pub proof fn lemma_canonical_unique(a: Seq<(Range<usize>, SpanFormat)>, b: Seq<(Range<usize>, SpanFormat)>)
    requires
        canonical(a),
        canonical(b),
        forall|q: int| #[trigger] format_of(a, q) == format_of(b, q),
    ensures
        a == b,
    decreases a.len() + b.len(),
{
    if a.len() == 0 || b.len() == 0 {
        if a.len() > 0 {
            lemma_format_of_at(a, a[0].0.start as int, 0);
            assert(format_of(b, a[0].0.start as int) == default_format());
        }
        if b.len() > 0 {
            lemma_format_of_at(b, b[0].0.start as int, 0);
            assert(format_of(a, b[0].0.start as int) == default_format());
        }
        assert(a =~= b);
    } else {
        let x = a[0];
        let y = b[0];
        // Both lists start where the first formatted column is.
        if x.0.start < y.0.start {
            lemma_format_of_at(a, x.0.start as int, 0);
            assert forall|k: int| 0 <= k < b.len() implies !holds(#[trigger] b[k].0, x.0.start as int) by {
                if k > 0 {
                    assert(b[0].0.end <= b[k].0.start);
                }
            }
        }
        if y.0.start < x.0.start {
            lemma_format_of_at(b, y.0.start as int, 0);
            assert forall|k: int| 0 <= k < a.len() implies !holds(#[trigger] a[k].0, y.0.start as int) by {
                if k > 0 {
                    assert(a[0].0.end <= a[k].0.start);
                }
            }
        }
        assert(x.0.start == y.0.start);
        lemma_format_of_at(a, x.0.start as int, 0);
        lemma_format_of_at(b, x.0.start as int, 0);
        assert(x.1 == y.1);
        // Both first spans end where that format stops.
        if x.0.end < y.0.end {
            lemma_canonical_end_differs(a, 0);
            lemma_format_of_at(b, x.0.end as int, 0);
        }
        if y.0.end < x.0.end {
            lemma_canonical_end_differs(b, 0);
            lemma_format_of_at(a, y.0.end as int, 0);
        }
        assert(x.0.end == y.0.end);
        assert(x == y);
        lemma_canonical_drop_first(a);
        lemma_canonical_drop_first(b);
        assert forall|q: int| #[trigger] format_of(a.drop_first(), q) == format_of(b.drop_first(), q) by {}
        lemma_canonical_unique(a.drop_first(), b.drop_first());
        assert(a =~= seq![x] + a.drop_first());
        assert(b =~= seq![y] + b.drop_first());
    }
}

/// Deleting the `len` characters just inserted at `col` gives back the spans
/// the line had before the insertion.
pub proof fn lemma_insert_then_delete(
    a: Seq<(Range<usize>, SpanFormat)>,
    b: Seq<(Range<usize>, SpanFormat)>,
    c: Seq<(Range<usize>, SpanFormat)>,
    col: int,
    len: int,
)
    requires
        canonical(a),
        canonical(b),
        canonical(c),
        0 <= len,
        forall|q: int| #[trigger] format_of(b, q) == inserted(a, col, len, q),
        forall|q: int| #[trigger] format_of(c, q) == deleted(b, col, col + len, q),
    ensures
        c == a,
{
    assert forall|q: int| #[trigger] format_of(c, q) == format_of(a, q) by {
        if len > 0 && q >= col {
            assert(format_of(b, q + len) == inserted(a, col, len, q + len));
        } else {
            assert(format_of(b, q) == inserted(a, col, len, q));
        }
    }
    lemma_canonical_unique(c, a);
}

/// Splitting a line at `col` and merging the two halves again gives back
/// the line's spans, when `col` is the start of the line, the end of its
/// formatted text or beyond, or right after a formatted character: there
/// the merge, which joins at the end of the first half's last span, joins at
/// `col`.
pub proof fn lemma_split_then_merge(
    a: Seq<(Range<usize>, SpanFormat)>,
    head: Seq<(Range<usize>, SpanFormat)>,
    tail: Seq<(Range<usize>, SpanFormat)>,
    joined_line: Seq<(Range<usize>, SpanFormat)>,
    col: int,
)
    requires
        canonical(a),
        canonical(head),
        canonical(tail),
        canonical(joined_line),
        0 <= col,
        col == 0 || format_of(a, col - 1) != default_format() || spans_end(a) <= col,
        forall|q: int| #[trigger] format_of(head, q) == if q < col {
            format_of(a, q)
        } else {
            default_format()
        },
        forall|q: int| #[trigger] format_of(tail, q) == if q >= 0 {
            format_of(a, q + col)
        } else {
            default_format()
        },
        forall|q: int| #[trigger] format_of(joined_line, q) == joined(head, tail, q),
    ensures
        joined_line == a,
{
    lemma_spans_end(a);
    lemma_spans_end(head);
    if head.len() > 0 {
        let n = head.len() - 1;
        lemma_format_of_at(head, head[n].0.end - 1, n);
        assert(head[n].0.end <= col);
    }
    if spans_end(a) <= col {
        assert forall|q: int| #[trigger] format_of(tail, q) == format_of(Seq::<(Range<usize>, SpanFormat)>::empty(), q) by {
            if q >= 0 {
                lemma_format_of_past_end(a, q + col);
            }
        }
        lemma_canonical_unique(tail, Seq::empty());
        assert forall|q: int| #[trigger] format_of(joined_line, q) == format_of(a, q) by {
            if q >= col {
                lemma_format_of_past_end(a, q);
            }
            if q >= spans_end(head) && q < col {
                lemma_format_of_past_end(head, q);
            }
        }
    } else {
        if col > 0 {
            assert(format_of(head, col - 1) == format_of(a, col - 1));
            assert(covers(head, col - 1));
            let k = choose|k: int| 0 <= k < head.len() && holds(head[k].0, col - 1);
            assert(head[k].0.end <= spans_end(head));
        }
        assert(spans_end(head) == col);
        assert forall|q: int| #[trigger] format_of(joined_line, q) == format_of(a, q) by {
            if q >= col {
                assert(format_of(tail, q - col) == format_of(a, q - col + col));
            }
        }
    }
    lemma_canonical_unique(joined_line, a);
}

/// No column in `[start, end)` has the attribute.
pub open spec fn none_have(s: Seq<(Range<usize>, SpanFormat)>, start: int, end: int, p: Property) -> bool {
    forall|q: int| start <= q < end ==> !has_property(#[trigger] format_of(s, q), p)
}

/// Toggling an attribute twice over a range gives back the spans, when the
/// range had the attribute throughout or nowhere.
pub proof fn lemma_toggle_twice(
    a: Seq<(Range<usize>, SpanFormat)>,
    b: Seq<(Range<usize>, SpanFormat)>,
    c: Seq<(Range<usize>, SpanFormat)>,
    range: Range<usize>,
    p: Property,
)
    requires
        canonical(a),
        canonical(b),
        canonical(c),
        all_have(a, range.start as int, range.end as int, p) || none_have(
            a,
            range.start as int,
            range.end as int,
            p,
        ),
        forall|q: int| #[trigger] format_of(b, q) == toggled(a, range, p, q),
        forall|q: int| #[trigger] format_of(c, q) == toggled(b, range, p, q),
    ensures
        c == a,
{
    let (lo, hi) = (range.start as int, range.end as int);
    if lo < hi {
        if all_have(a, lo, hi, p) {
            assert(format_of(b, lo) == toggled(a, range, p, lo));
            assert(!all_have(b, lo, hi, p));
        } else {
            assert(format_of(a, lo) == format_of(a, lo));
            assert(!all_have(a, lo, hi, p));
            assert(all_have(b, lo, hi, p)) by {
                assert forall|q: int| lo <= q < hi implies has_property(#[trigger] format_of(b, q), p) by {
                    assert(format_of(b, q) == toggled(a, range, p, q));
                }
            }
        }
    }
    assert forall|q: int| #[trigger] format_of(c, q) == format_of(a, q) by {
        assert(format_of(c, q) == toggled(b, range, p, q));
        assert(format_of(b, q) == toggled(a, range, p, q));
    }
    lemma_canonical_unique(c, a);
}

impl Default for RichDocument {
    fn default() -> (d: Self)
        ensures
            d@ == seq![empty_line()],
            d.well_formed(),
    {
        Self::new()
    }
}

} // verus!

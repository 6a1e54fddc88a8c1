//! Highlights for the text editor, read from the formatting spans of a
//! [`RichDocument`] instead of parsed from markdown syntax.
//!
//! A heading's font size is worked out from the base size by whoever draws
//! the text; here it arrives as the bit pattern of an `f32`.

use std::ops::Range;

use vstd::prelude::*;

use crate::appearance::{Color, Font, FontStyle, Weight};
use crate::document::{default_format, RichDocument, SpanFormat};

verus! {

/// The output highlight type, embedding all info needed to draw the text.
#[derive(Debug, Clone, Copy, PartialEq, Eq, Structural)]
pub enum Highlight {
    /// Normal text, no special formatting.
    Normal,
    /// Formatted text with embedded rendering info; the size is the bit
    /// pattern of an `f32`.
    Formatted { font: Option<Font>, size: Option<u32>, color: Option<Color> },
}


/// The font of a span: its own or the base font, made bold or italic as the
/// span asks.
pub open spec fn span_font(span: SpanFormat, base_font: Font) -> Font {
    let f = match span.font {
        Some(f) => f,
        None => base_font,
    };
    let f = if span.bold {
        Font { weight: Weight::Bold, ..f }
    } else {
        f
    };
    if span.italic {
        Font { style: FontStyle::Italic, ..f }
    } else {
        f
    }
}

/// The highlight of a span: normal for plain text outside a heading,
/// otherwise its font, its size or else the heading's, and its color.
pub open spec fn span_highlight(span: SpanFormat, base_font: Font, heading_size: Option<u32>) -> Highlight {
    if span == default_format() && heading_size is None {
        Highlight::Normal
    } else {
        Highlight::Formatted {
            font: Some(span_font(span, base_font)),
            size: match span.size {
                Some(s) => Some(s),
                None => heading_size,
            },
            color: span.color,
        }
    }
}

/// Convert a [`SpanFormat`] into a [`Highlight`], incorporating heading size
/// and base font information.
pub fn span_format_to_highlight(span: &SpanFormat, base_font: &Font, heading_size: Option<u32>) -> (h: Highlight)
    ensures
        h == span_highlight(*span, *base_font, heading_size),
{
    if span.is_default() && heading_size.is_none() {
        return Highlight::Normal;
    }

    let font = {
        let mut f = match span.font {
            Some(f) => f,
            None => *base_font,
        };
        if span.bold {
            f.weight = Weight::Bold;
        }
        if span.italic {
            f.style = FontStyle::Italic;
        }
        Some(f)
    };

    let size = match span.size {
        Some(s) => Some(s),
        None => heading_size,
    };
    let color = span.color;

    // Only emit Formatted if something differs from default.
    if font.is_some() || size.is_some() || color.is_some() {
        Highlight::Formatted { font, size, color }
    } else {
        Highlight::Normal
    }
}

/// The range clamped to a line of `len` bytes.
pub open spec fn clamp_range(r: Range<usize>, len: usize) -> Range<usize> {
    Range {
        start: if r.start <= len { r.start } else { len },
        end: if r.end <= len { r.end } else { len },
    }
}

/// The highlight of every span, its range clamped to the line, dropping the
/// ranges that end up empty.
pub open spec fn span_highlights(
    spans: Seq<(Range<usize>, SpanFormat)>,
    len: usize,
    base_font: Font,
    heading_size: Option<u32>,
) -> Seq<(Range<usize>, Highlight)>
    decreases spans.len(),
{
    if spans.len() == 0 {
        Seq::empty()
    } else {
        let prev = span_highlights(spans.drop_last(), len, base_font, heading_size);
        let c = clamp_range(spans.last().0, len);
        if c.start < c.end {
            prev.push((c, span_highlight(spans.last().1, base_font, heading_size)))
        } else {
            prev
        }
    }
}

/// Every highlight of the spans covers a non-empty range inside the line.
pub proof fn lemma_span_highlights_within(
    spans: Seq<(Range<usize>, SpanFormat)>,
    len: usize,
    base_font: Font,
    heading_size: Option<u32>,
)
    ensures
        forall|i: int|
            0 <= i < span_highlights(spans, len, base_font, heading_size).len() ==> (#[trigger] span_highlights(
                spans,
                len,
                base_font,
                heading_size,
            )[i]).0.start < span_highlights(spans, len, base_font, heading_size)[i].0.end <= len,
    decreases spans.len(),
{
    if spans.len() > 0 {
        let prev = span_highlights(spans.drop_last(), len, base_font, heading_size);
        lemma_span_highlights_within(spans.drop_last(), len, base_font, heading_size);
        let all = span_highlights(spans, len, base_font, heading_size);
        assert forall|i: int| 0 <= i < all.len() implies (#[trigger] all[i]).0.start < all[i].0.end <= len by {
            if i < prev.len() {
                assert(all[i] == prev[i]);
            }
        }
    }
}

/// The highlights of line `line` of `len` bytes: nothing for an empty line
/// or one past the document; the whole line, normal or as a bold heading,
/// when it has no spans; otherwise the highlight of each span, or the whole
/// line normal if no span reaches into it.
pub open spec fn line_highlights_spec(
    doc: Seq<(crate::document::LineFormat, Seq<(Range<usize>, SpanFormat)>)>,
    line: int,
    len: usize,
    base_font: Font,
    heading_size: Option<u32>,
) -> Seq<(Range<usize>, Highlight)> {
    if line >= doc.len() || len == 0 {
        Seq::empty()
    } else if doc[line].1.len() == 0 {
        if heading_size is Some {
            seq![
                (
                    Range { start: 0, end: len },
                    Highlight::Formatted {
                        font: Some(Font { weight: Weight::Bold, ..base_font }),
                        size: heading_size,
                        color: None,
                    },
                ),
            ]
        } else {
            seq![(Range { start: 0, end: len }, Highlight::Normal)]
        }
    } else {
        let spans = span_highlights(doc[line].1, len, base_font, heading_size);
        if spans.len() == 0 {
            seq![(Range { start: 0, end: len }, Highlight::Normal)]
        } else {
            spans
        }
    }
}

/// The highlights of line `line_idx` of the document, whose text is
/// `line_len` bytes long; `heading_size` is the font size of the line when
/// it is a heading.
pub fn line_highlights(
    doc: &RichDocument,
    line_idx: usize,
    line_len: usize,
    base_font: Font,
    heading_size: Option<u32>,
) -> (r: Vec<(Range<usize>, Highlight)>)
    ensures
        r@ == line_highlights_spec(doc@, line_idx as int, line_len, base_font, heading_size),
        forall|i: int| 0 <= i < r@.len() ==> (#[trigger] r@[i]).0.start < r@[i].0.end <= line_len,
{
    proof {
        if line_idx < doc@.len() {
            lemma_span_highlights_within(doc@[line_idx as int].1, line_len, base_font, heading_size);
        }
    }
    if line_idx >= doc.line_count() || line_len == 0 {
        return Vec::new();
    }

    let spans = doc.spans(line_idx);

    if spans.len() == 0 {
        // No formatting spans -- but might have a heading.
        if heading_size.is_some() {
            let mut font = base_font;
            font.weight = Weight::Bold;
            let mut one = Vec::new();
            one.push((0..line_len, Highlight::Formatted { font: Some(font), size: heading_size, color: None }));
            assert(one@ =~= line_highlights_spec(doc@, line_idx as int, line_len, base_font, heading_size));
            return one;
        }
        let mut one = Vec::new();
        one.push((0..line_len, Highlight::Normal));
        assert(one@ =~= line_highlights_spec(doc@, line_idx as int, line_len, base_font, heading_size));
        return one;
    }

    let ghost s = spans@;
    let mut result: Vec<(Range<usize>, Highlight)> = Vec::new();
    let mut k: usize = 0;
    while k < spans.len()
        invariant
            s == spans@,
            k <= s.len(),
            result@ == span_highlights(s.take(k as int), line_len, base_font, heading_size),
        decreases s.len() - k,
    {
        let range = &spans[k].0;
        let highlight = span_format_to_highlight(&spans[k].1, &base_font, heading_size);
        // Clamp range to actual line length.
        let start = if range.start <= line_len { range.start } else { line_len };
        let end = if range.end <= line_len { range.end } else { line_len };
        assert(s.take(k + 1).drop_last() =~= s.take(k as int));
        if start < end {
            result.push((start..end, highlight));
        }
        k += 1;
    }
    assert(s.take(k as int) =~= s);

    // Fill gaps with Normal if no span reaches into the line.
    if result.len() == 0 {
        result.push((0..line_len, Highlight::Normal));
        assert(result@ =~= seq![(Range { start: 0, end: line_len }, Highlight::Normal)]);
    }
    result
}

/// Span `k` clamped to a line of `len` bytes, with its own highlight.
pub open spec fn clamped_span(
    spans: Seq<(Range<usize>, SpanFormat)>,
    k: int,
    len: usize,
    base_font: Font,
    heading_size: Option<u32>,
) -> (Range<usize>, Highlight) {
    (clamp_range(spans[k].0, len), span_highlight(spans[k].1, base_font, heading_size))
}

pub open spec fn clamps_nonempty(r: Range<usize>, len: usize) -> bool {
    clamp_range(r, len).start < clamp_range(r, len).end
}

proof fn lemma_span_highlights_match(
    spans: Seq<(Range<usize>, SpanFormat)>,
    len: usize,
    base_font: Font,
    heading_size: Option<u32>,
)
    ensures
        forall|i: int|
            0 <= i < span_highlights(spans, len, base_font, heading_size).len() ==> exists|k: int|
                0 <= k < spans.len() && #[trigger] span_highlights(spans, len, base_font, heading_size)[i]
                    == clamped_span(spans, k, len, base_font, heading_size),
        forall|k: int|
            0 <= k < spans.len() && clamps_nonempty(#[trigger] spans[k].0, len) ==> exists|i: int|
                0 <= i < span_highlights(spans, len, base_font, heading_size).len() && span_highlights(
                    spans,
                    len,
                    base_font,
                    heading_size,
                )[i] == clamped_span(spans, k, len, base_font, heading_size),
    decreases spans.len(),
{
    if spans.len() > 0 {
        let init = spans.drop_last();
        let prev = span_highlights(init, len, base_font, heading_size);
        lemma_span_highlights_match(init, len, base_font, heading_size);
        let all = span_highlights(spans, len, base_font, heading_size);
        let last = spans.len() - 1;
        assert forall|i: int| 0 <= i < all.len() implies exists|k: int|
            0 <= k < spans.len() && #[trigger] all[i] == clamped_span(spans, k, len, base_font, heading_size) by {
            if i < prev.len() {
                assert(all[i] == prev[i]);
                let k = choose|k: int| 0 <= k < init.len() && prev[i] == clamped_span(init, k, len, base_font, heading_size);
                assert(init[k] == spans[k]);
                assert(clamped_span(init, k, len, base_font, heading_size) == clamped_span(spans, k, len, base_font, heading_size));
            } else {
                assert(all[i] == clamped_span(spans, last, len, base_font, heading_size));
            }
        }
        assert forall|k: int| 0 <= k < spans.len() && clamps_nonempty(#[trigger] spans[k].0, len) implies exists|i: int|
            0 <= i < all.len() && all[i] == clamped_span(spans, k, len, base_font, heading_size) by {
            if k < last {
                assert(init[k] == spans[k]);
                assert(clamps_nonempty(init[k].0, len));
                let i = choose|i: int| 0 <= i < prev.len() && prev[i] == clamped_span(init, k, len, base_font, heading_size);
                assert(all[i] == prev[i]);
                assert(clamped_span(init, k, len, base_font, heading_size) == clamped_span(spans, k, len, base_font, heading_size));
            } else {
                assert(all[prev.len() as int] == clamped_span(spans, last, len, base_font, heading_size));
            }
        }
    }
}

/// Each span of a line is drawn with its own format: every highlight of a
/// line that has spans is some span's range, clamped to the line, with
/// that span's highlight; every span that reaches into the line is drawn
/// so; and when none does, the whole line is drawn normal.
pub proof fn lemma_line_highlights_from_spans(
    doc: Seq<(crate::document::LineFormat, Seq<(Range<usize>, SpanFormat)>)>,
    line: int,
    len: usize,
    base_font: Font,
    heading_size: Option<u32>,
)
    requires
        0 <= line < doc.len(),
        len > 0,
        doc[line].1.len() > 0,
    ensures
        forall|k: int|
            0 <= k < doc[line].1.len() && clamps_nonempty(#[trigger] doc[line].1[k].0, len) ==> exists|i: int|
                0 <= i < line_highlights_spec(doc, line, len, base_font, heading_size).len()
                    && line_highlights_spec(doc, line, len, base_font, heading_size)[i] == clamped_span(
                    doc[line].1,
                    k,
                    len,
                    base_font,
                    heading_size,
                ),
        (exists|k: int| 0 <= k < doc[line].1.len() && clamps_nonempty(#[trigger] doc[line].1[k].0, len))
            ==> forall|i: int|
            0 <= i < line_highlights_spec(doc, line, len, base_font, heading_size).len() ==> exists|k: int|
                0 <= k < doc[line].1.len() && #[trigger] line_highlights_spec(doc, line, len, base_font, heading_size)[i]
                    == clamped_span(doc[line].1, k, len, base_font, heading_size),
        (forall|k: int| 0 <= k < doc[line].1.len() ==> !clamps_nonempty(#[trigger] doc[line].1[k].0, len))
            ==> line_highlights_spec(doc, line, len, base_font, heading_size) == seq![
            (Range { start: 0usize, end: len }, Highlight::Normal),
        ],
{
    let spans = doc[line].1;
    lemma_span_highlights_match(spans, len, base_font, heading_size);
    let sh = span_highlights(spans, len, base_font, heading_size);
    if exists|k: int| 0 <= k < spans.len() && clamps_nonempty(#[trigger] spans[k].0, len) {
        let k = choose|k: int| 0 <= k < spans.len() && clamps_nonempty(#[trigger] spans[k].0, len);
        assert(sh.len() > 0);
        assert(line_highlights_spec(doc, line, len, base_font, heading_size) == sh);
    } else {
        if sh.len() > 0 {
            let k = choose|k: int| 0 <= k < spans.len() && #[trigger] sh[0] == clamped_span(spans, k, len, base_font, heading_size);
            lemma_span_highlights_within(spans, len, base_font, heading_size);
            assert(clamps_nonempty(spans[k].0, len));
        }
    }
}

/// What a span's highlight says: plain text outside a heading is normal;
/// anything else names a font, the span's own or the base font, bold
/// exactly when the span is (else keeping that font's weight) and italic
/// exactly when the span is (else keeping its style), the span's size or
/// else the heading's, and the span's color.
pub proof fn lemma_span_highlight_fields(span: SpanFormat, base_font: Font, heading_size: Option<u32>)
    ensures
        span_highlight(span, base_font, heading_size) is Normal <==> (span == default_format() && heading_size is None),
        span_highlight(span, base_font, heading_size) matches Highlight::Formatted { font, size, color } ==> {
            let own = match span.font {
                Some(f) => f,
                None => base_font,
            };
            &&& font matches Some(f) && f.family == own.family && f.stretch == own.stretch && f.weight == (if span.bold {
                Weight::Bold
            } else {
                own.weight
            }) && f.style == (if span.italic {
                FontStyle::Italic
            } else {
                own.style
            })
            &&& size == (if span.size is Some {
                span.size
            } else {
                heading_size
            })
            &&& color == span.color
        },
{
}

} // verus!

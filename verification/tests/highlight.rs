use markright::appearance::{Color, Font, FontStyle, Weight};
use markright::document::{RichDocument, SpanFormat};
use markright::highlight::{line_highlights, span_format_to_highlight, Highlight};

fn base() -> Font {
    Font::default()
}

fn bold_base() -> Font {
    Font { weight: Weight::Bold, ..Font::default() }
}

#[test]
fn normal_text_produces_normal_highlight() {
    let doc = RichDocument::with_lines(1);
    let spans = line_highlights(&doc, 0, "Hello, world!".len(), base(), None);
    assert_eq!(spans, vec![(0..13, Highlight::Normal)]);
}

#[test]
fn empty_line_produces_empty_iterator() {
    let doc = RichDocument::with_lines(1);
    assert!(line_highlights(&doc, 0, "".len(), base(), None).is_empty());
}

#[test]
fn line_beyond_document_produces_empty() {
    let doc = RichDocument::with_lines(1);
    assert!(!line_highlights(&doc, 0, "first line".len(), base(), None).is_empty());
    assert!(line_highlights(&doc, 1, "second line".len(), base(), None).is_empty());
}

#[test]
fn bold_span_produces_formatted_highlight() {
    let mut doc = RichDocument::with_lines(1);
    doc.toggle_bold(0, 0..5);
    let spans = line_highlights(&doc, 0, "Hello world".len(), base(), None);
    assert_eq!(spans.len(), 1);
    assert_eq!(spans[0].0, 0..5);
    assert_eq!(
        spans[0].1,
        Highlight::Formatted { font: Some(bold_base()), size: None, color: None }
    );
}

#[test]
fn heading_produces_sized_highlight() {
    let mut doc = RichDocument::with_lines(1);
    doc.line_format_mut(0).heading_level = Some(1);
    // A level-one heading is twice the base size of 16.
    let size = Some(32.0f32.to_bits());
    let spans = line_highlights(&doc, 0, "Hello".len(), base(), size);
    assert_eq!(spans, vec![(0..5, Highlight::Formatted { font: Some(bold_base()), size, color: None })]);
}

#[test]
fn span_ranges_are_clamped_to_the_line() {
    let mut doc = RichDocument::with_lines(1);
    doc.toggle_italic(0, 2..10);
    let spans = line_highlights(&doc, 0, 6, base(), None);
    let italic = Font { style: FontStyle::Italic, ..Font::default() };
    assert_eq!(spans, vec![(2..6, Highlight::Formatted { font: Some(italic), size: None, color: None })]);
}

#[test]
fn spans_past_the_line_leave_it_normal() {
    let mut doc = RichDocument::with_lines(1);
    doc.toggle_bold(0, 8..10);
    let spans = line_highlights(&doc, 0, 4, base(), None);
    assert_eq!(spans, vec![(0..4, Highlight::Normal)]);
}

#[test]
fn span_size_wins_over_heading_size() {
    let span = SpanFormat { size: Some(20.0f32.to_bits()), ..SpanFormat::default() };
    let h = span_format_to_highlight(&span, &base(), Some(32.0f32.to_bits()));
    assert_eq!(h, Highlight::Formatted { font: Some(base()), size: Some(20.0f32.to_bits()), color: None });
}

#[test]
fn plain_span_in_heading_takes_heading_size() {
    let h = span_format_to_highlight(&SpanFormat::default(), &base(), Some(24.0f32.to_bits()));
    assert_eq!(h, Highlight::Formatted { font: Some(base()), size: Some(24.0f32.to_bits()), color: None });
}

#[test]
fn plain_span_outside_heading_is_normal() {
    assert_eq!(span_format_to_highlight(&SpanFormat::default(), &base(), None), Highlight::Normal);
}

#[test]
fn span_font_and_color_carry_over() {
    let red = Color { r: 1.0f32.to_bits(), g: 0, b: 0, a: 1.0f32.to_bits() };
    let mono = Font { family: markright::appearance::Family::Monospace, ..Font::default() };
    let span = SpanFormat { font: Some(mono), color: Some(red), italic: true, ..SpanFormat::default() };
    let h = span_format_to_highlight(&span, &base(), None);
    let expected = Font { style: FontStyle::Italic, ..mono };
    assert_eq!(h, Highlight::Formatted { font: Some(expected), size: None, color: Some(red) });
}

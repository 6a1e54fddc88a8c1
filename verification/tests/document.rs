use markright::document::{Alignment, LineFormat, RichDocument, SpanFormat};

#[test]
fn new_document_has_one_line() {
    let doc = RichDocument::new();
    assert_eq!(doc.line_count(), 1);
    assert_eq!(*doc.line_format(0), LineFormat::default());
    assert!(doc.spans(0).is_empty());
}

#[test]
fn format_at_empty_line() {
    let doc = RichDocument::new();
    let fmt = doc.format_at(0, 0);
    assert!(fmt.is_default());
}

#[test]
fn toggle_bold_on_range() {
    let mut doc = RichDocument::with_lines(1);
    doc.toggle_bold(0, 0..5);
    let spans = doc.spans(0);
    assert_eq!(spans.len(), 1);
    assert_eq!(spans[0].0, 0..5);
    assert!(spans[0].1.bold);
}

#[test]
fn toggle_bold_off_range() {
    let mut doc = RichDocument::with_lines(1);
    doc.toggle_bold(0, 0..5);
    assert!(doc.spans(0)[0].1.bold);

    // Toggle again -- should remove bold.
    doc.toggle_bold(0, 0..5);
    // All spans should be removed (back to default).
    assert!(doc.spans(0).is_empty());
}

#[test]
fn toggle_bold_partial() {
    let mut doc = RichDocument::with_lines(1);
    // Make 0..10 bold.
    doc.toggle_bold(0, 0..10);
    assert_eq!(doc.spans(0).len(), 1);
    assert_eq!(doc.spans(0)[0].0, 0..10);

    // Toggle bold on 3..7 -- since 3..7 is already bold, it should remove
    // bold from that sub-range, leaving 0..3 bold and 7..10 bold.
    doc.toggle_bold(0, 3..7);
    let spans = doc.spans(0);
    assert_eq!(spans.len(), 2);
    assert_eq!(spans[0].0, 0..3);
    assert!(spans[0].1.bold);
    assert_eq!(spans[1].0, 7..10);
    assert!(spans[1].1.bold);
}

#[test]
fn insert_shifts_spans() {
    let mut doc = RichDocument::with_lines(1);
    // Create a bold span at 5..10.
    doc.toggle_bold(0, 5..10);

    // Insert 3 chars at position 2 (before the span).
    doc.insert_at(0, 2, 3);

    let spans = doc.spans(0);
    assert_eq!(spans.len(), 1);
    assert_eq!(spans[0].0, 8..13); // shifted right by 3
    assert!(spans[0].1.bold);
}

#[test]
fn insert_extends_containing_span() {
    let mut doc = RichDocument::with_lines(1);
    // Create a bold span at 0..10.
    doc.toggle_bold(0, 0..10);

    // Insert 5 chars at position 5 (inside the span).
    doc.insert_at(0, 5, 5);

    let spans = doc.spans(0);
    assert_eq!(spans.len(), 1);
    assert_eq!(spans[0].0, 0..15); // extended by 5
    assert!(spans[0].1.bold);
}

#[test]
fn delete_shrinks_spans() {
    let mut doc = RichDocument::with_lines(1);
    // Create a bold span at 5..15.
    doc.toggle_bold(0, 5..15);

    // Delete chars 3..8 (overlaps start of span).
    doc.delete_range(0, 3, 8);

    let spans = doc.spans(0);
    assert_eq!(spans.len(), 1);
    assert_eq!(spans[0].0, 3..10); // 15 - 5 deleted = 10, starts at 3
    assert!(spans[0].1.bold);
}

#[test]
fn split_line_divides_spans() {
    let mut doc = RichDocument::with_lines(1);
    // Create a bold span at 0..10.
    doc.toggle_bold(0, 0..10);

    // Split at column 4.
    doc.split_line(0, 4);

    assert_eq!(doc.line_count(), 2);

    let spans0 = doc.spans(0);
    assert_eq!(spans0.len(), 1);
    assert_eq!(spans0[0].0, 0..4);
    assert!(spans0[0].1.bold);

    let spans1 = doc.spans(1);
    assert_eq!(spans1.len(), 1);
    assert_eq!(spans1[0].0, 0..6);
    assert!(spans1[0].1.bold);
}

#[test]
fn merge_lines_combines_spans() {
    let mut doc = RichDocument::with_lines(2);
    // Line 0: bold 0..5
    doc.toggle_bold(0, 0..5);
    // Line 1: italic 0..3
    doc.toggle_italic(1, 0..3);

    doc.merge_lines(0);
    assert_eq!(doc.line_count(), 1);

    let spans = doc.spans(0);
    assert_eq!(spans.len(), 2);
    assert_eq!(spans[0].0, 0..5);
    assert!(spans[0].1.bold);
    assert_eq!(spans[1].0, 5..8); // offset by 5
    assert!(spans[1].1.italic);
}

#[test]
fn adjacent_spans_merge() {
    let mut doc = RichDocument::with_lines(1);
    // Create bold on two adjacent ranges.
    doc.toggle_bold(0, 0..5);
    doc.toggle_bold(0, 5..10);

    let spans = doc.spans(0);
    // Should be merged into a single bold span.
    assert_eq!(spans.len(), 1);
    assert_eq!(spans[0].0, 0..10);
    assert!(spans[0].1.bold);
}

#[test]
fn ensure_lines_grows() {
    let mut doc = RichDocument::new();
    assert_eq!(doc.line_count(), 1);

    doc.ensure_lines(5);
    assert_eq!(doc.line_count(), 5);

    // All new lines have default formatting.
    for i in 0..5 {
        assert_eq!(*doc.line_format(i), LineFormat::default());
    }
}

#[test]
fn ensure_lines_shrinks() {
    let mut doc = RichDocument::with_lines(10);
    assert_eq!(doc.line_count(), 10);

    doc.ensure_lines(3);
    assert_eq!(doc.line_count(), 3);
}

#[test]
fn set_format_property_custom() {
    let mut doc = RichDocument::with_lines(1);
    doc.set_format_property(0, 2..8, |f| SpanFormat { size: Some(24.0f32.to_bits()), ..f });

    let spans = doc.spans(0);
    assert_eq!(spans.len(), 1);
    assert_eq!(spans[0].0, 2..8);
    assert_eq!(spans[0].1.size, Some(24.0f32.to_bits()));
}

#[test]
fn toggle_italic_and_bold_overlap() {
    let mut doc = RichDocument::with_lines(1);
    // Make 0..10 bold.
    doc.toggle_bold(0, 0..10);
    // Make 5..15 italic.
    doc.toggle_italic(0, 5..15);

    let spans = doc.spans(0);
    // Expected: 0..5 bold-only, 5..10 bold+italic, 10..15 italic-only
    assert_eq!(spans.len(), 3);

    assert_eq!(spans[0].0, 0..5);
    assert!(spans[0].1.bold);
    assert!(!spans[0].1.italic);

    assert_eq!(spans[1].0, 5..10);
    assert!(spans[1].1.bold);
    assert!(spans[1].1.italic);

    assert_eq!(spans[2].0, 10..15);
    assert!(!spans[2].1.bold);
    assert!(spans[2].1.italic);
}

// ---------------------------------------------------------------------------
// Further cases
// ---------------------------------------------------------------------------

fn bold() -> SpanFormat {
    SpanFormat { bold: true, ..SpanFormat::default() }
}

fn italic() -> SpanFormat {
    SpanFormat { italic: true, ..SpanFormat::default() }
}

#[test]
fn format_at_reads_spans_and_gaps() {
    let mut doc = RichDocument::with_lines(1);
    doc.toggle_bold(0, 2..4);
    assert_eq!(doc.format_at(0, 1), SpanFormat::default());
    assert_eq!(doc.format_at(0, 2), bold());
    assert_eq!(doc.format_at(0, 3), bold());
    assert_eq!(doc.format_at(0, 4), SpanFormat::default());
}

#[test]
fn toggle_over_partly_bold_range_makes_all_bold() {
    let mut doc = RichDocument::with_lines(1);
    doc.toggle_bold(0, 0..3);
    doc.toggle_bold(0, 2..6);
    assert_eq!(doc.spans(0), &[(0..6, bold())][..]);
}

#[test]
fn toggle_underline_on_and_off() {
    let mut doc = RichDocument::with_lines(1);
    doc.toggle_underline(0, 1..4);
    let underlined = SpanFormat { underline: true, ..SpanFormat::default() };
    assert_eq!(doc.spans(0), &[(1..4, underlined)][..]);
    doc.toggle_underline(0, 1..4);
    assert!(doc.spans(0).is_empty());
}

#[test]
fn empty_range_changes_nothing() {
    let mut doc = RichDocument::with_lines(1);
    doc.toggle_bold(0, 0..4);
    doc.toggle_italic(0, 2..2);
    doc.set_format_property(0, 3..1, |f| SpanFormat { underline: true, ..f });
    assert_eq!(doc.spans(0), &[(0..4, bold())][..]);
}

#[test]
fn toggle_twice_restores_mixed_free_range() {
    let mut doc = RichDocument::with_lines(1);
    doc.toggle_italic(0, 0..3);
    doc.toggle_italic(0, 6..9);
    let before = doc.spans(0).to_vec();
    doc.toggle_bold(0, 1..8);
    doc.toggle_bold(0, 1..8);
    assert_eq!(doc.spans(0), &before[..]);
}

#[test]
fn insert_at_span_start_extends_span() {
    let mut doc = RichDocument::with_lines(1);
    doc.toggle_bold(0, 4..8);
    doc.insert_at(0, 4, 2);
    assert_eq!(doc.spans(0), &[(4..10, bold())][..]);
}

#[test]
fn insert_at_span_end_stays_plain() {
    let mut doc = RichDocument::with_lines(1);
    doc.toggle_bold(0, 0..4);
    doc.insert_at(0, 4, 3);
    assert_eq!(doc.spans(0), &[(0..4, bold())][..]);
    assert_eq!(doc.format_at(0, 5), SpanFormat::default());
}

#[test]
fn insert_nothing_changes_nothing() {
    let mut doc = RichDocument::with_lines(1);
    doc.toggle_bold(0, 2..5);
    doc.insert_at(0, 3, 0);
    assert_eq!(doc.spans(0), &[(2..5, bold())][..]);
}

#[test]
fn insert_then_delete_restores_spans() {
    let mut doc = RichDocument::with_lines(1);
    doc.toggle_bold(0, 0..4);
    doc.toggle_italic(0, 6..9);
    let before = doc.spans(0).to_vec();
    doc.insert_at(0, 2, 5);
    assert_eq!(doc.spans(0), &[(0..9, bold()), (11..14, italic())][..]);
    doc.delete_range(0, 2, 7);
    assert_eq!(doc.spans(0), &before[..]);
}

#[test]
fn delete_swallowing_a_span_removes_it() {
    let mut doc = RichDocument::with_lines(1);
    doc.toggle_bold(0, 3..5);
    doc.toggle_italic(0, 8..10);
    doc.delete_range(0, 2, 6);
    assert_eq!(doc.spans(0), &[(4..6, italic())][..]);
}

#[test]
fn delete_joins_equal_neighbours() {
    let mut doc = RichDocument::with_lines(1);
    doc.toggle_bold(0, 0..3);
    doc.toggle_bold(0, 6..9);
    doc.delete_range(0, 3, 6);
    assert_eq!(doc.spans(0), &[(0..6, bold())][..]);
}

#[test]
fn delete_empty_range_changes_nothing() {
    let mut doc = RichDocument::with_lines(1);
    doc.toggle_bold(0, 0..3);
    doc.delete_range(0, 2, 2);
    doc.delete_range(0, 5, 1);
    assert_eq!(doc.spans(0), &[(0..3, bold())][..]);
}

#[test]
fn split_keeps_line_format_and_later_lines() {
    let mut doc = RichDocument::with_lines(3);
    doc.line_format_mut(1).alignment = Alignment::Center;
    doc.line_format_mut(2).heading_level = Some(2);
    doc.toggle_italic(1, 2..7);
    doc.split_line(1, 4);
    assert_eq!(doc.line_count(), 4);
    assert_eq!(doc.line_format(1).alignment, Alignment::Center);
    assert_eq!(doc.line_format(2).alignment, Alignment::Center);
    assert_eq!(doc.line_format(3).heading_level, Some(2));
    assert_eq!(doc.spans(1), &[(2..4, italic())][..]);
    assert_eq!(doc.spans(2), &[(0..3, italic())][..]);
}

#[test]
fn split_then_merge_restores_spans() {
    let mut doc = RichDocument::with_lines(1);
    doc.toggle_bold(0, 0..6);
    doc.toggle_italic(0, 6..9);
    let before = doc.spans(0).to_vec();
    doc.split_line(0, 4);
    doc.merge_lines(0);
    assert_eq!(doc.line_count(), 1);
    assert_eq!(doc.spans(0), &before[..]);
}

#[test]
fn merge_joins_at_end_of_last_span() {
    let mut doc = RichDocument::with_lines(2);
    doc.toggle_bold(0, 0..3);
    doc.toggle_italic(1, 1..2);
    doc.merge_lines(0);
    assert_eq!(doc.spans(0), &[(0..3, bold()), (4..5, italic())][..]);
}

#[test]
fn merge_of_equal_formats_is_one_span() {
    let mut doc = RichDocument::with_lines(2);
    doc.toggle_bold(0, 0..3);
    doc.toggle_bold(1, 0..2);
    doc.merge_lines(0);
    assert_eq!(doc.spans(0), &[(0..5, bold())][..]);
}

#[test]
fn merge_last_line_changes_nothing() {
    let mut doc = RichDocument::with_lines(2);
    doc.toggle_bold(1, 0..2);
    doc.merge_lines(1);
    doc.merge_lines(5);
    assert_eq!(doc.line_count(), 2);
    assert_eq!(doc.spans(1), &[(0..2, bold())][..]);
}

#[test]
fn ensure_lines_keeps_existing_lines() {
    let mut doc = RichDocument::with_lines(2);
    doc.toggle_bold(1, 0..2);
    doc.ensure_lines(4);
    assert_eq!(doc.spans(1), &[(0..2, bold())][..]);
    assert!(doc.spans(3).is_empty());
}

#[test]
fn default_document_is_new_document() {
    let doc = RichDocument::default();
    assert_eq!(doc.line_count(), 1);
    assert!(doc.spans(0).is_empty());
}

#[test]
fn setter_returning_plain_clears_spans() {
    let mut doc = RichDocument::with_lines(1);
    doc.toggle_bold(0, 0..6);
    doc.set_format_property(0, 2..4, |_| SpanFormat::default());
    assert_eq!(doc.spans(0), &[(0..2, bold()), (4..6, bold())][..]);
}

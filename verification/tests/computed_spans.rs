use markright::widget::rich_editor::computed_spans::{
    anchored_position, chip_anchor, clamp_cursor, delete_chip_source, display_source, resync_source,
    set_source_value, shift_spans, snap_out_of_chip, splice_source, ChipAnchor, Span,
};

fn chip(id: u64, line: usize, display: (usize, usize), source: (usize, usize), value: &str) -> Span {
    Span {
        id,
        line,
        display_range: display.0..display.1,
        source_range: source.0..source.1,
        source_value: value.to_string(),
        display_value: String::new(),
        placeholder: String::new(),
        atomic: true,
        popup: true,
    }
}

fn lines(ls: &[&str]) -> Vec<String> {
    ls.iter().map(|l| l.to_string()).collect()
}

#[test]
fn splice_writes_values_over_ranges() {
    let source = "a {=1+2} b {=3}".to_string();
    let spans = vec![chip(1, 0, (2, 3), (2, 8), "{=1+4}"), chip(2, 0, (6, 7), (11, 15), "{=3}")];
    assert_eq!(splice_source(&source, &spans), "a {=1+4} b {=3}");
}

#[test]
fn splice_with_unchanged_values_gives_source_back() {
    let source = "a {=1+2} b {=3} end".to_string();
    let spans = vec![chip(1, 0, (2, 3), (2, 8), "{=1+2}"), chip(2, 0, (6, 7), (11, 15), "{=3}")];
    assert_eq!(splice_source(&source, &spans), source);
    assert_eq!(splice_source(&source, &[]), source);
}

#[test]
fn splice_keeps_text_after_last_chip_and_multibyte() {
    let source = "é{=x}ü".to_string();
    let spans = vec![chip(7, 0, (2, 3), (2, 6), "{=yy}")];
    assert_eq!(splice_source(&source, &spans), "é{=yy}ü");
}

#[test]
fn delete_removes_first_chip_source() {
    let source = "a {=1+2} b {=3}".to_string();
    let spans = vec![chip(1, 0, (2, 3), (2, 8), "{=1+2}"), chip(2, 0, (6, 7), (11, 15), "{=3}")];
    assert_eq!(delete_chip_source(&source, &spans, 1), "a  b {=3}");
    assert_eq!(delete_chip_source(&source, &spans, 2), "a {=1+2} b ");
    assert_eq!(delete_chip_source(&source, &spans, 9), source);
}

#[test]
fn set_value_changes_first_chip_with_id() {
    let mut spans = vec![chip(1, 0, (0, 1), (0, 4), "{=1}"), chip(2, 0, (2, 3), (5, 9), "{=2}"), chip(2, 1, (0, 1), (10, 14), "{=9}")];
    set_source_value(&mut spans, 2, "{=22}".to_string());
    assert_eq!(spans[0].source_value, "{=1}");
    assert_eq!(spans[1].source_value, "{=22}");
    assert_eq!(spans[2].source_value, "{=9}");
    assert_eq!(spans[1].source_range, 5..9);
    set_source_value(&mut spans, 5, "x".to_string());
    assert_eq!(spans[0].source_value, "{=1}");
    assert_eq!(spans[1].source_value, "{=22}");
}

#[test]
fn anchor_at_chip_ends() {
    let spans = vec![chip(1, 0, (4, 7), (4, 10), "{=abc}"), chip(2, 1, (0, 2), (12, 16), "{=2}")];
    assert_eq!(chip_anchor(&spans, 1, 0, 4), Some(ChipAnchor::Start));
    assert_eq!(chip_anchor(&spans, 1, 0, 7), Some(ChipAnchor::End));
    assert_eq!(chip_anchor(&spans, 1, 0, 5), None);
    assert_eq!(chip_anchor(&spans, 1, 1, 4), None);
    assert_eq!(chip_anchor(&spans, 3, 0, 4), None);
    assert_eq!(anchored_position(&spans, 2, ChipAnchor::End), Some((1, 2)));
    assert_eq!(anchored_position(&spans, 1, ChipAnchor::Start), Some((0, 4)));
    assert_eq!(anchored_position(&spans, 3, ChipAnchor::Start), None);
}

#[test]
fn snap_moves_cursor_inside_chip_to_its_end() {
    let spans = vec![chip(1, 0, (4, 7), (4, 10), "{=abc}"), chip(2, 1, (0, 2), (12, 16), "{=2}")];
    assert_eq!(snap_out_of_chip(&spans, 0, 5), Some((0, 7)));
    assert_eq!(snap_out_of_chip(&spans, 1, 1), Some((1, 2)));
    assert_eq!(snap_out_of_chip(&spans, 0, 4), None);
    assert_eq!(snap_out_of_chip(&spans, 0, 7), None);
    assert_eq!(snap_out_of_chip(&spans, 2, 5), None);
}

#[test]
fn clamp_cursor_into_rebuilt_text() {
    let ls = lines(&["héllo", "ab"]);
    assert_eq!(clamp_cursor(&ls, 5, 9), (1, 2));
    assert_eq!(clamp_cursor(&ls, 0, 2), (0, 1));
    assert_eq!(clamp_cursor(&ls, 0, 3), (0, 3));
    assert_eq!(clamp_cursor(&ls, 0, 100), (0, 6));
    assert_eq!(clamp_cursor(&[], 3, 4), (0, 0));
}

#[test]
fn display_source_puts_chip_sources_back() {
    let ls = lines(&["x = 5 + 1", "y"]);
    let spans = vec![chip(2, 0, (8, 9), (0, 0), "{=1}"), chip(1, 0, (4, 5), (0, 0), "{=2+3}")];
    assert_eq!(display_source(&ls, &spans), "x = {=2+3} + {=1}\ny");
    assert_eq!(display_source(&ls, &[]), "x = 5 + 1\ny");
}

#[test]
fn display_source_without_chips_on_the_lines_is_the_text() {
    let ls = lines(&["x = 5 + 1", "", "y"]);
    let spans = vec![chip(1, 3, (0, 1), (0, 0), "{=z}")];
    assert_eq!(display_source(&ls, &spans), "x = 5 + 1\n\ny");
}

#[test]
fn display_source_skips_overlapping_and_out_of_line_chips() {
    let ls = lines(&["abcdef"]);
    let spans = vec![chip(1, 0, (1, 4), (0, 0), "[A]"), chip(2, 0, (2, 3), (0, 0), "[B]"), chip(3, 0, (9, 12), (0, 0), "[C]")];
    assert_eq!(display_source(&ls, &spans), "a[A]ef");
    let spans = vec![chip(1, 0, (4, 30), (0, 0), "[A]")];
    assert_eq!(display_source(&ls, &spans), "abcd[A]");
}

#[test]
fn display_source_moves_chip_to_character_boundaries() {
    let ls = lines(&["aé b"]);
    // bytes: a=0, é=1..3, ' '=3, b=4; a chip starting inside é starts at é.
    let spans = vec![chip(1, 0, (2, 3), (0, 0), "{=e}")];
    assert_eq!(display_source(&ls, &spans), "a{=e} b");
}

#[test]
fn shift_moves_chips_after_the_edit() {
    let mut spans = vec![chip(1, 0, (4, 5), (0, 0), "{=1}"), chip(2, 0, (8, 9), (0, 0), "{=2}"), chip(3, 1, (8, 9), (0, 0), "{=3}")];
    shift_spans(&mut spans, 0, 6, 2);
    assert_eq!(spans[0].display_range, 4..5);
    assert_eq!(spans[1].display_range, 10..11);
    assert_eq!(spans[2].display_range, 8..9);
    let mut spans = vec![chip(1, 0, (1, 3), (0, 0), "{=1}")];
    shift_spans(&mut spans, 0, 0, -5);
    assert_eq!(spans[0].display_range, 0..0);
}

#[test]
fn resync_after_typing_before_a_chip() {
    let mut spans = vec![chip(1, 0, (1, 2), (0, 0), "{=5}")];
    let ls = lines(&["yx5"]);
    let source = resync_source(&mut spans, &ls, Some((0, 0, 1)));
    assert_eq!(spans[0].display_range, 2..3);
    assert_eq!(source, "yx{=5}");
    let mut spans = vec![chip(1, 0, (1, 2), (0, 0), "{=5}")];
    let source = resync_source(&mut spans, &lines(&["x5"]), None);
    assert_eq!(source, "x{=5}");
}

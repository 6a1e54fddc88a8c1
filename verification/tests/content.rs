use markright::content::{Action, Content, Cursor, Motion};

fn at(line: usize, offset: usize) -> Cursor {
    Cursor { line, offset }
}

#[test]
fn new_content_is_one_empty_line() {
    let c = Content::new();
    assert_eq!(c.line_count(), 1);
    assert_eq!(c.line(0), Some(""));
    assert_eq!(c.line(1), None);
    assert_eq!(c.cursor(), at(0, 0));
    assert_eq!(c.text(), "");
}

#[test]
fn with_text_splits_on_newlines_and_text_joins() {
    let c = Content::with_text("# Title\n\nbody **bold**\n");
    assert_eq!(c.line_count(), 4);
    assert_eq!(c.line(0), Some("# Title"));
    assert_eq!(c.line(1), Some(""));
    assert_eq!(c.line(2), Some("body **bold**"));
    assert_eq!(c.line(3), Some(""));
    assert_eq!(c.text(), "# Title\n\nbody **bold**\n");
}

#[test]
fn text_round_trips_through_with_text() {
    let first = Content::with_text("a\nb\nc");
    let again = Content::with_text(&first.text());
    assert_eq!(again.line_count(), 3);
    assert_eq!(again.text(), "a\nb\nc");
}

#[test]
fn insert_advances_by_utf8_width() {
    let mut c = Content::new();
    c.perform(Action::Insert('a'));
    c.perform(Action::Insert('é'));
    c.perform(Action::Insert('€'));
    assert_eq!(c.line(0), Some("aé€"));
    assert_eq!(c.cursor(), at(0, 6));
}

#[test]
fn insert_newline_splits_line() {
    let mut c = Content::with_text("abcd");
    c.perform(Action::Click { line: 0, offset: 2 });
    c.perform(Action::Insert('\n'));
    assert_eq!(c.text(), "ab\ncd");
    assert_eq!(c.cursor(), at(1, 0));
}

#[test]
fn delete_removes_next_character() {
    let mut c = Content::with_text("héllo");
    c.perform(Action::Click { line: 0, offset: 1 });
    c.perform(Action::Delete);
    assert_eq!(c.line(0), Some("hllo"));
    assert_eq!(c.cursor(), at(0, 1));
}

#[test]
fn delete_at_line_end_joins_next_line() {
    let mut c = Content::with_text("ab\ncd");
    c.perform(Action::Move(Motion::End));
    c.perform(Action::Delete);
    assert_eq!(c.text(), "abcd");
    assert_eq!(c.cursor(), at(0, 2));
}

#[test]
fn delete_at_text_end_changes_nothing() {
    let mut c = Content::with_text("ab");
    c.perform(Action::Move(Motion::End));
    c.perform(Action::Delete);
    assert_eq!(c.text(), "ab");
}

#[test]
fn backspace_removes_previous_character() {
    let mut c = Content::with_text("aé");
    c.perform(Action::Move(Motion::End));
    c.perform(Action::Backspace);
    assert_eq!(c.line(0), Some("a"));
    assert_eq!(c.cursor(), at(0, 1));
}

#[test]
fn backspace_at_line_start_joins_previous_line() {
    let mut c = Content::with_text("ab\ncd");
    c.perform(Action::Click { line: 1, offset: 0 });
    c.perform(Action::Backspace);
    assert_eq!(c.text(), "abcd");
    assert_eq!(c.cursor(), at(0, 2));
}

#[test]
fn backspace_at_text_start_changes_nothing() {
    let mut c = Content::with_text("ab");
    c.perform(Action::Backspace);
    assert_eq!(c.text(), "ab");
    assert_eq!(c.cursor(), at(0, 0));
}

#[test]
fn enter_then_backspace_restores() {
    let mut c = Content::with_text("hello\nworld");
    c.perform(Action::Click { line: 1, offset: 3 });
    c.perform(Action::Enter);
    assert_eq!(c.text(), "hello\nwor\nld");
    c.perform(Action::Backspace);
    assert_eq!(c.text(), "hello\nworld");
    assert_eq!(c.cursor(), at(1, 3));
}

#[test]
fn left_and_right_step_over_characters_and_lines() {
    let mut c = Content::with_text("aé\nb");
    c.perform(Action::Move(Motion::Right));
    assert_eq!(c.cursor(), at(0, 1));
    c.perform(Action::Move(Motion::Right));
    assert_eq!(c.cursor(), at(0, 3));
    c.perform(Action::Move(Motion::Right));
    assert_eq!(c.cursor(), at(1, 0));
    c.perform(Action::Move(Motion::Left));
    assert_eq!(c.cursor(), at(0, 3));
    c.perform(Action::Move(Motion::Left));
    assert_eq!(c.cursor(), at(0, 1));
}

#[test]
fn left_at_start_and_right_at_end_stay() {
    let mut c = Content::with_text("x");
    c.perform(Action::Move(Motion::Left));
    assert_eq!(c.cursor(), at(0, 0));
    c.perform(Action::Move(Motion::End));
    c.perform(Action::Move(Motion::Right));
    assert_eq!(c.cursor(), at(0, 1));
}

#[test]
fn up_and_down_clamp_offset() {
    let mut c = Content::with_text("long line\nab\nanother");
    c.perform(Action::Click { line: 0, offset: 7 });
    c.perform(Action::Move(Motion::Down));
    assert_eq!(c.cursor(), at(1, 2));
    c.perform(Action::Move(Motion::Down));
    assert_eq!(c.cursor(), at(2, 2));
    c.perform(Action::Move(Motion::Down));
    assert_eq!(c.cursor(), at(2, 2));
    c.perform(Action::Move(Motion::Up));
    c.perform(Action::Move(Motion::Up));
    c.perform(Action::Move(Motion::Up));
    assert_eq!(c.cursor(), at(0, 2));
}

#[test]
fn home_and_end() {
    let mut c = Content::with_text("abc");
    c.perform(Action::Move(Motion::End));
    assert_eq!(c.cursor(), at(0, 3));
    c.perform(Action::Move(Motion::Home));
    assert_eq!(c.cursor(), at(0, 0));
}

#[test]
fn click_clamps_to_text() {
    let mut c = Content::with_text("ab\ncdef");
    c.perform(Action::Click { line: 9, offset: 9 });
    assert_eq!(c.cursor(), at(1, 4));
    c.perform(Action::Click { line: 0, offset: 9 });
    assert_eq!(c.cursor(), at(0, 2));
}

#[test]
fn default_is_new() {
    let c = Content::default();
    assert_eq!(c.line_count(), 1);
    assert_eq!(c.text(), "");
}

#[test]
fn insert_then_backspace_restores() {
    let mut c = Content::with_text("aé\nb");
    c.perform(Action::Click { line: 0, offset: 1 });
    let before = (c.text(), c.cursor(), c.line_count());
    for ch in ['x', 'ü', '€', '😀'] {
        c.perform(Action::Insert(ch));
        c.perform(Action::Backspace);
        assert_eq!((c.text(), c.cursor(), c.line_count()), before);
    }
}

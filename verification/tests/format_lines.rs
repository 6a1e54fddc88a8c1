use markright::widget::rich_editor::operation::{covered_paragraphs, format_lines, paragraph_at, Cursor, Position};

fn at(line: usize, column: usize) -> Position {
    Position { line, column }
}

#[test]
fn caret_covers_its_own_line() {
    let cursor = Cursor { position: at(3, 7), selection: None };
    assert_eq!(format_lines(&cursor), (3, 3));
}

#[test]
fn selection_covers_its_lines_in_either_direction() {
    let forward = Cursor { position: at(1, 4), selection: Some(at(3, 0)) };
    let backward = Cursor { position: at(3, 0), selection: Some(at(1, 4)) };
    assert_eq!(format_lines(&forward), (1, 3));
    assert_eq!(format_lines(&backward), (1, 3));
    let same_line = Cursor { position: at(2, 9), selection: Some(at(2, 1)) };
    assert_eq!(format_lines(&same_line), (2, 2));
}

#[test]
fn paragraphs_past_the_end_take_the_default() {
    let paras = [10u8, 20, 30];
    assert_eq!(paragraph_at(&paras, 1, 0), 20);
    assert_eq!(paragraph_at(&paras, 3, 0), 0);
    let cursor = Cursor { position: at(4, 0), selection: Some(at(1, 2)) };
    assert_eq!(covered_paragraphs(&cursor, &paras, 0), vec![(1, 20), (2, 30), (3, 0), (4, 0)]);
    let caret = Cursor { position: at(0, 0), selection: None };
    assert_eq!(covered_paragraphs(&caret, &paras, 0), vec![(0, 10)]);
}

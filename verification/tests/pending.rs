use std::sync::Arc;

use markright::document::Alignment;
use markright::widget::rich_editor::action::{Action, Edit, FormatAction, Motion};
use markright::widget::rich_editor::cursor::{
    char_utf8_len, holds_line_break, pending_step, resolve_style, widget_pending_step, CharStyle, Restyle,
};

fn bold() -> CharStyle {
    CharStyle { bold: Some(true), ..CharStyle::default() }
}

#[test]
fn utf8_lengths() {
    assert_eq!(char_utf8_len('a'), 1);
    assert_eq!(char_utf8_len('é'), 2);
    assert_eq!(char_utf8_len('€'), 3);
    assert_eq!(char_utf8_len('😀'), 4);
}

#[test]
fn typing_keeps_pending_and_styles_the_character() {
    let (pending, restyle) =
        pending_step(Some(bold()), &Action::Edit(Edit::Insert('é')), 2, 5, false, CharStyle::default());
    assert_eq!(pending, Some(bold()));
    assert_eq!(restyle, Some(Restyle { line: 2, range: 5..7, style: bold() }));
    let (pending, restyle) =
        pending_step(None, &Action::Edit(Edit::Insert('a')), 0, 0, false, CharStyle::default());
    assert_eq!(pending, None);
    assert_eq!(restyle, None);
}

#[test]
fn paste_styles_the_text_and_clears_pending() {
    let action = Action::Edit(Edit::Paste(Arc::new("héllo".to_string())));
    let (pending, restyle) = pending_step(Some(bold()), &action, 1, 3, false, CharStyle::default());
    assert_eq!(pending, None);
    assert_eq!(restyle, Some(Restyle { line: 1, range: 3..9, style: bold() }));
}

#[test]
fn other_actions_clear_pending() {
    for action in [
        Action::Edit(Edit::Enter),
        Action::Edit(Edit::Backspace),
        Action::Edit(Edit::Delete),
        Action::Move(Motion::Left),
        Action::SelectAll,
    ] {
        assert_eq!(pending_step(Some(bold()), &action, 0, 0, false, CharStyle::default()), (None, None));
    }
}

#[test]
fn format_without_selection_updates_pending() {
    let before = CharStyle { italic: Some(true), ..CharStyle::default() };
    let (pending, restyle) =
        pending_step(None, &Action::Edit(Edit::Format(FormatAction::ToggleBold)), 0, 4, false, before);
    assert_eq!(pending, Some(CharStyle { bold: Some(true), italic: Some(true), ..CharStyle::default() }));
    assert_eq!(restyle, None);
    let (pending, _) =
        pending_step(Some(bold()), &Action::Edit(Edit::Format(FormatAction::ToggleBold)), 0, 4, false, before);
    assert_eq!(pending, Some(CharStyle { bold: Some(false), ..CharStyle::default() }));
}

#[test]
fn format_of_selection_or_line_keeps_pending() {
    let (pending, _) =
        pending_step(None, &Action::Edit(Edit::Format(FormatAction::ToggleBold)), 0, 4, true, bold());
    assert_eq!(pending, None);
    let (pending, _) = pending_step(
        Some(bold()),
        &Action::Edit(Edit::Format(FormatAction::SetAlignment(Alignment::Center))),
        0,
        4,
        false,
        CharStyle::default(),
    );
    assert_eq!(pending, Some(bold()));
}

#[test]
fn undo_redo_and_list_nesting_with_pending_style() {
    for action in [Action::Undo, Action::Redo] {
        assert_eq!(pending_step(Some(bold()), &action, 0, 0, false, CharStyle::default()), (None, None));
    }
    let (pending, restyle) = pending_step(
        Some(bold()),
        &Action::Edit(Edit::Format(FormatAction::IndentList)),
        0,
        0,
        false,
        CharStyle::default(),
    );
    assert_eq!(pending, Some(bold()));
    assert_eq!(restyle, None);
}

fn defaults() -> CharStyle {
    CharStyle { bold: Some(false), size: Some(0x4160_0000), ..CharStyle::default() }
}

#[test]
fn resolved_style_fills_from_defaults() {
    let italic = CharStyle { italic: Some(true), ..CharStyle::default() };
    assert_eq!(
        resolve_style(Some(bold()), italic, &defaults()),
        CharStyle { bold: Some(true), size: Some(0x4160_0000), ..CharStyle::default() }
    );
    assert_eq!(
        resolve_style(None, italic, &defaults()),
        CharStyle { bold: Some(false), italic: Some(true), size: Some(0x4160_0000), ..CharStyle::default() }
    );
}

#[test]
fn widget_enter_carries_the_resolved_style() {
    let (pending, restyle) =
        widget_pending_step(None, &Action::Edit(Edit::Enter), 0, 3, false, bold(), &defaults());
    assert_eq!(pending, Some(CharStyle { bold: Some(true), size: Some(0x4160_0000), ..CharStyle::default() }));
    assert_eq!(restyle, None);
    // The plain content clears it instead.
    assert_eq!(pending_step(Some(bold()), &Action::Edit(Edit::Enter), 0, 3, false, bold()), (None, None));
}

#[test]
fn widget_typing_always_styles_the_character() {
    let (pending, restyle) =
        widget_pending_step(None, &Action::Edit(Edit::Insert('€')), 1, 2, false, bold(), &defaults());
    assert_eq!(pending, None);
    assert_eq!(
        restyle,
        Some(Restyle {
            line: 1,
            range: 2..5,
            style: CharStyle { bold: Some(true), size: Some(0x4160_0000), ..CharStyle::default() },
        })
    );
}

#[test]
fn widget_paste_styles_one_line_only() {
    let one = Action::Edit(Edit::Paste(Arc::new("abc".to_string())));
    let (pending, restyle) = widget_pending_step(Some(bold()), &one, 0, 1, false, CharStyle::default(), &defaults());
    assert_eq!(pending, None);
    assert_eq!(
        restyle,
        Some(Restyle {
            line: 0,
            range: 1..4,
            style: CharStyle { bold: Some(true), size: Some(0x4160_0000), ..CharStyle::default() },
        })
    );
    let two = Action::Edit(Edit::Paste(Arc::new("a\nb".to_string())));
    assert_eq!(widget_pending_step(Some(bold()), &two, 0, 1, false, CharStyle::default(), &defaults()), (None, None));
}

#[test]
fn widget_other_actions_follow_the_content() {
    assert_eq!(
        widget_pending_step(Some(bold()), &Action::Edit(Edit::Backspace), 0, 1, false, bold(), &defaults()),
        (None, None)
    );
    let (pending, _) = widget_pending_step(
        None,
        &Action::Edit(Edit::Format(FormatAction::ToggleBold)),
        0,
        1,
        false,
        CharStyle::default(),
        &defaults(),
    );
    assert_eq!(pending, Some(bold()));
}

#[test]
fn line_breaks_are_found() {
    assert!(holds_line_break("a\r"));
    assert!(holds_line_break("\n"));
    assert!(!holds_line_break("plain é"));
}

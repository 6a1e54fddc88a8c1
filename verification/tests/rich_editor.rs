use markright::appearance::Color;
use markright::widget::rich_editor::action::{Action, Edit, FormatAction, Motion, Point};
use markright::widget::rich_editor::binding::{
    convert_macos_shortcut, motion, to_latin, Binding, Key, KeyPress, Modifiers, Named, PhysicalKey,
};
use markright::widget::rich_editor::style;
use markright::widget::rich_editor::style::{Background, Palette, RADIUS_TWO, WIDTH_ONE};
use markright::widget::rich_editor::{blink_visible, Focus, Status};

fn mods() -> Modifiers {
    Modifiers { shift: false, control: false, alt: false, logo: false, macos: false }
}

/// The physical key of the Latin letter `latin` on a US layout.
fn physical_of(latin: Option<char>) -> PhysicalKey {
    match latin {
        Some(c) if c.is_ascii_digit() => PhysicalKey::Digit(c),
        Some(c) => PhysicalKey::Letter(c),
        None => PhysicalKey::Other,
    }
}

fn press(key: Key, text: Option<&str>, modifiers: Modifiers, latin: Option<char>) -> KeyPress {
    KeyPress {
        modified_key: key.clone(),
        key,
        physical_key: physical_of(latin),
        modifiers,
        text: text.map(String::from),
        status: Status::Focused { is_hovered: false },
    }
}

fn char_key(s: &str) -> Key {
    Key::Character(s.to_string())
}

#[test]
fn unfocused_editor_has_no_bindings() {
    let mut p = press(Key::Named(Named::Enter), None, mods(), None);
    p.status = Status::Active;
    assert_eq!(Binding::<()>::from_key_press(p), None);
}

#[test]
fn command_shortcuts() {
    let ctrl = Modifiers { control: true, ..mods() };
    let cases = [
        ('c', Binding::<()>::Copy),
        ('x', Binding::Cut),
        ('v', Binding::Paste),
        ('a', Binding::SelectAll),
        ('b', Binding::Format(FormatAction::ToggleBold)),
        ('i', Binding::Format(FormatAction::ToggleItalic)),
        ('u', Binding::Format(FormatAction::ToggleUnderline)),
    ];
    for (c, expected) in cases {
        let s = c.to_string();
        let p = press(char_key(&s), Some(&s), ctrl, Some(c));
        assert_eq!(Binding::<()>::from_key_press(p), Some(expected));
    }
}

#[test]
fn command_is_logo_on_macos() {
    let logo = Modifiers { logo: true, macos: true, ..mods() };
    let p = press(char_key("b"), Some("b"), logo, Some('b'));
    assert_eq!(Binding::<()>::from_key_press(p), Some(Binding::Format(FormatAction::ToggleBold)));
    let ctrl_mac = Modifiers { control: true, macos: true, ..mods() };
    let p = press(char_key("c"), Some("c"), ctrl_mac, Some('c'));
    assert_eq!(Binding::<()>::from_key_press(p), Some(Binding::Insert('c')));
}

#[test]
fn shortcuts_follow_the_physical_key_on_other_layouts() {
    let ctrl = Modifiers { control: true, ..mods() };
    // A Cyrillic layout: the key at the place of B types "и".
    let p = KeyPress {
        key: char_key("и"),
        modified_key: char_key("и"),
        physical_key: PhysicalKey::Letter('b'),
        modifiers: ctrl,
        text: Some("и".to_string()),
        status: Status::Focused { is_hovered: false },
    };
    assert_eq!(Binding::<()>::from_key_press(p.clone()), Some(Binding::Format(FormatAction::ToggleBold)));
    // Without the command key it types the character.
    let typed = KeyPress { modifiers: mods(), ..p.clone() };
    assert_eq!(Binding::<()>::from_key_press(typed), Some(Binding::Insert('и')));
    // A physical key with no Latin letter gives no shortcut.
    let other = KeyPress { physical_key: PhysicalKey::Other, ..p };
    assert_eq!(Binding::<()>::from_key_press(other), Some(Binding::Insert('и')));
}

#[test]
fn latin_letter_of_a_key() {
    assert_eq!(to_latin(&char_key("ж"), PhysicalKey::Letter('c')), Some('c'));
    assert_eq!(to_latin(&char_key("ж"), PhysicalKey::Digit('7')), Some('7'));
    assert_eq!(to_latin(&char_key("ж"), PhysicalKey::Other), None);
    assert_eq!(to_latin(&char_key("q"), PhysicalKey::Letter('c')), Some('q'));
    assert_eq!(to_latin(&char_key("ab"), PhysicalKey::Letter('c')), Some('c'));
    assert_eq!(to_latin(&char_key(""), PhysicalKey::Letter('c')), None);
    assert_eq!(to_latin(&Key::Named(Named::Enter), PhysicalKey::Letter('c')), None);
}

#[test]
fn undo_redo_and_list_nesting_keys() {
    let ctrl = Modifiers { control: true, ..mods() };
    let p = press(char_key("z"), Some("z"), ctrl, Some('z'));
    assert_eq!(Binding::<()>::from_key_press(p), Some(Binding::Undo));
    let p = press(char_key("y"), Some("y"), ctrl, Some('y'));
    assert_eq!(Binding::<()>::from_key_press(p), Some(Binding::Redo));
    let p = press(Key::Named(Named::Tab), Some("\t"), mods(), None);
    assert_eq!(Binding::<()>::from_key_press(p), Some(Binding::Format(FormatAction::IndentList)));
    let shift = Modifiers { shift: true, ..mods() };
    let p = press(Key::Named(Named::Tab), Some("\t"), shift, None);
    assert_eq!(Binding::<()>::from_key_press(p), Some(Binding::Format(FormatAction::DedentList)));
}

#[test]
fn alt_paste_is_not_paste() {
    let ctrl_alt = Modifiers { control: true, alt: true, ..mods() };
    let p = press(char_key("v"), Some("v"), ctrl_alt, Some('v'));
    assert_eq!(Binding::<()>::from_key_press(p), Some(Binding::Insert('v')));
}

#[test]
fn named_keys() {
    for (named, expected) in [
        (Named::Enter, Binding::<()>::Enter),
        (Named::Backspace, Binding::Backspace),
        (Named::Delete, Binding::Delete),
        (Named::Escape, Binding::Unfocus),
    ] {
        let p = press(Key::Named(named), None, mods(), None);
        assert_eq!(Binding::<()>::from_key_press(p), Some(expected));
    }
    let p = press(Key::Named(Named::Delete), Some("\u{7f}"), mods(), None);
    assert_eq!(Binding::<()>::from_key_press(p), Some(Binding::Delete));
}

#[test]
fn text_inserts_first_printable_character() {
    let p = press(char_key("q"), Some("\u{1b}q"), mods(), Some('q'));
    assert_eq!(Binding::<()>::from_key_press(p), Some(Binding::Insert('q')));
    let p = press(char_key("x"), Some("\u{7}"), mods(), Some('x'));
    assert_eq!(Binding::<()>::from_key_press(p), None);
}

#[test]
fn arrows_move_select_and_widen() {
    let p = press(Key::Named(Named::ArrowLeft), None, mods(), None);
    assert_eq!(Binding::<()>::from_key_press(p), Some(Binding::Move(Motion::Left)));
    let shift = Modifiers { shift: true, ..mods() };
    let p = press(Key::Named(Named::ArrowRight), None, shift, None);
    assert_eq!(Binding::<()>::from_key_press(p), Some(Binding::Select(Motion::Right)));
    let ctrl = Modifiers { control: true, ..mods() };
    let p = press(Key::Named(Named::ArrowLeft), None, ctrl, None);
    assert_eq!(Binding::<()>::from_key_press(p), Some(Binding::Move(Motion::WordLeft)));
    let p = press(Key::Named(Named::Home), None, ctrl, None);
    assert_eq!(Binding::<()>::from_key_press(p), Some(Binding::Move(Motion::DocumentStart)));
}

#[test]
fn macos_command_arrow_goes_to_line_ends() {
    let cmd = Modifiers { logo: true, macos: true, ..mods() };
    let p = press(Key::Named(Named::ArrowRight), None, cmd, None);
    assert_eq!(Binding::<()>::from_key_press(p), Some(Binding::Move(Motion::End)));
}

#[test]
fn macos_emacs_shortcuts() {
    let ctrl = Modifiers { control: true, ..mods() };
    assert_eq!(convert_macos_shortcut(&char_key("f"), ctrl), Some(Key::Named(Named::ArrowRight)));
    assert_eq!(convert_macos_shortcut(&char_key("h"), ctrl), Some(Key::Named(Named::Backspace)));
    assert_eq!(convert_macos_shortcut(&char_key("z"), ctrl), None);
    let ctrl_shift = Modifiers { shift: true, ..ctrl };
    assert_eq!(convert_macos_shortcut(&char_key("f"), ctrl_shift), None);
    let mac_ctrl = Modifiers { control: true, macos: true, ..mods() };
    let p = press(char_key("h"), None, mac_ctrl, Some('h'));
    assert_eq!(Binding::<()>::from_key_press(p), Some(Binding::Backspace));
}

#[test]
fn named_key_motions() {
    assert_eq!(motion(Named::PageDown), Some(Motion::PageDown));
    assert_eq!(motion(Named::ArrowUp), Some(Motion::Up));
    assert_eq!(motion(Named::Enter), None);
}

#[test]
fn widen_motions() {
    assert_eq!(Motion::Right.widen(), Motion::WordRight);
    assert_eq!(Motion::End.widen(), Motion::DocumentEnd);
    assert_eq!(Motion::Up.widen(), Motion::Up);
}

#[test]
fn only_edits_are_edits() {
    assert!(Action::Edit(Edit::Enter).is_edit());
    assert!(Action::Edit(Edit::Format(FormatAction::ToggleBold)).is_edit());
    assert!(!Action::Move(Motion::Left).is_edit());
    assert!(!Action::Click(Point { x: 0, y: 0 }).is_edit());
}

fn c(n: u32) -> Color {
    Color { r: n, g: n, b: n, a: n }
}

fn palette() -> Palette {
    Palette {
        background_base: c(1),
        background_base_text: c(2),
        background_weak: c(3),
        background_strong: c(4),
        background_strongest: c(5),
        primary_weak: c(6),
        primary_strong: c(7),
        secondary_base: c(8),
    }
}

#[test]
fn default_style_per_status() {
    let p = palette();
    let active = style::default(&p, Status::Active);
    assert_eq!(active.background, Background::Color(c(1)));
    assert_eq!(active.border.color, c(4));
    assert_eq!(active.border.width, WIDTH_ONE);
    assert_eq!(active.border.radius.top_left, RADIUS_TWO);
    assert_eq!(active.placeholder, c(8));
    assert_eq!(active.value, c(2));
    assert_eq!(active.selection, c(6));
    assert_eq!(style::default(&p, Status::Hovered).border.color, c(2));
    assert_eq!(style::default(&p, Status::Focused { is_hovered: true }).border.color, c(7));
    let disabled = style::default(&p, Status::Disabled);
    assert_eq!(disabled.background, Background::Color(c(3)));
    assert_eq!(disabled.value, c(8));
    assert_eq!(disabled.placeholder, c(5));
    assert_eq!(disabled.border, active.border);
}

#[test]
fn cursor_blinks_every_half_second() {
    assert!(blink_visible(true, 0));
    assert!(blink_visible(true, 499));
    assert!(!blink_visible(true, 500));
    assert!(blink_visible(true, 1000));
    assert!(!blink_visible(false, 0));
}

#[test]
fn fresh_focus_shows_cursor() {
    assert!(Focus::now().is_cursor_visible());
}

use markright::widget::rich_editor::cursor::{Character, Context, Paragraph};
use markright::widget::rich_editor::operation::{ordered_positions, Position};
use markright::widget::rich_editor::popup::{Span, SpanRef};
use markright::widget::rich_editor::style::{Border, Radius};

fn pos(line: usize, column: usize) -> Position {
    Position { line, column }
}

#[test]
fn positions_are_ordered() {
    let a = pos(2, 5);
    let b = pos(1, 9);
    let (first, second) = ordered_positions(&a, &b);
    assert_eq!((*first, *second), (b, a));
    let c = pos(2, 7);
    assert_eq!(ordered_positions(&a, &c), (&a, &c));
    assert_eq!(ordered_positions(&c, &a), (&a, &c));
    assert_eq!(ordered_positions(&a, &a), (&a, &a));
}

#[test]
fn span_ref_names_span_by_line_and_range() {
    let span = Span {
        line: 3,
        range: 4..9,
        value: "{=1+2}".to_string(),
        placeholder: String::new(),
        background: None,
        border: Border { color: c(0), width: 0, radius: Radius { top_left: 0, top_right: 0, bottom_right: 0, bottom_left: 0 } },
        atomic: true,
    };
    assert_eq!(SpanRef::from(&span), SpanRef { line: 3, range: 4..9 });
}

#[test]
fn default_cursor_context_is_plain_left_aligned() {
    let context = Context::default();
    assert_eq!(context.character, Character::default());
    assert_eq!(context.paragraph, Paragraph::default());
    assert_eq!(context.paragraph.alignment, markright::document::Alignment::Left);
    assert_eq!(context.position, pos(0, 0));
}

use markright::widget::rich_editor::{apply_binding, click_action, millis_until_redraw, status, ClickKind, Effect};

#[test]
fn status_from_flags() {
    assert_eq!(status(true, true, true), Status::Disabled);
    assert_eq!(status(false, true, false), Status::Focused { is_hovered: false });
    assert_eq!(status(false, false, true), Status::Hovered);
    assert_eq!(status(false, false, false), Status::Active);
}

#[test]
fn redraw_at_next_blink() {
    assert_eq!(millis_until_redraw(0), 500);
    assert_eq!(millis_until_redraw(120), 380);
    assert_eq!(millis_until_redraw(1499), 1);
}

#[test]
fn clicks_place_or_select() {
    let p = Point { x: 1, y: 2 };
    assert_eq!(click_action(ClickKind::Single, p), Action::Click(p));
    assert_eq!(click_action(ClickKind::Double, p), Action::SelectWord);
    assert_eq!(click_action(ClickKind::Triple, p), Action::SelectLine);
}

#[test]
fn binding_effects_in_order() {
    let mut focused = true;
    let mut effects = Vec::new();
    let selection = Some("sel".to_string());
    let binding = Binding::Sequence(vec![
        Binding::Cut,
        Binding::Insert('x'),
        Binding::Unfocus,
        Binding::Unfocus,
        Binding::Sequence(vec![Binding::Paste, Binding::Custom(7u8)]),
    ]);
    apply_binding(binding, &mut focused, &selection, true, &mut effects);
    assert!(!focused);
    assert_eq!(
        effects,
        vec![
            Effect::WriteClipboard("sel".to_string()),
            Effect::Publish(Action::Edit(Edit::Delete)),
            Effect::Publish(Action::Edit(Edit::Insert('x'))),
            Effect::Blur,
            Effect::ReadClipboard,
            Effect::Custom(7u8),
        ]
    );
}

#[test]
fn undo_and_redo_bindings_publish_their_actions() {
    let mut focused = true;
    let mut effects: Vec<Effect<()>> = Vec::new();
    apply_binding(Binding::Undo, &mut focused, &None, false, &mut effects);
    apply_binding(Binding::Redo, &mut focused, &None, false, &mut effects);
    apply_binding(Binding::Format(FormatAction::IndentList), &mut focused, &None, false, &mut effects);
    assert_eq!(
        effects,
        vec![
            Effect::Publish(Action::Undo),
            Effect::Publish(Action::Redo),
            Effect::Publish(Action::Edit(Edit::Format(FormatAction::IndentList))),
        ]
    );
    assert!(focused);
}

#[test]
fn copy_without_selection_does_nothing() {
    let mut focused = false;
    let mut effects: Vec<Effect<()>> = Vec::new();
    apply_binding(Binding::Copy, &mut focused, &None, false, &mut effects);
    apply_binding(Binding::Unfocus, &mut focused, &None, true, &mut effects);
    assert!(effects.is_empty());
    assert!(!focused);
}

use markright::widget::rich_editor::operation::{selection_line_ranges, selection_style_position};

#[test]
fn selection_style_skips_blank_lines() {
    let lens = [4, 0, 0, 7];
    // Selection from the end of line 0 into line 3, given backwards.
    let p = selection_style_position(&pos(3, 5), &pos(0, 4), &lens);
    assert_eq!(p, pos(3, 0));
    let q = selection_style_position(&pos(0, 1), &pos(3, 5), &lens);
    assert_eq!(q, pos(0, 1));
    // An empty selection reads at its start.
    let r = selection_style_position(&pos(1, 0), &pos(2, 0), &lens);
    assert_eq!(r, pos(1, 0));
}

#[test]
fn selection_ranges_per_line() {
    let lens = [4, 0, 6, 7];
    assert_eq!(
        selection_line_ranges(&pos(3, 2), &pos(0, 1), &lens),
        vec![(0, 1..4), (2, 0..6), (3, 0..2)]
    );
    assert_eq!(selection_line_ranges(&pos(2, 1), &pos(2, 5), &lens), vec![(2, 1..5)]);
    assert_eq!(selection_line_ranges(&pos(2, 3), &pos(2, 3), &lens), vec![]);
}

use markright::widget::rich_editor::cursor::{character_of, fill_from_defaults, update_pending_style, CharStyle};

#[test]
fn defaults_fill_unset_attributes_only() {
    let mut style = CharStyle { bold: Some(false), size: Some(12.0f32.to_bits()), ..CharStyle::default() };
    let defaults = CharStyle {
        bold: Some(true),
        italic: Some(true),
        size: Some(16.0f32.to_bits()),
        color: Some(c(9)),
        ..CharStyle::default()
    };
    fill_from_defaults(&mut style, &defaults);
    assert_eq!(style.bold, Some(false));
    assert_eq!(style.italic, Some(true));
    assert_eq!(style.size, Some(12.0f32.to_bits()));
    assert_eq!(style.color, Some(c(9)));
    assert_eq!(style.underline, None);
}

#[test]
fn pending_style_toggles_and_sets() {
    let mut style = CharStyle::default();
    update_pending_style(&mut style, &FormatAction::ToggleBold);
    assert_eq!(style.bold, Some(true));
    update_pending_style(&mut style, &FormatAction::ToggleBold);
    assert_eq!(style.bold, Some(false));
    update_pending_style(&mut style, &FormatAction::SetFontSize(20.0f32.to_bits()));
    assert_eq!(style.size, Some(20.0f32.to_bits()));
    let before = style;
    update_pending_style(&mut style, &FormatAction::SetAlignment(markright::document::Alignment::Center));
    assert_eq!(style, before);
    let ch = character_of(&style);
    assert!(!ch.bold && !ch.italic && !ch.underline);
    assert_eq!(ch.size, Some(20.0f32.to_bits()));
}

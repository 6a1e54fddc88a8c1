use markright::appearance::{Family, Font, FontStyle, Weight};
use markright::editor::{
    build_heading_spans, build_inline_spans, build_paragraph_spans, font_for_heading_style,
    font_for_style, key_actions, Action, InlineSpan, Motion, SpanStyle, TextPiece,
};
use markright::widget::rich_editor::binding::{Key, Named};

fn plain() -> SpanStyle {
    SpanStyle { bold: false, italic: false, code: false, strikethrough: false }
}

fn mono() -> Font {
    Font { family: Family::Monospace, ..Font::default() }
}

fn bold(f: Font) -> Font {
    Font { weight: Weight::Bold, ..f }
}

fn italic(f: Font) -> Font {
    Font { style: FontStyle::Italic, ..f }
}

fn piece(range: std::ops::Range<usize>, font: Option<Font>) -> TextPiece {
    TextPiece { range, font, code_color: false, strikethrough: false }
}

#[test]
fn named_keys_give_one_action() {
    assert_eq!(key_actions(true, &Key::Named(Named::Backspace), false, None), vec![Action::Backspace]);
    assert_eq!(key_actions(true, &Key::Named(Named::Enter), true, Some("\r")), vec![Action::Enter]);
    assert_eq!(
        key_actions(true, &Key::Named(Named::ArrowUp), false, None),
        vec![Action::Move(Motion::Up)]
    );
    assert_eq!(key_actions(true, &Key::Named(Named::Escape), false, None), vec![]);
}

#[test]
fn typed_text_publishes_characters_in_typing_order() {
    let key = Key::Character("a".to_string());
    assert_eq!(key_actions(true, &key, false, Some("a")), vec![Action::Insert('a')]);
    assert_eq!(
        key_actions(true, &key, false, Some("abc")),
        vec![Action::Insert('a'), Action::Insert('b'), Action::Insert('c')]
    );
}

#[test]
fn typed_text_skips_control_characters_but_not_newline() {
    let key = Key::Character("x".to_string());
    assert_eq!(
        key_actions(true, &key, false, Some("\u{1b}x\n")),
        vec![Action::Insert('x'), Action::Insert('\n')]
    );
    assert_eq!(key_actions(true, &key, false, Some("\u{7}")), vec![]);
}

#[test]
fn command_key_suppresses_typing() {
    let key = Key::Character("s".to_string());
    assert_eq!(key_actions(true, &key, true, Some("s")), vec![]);
    assert_eq!(key_actions(true, &key, false, None), vec![]);
}

#[test]
fn fonts_for_styles() {
    let base = Font::default();
    let s = SpanStyle { bold: true, italic: true, ..plain() };
    assert_eq!(font_for_style(&s, base, mono()), italic(bold(base)));
    let code = SpanStyle { code: true, bold: true, ..plain() };
    assert_eq!(font_for_style(&code, base, mono()), mono());
    assert_eq!(font_for_heading_style(&code, bold(base), mono()), bold(mono()));
    let it = SpanStyle { italic: true, ..plain() };
    assert_eq!(font_for_heading_style(&it, bold(base), mono()), italic(bold(base)));
}

#[test]
fn paragraph_pieces_fill_gaps_and_trailing_text() {
    let base = Font::default();
    let spans = [
        InlineSpan { range: 2..5, style: SpanStyle { bold: true, ..plain() } },
        InlineSpan { range: 5..7, style: plain() },
        InlineSpan { range: 9..10, style: SpanStyle { code: true, strikethrough: true, ..plain() } },
    ];
    let pieces = build_inline_spans(12, &spans, base, mono());
    assert_eq!(
        pieces,
        vec![
            piece(0..2, None),
            piece(2..5, Some(bold(base))),
            piece(5..7, None),
            piece(7..9, None),
            TextPiece { range: 9..10, font: Some(mono()), code_color: true, strikethrough: true },
            piece(10..12, None),
        ]
    );
    assert_eq!(build_paragraph_spans(12, &spans, base, mono()), pieces);
}

#[test]
fn heading_pieces_are_bold() {
    let base = Font::default();
    let spans = [InlineSpan { range: 1..3, style: SpanStyle { italic: true, ..plain() } }];
    assert_eq!(
        build_heading_spans(4, &spans, base, mono()),
        vec![piece(0..1, Some(bold(base))), piece(1..3, Some(italic(bold(base)))), piece(3..4, Some(bold(base)))]
    );
}

#[test]
fn empty_block_has_one_empty_piece() {
    let base = Font::default();
    assert_eq!(build_inline_spans(0, &[], base, mono()), vec![piece(0..0, None)]);
    assert_eq!(build_heading_spans(0, &[], base, mono()), vec![piece(0..0, Some(bold(base)))]);
    assert_eq!(build_inline_spans(3, &[], base, mono()), vec![piece(0..3, None)]);
}

#[test]
fn keys_do_nothing_without_focus() {
    assert_eq!(key_actions(false, &Key::Named(Named::Backspace), false, None), vec![]);
    assert_eq!(key_actions(false, &Key::Character("a".to_string()), false, Some("a")), vec![]);
}

//! The block editor's actions, and the actions a key press asks for.

use std::ops::Range;

use vstd::prelude::*;

use crate::appearance::{Font, FontStyle, Weight};
use crate::widget::rich_editor::binding::{is_control, is_control_spec, Key, Named};

verus! {

/// Action that can be performed on the document.
#[derive(Debug, Clone, Copy, PartialEq, Eq, Structural)]
#[non_exhaustive]
pub enum Action {
    Insert(char),
    Delete,
    Backspace,
    Enter,
    Move(Motion),
    Click { block: usize, offset: usize },
}

/// Cursor motion direction.
#[derive(Debug, Clone, Copy, PartialEq, Eq, Structural)]
#[non_exhaustive]
pub enum Motion {
    Left,
    Right,
    Up,
    Down,
    Home,
    End,
}

/// The action of a named editing or navigation key.
pub open spec fn named_action(named: Named) -> Option<Action> {
    match named {
        Named::Backspace => Some(Action::Backspace),
        Named::Delete => Some(Action::Delete),
        Named::Enter => Some(Action::Enter),
        Named::ArrowLeft => Some(Action::Move(Motion::Left)),
        Named::ArrowRight => Some(Action::Move(Motion::Right)),
        Named::ArrowUp => Some(Action::Move(Motion::Up)),
        Named::ArrowDown => Some(Action::Move(Motion::Down)),
        Named::Home => Some(Action::Move(Motion::Home)),
        Named::End => Some(Action::Move(Motion::End)),
        _ => None,
    }
}

/// The characters of typed text that are inserted: all but the control
/// characters, a newline excepted.
pub open spec fn typed_inserts(text: Seq<char>) -> Seq<Action>
    decreases text.len(),
{
    if text.len() == 0 {
        Seq::empty()
    } else {
        let prev = typed_inserts(text.drop_last());
        let c = text.last();
        if !is_control_spec(c) || c == '\n' {
            prev.push(Action::Insert(c))
        } else {
            prev
        }
    }
}

/// The actions a key press publishes, in the order it publishes them: none
/// while the editor is not focused; a named key's action; or, without the
/// command key, an insertion for each typed character, in the order they
/// were typed, so that the text reads as it was typed.
pub open spec fn key_actions_spec(focused: bool, key: Key, command: bool, text: Option<Seq<char>>) -> Seq<Action> {
    let named = match key {
        Key::Named(n) => named_action(n),
        _ => None,
    };
    if !focused {
        Seq::empty()
    } else {
    match named {
        Some(a) => seq![a],
        None => if command {
            Seq::empty()
        } else {
            match text {
                None => Seq::empty(),
                Some(t) => typed_inserts(t),
            }
        },
    }
    }
}

/// No two named keys ask for the same action.
pub proof fn lemma_named_action_injective(a: Named, b: Named)
    ensures
        named_action(a) is Some && named_action(a) == named_action(b) ==> a == b,
{
}

/// The block editor reads the editing and navigation keys as the rich
/// editor does: for a bare press of a named key in a focused editor, a key
/// that deletes backward, deletes forward, breaks the line or moves the
/// cursor here is bound to the same edit or motion there.
pub proof fn lemma_named_action_agrees<M>(n: Named, e: crate::widget::rich_editor::binding::KeyPress)
    requires
        e.key == Key::Named(n),
        e.modified_key == Key::Named(n),
        e.modifiers == (crate::widget::rich_editor::binding::Modifiers {
            shift: false,
            control: false,
            alt: false,
            logo: false,
            macos: false,
        }),
        e.text is None,
        e.status is Focused,
    ensures
        named_action(n) == Some(Action::Backspace) ==> crate::widget::rich_editor::binding::binding_spec::<M>(e, None)
            == Some(crate::widget::rich_editor::binding::Binding::<M>::Backspace),
        named_action(n) == Some(Action::Delete) ==> crate::widget::rich_editor::binding::binding_spec::<M>(e, None)
            == Some(crate::widget::rich_editor::binding::Binding::<M>::Delete),
        named_action(n) == Some(Action::Enter) ==> crate::widget::rich_editor::binding::binding_spec::<M>(e, None)
            == Some(crate::widget::rich_editor::binding::Binding::<M>::Enter),
        named_action(n) == Some(Action::Move(Motion::Left)) ==> crate::widget::rich_editor::binding::binding_spec::<M>(
            e,
            None,
        ) == Some(crate::widget::rich_editor::binding::Binding::<M>::Move(crate::widget::rich_editor::action::Motion::Left)),
        named_action(n) == Some(Action::Move(Motion::Right)) ==> crate::widget::rich_editor::binding::binding_spec::<M>(
            e,
            None,
        ) == Some(crate::widget::rich_editor::binding::Binding::<M>::Move(crate::widget::rich_editor::action::Motion::Right)),
        named_action(n) == Some(Action::Move(Motion::Up)) ==> crate::widget::rich_editor::binding::binding_spec::<M>(
            e,
            None,
        ) == Some(crate::widget::rich_editor::binding::Binding::<M>::Move(crate::widget::rich_editor::action::Motion::Up)),
        named_action(n) == Some(Action::Move(Motion::Down)) ==> crate::widget::rich_editor::binding::binding_spec::<M>(
            e,
            None,
        ) == Some(crate::widget::rich_editor::binding::Binding::<M>::Move(crate::widget::rich_editor::action::Motion::Down)),
        named_action(n) == Some(Action::Move(Motion::Home)) ==> crate::widget::rich_editor::binding::binding_spec::<M>(
            e,
            None,
        ) == Some(crate::widget::rich_editor::binding::Binding::<M>::Move(crate::widget::rich_editor::action::Motion::Home)),
        named_action(n) == Some(Action::Move(Motion::End)) ==> crate::widget::rich_editor::binding::binding_spec::<M>(
            e,
            None,
        ) == Some(crate::widget::rich_editor::binding::Binding::<M>::Move(crate::widget::rich_editor::action::Motion::End)),
{
}

fn named_key_action(named: Named) -> (a: Option<Action>)
    ensures
        a == named_action(named),
{
    match named {
        Named::Backspace => Some(Action::Backspace),
        Named::Delete => Some(Action::Delete),
        Named::Enter => Some(Action::Enter),
        Named::ArrowLeft => Some(Action::Move(Motion::Left)),
        Named::ArrowRight => Some(Action::Move(Motion::Right)),
        Named::ArrowUp => Some(Action::Move(Motion::Up)),
        Named::ArrowDown => Some(Action::Move(Motion::Down)),
        Named::Home => Some(Action::Move(Motion::Home)),
        Named::End => Some(Action::Move(Motion::End)),
        _ => None,
    }
}

/// The actions a key press asks of the editor, in the order they are to be
/// published; `focused` tells whether the editor has focus (a press inside
/// it gives focus, one outside takes it away), `command` whether the
/// command key is held and `text` is the text the press produced.
pub fn key_actions(focused: bool, key: &Key, command: bool, text: Option<&str>) -> (actions: Vec<Action>)
    ensures
        actions@ == key_actions_spec(
            focused,
            *key,
            command,
            match text {
                Some(t) => Some(t@),
                None => None,
            },
        ),
{
    let mut published: Vec<Action> = Vec::new();
    if !focused {
        return published;
    }
    let named = match key {
        Key::Named(n) => named_key_action(*n),
        _ => None,
    };
    if let Some(action) = named {
        published.push(action);
        assert(published@ =~= seq![action]);
        return published;
    }
    // Text input: insert each character from the text field.
    if !command {
        if let Some(txt) = text {
            let n = txt.unicode_len();
            let mut i: usize = 0;
            while i < n
                invariant
                    n == txt@.len(),
                    i <= n,
                    published@ == typed_inserts(txt@.take(i as int)),
                decreases n - i,
            {
                let ch = txt.get_char(i);
                assert(txt@.take(i + 1).drop_last() =~= txt@.take(i as int));
                assert(txt@.take(i + 1).last() == ch);
                if !is_control(ch) || ch == '\n' {
                    published.push(Action::Insert(ch));
                }
                i += 1;
            }
            assert(txt@.take(i as int) =~= txt@);
        }
    }
    published
}

} // verus!

verus! {

/// The inline style of a span of a block's display text.
#[derive(Debug, Clone, Copy, PartialEq, Eq, Structural)]
pub struct SpanStyle {
    pub bold: bool,
    pub italic: bool,
    pub code: bool,
    pub strikethrough: bool,
}

/// A styled span of a block's display text.
#[derive(Debug, PartialEq, Eq)]
pub struct InlineSpan {
    pub range: Range<usize>,
    pub style: SpanStyle,
}

/// A piece of display text to draw: its byte range, the font it is drawn
/// in when not the paragraph's own, whether it takes the code color, and
/// whether it is struck through.
#[derive(Debug, PartialEq, Eq)]
pub struct TextPiece {
    pub range: Range<usize>,
    pub font: Option<Font>,
    pub code_color: bool,
    pub strikethrough: bool,
}

pub open spec fn bold_font(f: Font) -> Font {
    Font { weight: Weight::Bold, ..f }
}

pub open spec fn italic_font(f: Font) -> Font {
    Font { style: FontStyle::Italic, ..f }
}

/// The font of an inline style in a paragraph: monospace for code,
/// otherwise the base font made bold and italic as asked.
pub open spec fn font_for_style_spec(style: SpanStyle, base: Font, mono: Font) -> Font {
    if style.code {
        mono
    } else {
        let f = if style.bold {
            bold_font(base)
        } else {
            base
        };
        if style.italic {
            italic_font(f)
        } else {
            f
        }
    }
}

/// The font of an inline style in a heading: bold monospace for code,
/// otherwise the heading's font, italic if asked.
pub open spec fn font_for_heading_style_spec(style: SpanStyle, heading_base: Font, mono: Font) -> Font {
    if style.code {
        bold_font(mono)
    } else if style.italic {
        italic_font(heading_base)
    } else {
        heading_base
    }
}

/// Determine the font for a given inline style in a paragraph.
pub fn font_for_style(style: &SpanStyle, base: Font, mono: Font) -> (f: Font)
    ensures
        f == font_for_style_spec(*style, base, mono),
{
    if style.code {
        return mono;
    }

    let mut font = base;
    if style.bold {
        font.weight = Weight::Bold;
    }
    if style.italic {
        font.style = FontStyle::Italic;
    }
    font
}

/// Determine the font for a given inline style within a heading.
///
/// Headings are always bold, so we start from a bold base. Inline bold is
/// redundant but harmless; inline italic adds italic on top.
pub fn font_for_heading_style(style: &SpanStyle, heading_base: Font, mono: Font) -> (f: Font)
    ensures
        f == font_for_heading_style_spec(*style, heading_base, mono),
{
    if style.code {
        // Code in a heading: monospace but keep bold weight.
        return Font { weight: Weight::Bold, ..mono };
    }

    let mut font = heading_base;
    if style.italic {
        font.style = FontStyle::Italic;
    }
    font
}

/// Bold and italic act on a font independently: in a paragraph, a code
/// span takes the monospace font, and any other span keeps the base font's
/// family and stretch, is bold exactly when asked (else keeps the base
/// weight) and italic exactly when asked (else keeps the base style); such a
/// span is drawn in its own font exactly when it asks for a weight or a
/// style the base font lacks. In a heading, code is bold monospace, and any
/// other span keeps the heading font, made italic exactly when asked.
pub proof fn lemma_style_fonts(style: SpanStyle, base: Font, mono: Font)
    ensures
        style.code ==> font_for_style_spec(style, base, mono) == mono,
        !style.code ==> font_for_style_spec(style, base, mono).family == base.family && font_for_style_spec(
            style,
            base,
            mono,
        ).stretch == base.stretch,
        !style.code ==> font_for_style_spec(style, base, mono).weight == (if style.bold {
            Weight::Bold
        } else {
            base.weight
        }),
        !style.code ==> font_for_style_spec(style, base, mono).style == (if style.italic {
            FontStyle::Italic
        } else {
            base.style
        }),
        !style.code ==> (span_piece_font(style, base, mono, false) is None <==> ((!style.bold || base.weight
            == Weight::Bold) && (!style.italic || base.style == FontStyle::Italic))),
        style.code ==> font_for_heading_style_spec(style, base, mono).weight == Weight::Bold
            && font_for_heading_style_spec(style, base, mono).family == mono.family
            && font_for_heading_style_spec(style, base, mono).stretch == mono.stretch
            && font_for_heading_style_spec(style, base, mono).style == mono.style,
        !style.code ==> font_for_heading_style_spec(style, base, mono).weight == base.weight
            && font_for_heading_style_spec(style, base, mono).family == base.family
            && font_for_heading_style_spec(style, base, mono).stretch == base.stretch
            && font_for_heading_style_spec(style, base, mono).style == (if style.italic {
            FontStyle::Italic
        } else {
            base.style
        }),
{
}

/// The font of text outside the spans: the paragraph's own, or the bold
/// base font in a heading.
pub open spec fn gap_font(base: Font, heading: bool) -> Option<Font> {
    if heading {
        Some(bold_font(base))
    } else {
        None
    }
}

/// The font a span is drawn in: in a heading always named, in a paragraph
/// only when it differs from the base font.
pub open spec fn span_piece_font(style: SpanStyle, base: Font, mono: Font, heading: bool) -> Option<Font> {
    if heading {
        Some(font_for_heading_style_spec(style, bold_font(base), mono))
    } else {
        let f = font_for_style_spec(style, base, mono);
        if f == base {
            None
        } else {
            Some(f)
        }
    }
}

/// The pieces of the spans so far, each preceded by the gap since the end
/// of the span before it, and where the last span ended.
pub open spec fn pieces_fold(spans: Seq<InlineSpan>, base: Font, mono: Font, heading: bool) -> (Seq<TextPiece>, usize)
    decreases spans.len(),
{
    if spans.len() == 0 {
        (Seq::empty(), 0)
    } else {
        let prev = pieces_fold(spans.drop_last(), base, mono, heading);
        let s = spans.last();
        let with_gap = if s.range.start > prev.1 {
            prev.0.push(
                TextPiece {
                    range: Range { start: prev.1, end: s.range.start },
                    font: gap_font(base, heading),
                    code_color: false,
                    strikethrough: false,
                },
            )
        } else {
            prev.0
        };
        (
            with_gap.push(
                TextPiece {
                    range: s.range,
                    font: span_piece_font(s.style, base, mono, heading),
                    code_color: s.style.code,
                    strikethrough: s.style.strikethrough,
                },
            ),
            s.range.end,
        )
    }
}

/// The pieces of a block's display text of `len` bytes: the spans with
/// the gaps between them, the text after the last span, and one empty piece
/// for an empty block.
pub open spec fn pieces_spec(len: usize, spans: Seq<InlineSpan>, base: Font, mono: Font, heading: bool) -> Seq<TextPiece> {
    let (p, pos) = pieces_fold(spans, base, mono, heading);
    let p = if pos < len {
        p.push(
            TextPiece {
                range: Range { start: pos, end: len },
                font: gap_font(base, heading),
                code_color: false,
                strikethrough: false,
            },
        )
    } else {
        p
    };
    if len == 0 && p.len() == 0 {
        seq![TextPiece { range: Range { start: 0, end: 0 }, font: gap_font(base, heading), code_color: false, strikethrough: false }]
    } else {
        p
    }
}

fn build_pieces(display_len: usize, spans: &[InlineSpan], base_font: Font, mono_font: Font, heading: bool) -> (pieces: Vec<TextPiece>)
    ensures
        pieces@ == pieces_spec(display_len, spans@, base_font, mono_font, heading),
{
    let heading_base = Font { weight: Weight::Bold, ..base_font };
    let gap = if heading { Some(heading_base) } else { None };
    let mut pieces: Vec<TextPiece> = Vec::new();
    let mut pos: usize = 0;
    let mut k: usize = 0;
    while k < spans.len()
        invariant
            k <= spans@.len(),
            heading_base == bold_font(base_font),
            gap == gap_font(base_font, heading),
            (pieces@, pos) == pieces_fold(spans@.take(k as int), base_font, mono_font, heading),
        decreases spans@.len() - k,
    {
        let inline_span = &spans[k];
        assert(spans@.take(k + 1).drop_last() =~= spans@.take(k as int));
        assert(spans@.take(k + 1).last() == *inline_span);
        // Gap before this span.
        if inline_span.range.start > pos {
            pieces.push(TextPiece { range: pos..inline_span.range.start, font: gap, code_color: false, strikethrough: false });
        }

        let style = &inline_span.style;
        let font = if heading {
            Some(font_for_heading_style(style, heading_base, mono_font))
        } else {
            let font = font_for_style(style, base_font, mono_font);
            if font != base_font {
                Some(font)
            } else {
                None
            }
        };
        pieces.push(
            TextPiece {
                range: inline_span.range.start..inline_span.range.end,
                font,
                code_color: style.code,
                strikethrough: style.strikethrough,
            },
        );
        pos = inline_span.range.end;
        k += 1;
    }
    assert(spans@.take(k as int) =~= spans@);

    // Trailing text.
    if pos < display_len {
        pieces.push(TextPiece { range: pos..display_len, font: gap, code_color: false, strikethrough: false });
    }

    // Ensure at least one piece for paragraph height.
    if display_len == 0 && pieces.len() == 0 {
        pieces.push(TextPiece { range: 0..0, font: gap, code_color: false, strikethrough: false });
        assert(pieces@ =~= pieces_spec(display_len, spans@, base_font, mono_font, heading));
    }
    pieces
}

/// The pieces of a paragraph block's display text of `display_len` bytes:
/// unstyled gaps, and each span in its own font when that differs from the
/// base font.
pub fn build_inline_spans(display_len: usize, spans: &[InlineSpan], base_font: Font, mono_font: Font) -> (pieces: Vec<TextPiece>)
    ensures
        pieces@ == pieces_spec(display_len, spans@, base_font, mono_font, false),
{
    build_pieces(display_len, spans, base_font, mono_font, false)
}

/// The pieces of a paragraph block's display text.
pub fn build_paragraph_spans(display_len: usize, spans: &[InlineSpan], base_font: Font, mono_font: Font) -> (pieces: Vec<TextPiece>)
    ensures
        pieces@ == pieces_spec(display_len, spans@, base_font, mono_font, false),
{
    build_inline_spans(display_len, spans, base_font, mono_font)
}

/// The pieces of a heading block's display text: all of it bold, each span
/// in its heading font.
pub fn build_heading_spans(display_len: usize, spans: &[InlineSpan], base_font: Font, mono_font: Font) -> (pieces: Vec<TextPiece>)
    ensures
        pieces@ == pieces_spec(display_len, spans@, base_font, mono_font, true),
{
    build_pieces(display_len, spans, base_font, mono_font, true)
}

} // verus!

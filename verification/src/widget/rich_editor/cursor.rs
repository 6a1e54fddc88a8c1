//! Cursor context types -- formatting state at the current cursor position.

use std::ops::Range;

use vstd::prelude::*;
use vstd::string::StringSliceAdditionalSpecFns;
use vstd::utf8::*;

use crate::appearance::{Color, Font};
use crate::document::Alignment;
use crate::paragraph;
use crate::widget::rich_editor::operation::Position;

verus! {

/// Formatting context at the current cursor position.
#[derive(Debug, Clone, Copy, PartialEq, Eq, Default)]
pub struct Context {
    pub character: Character,
    pub paragraph: Paragraph,
    pub position: Position,
}

/// Per-character formatting at cursor; sizes and spacing are the bit
/// patterns of `f32` values.
#[derive(Debug, Clone, Copy, PartialEq, Eq, Default)]
pub struct Character {
    pub bold: bool,
    pub italic: bool,
    pub underline: bool,
    pub font: Option<Font>,
    pub size: Option<u32>,
    pub color: Option<Color>,
    pub letter_spacing: Option<u32>,
}

/// Per-paragraph formatting at cursor.
#[derive(Debug, Clone, Copy, PartialEq, Eq)]
pub struct Paragraph {
    pub alignment: Alignment,
    /// Space after the paragraph, as the bit pattern of an `f32`.
    pub spacing_after: u32,
    /// Document-model paragraph style (level and list).
    pub style: paragraph::Style,
}

impl Default for Paragraph {
    fn default() -> (p: Self)
        ensures
            p.alignment == Alignment::Left,
            p.spacing_after == 0,
            p.style.list is None,
            p.style.level == 0,
    {
        Self {
            alignment: Alignment::Left,
            spacing_after: 0,
            style: paragraph::Style { list: None, level: 0 },
        }
    }
}

} // verus!

verus! {

use crate::widget::rich_editor::action::FormatAction;

/// A character style in which every attribute may be left unset; sizes and
/// spacing are the bit patterns of `f32` values.
#[derive(Debug, Clone, Copy, PartialEq, Eq, Structural, Default)]
pub struct CharStyle {
    pub bold: Option<bool>,
    pub italic: Option<bool>,
    pub underline: Option<bool>,
    pub strikethrough: Option<bool>,
    pub font: Option<Font>,
    pub size: Option<u32>,
    pub color: Option<Color>,
    pub letter_spacing: Option<u32>,
}

pub open spec fn or_else<T>(a: Option<T>, b: Option<T>) -> Option<T> {
    match a {
        Some(x) => Some(x),
        None => b,
    }
}

/// Every unset attribute of `style` taken from `defaults`.
pub open spec fn filled(style: CharStyle, defaults: CharStyle) -> CharStyle {
    CharStyle {
        bold: or_else(style.bold, defaults.bold),
        italic: or_else(style.italic, defaults.italic),
        underline: or_else(style.underline, defaults.underline),
        strikethrough: or_else(style.strikethrough, defaults.strikethrough),
        font: or_else(style.font, defaults.font),
        size: or_else(style.size, defaults.size),
        color: or_else(style.color, defaults.color),
        letter_spacing: or_else(style.letter_spacing, defaults.letter_spacing),
    }
}

/// Fill any unset attribute of `style` from `defaults`.
pub fn fill_from_defaults(style: &mut CharStyle, defaults: &CharStyle)
    ensures
        *final(style) == filled(*old(style), *defaults),
{
    let d = defaults;
    if style.bold.is_none() {
        style.bold = d.bold;
    }
    if style.italic.is_none() {
        style.italic = d.italic;
    }
    if style.underline.is_none() {
        style.underline = d.underline;
    }
    if style.strikethrough.is_none() {
        style.strikethrough = d.strikethrough;
    }
    if style.font.is_none() {
        style.font = d.font;
    }
    if style.size.is_none() {
        style.size = d.size;
    }
    if style.color.is_none() {
        style.color = d.color;
    }
    if style.letter_spacing.is_none() {
        style.letter_spacing = d.letter_spacing;
    }
}

pub open spec fn flag(b: Option<bool>) -> bool {
    match b {
        Some(v) => v,
        None => false,
    }
}

/// The character formatting a cursor reports for a style: unset switches
/// read as off.
pub open spec fn character_spec(style: CharStyle) -> Character {
    Character {
        bold: flag(style.bold),
        italic: flag(style.italic),
        underline: flag(style.underline),
        font: style.font,
        size: style.size,
        color: style.color,
        letter_spacing: style.letter_spacing,
    }
}

/// The character formatting a cursor reports for a style.
pub fn character_of(style: &CharStyle) -> (c: Character)
    ensures
        c == character_spec(*style),
{
    Character {
        bold: style.bold.unwrap_or(false),
        italic: style.italic.unwrap_or(false),
        underline: style.underline.unwrap_or(false),
        font: style.font,
        size: style.size,
        color: style.color,
        letter_spacing: style.letter_spacing,
    }
}

/// The style to type with after a formatting change with nothing selected:
/// a toggle flips its switch (unset reading as off), a font or size is set,
/// and line-level changes leave it as it is.
pub open spec fn pending_after(current: CharStyle, fmt: FormatAction) -> CharStyle {
    match fmt {
        FormatAction::ToggleBold => CharStyle { bold: Some(!flag(current.bold)), ..current },
        FormatAction::ToggleItalic => CharStyle { italic: Some(!flag(current.italic)), ..current },
        FormatAction::ToggleUnderline => CharStyle { underline: Some(!flag(current.underline)), ..current },
        FormatAction::SetFont(font) => CharStyle { font: Some(font), ..current },
        FormatAction::SetFontSize(size) => CharStyle { size: Some(size), ..current },
        FormatAction::SetHeadingLevel(_) | FormatAction::SetAlignment(_) | FormatAction::IndentList
        | FormatAction::DedentList => current,
    }
}

/// Update the pending style, the style of the text about to be typed, for
/// a formatting change made with nothing selected.
pub fn update_pending_style(current: &mut CharStyle, fmt: &FormatAction)
    ensures
        *final(current) == pending_after(*old(current), *fmt),
{
    match fmt {
        FormatAction::ToggleBold => current.bold = Some(!current.bold.unwrap_or(false)),
        FormatAction::ToggleItalic => current.italic = Some(!current.italic.unwrap_or(false)),
        FormatAction::ToggleUnderline => {
            current.underline = Some(!current.underline.unwrap_or(false));
        },
        FormatAction::SetFont(font) => current.font = Some(*font),
        FormatAction::SetFontSize(size) => current.size = Some(*size),
        FormatAction::SetHeadingLevel(_) | FormatAction::SetAlignment(_) | FormatAction::IndentList
        | FormatAction::DedentList => {},
    }
}

} // verus!

verus! {


/// Toggling the same switch of the pending style twice leaves the cursor
/// reporting the character formatting it reported before.
pub proof fn lemma_pending_toggle_twice(s: CharStyle, fmt: FormatAction)
    requires
        fmt is ToggleBold || fmt is ToggleItalic || fmt is ToggleUnderline,
    ensures
        character_spec(pending_after(pending_after(s, fmt), fmt)) == character_spec(s),
{
}

/// Filling from the defaults a second time changes nothing.
pub proof fn lemma_fill_idempotent(s: CharStyle, d: CharStyle)
    ensures
        filled(filled(s, d), d) == filled(s, d),
{
}

} // verus!

verus! {

use crate::widget::rich_editor::action::{Action, Edit};

/// The number of bytes `c` takes in UTF-8.
pub open spec fn utf8_len(c: char) -> nat {
    encode_scalar(c as u32).len()
}

/// The number of bytes `c` takes in UTF-8.
pub fn char_utf8_len(c: char) -> (n: usize)
    ensures
        n == utf8_len(c),
        1 <= n <= 4,
{
    let v = c as u32;
    proof {
        char_is_scalar(c);
    }
    if v <= 0x7F {
        1
    } else if v <= 0x7FF {
        2
    } else if v <= 0xFFFF {
        3
    } else {
        4
    }
}

/// Character formatting to apply after an action: `style` over the bytes
/// `range` of `line`.
#[derive(Debug, PartialEq, Eq)]
pub struct Restyle {
    pub line: usize,
    pub range: Range<usize>,
    pub style: CharStyle,
}

impl Clone for Restyle {
    fn clone(&self) -> (r: Self)
        ensures
            r == *self,
    {
        Restyle { line: self.line, range: Range { start: self.range.start, end: self.range.end }, style: self.style }
    }
}

/// The pending style, if any, over the `len` bytes that start at `column`
/// of `line`.
pub open spec fn restyle_at(pending: Option<CharStyle>, line: usize, column: usize, len: int) -> Option<Restyle> {
    match pending {
        Some(style) => Some(Restyle { line, range: Range { start: column, end: (column + len) as usize }, style }),
        None => None,
    }
}

/// The pending style after `action`: typing keeps it, a formatting change
/// with nothing selected updates it (starting from the style before the
/// cursor when there is none yet), a formatting change of a selection or
/// of the line keeps it, and everything else clears it.
pub open spec fn pending_after_action(
    pending: Option<CharStyle>,
    action: Action,
    has_selection: bool,
    style_before_cursor: CharStyle,
) -> Option<CharStyle> {
    match action {
        Action::Edit(Edit::Insert(_)) => pending,
        Action::Edit(Edit::Format(fmt)) => {
            if has_selection || fmt is SetAlignment || fmt is SetHeadingLevel || fmt is IndentList
                || fmt is DedentList {
                pending
            } else {
                let current = match pending {
                    Some(p) => p,
                    None => style_before_cursor,
                };
                Some(pending_after(current, fmt))
            }
        },
        _ => None,
    }
}

/// The formatting applied after `action` at `line` and `column`, where the
/// cursor was before it: the pending style over the typed character or
/// over the pasted text.
pub open spec fn restyle_after_action(pending: Option<CharStyle>, action: Action, line: usize, column: usize) -> Option<
    Restyle,
> {
    match action {
        Action::Edit(Edit::Insert(c)) => restyle_at(pending, line, column, utf8_len(c) as int),
        Action::Edit(Edit::Paste(text)) => restyle_at(pending, line, column, encode_utf8((*text)@).len() as int),
        _ => None,
    }
}

/// The pending-style decisions of the rich text content around an action
/// on the editor, the cursor at `line` and `column` before it: the pending
/// style afterwards, and the text to format with the pending style once
/// the editor has carried the action out. Here Enter clears the pending
/// style; the widget's content carries it to the new line instead (see
/// [`widget_pending_step`]).
pub fn pending_step(
    pending: Option<CharStyle>,
    action: &Action,
    line: usize,
    column: usize,
    has_selection: bool,
    style_before_cursor: CharStyle,
) -> (r: (Option<CharStyle>, Option<Restyle>))
    requires
        pending is Some ==> (*action matches Action::Edit(Edit::Insert(c)) ==> column + utf8_len(c) <= usize::MAX),
        pending is Some ==> (*action matches Action::Edit(Edit::Paste(text)) ==> column + encode_utf8((*text)@).len()
            <= usize::MAX),
    ensures
        r.0 == pending_after_action(pending, *action, has_selection, style_before_cursor),
        r.1 == restyle_after_action(pending, *action, line, column),
{
    match action {
        Action::Edit(Edit::Insert(c)) => {
            let restyle = match pending {
                Some(style) => {
                    let n = char_utf8_len(*c);
                    Some(Restyle { line, range: Range { start: column, end: column + n }, style })
                },
                None => None,
            };
            (pending, restyle)
        },
        Action::Edit(Edit::Paste(text)) => {
            let restyle = match pending {
                Some(style) => {
                    let n = text.as_str().len();
                    Some(Restyle { line, range: Range { start: column, end: column + n }, style })
                },
                None => None,
            };
            (None, restyle)
        },
        Action::Edit(Edit::Format(fmt)) => {
            match fmt {
                FormatAction::SetAlignment(_) | FormatAction::SetHeadingLevel(_) | FormatAction::IndentList
                | FormatAction::DedentList => (pending, None),
                _ => {
                    if has_selection {
                        (pending, None)
                    } else {
                        let mut current = match pending {
                            Some(p) => p,
                            None => style_before_cursor,
                        };
                        update_pending_style(&mut current, fmt);
                        (Some(current), None)
                    }
                },
            }
        },
        _ => (None, None),
    }
}

/// The style the widget's content types with: the pending style, or else
/// the style of the character before the cursor, with every unset
/// attribute taken from the defaults.
pub open spec fn resolved_style(pending: Option<CharStyle>, style_before_cursor: CharStyle, defaults: CharStyle) -> CharStyle {
    filled(
        match pending {
            Some(p) => p,
            None => style_before_cursor,
        },
        defaults,
    )
}

/// The style the widget's content types with.
pub fn resolve_style(pending: Option<CharStyle>, style_before_cursor: CharStyle, defaults: &CharStyle) -> (s: CharStyle)
    ensures
        s == resolved_style(pending, style_before_cursor, *defaults),
{
    let mut style = match pending {
        Some(p) => p,
        None => style_before_cursor,
    };
    fill_from_defaults(&mut style, defaults);
    style
}

/// `b` holds a line feed or a carriage return.
pub open spec fn has_line_break(b: Seq<u8>) -> bool {
    exists|i: int| 0 <= i < b.len() && (b[i] == 10u8 || b[i] == 13u8)
}

/// Whether `text` holds a line feed or a carriage return.
pub fn holds_line_break(text: &str) -> (r: bool)
    ensures
        r == has_line_break(text.spec_bytes()),
{
    let bytes = text.as_bytes();
    let mut i: usize = 0;
    while i < bytes.len()
        invariant
            bytes@ == text.spec_bytes(),
            i <= bytes@.len(),
            forall|j: int| 0 <= j < i ==> bytes@[j] != 10u8 && bytes@[j] != 13u8,
        decreases bytes@.len() - i,
    {
        if bytes[i] == 10u8 || bytes[i] == 13u8 {
            return true;
        }
        i = i + 1;
    }
    false
}

/// The pending style after `action` in the widget's content: as in
/// [`pending_after_action`], but Enter carries the resolved style to the
/// new line.
pub open spec fn widget_pending_after_action(
    pending: Option<CharStyle>,
    action: Action,
    has_selection: bool,
    style_before_cursor: CharStyle,
    defaults: CharStyle,
) -> Option<CharStyle> {
    match action {
        Action::Edit(Edit::Enter) => Some(resolved_style(pending, style_before_cursor, defaults)),
        _ => pending_after_action(pending, action, has_selection, style_before_cursor),
    }
}

/// The formatting the widget's content gives typed text: the resolved style
/// over the typed character, and over pasted text that stays on one line.
pub open spec fn widget_restyle_after_action(
    pending: Option<CharStyle>,
    action: Action,
    line: usize,
    column: usize,
    style_before_cursor: CharStyle,
    defaults: CharStyle,
) -> Option<Restyle> {
    let style = resolved_style(pending, style_before_cursor, defaults);
    match action {
        Action::Edit(Edit::Insert(c)) => restyle_at(Some(style), line, column, utf8_len(c) as int),
        Action::Edit(Edit::Paste(text)) => {
            if has_line_break(encode_utf8((*text)@)) {
                None
            } else {
                restyle_at(Some(style), line, column, encode_utf8((*text)@).len() as int)
            }
        },
        _ => None,
    }
}

/// The pending-style decisions of the widget's content around an action,
/// the cursor at `line` and `column` before it: the pending style
/// afterwards, and the text to format once the editor has carried the
/// action out.
pub fn widget_pending_step(
    pending: Option<CharStyle>,
    action: &Action,
    line: usize,
    column: usize,
    has_selection: bool,
    style_before_cursor: CharStyle,
    defaults: &CharStyle,
) -> (r: (Option<CharStyle>, Option<Restyle>))
    requires
        *action matches Action::Edit(Edit::Insert(c)) ==> column + utf8_len(c) <= usize::MAX,
        *action matches Action::Edit(Edit::Paste(text)) ==> column + encode_utf8((*text)@).len() <= usize::MAX,
    ensures
        r.0 == widget_pending_after_action(pending, *action, has_selection, style_before_cursor, *defaults),
        r.1 == widget_restyle_after_action(pending, *action, line, column, style_before_cursor, *defaults),
{
    match action {
        Action::Edit(Edit::Insert(c)) => {
            let style = resolve_style(pending, style_before_cursor, defaults);
            let n = char_utf8_len(*c);
            (pending, Some(Restyle { line, range: Range { start: column, end: column + n }, style }))
        },
        Action::Edit(Edit::Paste(text)) => {
            let style = resolve_style(pending, style_before_cursor, defaults);
            let s = text.as_str();
            if holds_line_break(s) {
                (None, None)
            } else {
                let n = s.len();
                (None, Some(Restyle { line, range: Range { start: column, end: column + n }, style }))
            }
        },
        Action::Edit(Edit::Enter) => (Some(resolve_style(pending, style_before_cursor, defaults)), None),
        _ => pending_step(pending, action, line, column, has_selection, style_before_cursor),
    }
}

} // verus!

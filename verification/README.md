# markright

The editing core of a markdown-flavoured rich text editor for
[iced](https://github.com/iced-rs/iced), written in Verus: every function
in `src/` carries a contract, and the laws that tie the operations together
are proved.

## Layout

- `src/parse.rs` — one line of markdown to display text, styled spans and a
  bidirectional offset map between raw and display columns; code fences.
- `src/shortcuts.rs` — markdown shortcuts (`# `, `**bold**`, `*italic*`,
  `` `code` ``) detected in a line, sorted by where their content starts.
- `src/document.rs` — the formatting model: per line a `LineFormat` and a
  canonical list of character-format spans, with toggling, insertion,
  deletion, splitting and merging.
- `src/content.rs` — a plain line editor with a byte-offset cursor.
- `src/highlight.rs` — which highlight each span of a line is drawn with.
- `src/editor.rs` — the block editor's key handling and the styled pieces of
  a block's display text.
- `src/toolbar.rs`, `src/appearance.rs` — heading choices, fonts and colors.
- `src/paragraph.rs` — list styles and their editing (choosing a list, Tab,
  Shift+Tab, Backspace at the start of a line), and the per-line paragraph
  list kept in step with the lines.
- `src/widget/rich_editor/` — the rich editor's actions, key bindings,
  styles, list numbering, selection walking and the lines a paragraph-level
  change covers, cursor context and the pending style (the widget's content
  carries it across Enter, the plain content clears it), popup and computed
  spans (the source behind the displayed chips),
  focus, and the decisions of its event handling: `update` steps the
  editor's state on a window, mouse, clipboard, input method or key event
  and lists the effects for the surroundings to carry out.
- `app/` — the iced side: conversions to and from iced's types, the
  highlighter and theme catalog iced asks for, and the floating-point
  arithmetic of sizes and margins.

## Not in this crate

The undo/redo history, the per-line paragraph documents with their themes,
and the editor widgets themselves (layout, drawing, the text renderer they
drive) are not part of this crate: they need a document model and a text
renderer that are not available here. The library holds the decisions they
are built from; `app/` holds the conversions and floating-point arithmetic
around them.

## Conventions

Floating-point values (sizes, widths, color channels) are held in `src/` as
the bit patterns of `f32` values; `app/` converts with `f32::to_bits` and
`f32::from_bits`. Two values are thus equal in the model exactly when their
bit patterns are: `0.0` and `-0.0` differ, and a NaN equals a NaN with the
same bits. Formats that differ only so are not merged into one span, and
identical NaN formats are.

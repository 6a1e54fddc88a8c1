//! Editor actions: navigation, selection, edits and formatting changes.

use std::sync::Arc;

use vstd::prelude::*;

use crate::appearance::Font;
use crate::document::Alignment;

verus! {

/// A cursor motion.
#[derive(Debug, Clone, Copy, PartialEq, Eq, Structural)]
pub enum Motion {
    /// Move left.
    Left,
    /// Move right.
    Right,
    /// Move up.
    Up,
    /// Move down.
    Down,
    /// Move to the left boundary of a word.
    WordLeft,
    /// Move to the right boundary of a word.
    WordRight,
    /// Move to the start of the line.
    Home,
    /// Move to the end of the line.
    End,
    /// Move to the start of the previous window.
    PageUp,
    /// Move to the start of the next window.
    PageDown,
    /// Move to the start of the text.
    DocumentStart,
    /// Move to the end of the text.
    DocumentEnd,
}

/// The wider motion: by word instead of by character, to the document's
/// ends instead of the line's.
pub open spec fn widened(m: Motion) -> Motion {
    match m {
        Motion::Left => Motion::WordLeft,
        Motion::Right => Motion::WordRight,
        Motion::Home => Motion::DocumentStart,
        Motion::End => Motion::DocumentEnd,
        _ => m,
    }
}

impl Motion {
    /// Widens the [`Motion`], if possible.
    pub fn widen(self) -> (m: Self)
        ensures
            m == widened(self),
    {
        match self {
            Self::Left => Self::WordLeft,
            Self::Right => Self::WordRight,
            Self::Home => Self::DocumentStart,
            Self::End => Self::DocumentEnd,
            _ => self,
        }
    }
}

/// A point on screen, each coordinate the bit pattern of an `f32`.
#[derive(Debug, Clone, Copy, PartialEq, Eq, Structural)]
pub struct Point {
    pub x: u32,
    pub y: u32,
}

/// Top-level editor action -- navigation, selection, and edits.
#[derive(Debug, Clone, PartialEq)]
#[non_exhaustive]
pub enum Action {
    /// Apply an [`Edit`] to the document.
    Edit(Edit),
    /// Apply a [`Motion`].
    Move(Motion),
    /// Select text with a given [`Motion`].
    Select(Motion),
    /// Select the word at the current cursor.
    SelectWord,
    /// Select the line at the current cursor.
    SelectLine,
    /// Select the entire buffer.
    SelectAll,
    /// Click the editor at the given [`Point`].
    Click(Point),
    /// Drag the mouse to the given [`Point`].
    Drag(Point),
    /// Undo the last group of edits.
    Undo,
    /// Redo the last undone group of edits.
    Redo,
    /// Scroll the editor by a number of lines.
    Scroll {
        /// The number of lines to scroll.
        lines: i32,
    },
}

impl Action {
    /// Returns whether the action modifies the document.
    pub fn is_edit(&self) -> (b: bool)
        ensures
            b == (*self is Edit),
    {
        matches!(self, Self::Edit(_))
    }
}

/// Buffer-modifying operations. Tracks dirty state.
#[derive(Debug, Clone, PartialEq)]
#[non_exhaustive]
pub enum Edit {
    /// Insert a character at the cursor.
    Insert(char),
    /// Paste text at the cursor.
    Paste(Arc<String>),
    /// Break the current line (Enter key).
    Enter,
    /// Delete the previous character.
    Backspace,
    /// Delete the next character.
    Delete,
    /// Apply a formatting change at the current cursor/selection.
    Format(FormatAction),
}

/// A formatting change applied at the current cursor or selection.
#[derive(Debug, Clone, Copy, PartialEq, Eq, Structural)]
#[non_exhaustive]
pub enum FormatAction {
    /// Toggle bold on the selection.
    ToggleBold,
    /// Toggle italic on the selection.
    ToggleItalic,
    /// Toggle underline on the selection.
    ToggleUnderline,
    /// Set or clear the heading level for the current line.
    SetHeadingLevel(Option<u8>),
    /// Set the text alignment for the current line.
    SetAlignment(Alignment),
    /// Set the font for the selection.
    SetFont(Font),
    /// Set the font size for the selection, as the bit pattern of an `f32`.
    SetFontSize(u32),
    /// Nest the current line one list level deeper (Tab).
    IndentList,
    /// Bring the current line one list level up (Shift+Tab).
    DedentList,
}

} // verus!

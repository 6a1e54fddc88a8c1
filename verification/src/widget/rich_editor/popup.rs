//! Popup spans: regions of text that open a popup overlay when the cursor
//! is near them, and the actions the popup produces.

use std::ops::Range;

use vstd::prelude::*;

use crate::widget::rich_editor::style::{Background, Border};

verus! {

/// A region of text that triggers a popup overlay when the cursor is near it.
#[derive(Debug)]
pub struct Span {
    pub line: usize,
    pub range: Range<usize>,
    /// The current text shown in the popup's text input.
    pub value: String,
    pub placeholder: String,
    pub background: Option<Background>,
    pub border: Border,
    /// When `true`, the editor blocks character insertion inside this
    /// span and treats Backspace/Delete at the span boundary as
    /// whole-span deletion (emitting [`Action::Delete`]).
    pub atomic: bool,
}

/// Identifies a popup span by line and range.
#[derive(Debug, PartialEq, Eq)]
pub struct SpanRef {
    pub line: usize,
    pub range: Range<usize>,
}

impl Clone for Span {
    fn clone(&self) -> (r: Self)
        ensures
            r == *self,
    {
        Span {
            line: self.line,
            range: self.range.start..self.range.end,
            value: self.value.clone(),
            placeholder: self.placeholder.clone(),
            background: self.background,
            border: self.border,
            atomic: self.atomic,
        }
    }
}

impl Clone for SpanRef {
    fn clone(&self) -> (r: Self)
        ensures
            r == *self,
    {
        SpanRef { line: self.line, range: self.range.start..self.range.end }
    }
}

impl Clone for Action {
    fn clone(&self) -> (r: Self)
        ensures
            r == *self,
    {
        match self {
            Action::Input { span, value } => Action::Input { span: span.clone(), value: value.clone() },
            Action::Confirm { span } => Action::Confirm { span: span.clone() },
            Action::Dismiss { span, original } => Action::Dismiss {
                span: span.clone(),
                original: original.clone(),
            },
            Action::Delete { span } => Action::Delete { span: span.clone() },
        }
    }
}

impl<'a> From<&'a Span> for SpanRef {
    fn from(span: &'a Span) -> (r: Self) {
        Self { line: span.line, range: span.range.start..span.range.end }
    }
}

impl<'a> vstd::std_specs::convert::FromSpecImpl<&'a Span> for SpanRef {
    open spec fn obeys_from_spec() -> bool {
        true
    }

    open spec fn from_spec(span: &'a Span) -> SpanRef {
        SpanRef { line: span.line, range: span.range }
    }
}

/// An action produced by the popup overlay.
#[derive(Debug)]
pub enum Action {
    /// The text input value changed.
    Input { span: SpanRef, value: String },
    /// User pressed Enter to confirm.
    Confirm { span: SpanRef },
    /// User pressed Escape to dismiss; `original` is the value when the
    /// popup first opened, for revert.
    Dismiss { span: SpanRef, original: String },
    /// The user deleted an atomic span (Backspace/Delete at boundary).
    Delete { span: SpanRef },
}

} // verus!

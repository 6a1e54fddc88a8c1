//! Markdown-flavoured rich text editing: a line parser with a bidirectional
//! offset map, markdown shortcut detection, a span-based formatting model,
//! and the editing state machines around them.

pub mod appearance;
pub mod content;
pub mod document;
pub mod editor;
pub mod highlight;
pub mod paragraph;
pub mod parse;
pub mod shortcuts;
pub mod toolbar;
pub mod widget;
mod text;

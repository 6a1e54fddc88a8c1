//! Editor widgets' model: list markers, positions, popups and status.

pub mod rich_editor;

//! Key bindings: which editor binding a key press stands for.
//!
//! A key press is held as plain values: the logical key and the key with
//! modifiers applied, the physical key, the modifier keys, the text the
//! press produced and the editor's status. Shortcuts go by the Latin letter
//! a key stands for, which for a non-Latin layout is the letter of the
//! physical key.

use std::ops::Range;

use vstd::prelude::*;

use crate::widget::rich_editor::action::{widened, FormatAction, Motion};
use crate::widget::rich_editor::Status;

verus! {

/// The named keys the editor reacts to; every other named key is `Other`.
#[derive(Debug, Clone, Copy, PartialEq, Eq, Structural)]
pub enum Named {
    Enter,
    Backspace,
    Delete,
    Escape,
    ArrowLeft,
    ArrowRight,
    ArrowUp,
    ArrowDown,
    Home,
    End,
    PageUp,
    PageDown,
    Tab,
    Other,
}

/// A key: a named key, the characters of a character key, or a key that
/// could not be identified.
#[derive(Debug, Clone, PartialEq, Eq)]
pub enum Key {
    Named(Named),
    Character(String),
    Unidentified,
}

/// The modifier keys held, and whether the platform is macOS, which decides
/// the "command" and "jump" keys.
#[derive(Debug, Clone, Copy, PartialEq, Eq, Structural)]
pub struct Modifiers {
    pub shift: bool,
    pub control: bool,
    pub alt: bool,
    pub logo: bool,
    pub macos: bool,
}

pub open spec fn command_spec(m: Modifiers) -> bool {
    if m.macos {
        m.logo
    } else {
        m.control
    }
}

pub open spec fn jump_spec(m: Modifiers) -> bool {
    if m.macos {
        m.alt
    } else {
        m.control
    }
}

pub open spec fn macos_command_spec(m: Modifiers) -> bool {
    m.macos && m.logo
}

/// Control and nothing else.
pub open spec fn ctrl_only(m: Modifiers) -> bool {
    m.control && !m.shift && !m.alt && !m.logo
}

impl Modifiers {
    /// The "command key": the logo key on macOS, control elsewhere.
    pub fn command(self) -> (b: bool)
        ensures
            b == command_spec(self),
    {
        if self.macos {
            self.logo
        } else {
            self.control
        }
    }

    /// The "jump key", which widens motions: alt on macOS, control elsewhere.
    pub fn jump(self) -> (b: bool)
        ensures
            b == jump_spec(self),
    {
        if self.macos {
            self.alt
        } else {
            self.control
        }
    }

    /// The command key on macOS; never elsewhere.
    pub fn macos_command(self) -> (b: bool)
        ensures
            b == macos_command_spec(self),
    {
        self.macos && self.logo
    }
}

/// A binding to an action in the rich editor.
#[derive(Debug, PartialEq)]
pub enum Binding<Message> {
    /// Unfocus the editor.
    Unfocus,
    /// Copy the selection.
    Copy,
    /// Cut the selection.
    Cut,
    /// Paste from clipboard.
    Paste,
    /// Apply a [`Motion`].
    Move(Motion),
    /// Select text with a [`Motion`].
    Select(Motion),
    /// Select the word at cursor.
    SelectWord,
    /// Select the current line.
    SelectLine,
    /// Select all text.
    SelectAll,
    /// Insert a character.
    Insert(char),
    /// Break the line (Enter).
    Enter,
    /// Delete previous character.
    Backspace,
    /// Delete next character.
    Delete,
    /// Apply a formatting action (built-in shortcuts like Cmd+B).
    Format(FormatAction),
    /// Undo the last group of edits.
    Undo,
    /// Redo the last undone group of edits.
    Redo,
    /// A sequence of bindings.
    Sequence(Vec<Self>),
    /// A custom message.
    Custom(Message),
}

/// The physical key pressed, named by what it stands for on a US layout.
#[derive(Debug, Clone, Copy, PartialEq, Eq, Structural)]
pub enum PhysicalKey {
    /// A letter key, by its lower-case letter `a`-`z`.
    Letter(char),
    /// A digit key of the main row, by its digit `0`-`9`.
    Digit(char),
    /// Any other key, or a key that could not be identified.
    Other,
}

/// A key press event.
#[derive(Debug, Clone, PartialEq)]
pub struct KeyPress {
    /// The key pressed.
    pub key: Key,
    /// The key with modifiers applied.
    pub modified_key: Key,
    /// The physical key pressed.
    pub physical_key: PhysicalKey,
    /// Keyboard modifiers.
    pub modifiers: Modifiers,
    /// Text produced by the key press.
    pub text: Option<String>,
    /// Current editor status.
    pub status: Status,
}

/// Input method events the editor handles.
#[derive(Debug, Clone, PartialEq)]
pub enum Ime {
    Toggle(bool),
    Preedit { content: String, selection: Option<Range<usize>> },
    Commit(String),
}

/// A control character (general category Cc).
pub open spec fn is_control_spec(c: char) -> bool {
    c <= '\u{1f}' || ('\u{7f}' <= c && c <= '\u{9f}')
}

/// The first character of `s` that is not a control character.
pub open spec fn first_non_control(s: Seq<char>) -> Option<char>
    decreases s.len(),
{
    if s.len() == 0 {
        None
    } else if !is_control_spec(s[0]) {
        Some(s[0])
    } else {
        first_non_control(s.drop_first())
    }
}

/// The motion a named key stands for.
pub open spec fn motion_spec(key: Named) -> Option<Motion> {
    match key {
        Named::ArrowLeft => Some(Motion::Left),
        Named::ArrowRight => Some(Motion::Right),
        Named::ArrowUp => Some(Motion::Up),
        Named::ArrowDown => Some(Motion::Down),
        Named::Home => Some(Motion::Home),
        Named::End => Some(Motion::End),
        Named::PageUp => Some(Motion::PageUp),
        Named::PageDown => Some(Motion::PageDown),
        _ => None,
    }
}

/// The Emacs-style shortcuts of macOS text fields: Ctrl with b, f, a, e, h
/// or d stands for a named key.
pub open spec fn macos_shortcut_spec(key: Key, m: Modifiers) -> Option<Key> {
    if !ctrl_only(m) {
        None
    } else {
        match key {
            Key::Character(s) => if s@ == seq!['b'] {
                Some(Key::Named(Named::ArrowLeft))
            } else if s@ == seq!['f'] {
                Some(Key::Named(Named::ArrowRight))
            } else if s@ == seq!['a'] {
                Some(Key::Named(Named::Home))
            } else if s@ == seq!['e'] {
                Some(Key::Named(Named::End))
            } else if s@ == seq!['h'] {
                Some(Key::Named(Named::Backspace))
            } else if s@ == seq!['d'] {
                Some(Key::Named(Named::Delete))
            } else {
                None
            },
            _ => None,
        }
    }
}

/// The command shortcuts: copy, cut, paste, select all, the built-in
/// formatting toggles, undo and redo.
pub open spec fn combination_spec<M>(latin: Option<char>, m: Modifiers) -> Option<Binding<M>> {
    if !command_spec(m) {
        None
    } else {
        match latin {
            Some('c') => Some(Binding::Copy),
            Some('x') => Some(Binding::Cut),
            Some('v') => if !m.alt {
                Some(Binding::Paste)
            } else {
                None
            },
            Some('a') => Some(Binding::SelectAll),
            Some('b') => Some(Binding::Format(FormatAction::ToggleBold)),
            Some('i') => Some(Binding::Format(FormatAction::ToggleItalic)),
            Some('u') => Some(Binding::Format(FormatAction::ToggleUnderline)),
            Some('z') => Some(Binding::Undo),
            Some('y') => Some(Binding::Redo),
            _ => None,
        }
    }
}

/// The motion binding of a named key: the command key on macOS turns a
/// left or right step into the line's start or end, the jump key widens the
/// motion, and shift selects instead of moving.
pub open spec fn motion_binding<M>(named: Named, m: Modifiers) -> Option<Binding<M>> {
    match motion_spec(named) {
        None => None,
        Some(motion) => {
            let motion = if macos_command_spec(m) {
                match motion {
                    Motion::Left => Motion::Home,
                    Motion::Right => Motion::End,
                    _ => motion,
                }
            } else {
                motion
            };
            let motion = if jump_spec(m) {
                widened(motion)
            } else {
                motion
            };
            Some(
                if m.shift {
                    Binding::Select(motion)
                } else {
                    Binding::Move(motion)
                },
            )
        },
    }
}

/// The key after the macOS shortcuts are applied.
pub open spec fn effective_key(e: KeyPress) -> Key {
    if e.modifiers.macos {
        match macos_shortcut_spec(e.key, e.modifiers) {
            Some(k) => k,
            None => e.modified_key,
        }
    } else {
        e.modified_key
    }
}

/// The default binding of a key press whose key stands for the Latin
/// letter `latin`.
pub open spec fn binding_spec<M>(e: KeyPress, latin: Option<char>) -> Option<Binding<M>> {
    if !(e.status is Focused) {
        None
    } else if combination_spec::<M>(latin, e.modifiers) is Some {
        combination_spec::<M>(latin, e.modifiers)
    } else {
        match effective_key(e) {
            Key::Named(Named::Enter) => Some(Binding::Enter),
            Key::Named(Named::Backspace) => Some(Binding::Backspace),
            Key::Named(Named::Escape) => Some(Binding::Unfocus),
            Key::Named(Named::Tab) => Some(
                Binding::Format(
                    if e.modifiers.shift {
                        FormatAction::DedentList
                    } else {
                        FormatAction::IndentList
                    },
                ),
            ),
            Key::Named(Named::Delete) if e.text is None || e.text.unwrap()@ == seq!['\u{7f}'] => Some(
                Binding::Delete,
            ),
            _ => match e.text {
                Some(t) => match first_non_control(t@) {
                    Some(c) => Some(Binding::Insert(c)),
                    None => None,
                },
                None => match e.key {
                    Key::Named(named) => motion_binding::<M>(named, e.modifiers),
                    _ => None,
                },
            },
        }
    }
}

/// `s` is the one-character string `c`.
fn is_single(s: &str, c: char) -> (b: bool)
    ensures
        b == (s@ == seq![c]),
{
    if s.unicode_len() == 1 {
        let first = s.get_char(0);
        assert(first == c ==> s@ =~= seq![c]);
        first == c
    } else {
        false
    }
}

/// `char::is_control`.
pub(crate) fn is_control(c: char) -> (b: bool)
    ensures
        b == is_control_spec(c),
{
    c <= '\u{1f}' || ('\u{7f}' <= c && c <= '\u{9f}')
}

/// The first character of `s` that is not a control character.
fn find_non_control(s: &str) -> (r: Option<char>)
    ensures
        r == first_non_control(s@),
{
    let n = s.unicode_len();
    let mut i: usize = 0;
    assert(s@.skip(0) =~= s@);
    while i < n
        invariant
            n == s@.len(),
            i <= n,
            first_non_control(s@) == first_non_control(s@.skip(i as int)),
        decreases n - i,
    {
        let c = s.get_char(i);
        assert(s@.skip(i as int)[0] == c);
        assert(s@.skip(i as int).drop_first() =~= s@.skip(i + 1));
        if !is_control(c) {
            return Some(c);
        }
        i += 1;
    }
    assert(s@.skip(i as int) =~= Seq::<char>::empty());
    None
}

/// The Latin letter a key press stands for: a character key producing a
/// single character below U+0370 stands for that character, one producing
/// other text for the letter or digit of its physical key, and any other
/// key for nothing.
pub open spec fn key_latin(key: Key, physical: PhysicalKey) -> Option<char> {
    match key {
        Key::Character(s) => if s@.len() == 0 {
            None
        } else if s@.len() == 1 && (s@[0] as u32) < 0x370 {
            Some(s@[0])
        } else {
            match physical {
                PhysicalKey::Letter(c) => Some(c),
                PhysicalKey::Digit(d) => Some(d),
                PhysicalKey::Other => None,
            }
        },
        _ => None,
    }
}

/// The Latin letter a key press stands for (see [`key_latin`]), as iced's
/// `Key::to_latin` has it.
pub fn to_latin(key: &Key, physical: PhysicalKey) -> (r: Option<char>)
    ensures
        r == key_latin(*key, physical),
{
    match key {
        Key::Character(s) => {
            let s = s.as_str();
            let n = s.unicode_len();
            if n == 0 {
                return None;
            }
            if n == 1 {
                let c = s.get_char(0);
                if (c as u32) < 0x370 {
                    return Some(c);
                }
            }
            match physical {
                PhysicalKey::Letter(c) => Some(c),
                PhysicalKey::Digit(d) => Some(d),
                PhysicalKey::Other => None,
            }
        },
        _ => None,
    }
}

impl<Message> Binding<Message> {
    /// Returns the default binding for the given key press, including
    /// the built-in shortcuts: Cmd+C, Cmd+X, Cmd+V and Cmd+A, the
    /// formatting toggles Cmd+B, Cmd+I and Cmd+U, undo and redo with Cmd+Z
    /// and Cmd+Y, and list nesting with Tab and Shift+Tab. Shortcut letters
    /// go by [`to_latin`].
    pub fn from_key_press(event: KeyPress) -> (b: Option<Self>)
        ensures
            b == binding_spec::<Message>(event, key_latin(event.key, event.physical_key)),
    {
        let ghost e = event;
        let KeyPress { key, modified_key, physical_key, modifiers, text, status } = event;

        if !matches!(status, Status::Focused { .. }) {
            return None;
        }

        let latin = to_latin(&key, physical_key);

        // Command combinations.
        let combination = if modifiers.command() {
            match latin {
                Some('c') => Some(Self::Copy),
                Some('x') => Some(Self::Cut),
                Some('v') if !modifiers.alt => Some(Self::Paste),
                Some('a') => Some(Self::SelectAll),
                // Built-in formatting shortcuts.
                Some('b') => Some(Self::Format(FormatAction::ToggleBold)),
                Some('i') => Some(Self::Format(FormatAction::ToggleItalic)),
                Some('u') => Some(Self::Format(FormatAction::ToggleUnderline)),
                Some('z') => Some(Self::Undo),
                Some('y') => Some(Self::Redo),
                _ => None,
            }
        } else {
            None
        };

        if let Some(binding) = combination {
            return Some(binding);
        }

        let modified_key = if modifiers.macos {
            match convert_macos_shortcut(&key, modifiers) {
                Some(shortcut) => shortcut,
                None => modified_key,
            }
        } else {
            modified_key
        };
        assert(modified_key == effective_key(e));

        let is_delete_text = match &text {
            None => true,
            Some(t) => is_single(t.as_str(), '\u{7f}'),
        };

        match modified_key {
            Key::Named(Named::Enter) => Some(Self::Enter),
            Key::Named(Named::Backspace) => Some(Self::Backspace),
            Key::Named(Named::Delete) if is_delete_text => Some(Self::Delete),
            Key::Named(Named::Escape) => Some(Self::Unfocus),
            Key::Named(Named::Tab) => Some(
                Self::Format(
                    if modifiers.shift {
                        FormatAction::DedentList
                    } else {
                        FormatAction::IndentList
                    },
                ),
            ),
            _ => {
                if let Some(text) = text {
                    let c = find_non_control(text.as_str())?;
                    Some(Self::Insert(c))
                } else if let Key::Named(named_key) = key {
                    let motion = motion(named_key)?;

                    let motion = if modifiers.macos_command() {
                        match motion {
                            Motion::Left => Motion::Home,
                            Motion::Right => Motion::End,
                            _ => motion,
                        }
                    } else {
                        motion
                    };

                    let motion = if modifiers.jump() {
                        motion.widen()
                    } else {
                        motion
                    };

                    Some(
                        if modifiers.shift {
                            Self::Select(motion)
                        } else {
                            Self::Move(motion)
                        },
                    )
                } else {
                    None
                }
            },
        }
    }
}

/// The motion a named key stands for.
pub fn motion(key: Named) -> (m: Option<Motion>)
    ensures
        m == motion_spec(key),
{
    match key {
        Named::ArrowLeft => Some(Motion::Left),
        Named::ArrowRight => Some(Motion::Right),
        Named::ArrowUp => Some(Motion::Up),
        Named::ArrowDown => Some(Motion::Down),
        Named::Home => Some(Motion::Home),
        Named::End => Some(Motion::End),
        Named::PageUp => Some(Motion::PageUp),
        Named::PageDown => Some(Motion::PageDown),
        _ => None,
    }
}

/// The named key a macOS Emacs-style shortcut (Ctrl with b, f, a, e, h or
/// d) stands for.
pub fn convert_macos_shortcut(key: &Key, modifiers: Modifiers) -> (k: Option<Key>)
    ensures
        k == macos_shortcut_spec(*key, modifiers),
{
    if !(modifiers.control && !modifiers.shift && !modifiers.alt && !modifiers.logo) {
        return None;
    }

    let named = match key {
        Key::Character(s) => {
            let s = s.as_str();
            if is_single(s, 'b') {
                Named::ArrowLeft
            } else if is_single(s, 'f') {
                Named::ArrowRight
            } else if is_single(s, 'a') {
                Named::Home
            } else if is_single(s, 'e') {
                Named::End
            } else if is_single(s, 'h') {
                Named::Backspace
            } else if is_single(s, 'd') {
                Named::Delete
            } else {
                return None;
            }
        },
        _ => return None,
    };

    Some(Key::Named(named))
}

} // verus!

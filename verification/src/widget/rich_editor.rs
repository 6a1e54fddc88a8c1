//! Rich text editor state: actions and key bindings, list numbering, cursor
//! positions, popup spans, appearance, focus and status.

pub mod action;
pub mod binding;
pub mod computed_spans;
pub mod cursor;
pub mod list;
pub mod operation;
pub mod popup;
pub mod style;

use std::ops::Range;
use std::time::{Duration, Instant};

use vstd::prelude::*;

verus! {

/// The possible status of a rich editor.
#[derive(Debug, Clone, Copy, PartialEq, Eq, Structural)]
pub enum Status {
    /// The editor can be interacted with.
    Active,
    /// The editor is being hovered.
    Hovered,
    /// The editor is focused.
    Focused {
        /// Whether the editor is hovered while focused.
        is_hovered: bool,
    },
    /// The editor cannot be interacted with.
    Disabled,
}

#[verifier::external_type_specification]
#[verifier::external_body]
pub struct ExInstant(Instant);

/// `Instant::now`: the current instant; nothing is known of its value.
#[verifier::external_body]
fn instant_now() -> (i: Instant) {
    Instant::now()
}

/// `Instant::duration_since`: the time from `earlier` to `later`, which
/// depends on the clock; nothing is stated of it.
#[verifier::external_body]
fn duration_between(later: &Instant, earlier: &Instant) -> (d: Duration) {
    later.duration_since(*earlier)
}

/// `Duration::as_millis`: the whole milliseconds of a duration, which is
/// opaque here; nothing is stated of them.
#[verifier::external_body]
fn whole_millis(d: &Duration) -> (ms: u128) {
    d.as_millis()
}

/// The cursor blinks: shown for one interval, hidden for the next.
pub const CURSOR_BLINK_INTERVAL_MILLIS: u128 = 500;

/// Whether the cursor shows `elapsed_millis` after the focus last changed:
/// only in a focused window, during the even blink intervals.
pub open spec fn blink_visible_spec(is_window_focused: bool, elapsed_millis: u128) -> bool {
    is_window_focused && (elapsed_millis / CURSOR_BLINK_INTERVAL_MILLIS) % 2 == 0
}

/// Whether the cursor shows `elapsed_millis` after the focus last changed.
pub fn blink_visible(is_window_focused: bool, elapsed_millis: u128) -> (b: bool)
    ensures
        b == blink_visible_spec(is_window_focused, elapsed_millis),
{
    is_window_focused && (elapsed_millis / CURSOR_BLINK_INTERVAL_MILLIS) % 2 == 0
}

/// When the editor gained focus, the current instant, and whether its
/// window is focused.
#[derive(Debug)]
pub struct Focus {
    updated_at: Instant,
    now: Instant,
    is_window_focused: bool,
}

impl Focus {
    /// Focus changed at the current instant.
    pub closed spec fn just_updated(&self) -> bool {
        self.updated_at == self.now
    }

    /// The window holding the editor is focused.
    pub closed spec fn window_focused(&self) -> bool {
        self.is_window_focused
    }

    /// Focus gained now, in a focused window.
    pub fn now() -> (f: Self)
        ensures
            f.just_updated(),
            f.window_focused(),
    {
        let now = instant_now();
        Self { updated_at: now, now, is_window_focused: true }
    }

    /// Whether the cursor is drawn: see [`blink_visible`].
    pub fn is_cursor_visible(&self) -> (b: bool)
        ensures
            exists|elapsed: u128| b == blink_visible_spec(self.window_focused(), elapsed),
    {
        let since = duration_between(&self.now, &self.updated_at);
        let elapsed = whole_millis(&since);
        let b = blink_visible(self.is_window_focused, elapsed);
        assert(b == blink_visible_spec(self.window_focused(), elapsed));
        b
    }
}

} // verus!

verus! {

use crate::widget::rich_editor::action::{Action, Edit, Point};
use crate::widget::rich_editor::binding::{Binding, Ime};

/// The status of an editor: disabled without an action handler, otherwise
/// focused, hovered or merely active.
pub open spec fn status_spec(is_disabled: bool, is_focused: bool, is_hovered: bool) -> Status {
    if is_disabled {
        Status::Disabled
    } else if is_focused {
        Status::Focused { is_hovered }
    } else if is_hovered {
        Status::Hovered
    } else {
        Status::Active
    }
}

/// The status of an editor.
pub fn status(is_disabled: bool, is_focused: bool, is_hovered: bool) -> (s: Status)
    ensures
        s == status_spec(is_disabled, is_focused, is_hovered),
{
    if is_disabled {
        Status::Disabled
    } else if is_focused {
        Status::Focused { is_hovered }
    } else if is_hovered {
        Status::Hovered
    } else {
        Status::Active
    }
}

/// How long after `elapsed_millis` of blinking the cursor next changes:
/// the rest of the current blink interval.
pub fn millis_until_redraw(elapsed_millis: u128) -> (ms: u128)
    ensures
        ms == CURSOR_BLINK_INTERVAL_MILLIS - elapsed_millis % CURSOR_BLINK_INTERVAL_MILLIS,
        1 <= ms <= CURSOR_BLINK_INTERVAL_MILLIS,
        (elapsed_millis + ms) % (CURSOR_BLINK_INTERVAL_MILLIS as int) == 0,
{
    CURSOR_BLINK_INTERVAL_MILLIS - elapsed_millis % CURSOR_BLINK_INTERVAL_MILLIS
}

/// How many clicks in a row a click completes.
#[derive(Debug, Clone, Copy, PartialEq, Eq, Structural)]
pub enum ClickKind {
    Single,
    Double,
    Triple,
}

/// The action of a click: placing the cursor, selecting a word, or
/// selecting a line.
pub fn click_action(kind: ClickKind, position: Point) -> (a: Action)
    ensures
        a == match kind {
            ClickKind::Single => Action::Click(position),
            ClickKind::Double => Action::SelectWord,
            ClickKind::Triple => Action::SelectLine,
        },
{
    match kind {
        ClickKind::Single => Action::Click(position),
        ClickKind::Double => Action::SelectWord,
        ClickKind::Triple => Action::SelectLine,
    }
}

/// What a key binding asks of the editor's surroundings.
#[derive(Debug, PartialEq)]
pub enum Effect<Message> {
    /// Publish an editor action.
    Publish(Action),
    /// Publish the application's own message.
    Custom(Message),
    /// Publish the application's blur message.
    Blur,
    /// Write text to the clipboard.
    WriteClipboard(String),
    /// Ask for the clipboard's text, which comes back as a paste.
    ReadClipboard,
    /// The editor takes focus now, in a focused window.
    FocusNow,
    /// The cursor's blink starts over now.
    RestartBlink,
    /// Draw the editor again.
    RequestRedraw,
    /// The event is handled here and goes no further.
    CaptureEvent,
    /// The time of the redraw becomes the focus's current time, and the
    /// next redraw is asked for at the next blink boundary.
    Tick,
}

/// The number of bindings, nested ones included.
pub open spec fn binding_size<M>(b: Binding<M>) -> nat
    decreases b,
{
    match b {
        Binding::Sequence(v) => 1 + bindings_size(v@),
        _ => 1,
    }
}

pub open spec fn bindings_size<M>(s: Seq<Binding<M>>) -> nat
    decreases s,
{
    if s.len() == 0 {
        0
    } else {
        binding_size(s[0]) + bindings_size(s.drop_first())
    }
}

/// The effects of a binding, given whether the editor is focused and the
/// selected text, and whether the editor is focused after it.
pub open spec fn binding_effects<M>(b: Binding<M>, focused: bool, selection: Option<String>, has_blur: bool) -> (Seq<Effect<M>>, bool)
    decreases binding_size(b), 0nat,
{
    match b {
        Binding::Unfocus => if focused {
            (if has_blur { seq![Effect::Blur] } else { Seq::empty() }, false)
        } else {
            (Seq::empty(), focused)
        },
        Binding::Copy => match selection {
            Some(s) => (seq![Effect::WriteClipboard(s)], focused),
            None => (Seq::empty(), focused),
        },
        Binding::Cut => match selection {
            Some(s) => (seq![Effect::WriteClipboard(s), Effect::Publish(Action::Edit(Edit::Delete))], focused),
            None => (Seq::empty(), focused),
        },
        Binding::Paste => (seq![Effect::ReadClipboard], focused),
        Binding::Move(m) => (seq![Effect::Publish(Action::Move(m))], focused),
        Binding::Select(m) => (seq![Effect::Publish(Action::Select(m))], focused),
        Binding::SelectWord => (seq![Effect::Publish(Action::SelectWord)], focused),
        Binding::SelectLine => (seq![Effect::Publish(Action::SelectLine)], focused),
        Binding::SelectAll => (seq![Effect::Publish(Action::SelectAll)], focused),
        Binding::Insert(c) => (seq![Effect::Publish(Action::Edit(Edit::Insert(c)))], focused),
        Binding::Enter => (seq![Effect::Publish(Action::Edit(Edit::Enter))], focused),
        Binding::Backspace => (seq![Effect::Publish(Action::Edit(Edit::Backspace))], focused),
        Binding::Delete => (seq![Effect::Publish(Action::Edit(Edit::Delete))], focused),
        Binding::Format(f) => (seq![Effect::Publish(Action::Edit(Edit::Format(f)))], focused),
        Binding::Undo => (seq![Effect::Publish(Action::Undo)], focused),
        Binding::Redo => (seq![Effect::Publish(Action::Redo)], focused),
        Binding::Sequence(v) => sequence_effects(v@, focused, selection, has_blur),
        Binding::Custom(m) => (seq![Effect::Custom(m)], focused),
    }
}

/// The effects of bindings applied one after another.
pub open spec fn sequence_effects<M>(s: Seq<Binding<M>>, focused: bool, selection: Option<String>, has_blur: bool) -> (Seq<Effect<M>>, bool)
    decreases bindings_size(s), 1nat,
{
    if s.len() == 0 {
        (Seq::empty(), focused)
    } else {
        proof {
            lemma_binding_size_positive(s[0]);
        }
        let first = binding_effects(s[0], focused, selection, has_blur);
        let rest = sequence_effects(s.drop_first(), first.1, selection, has_blur);
        (first.0 + rest.0, rest.1)
    }
}

pub proof fn lemma_binding_size_positive<M>(b: Binding<M>)
    ensures
        binding_size(b) >= 1,
{
}

/// Apply a binding: append its effects and update whether the editor is
/// focused.
pub fn apply_binding<Message>(
    binding: Binding<Message>,
    focused: &mut bool,
    selection: &Option<String>,
    has_blur: bool,
    effects: &mut Vec<Effect<Message>>,
)
    ensures
        final(effects)@ == old(effects)@ + binding_effects(binding, *old(focused), *selection, has_blur).0,
        *final(focused) == binding_effects(binding, *old(focused), *selection, has_blur).1,
    decreases binding_size(binding),
{
    let ghost whole_binding = binding;
    match binding {
        Binding::Unfocus => {
            if *focused {
                *focused = false;
                if has_blur {
                    effects.push(Effect::Blur);
                }
            }
            assert(effects@ =~= old(effects)@ + binding_effects(whole_binding, *old(focused), *selection, has_blur).0);
        },
        Binding::Copy => {
            if let Some(text) = selection {
                effects.push(Effect::WriteClipboard(text.clone()));
            }
            assert(effects@ =~= old(effects)@ + binding_effects(whole_binding, *old(focused), *selection, has_blur).0);
        },
        Binding::Cut => {
            if let Some(text) = selection {
                effects.push(Effect::WriteClipboard(text.clone()));
                effects.push(Effect::Publish(Action::Edit(Edit::Delete)));
            }
            assert(effects@ =~= old(effects)@ + binding_effects(whole_binding, *old(focused), *selection, has_blur).0);
        },
        Binding::Paste => {
            effects.push(Effect::ReadClipboard);
            assert(effects@ =~= old(effects)@ + binding_effects(whole_binding, *old(focused), *selection, has_blur).0);
        },
        Binding::Move(motion) => {
            effects.push(Effect::Publish(Action::Move(motion)));
            assert(effects@ =~= old(effects)@ + binding_effects(whole_binding, *old(focused), *selection, has_blur).0);
        },
        Binding::Select(motion) => {
            effects.push(Effect::Publish(Action::Select(motion)));
            assert(effects@ =~= old(effects)@ + binding_effects(whole_binding, *old(focused), *selection, has_blur).0);
        },
        Binding::SelectWord => {
            effects.push(Effect::Publish(Action::SelectWord));
            assert(effects@ =~= old(effects)@ + binding_effects(whole_binding, *old(focused), *selection, has_blur).0);
        },
        Binding::SelectLine => {
            effects.push(Effect::Publish(Action::SelectLine));
            assert(effects@ =~= old(effects)@ + binding_effects(whole_binding, *old(focused), *selection, has_blur).0);
        },
        Binding::SelectAll => {
            effects.push(Effect::Publish(Action::SelectAll));
            assert(effects@ =~= old(effects)@ + binding_effects(whole_binding, *old(focused), *selection, has_blur).0);
        },
        Binding::Insert(c) => {
            effects.push(Effect::Publish(Action::Edit(Edit::Insert(c))));
            assert(effects@ =~= old(effects)@ + binding_effects(whole_binding, *old(focused), *selection, has_blur).0);
        },
        Binding::Enter => {
            effects.push(Effect::Publish(Action::Edit(Edit::Enter)));
            assert(effects@ =~= old(effects)@ + binding_effects(whole_binding, *old(focused), *selection, has_blur).0);
        },
        Binding::Backspace => {
            effects.push(Effect::Publish(Action::Edit(Edit::Backspace)));
            assert(effects@ =~= old(effects)@ + binding_effects(whole_binding, *old(focused), *selection, has_blur).0);
        },
        Binding::Delete => {
            effects.push(Effect::Publish(Action::Edit(Edit::Delete)));
            assert(effects@ =~= old(effects)@ + binding_effects(whole_binding, *old(focused), *selection, has_blur).0);
        },
        Binding::Format(fmt) => {
            effects.push(Effect::Publish(Action::Edit(Edit::Format(fmt))));
            assert(effects@ =~= old(effects)@ + binding_effects(whole_binding, *old(focused), *selection, has_blur).0);
        },
        Binding::Undo => {
            effects.push(Effect::Publish(Action::Undo));
            assert(effects@ =~= old(effects)@ + binding_effects(whole_binding, *old(focused), *selection, has_blur).0);
        },
        Binding::Redo => {
            effects.push(Effect::Publish(Action::Redo));
            assert(effects@ =~= old(effects)@ + binding_effects(whole_binding, *old(focused), *selection, has_blur).0);
        },
        Binding::Sequence(sequence) => {
            let ghost whole = sequence@;
            let ghost target = sequence_effects(whole, *old(focused), *selection, has_blur);
            let mut rest = sequence;
            while rest.len() > 0
                invariant
                    target == sequence_effects(whole, *old(focused), *selection, has_blur),
                    whole_binding == binding,
                    binding_size(whole_binding) == 1 + bindings_size(whole),
                    bindings_size(rest@) <= bindings_size(whole),
                    old(effects)@ + target.0 == effects@ + sequence_effects(rest@, *focused, *selection, has_blur).0,
                    target.1 == sequence_effects(rest@, *focused, *selection, has_blur).1,
                decreases rest@.len(),
            {
                let ghost before_rest = rest@;
                let ghost before_effects = effects@;
                let ghost before_focused = *focused;
                let next = rest.remove(0);
                assert(rest@ =~= before_rest.drop_first());
                assert(next == before_rest[0]);
                proof {
                    lemma_binding_size_positive(next);
                    assert(bindings_size(before_rest) == binding_size(next) + bindings_size(rest@));
                    assert(binding_size(next) < binding_size(binding));
                }
                apply_binding(next, focused, selection, has_blur, effects);
                proof {
                    let first = binding_effects(next, before_focused, *selection, has_blur);
                    let tail = sequence_effects(rest@, first.1, *selection, has_blur);
                    assert(sequence_effects(before_rest, before_focused, *selection, has_blur) == (first.0 + tail.0, tail.1));
                    assert(effects@ == before_effects + first.0);
                    assert(before_effects + (first.0 + tail.0) =~= effects@ + tail.0);
                }
            }
            assert(sequence_effects(rest@, *focused, *selection, has_blur).0 =~= Seq::<Effect<Message>>::empty());
            assert(old(effects)@ + target.0 =~= effects@);
        },
        Binding::Custom(message) => {
            effects.push(Effect::Custom(message));
            assert(effects@ =~= old(effects)@ + binding_effects(whole_binding, *old(focused), *selection, has_blur).0);
        },
    }
}

/// What the editor's event handling reads and changes: whether it has
/// focus, whether its window is focused, the kind of click a drag goes on
/// from, and the input method's text being composed with its selection.
#[derive(Debug, PartialEq)]
pub struct EditorState {
    pub focused: bool,
    pub window_focused: bool,
    pub drag_click: Option<ClickKind>,
    pub preedit: Option<(String, Option<Range<usize>>)>,
}

/// An event the editor reacts to, as its decisions see it.
#[derive(Debug, PartialEq)]
pub enum EditorEvent<Message> {
    /// The window lost focus.
    WindowUnfocused,
    /// The window gained focus.
    WindowFocused,
    /// The window is about to be redrawn.
    RedrawRequested,
    /// Text read from the clipboard arrived.
    ClipboardText(String),
    /// The left button was pressed inside the editor, making a click of
    /// the given kind at a point of its content.
    Click(ClickKind, Point),
    /// The mouse moved to a point of the editor's content.
    CursorMoved(Point),
    /// The left button was released.
    Release,
    /// An input method event.
    InputMethod(Ime),
    /// A key binding, or `Unfocus` for a press outside a focused editor.
    Binding(Binding<Message>),
}

/// The state and effects after `event`; `empty` is the empty text an input
/// method starts composing with.
pub open spec fn update_spec<M>(
    state: EditorState,
    event: EditorEvent<M>,
    selection: Option<String>,
    has_blur: bool,
    empty: String,
) -> (EditorState, Seq<Effect<M>>) {
    match event {
        EditorEvent::WindowUnfocused => if state.focused {
            (EditorState { window_focused: false, ..state }, Seq::empty())
        } else {
            (state, Seq::empty())
        },
        EditorEvent::WindowFocused => if state.focused {
            (EditorState { window_focused: true, ..state }, seq![Effect::RestartBlink, Effect::RequestRedraw])
        } else {
            (state, Seq::empty())
        },
        EditorEvent::RedrawRequested => if state.focused && state.window_focused {
            (state, seq![Effect::Tick])
        } else {
            (state, Seq::empty())
        },
        EditorEvent::ClipboardText(text) => if state.focused && state.window_focused {
            (state, seq![Effect::Publish(Action::Edit(Edit::Paste(std::sync::Arc::new(text))))])
        } else {
            (state, Seq::empty())
        },
        EditorEvent::Click(kind, point) => (
            EditorState { focused: true, window_focused: true, drag_click: Some(kind), ..state },
            seq![Effect::FocusNow, Effect::Publish(click_action_spec(kind, point)), Effect::CaptureEvent],
        ),
        EditorEvent::CursorMoved(point) => if state.drag_click == Some(ClickKind::Single) {
            (state, seq![Effect::Publish(Action::Drag(point))])
        } else {
            (state, Seq::empty())
        },
        EditorEvent::Release => (EditorState { drag_click: None, ..state }, Seq::empty()),
        EditorEvent::InputMethod(ime) => match ime {
            Ime::Toggle(open) => (
                EditorState { preedit: if open { Some((empty, None)) } else { None }, ..state },
                seq![Effect::RequestRedraw],
            ),
            Ime::Preedit { content, selection: range } => if state.focused {
                (EditorState { preedit: Some((content, range)), ..state }, seq![Effect::RequestRedraw])
            } else {
                (state, Seq::empty())
            },
            Ime::Commit(text) => if state.focused {
                (state, seq![Effect::Publish(Action::Edit(Edit::Paste(std::sync::Arc::new(text))))])
            } else {
                (state, Seq::empty())
            },
        },
        EditorEvent::Binding(b) => {
            let capture: Seq<Effect<M>> = if b is Unfocus {
                Seq::empty()
            } else {
                seq![Effect::CaptureEvent]
            };
            let applied = binding_effects(b, state.focused, selection, has_blur);
            let restart: Seq<Effect<M>> = if applied.1 {
                seq![Effect::RestartBlink]
            } else {
                Seq::empty()
            };
            (
                EditorState {
                    focused: applied.1,
                    drag_click: if state.focused && !applied.1 { None } else { state.drag_click },
                    ..state
                },
                capture + applied.0 + restart,
            )
        },
    }
}

pub open spec fn click_action_spec(kind: ClickKind, position: Point) -> Action {
    match kind {
        ClickKind::Single => Action::Click(position),
        ClickKind::Double => Action::SelectWord,
        ClickKind::Triple => Action::SelectLine,
    }
}

/// React to an event: update the editor's state and append the effects
/// the surroundings carry out, given whether the application handles the
/// editor's actions (an editor without a handler ignores every event), the
/// selected text and whether the application listens for the editor losing
/// focus. A redraw while focused in a focused window records its time and
/// schedules the next blink. A click focuses the
/// editor and starts a drag; moving on from a single click drags; the
/// window's focus pauses or restarts the cursor's blink; clipboard text
/// and committed input method text are pasted while focused; and a key
/// binding is applied, the event captured unless it unfocuses.
pub fn update<Message>(
    state: &mut EditorState,
    enabled: bool,
    event: EditorEvent<Message>,
    selection: &Option<String>,
    has_blur: bool,
    effects: &mut Vec<Effect<Message>>,
)
    ensures
        !enabled ==> *final(state) == *old(state) && final(effects)@ == old(effects)@,
        enabled ==> exists|empty: String|
            {
                &&& empty@.len() == 0
                &&& *final(state) == update_spec(*old(state), event, *selection, has_blur, empty).0
                &&& final(effects)@ == old(effects)@ + update_spec(*old(state), event, *selection, has_blur, empty).1
            },
{
    let ghost e = event;
    if !enabled {
        return;
    }
    let empty = String::new();
    let ghost witness = empty;
    match event {
        EditorEvent::RedrawRequested => {
            if state.focused && state.window_focused {
                effects.push(Effect::Tick);
            }
        },
        EditorEvent::WindowUnfocused => {
            if state.focused {
                state.window_focused = false;
            }
        },
        EditorEvent::WindowFocused => {
            if state.focused {
                state.window_focused = true;
                effects.push(Effect::RestartBlink);
                effects.push(Effect::RequestRedraw);
            }
        },
        EditorEvent::ClipboardText(text) => {
            if state.focused && state.window_focused {
                effects.push(Effect::Publish(Action::Edit(Edit::Paste(std::sync::Arc::new(text)))));
            }
        },
        EditorEvent::Click(kind, point) => {
            state.focused = true;
            state.window_focused = true;
            state.drag_click = Some(kind);
            effects.push(Effect::FocusNow);
            effects.push(Effect::Publish(click_action(kind, point)));
            effects.push(Effect::CaptureEvent);
        },
        EditorEvent::CursorMoved(point) => {
            if let Some(ClickKind::Single) = state.drag_click {
                effects.push(Effect::Publish(Action::Drag(point)));
            }
        },
        EditorEvent::Release => {
            state.drag_click = None;
        },
        EditorEvent::InputMethod(ime) => match ime {
            Ime::Toggle(open) => {
                state.preedit = if open { Some((empty, None)) } else { None };
                effects.push(Effect::RequestRedraw);
            },
            Ime::Preedit { content, selection: range } => {
                if state.focused {
                    state.preedit = Some((content, range));
                    effects.push(Effect::RequestRedraw);
                }
            },
            Ime::Commit(text) => {
                if state.focused {
                    effects.push(Effect::Publish(Action::Edit(Edit::Paste(std::sync::Arc::new(text)))));
                }
            },
        },
        EditorEvent::Binding(binding) => {
            let was_focused = state.focused;
            if !matches!(binding, Binding::Unfocus) {
                effects.push(Effect::CaptureEvent);
            }
            let ghost mid = effects@;
            apply_binding(binding, &mut state.focused, selection, has_blur, effects);
            if was_focused && !state.focused {
                state.drag_click = None;
            }
            if state.focused {
                effects.push(Effect::RestartBlink);
            }
        },
    }
    proof {
        let r = update_spec(*old(state), e, *selection, has_blur, witness);
        assert(effects@ =~= old(effects)@ + r.1);
    }
}

/// After an event, with the editor's status now `status`: on a redraw the
/// status drawn is remembered (and the input method is asked for again);
/// otherwise a status that differs from the one last drawn asks for a
/// redraw. Gives the status to remember and whether to redraw.
pub fn status_redraw(is_redraw: bool, last_status: Option<Status>, status: Status) -> (r: (Option<Status>, bool))
    ensures
        is_redraw ==> r == (Some(status), false),
        !is_redraw ==> r == (last_status, last_status is Some && last_status != Some(status)),
{
    if is_redraw {
        (Some(status), false)
    } else {
        match last_status {
            Some(last) => (last_status, last != status),
            None => (None, false),
        }
    }
}

} // verus!

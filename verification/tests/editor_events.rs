use std::sync::Arc;

use markright::widget::rich_editor::action::{Action, Edit, Point};
use markright::widget::rich_editor::binding::{Binding, Ime};
use markright::widget::rich_editor::{
    status_redraw, update, ClickKind, EditorEvent, EditorState, Effect, Status,
};

fn idle() -> EditorState {
    EditorState { focused: false, window_focused: false, drag_click: None, preedit: None }
}

fn focused() -> EditorState {
    EditorState { focused: true, window_focused: true, drag_click: None, preedit: None }
}

fn point() -> Point {
    Point { x: 3.0f32.to_bits(), y: 4.0f32.to_bits() }
}

fn run(state: &mut EditorState, event: EditorEvent<u8>) -> Vec<Effect<u8>> {
    let mut effects = Vec::new();
    update(state, true, event, &Some("sel".to_string()), true, &mut effects);
    effects
}

#[test]
fn click_focuses_and_starts_a_drag() {
    let mut s = idle();
    let e = run(&mut s, EditorEvent::Click(ClickKind::Single, point()));
    assert_eq!(s, EditorState { drag_click: Some(ClickKind::Single), ..focused() });
    assert_eq!(e, vec![Effect::FocusNow, Effect::Publish(Action::Click(point())), Effect::CaptureEvent]);
    let e = run(&mut s, EditorEvent::CursorMoved(point()));
    assert_eq!(e, vec![Effect::Publish(Action::Drag(point()))]);
    let e = run(&mut s, EditorEvent::Release);
    assert!(e.is_empty());
    assert_eq!(s.drag_click, None);
    assert!(run(&mut s, EditorEvent::CursorMoved(point())).is_empty());
}

#[test]
fn double_click_selects_a_word_and_does_not_drag() {
    let mut s = idle();
    let e = run(&mut s, EditorEvent::Click(ClickKind::Double, point()));
    assert_eq!(e[1], Effect::Publish(Action::SelectWord));
    assert!(run(&mut s, EditorEvent::CursorMoved(point())).is_empty());
}

#[test]
fn window_focus_pauses_and_restarts_the_blink() {
    let mut s = focused();
    assert!(run(&mut s, EditorEvent::WindowUnfocused).is_empty());
    assert!(!s.window_focused);
    assert!(run(&mut s, EditorEvent::ClipboardText("x".to_string())).is_empty());
    let e = run(&mut s, EditorEvent::WindowFocused);
    assert!(s.window_focused);
    assert_eq!(e, vec![Effect::RestartBlink, Effect::RequestRedraw]);
    let mut i = idle();
    assert!(run(&mut i, EditorEvent::WindowFocused).is_empty());
    assert_eq!(i, idle());
}

#[test]
fn clipboard_text_is_pasted_while_focused() {
    let mut s = focused();
    let e = run(&mut s, EditorEvent::ClipboardText("pasted".to_string()));
    assert_eq!(e, vec![Effect::Publish(Action::Edit(Edit::Paste(Arc::new("pasted".to_string()))))]);
    let mut i = idle();
    assert!(run(&mut i, EditorEvent::ClipboardText("pasted".to_string())).is_empty());
}

#[test]
fn input_method_composes_and_commits() {
    let mut s = focused();
    let e = run(&mut s, EditorEvent::InputMethod(Ime::Toggle(true)));
    assert_eq!(e, vec![Effect::RequestRedraw]);
    assert_eq!(s.preedit, Some((String::new(), None)));
    run(&mut s, EditorEvent::InputMethod(Ime::Preedit { content: "にほ".to_string(), selection: Some(0..3) }));
    assert_eq!(s.preedit, Some(("にほ".to_string(), Some(0..3))));
    let e = run(&mut s, EditorEvent::InputMethod(Ime::Commit("日本".to_string())));
    assert_eq!(e, vec![Effect::Publish(Action::Edit(Edit::Paste(Arc::new("日本".to_string()))))]);
    run(&mut s, EditorEvent::InputMethod(Ime::Toggle(false)));
    assert_eq!(s.preedit, None);
}

#[test]
fn bindings_are_captured_and_unfocus_ends_the_drag() {
    let mut s = EditorState { drag_click: Some(ClickKind::Single), ..focused() };
    let e = run(&mut s, EditorEvent::Binding(Binding::Insert('a')));
    assert_eq!(
        e,
        vec![Effect::CaptureEvent, Effect::Publish(Action::Edit(Edit::Insert('a'))), Effect::RestartBlink]
    );
    let e = run(&mut s, EditorEvent::Binding(Binding::Unfocus));
    assert_eq!(e, vec![Effect::Blur]);
    assert!(!s.focused);
    assert_eq!(s.drag_click, None);
}

#[test]
fn status_change_asks_for_a_redraw() {
    let focused = Status::Focused { is_hovered: false };
    assert_eq!(status_redraw(true, None, focused), (Some(focused), false));
    assert_eq!(status_redraw(false, Some(Status::Active), focused), (Some(Status::Active), true));
    assert_eq!(status_redraw(false, Some(focused), focused), (Some(focused), false));
    assert_eq!(status_redraw(false, None, focused), (None, false));
}

#[test]
fn an_editor_without_action_handler_ignores_events() {
    let mut s = EditorState { drag_click: Some(ClickKind::Single), ..focused() };
    for event in [
        EditorEvent::Click(ClickKind::Single, point()),
        EditorEvent::Binding(Binding::Insert('a')),
        EditorEvent::Binding(Binding::Unfocus),
        EditorEvent::WindowUnfocused,
        EditorEvent::RedrawRequested,
        EditorEvent::Release,
    ] {
        let mut effects: Vec<Effect<u8>> = Vec::new();
        update(&mut s, false, event, &None, true, &mut effects);
        assert!(effects.is_empty());
        assert_eq!(s, EditorState { drag_click: Some(ClickKind::Single), ..focused() });
    }
}

#[test]
fn redraw_ticks_only_while_focused_in_a_focused_window() {
    let mut s = focused();
    assert_eq!(run(&mut s, EditorEvent::RedrawRequested), vec![Effect::Tick]);
    s.window_focused = false;
    assert!(run(&mut s, EditorEvent::RedrawRequested).is_empty());
    let mut i = idle();
    assert!(run(&mut i, EditorEvent::RedrawRequested).is_empty());
}

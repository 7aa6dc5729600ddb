use pixelate::input::{Input, KeyCode, MouseButton};
use pixelate::lifecycle::{Action, FrameScheduler, InputEvent, Phase, WindowEvent};

fn running(now: u64) -> FrameScheduler {
    let mut s = FrameScheduler::new(now);
    assert!(s.resumed());
    assert!(s.startup_finished(true).is_empty());
    s
}

#[test]
fn resume_creates_once() {
    let mut s = FrameScheduler::new(0);
    assert_eq!(s.phase(), Phase::Uninitialized);
    assert!(s.resumed());
    s.startup_finished(true);
    assert_eq!(s.phase(), Phase::Running);
    assert!(!s.resumed());
}

#[test]
fn failed_startup_exits() {
    let mut s = FrameScheduler::new(0);
    assert_eq!(s.startup_finished(false), vec![Action::Exit]);
    assert_eq!(s.phase(), Phase::Terminated);
    assert!(s.window_event(WindowEvent::RedrawRequested, 5).is_empty());
}

#[test]
fn events_before_startup_are_ignored() {
    let mut s = FrameScheduler::new(0);
    assert!(s.window_event(WindowEvent::CloseRequested, 1).is_empty());
    assert!(!s.about_to_wait());
    assert_eq!(s.phase(), Phase::Uninitialized);
}

#[test]
fn close_request_shuts_down_once() {
    let mut s = running(0);
    assert_eq!(
        s.window_event(WindowEvent::CloseRequested, 10),
        vec![Action::Shutdown, Action::Exit]
    );
    assert_eq!(s.phase(), Phase::Terminated);
    assert!(s.window_event(WindowEvent::RedrawRequested, 20).is_empty());
    assert!(s.window_event(WindowEvent::CloseRequested, 30).is_empty());
    assert!(!s.about_to_wait());
}

#[test]
fn two_redraws_update_then_render() {
    let mut s = running(100);
    assert_eq!(
        s.window_event(WindowEvent::RedrawRequested, 150),
        vec![
            Action::Update { delta_nanos: 50 },
            Action::Render,
            Action::Present,
            Action::RequestRedraw
        ]
    );
    assert_eq!(
        s.window_event(WindowEvent::RedrawRequested, 230),
        vec![
            Action::Update { delta_nanos: 80 },
            Action::Render,
            Action::Present,
            Action::RequestRedraw
        ]
    );
}

#[test]
fn clock_going_back_gives_zero_step() {
    let mut s = running(100);
    assert_eq!(
        s.window_event(WindowEvent::RedrawRequested, 40)[0],
        Action::Update { delta_nanos: 0 }
    );
}

#[test]
fn keys_update_snapshot_then_forward() {
    let mut s = running(0);
    let key = KeyCode(17);
    assert_eq!(
        s.window_event(WindowEvent::Keyboard { key, pressed: true }, 1),
        vec![Action::Forward(InputEvent::KeyPressed(key))]
    );
    assert!(s.input().is_key_down(key));
    assert_eq!(
        s.window_event(WindowEvent::Keyboard { key, pressed: false }, 2),
        vec![Action::Forward(InputEvent::KeyReleased(key))]
    );
    assert!(!s.input().is_key_down(key));
}

#[test]
fn buttons_update_snapshot_then_forward() {
    let mut s = running(0);
    assert_eq!(
        s.window_event(
            WindowEvent::MouseInput { button: MouseButton::Right, pressed: true },
            1
        ),
        vec![Action::Forward(InputEvent::MousePressed(MouseButton::Right))]
    );
    assert!(s.input().is_mouse_button_down(MouseButton::Right));
    assert!(!s.input().is_mouse_button_down(MouseButton::Left));
}

#[test]
fn resize_and_cursor_are_forwarded() {
    let mut s = running(0);
    assert_eq!(
        s.window_event(WindowEvent::Resized { width: 3, height: 4 }, 1),
        vec![
            Action::ResizeSurface { width: 3, height: 4 },
            Action::Forward(InputEvent::WindowResized { width: 3, height: 4 })
        ]
    );
    assert_eq!(
        s.window_event(WindowEvent::CursorMoved, 2),
        vec![Action::Forward(InputEvent::MouseMoved)]
    );
    assert!(s.window_event(WindowEvent::Other, 3).is_empty());
    assert!(s.about_to_wait());
}

#[test]
fn input_tracks_sets() {
    let mut input = Input::new();
    input.set_key_pressed(KeyCode(1), true);
    input.set_key_pressed(KeyCode(1), true);
    input.set_key_pressed(KeyCode(2), true);
    input.set_key_pressed(KeyCode(1), false);
    assert!(!input.is_key_down(KeyCode(1)));
    assert!(input.is_key_down(KeyCode(2)));
    input.set_mouse_button_pressed(MouseButton::Left, true);
    input.set_mouse_button_pressed(MouseButton::Left, false);
    assert!(!input.is_mouse_button_down(MouseButton::Left));
}

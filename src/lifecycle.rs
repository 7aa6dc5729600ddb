//! The decisions of the frame lifecycle: which application callbacks run, in
//! which order, for each event that the windowing backend delivers. The
//! embedding program performs the actions and feeds the events back.
use vstd::prelude::*;
use crate::input::{Input, KeyCode, MouseButton};

verus! {

/// Where the lifecycle stands.
#[derive(PartialEq, Eq, Structural, Clone, Copy, Debug)]
pub enum Phase {
    /// No window yet: waiting for the first resume.
    Uninitialized,
    /// The window, its surface and the application are up.
    Running,
    /// The loop is ending; nothing more is dispatched.
    Terminated,
}

/// An event of the windowing backend, as far as the lifecycle reads it.
/// Cursor coordinates stay with the embedding program.
#[derive(PartialEq, Eq, Structural, Clone, Copy, Debug)]
pub enum WindowEvent {
    CloseRequested,
    Keyboard { key: KeyCode, pressed: bool },
    MouseInput { button: MouseButton, pressed: bool },
    CursorMoved,
    Resized { width: u32, height: u32 },
    RedrawRequested,
    Other,
}

/// A discrete event handed on to the application.
#[derive(PartialEq, Eq, Structural, Clone, Copy, Debug)]
pub enum InputEvent {
    KeyPressed(KeyCode),
    KeyReleased(KeyCode),
    MousePressed(MouseButton),
    MouseReleased(MouseButton),
    /// The cursor moved; the embedding program attaches its position.
    MouseMoved,
    WindowResized { width: u32, height: u32 },
}

/// What the embedding program is to do, in the order given.
#[derive(PartialEq, Eq, Structural, Clone, Copy, Debug)]
pub enum Action {
    /// Call the application's `on_shutdown`.
    Shutdown,
    /// Leave the event loop.
    Exit,
    /// Resize the pixel surface; a failure is logged and not fatal.
    ResizeSurface { width: u32, height: u32 },
    /// Call the application's `on_event`.
    Forward(InputEvent),
    /// Call the application's `on_update` with the time since the last frame.
    Update { delta_nanos: u64 },
    /// Call the application's `on_render`.
    Render,
    /// Present the framebuffer; a failure is logged and not fatal.
    Present,
    /// Ask the window for another redraw.
    RequestRedraw,
}

/// The time from `last` to `now`, or zero if the clock went back.
pub open spec fn elapsed(last: u64, now: u64) -> u64 {
    if now >= last {
        (now - last) as u64
    } else {
        0
    }
}

/// The actions that `event`, arriving at time `now`, calls for in `phase`,
/// the last frame having been at `last`.
pub open spec fn actions_for(phase: Phase, event: WindowEvent, last: u64, now: u64) -> Seq<Action> {
    if phase != Phase::Running {
        seq![]
    } else {
        match event {
            WindowEvent::CloseRequested => seq![Action::Shutdown, Action::Exit],
            WindowEvent::Keyboard { key, pressed } => seq![
                Action::Forward(
                    if pressed {
                        InputEvent::KeyPressed(key)
                    } else {
                        InputEvent::KeyReleased(key)
                    },
                ),
            ],
            WindowEvent::MouseInput { button, pressed } => seq![
                Action::Forward(
                    if pressed {
                        InputEvent::MousePressed(button)
                    } else {
                        InputEvent::MouseReleased(button)
                    },
                ),
            ],
            WindowEvent::CursorMoved => seq![Action::Forward(InputEvent::MouseMoved)],
            WindowEvent::Resized { width, height } => seq![
                Action::ResizeSurface { width, height },
                Action::Forward(InputEvent::WindowResized { width, height }),
            ],
            WindowEvent::RedrawRequested => seq![
                Action::Update { delta_nanos: elapsed(last, now) },
                Action::Render,
                Action::Present,
                Action::RequestRedraw,
            ],
            WindowEvent::Other => seq![],
        }
    }
}

/// The phase after `event` in `phase`: a close request ends a running loop.
pub open spec fn phase_after(phase: Phase, event: WindowEvent) -> Phase {
    if phase == Phase::Running && event == WindowEvent::CloseRequested {
        Phase::Terminated
    } else {
        phase
    }
}

/// The time of the last frame after `event` at time `now`: a redraw while
/// running starts a frame.
pub open spec fn last_frame_after(phase: Phase, event: WindowEvent, last: u64, now: u64) -> u64 {
    if phase == Phase::Running && event == WindowEvent::RedrawRequested {
        now
    } else {
        last
    }
}

/// All actions that a run of timed events calls for, in order.
pub open spec fn run_actions(phase: Phase, last: u64, events: Seq<(WindowEvent, u64)>) -> Seq<Action>
    decreases events.len(),
{
    if events.len() == 0 {
        seq![]
    } else {
        let (event, now) = events[0];
        actions_for(phase, event, last, now) + run_actions(
            phase_after(phase, event),
            last_frame_after(phase, event, last, now),
            events.drop_first(),
        )
    }
}

/// The frame scheduler's state: the lifecycle phase, the input snapshot and
/// the time of the last frame, in nanoseconds of a monotonic clock.
pub struct FrameScheduler {
    phase: Phase,
    input: Input,
    last_frame: u64,
}

impl FrameScheduler {
    /// The lifecycle phase.
    pub closed spec fn spec_phase(&self) -> Phase {
        self.phase
    }

    /// The input snapshot.
    pub closed spec fn spec_input(&self) -> Input {
        self.input
    }

    /// The time of the last frame.
    pub closed spec fn spec_last_frame(&self) -> u64 {
        self.last_frame
    }

    /// The input snapshot is well formed.
    pub closed spec fn wf(&self) -> bool {
        self.input.wf()
    }

    /// A scheduler created at time `now`, waiting for its window.
    pub fn new(now: u64) -> (r: FrameScheduler)
        ensures
            r.wf(),
            r.spec_phase() == Phase::Uninitialized,
            r.spec_last_frame() == now,
            r.spec_input().keys() == Set::<KeyCode>::empty(),
            r.spec_input().buttons() == Set::<MouseButton>::empty(),
    {
        FrameScheduler { phase: Phase::Uninitialized, input: Input::new(), last_frame: now }
    }

    /// The lifecycle phase.
    pub fn phase(&self) -> (r: Phase)
        ensures
            r == self.spec_phase(),
    {
        self.phase
    }

    /// The input snapshot, read-only.
    pub fn input(&self) -> (r: &Input)
        ensures
            *r == self.spec_input(),
    {
        &self.input
    }

    /// A resume event arrived: whether the window, its surface and the
    /// application are to be created now. Only the first resume does so.
    pub fn resumed(&self) -> (r: bool)
        ensures
            r == (self.spec_phase() == Phase::Uninitialized),
    {
        self.phase == Phase::Uninitialized
    }

    /// Startup after a resume has ended: with `succeeded` (window, surface and
    /// `on_init` all done) the loop runs; otherwise it exits.
    pub fn startup_finished(&mut self, succeeded: bool) -> (r: Vec<Action>)
        requires
            old(self).wf(),
            old(self).spec_phase() == Phase::Uninitialized,
        ensures
            final(self).wf(),
            final(self).spec_phase() == if succeeded {
                Phase::Running
            } else {
                Phase::Terminated
            },
            r@ == if succeeded {
                Seq::<Action>::empty()
            } else {
                seq![Action::Exit]
            },
            final(self).spec_input() == old(self).spec_input(),
            final(self).spec_last_frame() == old(self).spec_last_frame(),
    {
        if succeeded {
            self.phase = Phase::Running;
            Vec::new()
        } else {
            self.phase = Phase::Terminated;
            let mut r: Vec<Action> = Vec::new();
            r.push(Action::Exit);
            r
        }
    }

    /// No events are pending: whether to ask the window for a redraw, which
    /// keeps frames coming under a polling loop.
    pub fn about_to_wait(&self) -> (r: bool)
        ensures
            r == (self.spec_phase() == Phase::Running),
    {
        self.phase == Phase::Running
    }

    /// Dispatches `event`, arrived at time `now`: updates the input snapshot,
    /// the phase and the frame time, and returns the actions to perform, in
    /// order. Outside the running phase nothing happens.
    pub fn window_event(&mut self, event: WindowEvent, now: u64) -> (r: Vec<Action>)
        requires
            old(self).wf(),
        ensures
            final(self).wf(),
            r@ == actions_for(old(self).spec_phase(), event, old(self).spec_last_frame(), now),
            final(self).spec_phase() == phase_after(old(self).spec_phase(), event),
            final(self).spec_last_frame() == last_frame_after(
                old(self).spec_phase(),
                event,
                old(self).spec_last_frame(),
                now,
            ),
            final(self).spec_input().keys() == match event {
                WindowEvent::Keyboard { key, pressed } => if old(self).spec_phase()
                    == Phase::Running {
                    if pressed {
                        old(self).spec_input().keys().insert(key)
                    } else {
                        old(self).spec_input().keys().remove(key)
                    }
                } else {
                    old(self).spec_input().keys()
                },
                _ => old(self).spec_input().keys(),
            },
            final(self).spec_input().buttons() == match event {
                WindowEvent::MouseInput { button, pressed } => if old(self).spec_phase()
                    == Phase::Running {
                    if pressed {
                        old(self).spec_input().buttons().insert(button)
                    } else {
                        old(self).spec_input().buttons().remove(button)
                    }
                } else {
                    old(self).spec_input().buttons()
                },
                _ => old(self).spec_input().buttons(),
            },
    {
        let mut r: Vec<Action> = Vec::new();
        if self.phase != Phase::Running {
            assert(r@ =~= seq![]);
            return r;
        }
        match event {
            WindowEvent::CloseRequested => {
                self.phase = Phase::Terminated;
                r.push(Action::Shutdown);
                r.push(Action::Exit);
            },
            WindowEvent::Keyboard { key, pressed } => {
                self.input.set_key_pressed(key, pressed);
                if pressed {
                    r.push(Action::Forward(InputEvent::KeyPressed(key)));
                } else {
                    r.push(Action::Forward(InputEvent::KeyReleased(key)));
                }
            },
            WindowEvent::MouseInput { button, pressed } => {
                self.input.set_mouse_button_pressed(button, pressed);
                if pressed {
                    r.push(Action::Forward(InputEvent::MousePressed(button)));
                } else {
                    r.push(Action::Forward(InputEvent::MouseReleased(button)));
                }
            },
            WindowEvent::CursorMoved => {
                r.push(Action::Forward(InputEvent::MouseMoved));
            },
            WindowEvent::Resized { width, height } => {
                r.push(Action::ResizeSurface { width, height });
                r.push(Action::Forward(InputEvent::WindowResized { width, height }));
            },
            WindowEvent::RedrawRequested => {
                let delta_nanos = if now >= self.last_frame {
                    now - self.last_frame
                } else {
                    0
                };
                self.last_frame = now;
                r.push(Action::Update { delta_nanos });
                r.push(Action::Render);
                r.push(Action::Present);
                r.push(Action::RequestRedraw);
            },
            WindowEvent::Other => {},
        }
        assert(r@ =~= actions_for(old(self).spec_phase(), event, old(self).spec_last_frame(), now));
        r
    }
}

/// Once the loop has ended, no event calls for any action: no callback runs.
pub proof fn lemma_terminated_is_silent(last: u64, events: Seq<(WindowEvent, u64)>)
    ensures
        run_actions(Phase::Terminated, last, events) == Seq::<Action>::empty(),
    decreases events.len(),
{
    if events.len() > 0 {
        lemma_terminated_is_silent(last, events.drop_first());
        assert(run_actions(Phase::Terminated, last, events) =~= Seq::<Action>::empty());
    }
}

/// A close request while running calls `on_shutdown` exactly once and then
/// leaves the loop; whatever events follow, no `on_update` or `on_render`
/// (nor anything else) runs again.
pub proof fn lemma_close_request_ends_loop(last: u64, now: u64, later: Seq<(WindowEvent, u64)>)
    ensures
        run_actions(Phase::Running, last, seq![(WindowEvent::CloseRequested, now)] + later) == seq![
            Action::Shutdown,
            Action::Exit,
        ],
        phase_after(Phase::Running, WindowEvent::CloseRequested) == Phase::Terminated,
{
    let events = seq![(WindowEvent::CloseRequested, now)] + later;
    assert(events[0] == (WindowEvent::CloseRequested, now));
    assert(events.drop_first() =~= later);
    lemma_terminated_is_silent(last, later);
    assert(run_actions(Phase::Running, last, events) =~= seq![Action::Shutdown, Action::Exit]);
}

/// Two redraws in a row while running each call `on_update` and then
/// `on_render` once, then present and ask for the next frame; each update's
/// time step is the time since the frame before.
pub proof fn lemma_two_frames(last: u64, first: u64, second: u64)
    requires
        last <= first <= second,
    ensures
        run_actions(
            Phase::Running,
            last,
            seq![(WindowEvent::RedrawRequested, first), (WindowEvent::RedrawRequested, second)],
        ) == seq![
            Action::Update { delta_nanos: (first - last) as u64 },
            Action::Render,
            Action::Present,
            Action::RequestRedraw,
            Action::Update { delta_nanos: (second - first) as u64 },
            Action::Render,
            Action::Present,
            Action::RequestRedraw,
        ],
{
    let events = seq![(WindowEvent::RedrawRequested, first), (WindowEvent::RedrawRequested, second)];
    assert(events.drop_first() =~= seq![(WindowEvent::RedrawRequested, second)]);
    assert(events.drop_first().drop_first() =~= Seq::<(WindowEvent, u64)>::empty());
    let rest = events.drop_first();
    assert(rest[0] == (WindowEvent::RedrawRequested, second));
    assert(run_actions(Phase::Running, first, rest) =~= seq![
        Action::Update { delta_nanos: (second - first) as u64 },
        Action::Render,
        Action::Present,
        Action::RequestRedraw,
    ]) by {
        reveal_with_fuel(run_actions, 2);
    }
    assert(run_actions(Phase::Running, last, events) =~= seq![
        Action::Update { delta_nanos: (first - last) as u64 },
        Action::Render,
        Action::Present,
        Action::RequestRedraw,
        Action::Update { delta_nanos: (second - first) as u64 },
        Action::Render,
        Action::Present,
        Action::RequestRedraw,
    ]);
}

} // verus!

//! Playback state of the terminal viewer.
//!
//! The viewer shows one frame at a time out of a list that either is fixed
//! (after solving) or grows while a solver runs (live view). Keys switch the
//! projection, step through frames, change the playback speed and loop mode,
//! and toggle labels; a timer advances playing frames. The state here decides
//! what each key, tick and solver event does; drawing, timing and fitting the
//! viewport to the geometry are left to the caller, who is told by
//! [`ViewerAction`] when a viewport has to be fitted.
use vstd::prelude::*;

use crate::text::push_str;
use crate::view::Projection;

verus! {

/// Playback speed of a new viewer, in frames per second.
pub const DEFAULT_PLAYBACK_FPS: u16 = 10;

/// Slowest playback speed.
pub const MIN_PLAYBACK_FPS: u16 = 1;

/// Fastest playback speed.
pub const MAX_PLAYBACK_FPS: u16 = 100;

/// Change of the playback speed per key press.
pub const PLAYBACK_FPS_STEP: u16 = 10;

/// What playback does at the end of the frame list.
#[derive(Clone, Copy, Debug, PartialEq, Eq, Structural)]
pub enum LoopMode {
    /// Start over at the first frame.
    Restart,
    /// Turn around and play backwards, and forwards again at the start.
    Bounce,
    /// Stop at the last frame.
    Once,
}

#[derive(Clone, Copy, Debug, PartialEq, Eq, Structural)]
pub enum PlaybackDirection {
    Forward,
    Backward,
}

/// The name of a loop mode, as the status line shows it.
pub fn loop_mode_name(loop_mode: LoopMode) -> (name: &'static str)
    ensures
        name@ == loop_mode_label(loop_mode),
{
    proof {
        reveal_strlit("restart");
        reveal_strlit("bounce");
        reveal_strlit("once");
    }
    match loop_mode {
        LoopMode::Restart => "restart",
        LoopMode::Bounce => "bounce",
        LoopMode::Once => "once",
    }
}

pub open spec fn loop_mode_label(loop_mode: LoopMode) -> Seq<char> {
    match loop_mode {
        LoopMode::Restart => seq!['r', 'e', 's', 't', 'a', 'r', 't'],
        LoopMode::Bounce => seq!['b', 'o', 'u', 'n', 'c', 'e'],
        LoopMode::Once => seq!['o', 'n', 'c', 'e'],
    }
}

/// The key of a key event, as far as the viewer tells keys apart.
#[derive(Clone, Copy, Debug, PartialEq, Eq, Structural)]
pub enum KeyCode {
    Char(char),
    Esc,
    End,
    Left,
    Right,
    Up,
    Down,
    Other,
}

#[derive(Clone, Copy, Debug, PartialEq, Eq, Structural)]
pub enum KeyEventKind {
    Press,
    Repeat,
    Release,
}

#[derive(Clone, Copy, Debug, PartialEq, Eq, Structural)]
pub struct KeyEvent {
    pub code: KeyCode,
    pub kind: KeyEventKind,
}

impl KeyEvent {
    /// A press of `code`.
    pub fn new(code: KeyCode) -> (key: Self)
        ensures
            key.code == code,
            key.kind == KeyEventKind::Press,
    {
        KeyEvent { code, kind: KeyEventKind::Press }
    }
}

/// Work that a key leaves to the caller.
#[derive(Clone, Copy, Debug, PartialEq, Eq, Structural)]
pub enum ViewerAction {
    /// Nothing to fit.
    KeepViewport,
    /// Fit the viewport of the current projection to the current frame.
    FitCurrentFrame,
    /// Fit the viewport of the current projection to all frames.
    FitAllFrames,
}

/// An event from a solver that runs while the viewer shows its frames.
#[derive(Clone, Copy, Debug, PartialEq, Eq, Structural)]
pub enum LiveViewEvent {
    /// The solver started on frame `index` (counted from 1) of `total`.
    FrameStarted { index: usize, total: usize },
    /// The solver finished an iteration of the current frame.
    Progress { iteration: usize },
    /// The solver solved the next frame.
    FrameSolved,
    /// The solver solved all frames.
    Finished,
    /// The solver failed.
    Failed,
}

/// Where a solved frame goes in the frame list.
#[derive(Clone, Copy, Debug, PartialEq, Eq, Structural)]
pub enum FrameSlot {
    /// The first solved frame takes the place of the reference frame.
    ReplaceFirst,
    /// Later frames are appended.
    Append,
}

/// Progress of the solver behind a live view.
#[derive(Clone, Copy, Debug, PartialEq, Eq, Structural)]
pub struct LiveState {
    pub total_frames: usize,
    pub solved_frames: usize,
    /// The frame being solved, counted from 1.
    pub current_frame: Option<usize>,
    pub iteration: Option<usize>,
    /// Whether the view jumps to each newly solved frame.
    pub follow_latest: bool,
    pub finished: bool,
}

/// Playback state of the viewer.
#[derive(Clone, Copy, Debug, PartialEq, Eq, Structural)]
pub struct ViewerApp {
    /// The number of frames in the frame list.
    pub frame_count: usize,
    /// The frame shown.
    pub frame_index: usize,
    pub projection: Projection,
    pub playing: bool,
    pub playback_fps: u16,
    pub loop_mode: LoopMode,
    pub playback_direction: PlaybackDirection,
    pub show_labels: bool,
    pub live: Option<LiveState>,
    pub should_quit: bool,
}

/// Why the viewer cannot run.
#[derive(Debug)]
pub enum ViewerError {
    NotInteractive,
    EmptyFrames,
    Solve(String),
    WorkerPanicked,
    Io(std::io::Error),
}

#[verifier::external_type_specification]
#[verifier::external_body]
pub struct ExIoError(std::io::Error);

impl ViewerError {
    /// The message that reports the error; a failed solve adds the solver's
    /// own message.
    pub fn message(&self) -> (text: String)
        ensures
            match self {
                ViewerError::NotInteractive => text@ == "terminal viewer requires interactive stdin and stdout"@,
                ViewerError::EmptyFrames => text@ == "terminal viewer requires at least one frame"@,
                ViewerError::Solve(m) => text@ == "live solve failed: "@ + m@,
                ViewerError::WorkerPanicked => text@ == "live solver worker panicked"@,
                ViewerError::Io(_) => text@ == "terminal I/O failed"@,
            },
    {
        let mut text = String::new();
        match self {
            ViewerError::NotInteractive => push_str(&mut text, "terminal viewer requires interactive stdin and stdout"),
            ViewerError::EmptyFrames => push_str(&mut text, "terminal viewer requires at least one frame"),
            ViewerError::Solve(m) => {
                push_str(&mut text, "live solve failed: ");
                push_str(&mut text, m.as_str());
            },
            ViewerError::WorkerPanicked => push_str(&mut text, "live solver worker panicked"),
            ViewerError::Io(_) => push_str(&mut text, "terminal I/O failed"),
        }
        text
    }
}

impl ViewerApp {
    /// The state is consistent: a frame is shown out of a non-empty list,
    /// the speed is within its limits, and a live view holds one frame per
    /// solved frame, or the reference frame before the first is solved.
    pub open spec fn wf(&self) -> bool {
        &&& 1 <= self.frame_count
        &&& self.frame_index < self.frame_count
        &&& MIN_PLAYBACK_FPS <= self.playback_fps <= MAX_PLAYBACK_FPS
        &&& self.live matches Some(live) ==> self.frame_count == if live.solved_frames == 0 {
            1
        } else {
            live.solved_frames
        }
    }

    /// A solver is still running behind the view.
    pub open spec fn solving(&self) -> bool {
        self.live matches Some(live) && !live.finished
    }

    /// The viewer for a fixed list of `frame_count` frames: showing the first
    /// in the XZ plane, playing if there is more than one.
    pub fn new(frame_count: usize) -> (result: Result<Self, ViewerError>)
        ensures
            frame_count == 0 ==> result matches Err(ViewerError::EmptyFrames),
            frame_count > 0 ==> (result matches Ok(app) && app == initial_state(frame_count)),
    {
        if frame_count == 0 {
            return Err(ViewerError::EmptyFrames);
        }
        Ok(
            ViewerApp {
                frame_count,
                frame_index: 0,
                projection: Projection::Xz,
                playing: frame_count > 1,
                playback_fps: DEFAULT_PLAYBACK_FPS,
                loop_mode: LoopMode::Restart,
                playback_direction: PlaybackDirection::Forward,
                show_labels: false,
                live: None,
                should_quit: false,
            },
        )
    }

    /// The viewer for a solve of `total_frames` frames, showing the reference
    /// frame until the first is solved and following each solved frame.
    pub fn new_live(total_frames: usize) -> (result: Result<Self, ViewerError>)
        ensures
            total_frames == 0 ==> result matches Err(ViewerError::EmptyFrames),
            total_frames > 0 ==> (result matches Ok(app) && app == initial_live_state(total_frames)),
    {
        if total_frames == 0 {
            return Err(ViewerError::EmptyFrames);
        }
        let mut app = match Self::new(1) {
            Ok(app) => app,
            Err(e) => {
                return Err(e);
            },
        };
        app.live = Some(
            LiveState {
                total_frames,
                solved_frames: 0,
                current_frame: None,
                iteration: None,
                follow_latest: true,
                finished: false,
            },
        );
        Ok(app)
    }

    pub fn is_solving(&self) -> (solving: bool)
        ensures
            solving == self.solving(),
    {
        match &self.live {
            Some(live) => !live.finished,
            None => false,
        }
    }

    /// The number of the frame shown, counted from 1, and the number of
    /// frames; in a live view, the number of solved frames and the number
    /// of frames the solve will give.
    pub fn frame_counts(&self) -> (counts: (usize, usize))
        requires
            self.wf(),
        ensures
            counts == frame_counts_spec(*self),
    {
        match &self.live {
            Some(live) => (live.solved_frames, live.total_frames),
            None => (self.frame_index + 1, self.frame_count),
        }
    }

    /// Shows the next frame, or stays at the last, and plays forward from it.
    fn advance_frame(&mut self)
        requires
            old(self).wf(),
        ensures
            *final(self) == advanced(*old(self)),
    {
        self.frame_index = if self.frame_index + 1 < self.frame_count {
            self.frame_index + 1
        } else {
            self.frame_count - 1
        };
        self.playback_direction = PlaybackDirection::Forward;
    }

    /// Applies a key; returns the viewport fitting the key asks for.
    pub fn handle_key(&mut self, key: KeyEvent) -> (action: ViewerAction)
        requires
            old(self).wf(),
        ensures
            *final(self) == after_key(*old(self), key),
            action == key_action(key),
            final(self).wf(),
    {
        proof {
            lemma_key_keeps_state_consistent(*self, key);
        }
        if key.kind != KeyEventKind::Press {
            return ViewerAction::KeepViewport;
        }
        match key.code {
            KeyCode::Esc => {
                self.should_quit = true;
            },
            KeyCode::End => {
                match self.live {
                    Some(live) => {
                        if live.solved_frames > 0 {
                            self.frame_index = live.solved_frames - 1;
                        }
                        self.live = Some(LiveState { follow_latest: true, ..live });
                    },
                    None => {},
                }
            },
            KeyCode::Left => {
                self.playing = false;
                if self.is_solving() {
                    match self.live {
                        Some(live) => {
                            self.live = Some(LiveState { follow_latest: false, ..live });
                        },
                        None => {},
                    }
                    self.frame_index = self.frame_index.saturating_sub(1);
                } else {
                    self.frame_index = match self.frame_index.checked_sub(1) {
                        Some(index) => index,
                        None => self.frame_count - 1,
                    };
                }
            },
            KeyCode::Right => {
                self.playing = false;
                match self.live {
                    Some(live) => {
                        self.live = Some(LiveState { follow_latest: false, ..live });
                    },
                    None => {},
                }
                self.advance_frame();
            },
            KeyCode::Up => {
                self.faster();
            },
            KeyCode::Down => {
                self.slower();
            },
            KeyCode::Other => {},
            KeyCode::Char(c) => {
                return self.press_char(c);
            },
        }
        ViewerAction::KeepViewport
    }

    /// Applies a press of the character key `c`.
    fn press_char(&mut self, c: char) -> (action: ViewerAction)
        requires
            old(self).wf(),
        ensures
            *final(self) == after_char(*old(self), c),
            action == char_action(c),
    {
        if c == 'q' {
            self.should_quit = true;
        } else if c == 'f' {
            return ViewerAction::FitCurrentFrame;
        } else if c == 'F' {
            return ViewerAction::FitAllFrames;
        } else if c == 'v' {
            self.show_labels = !self.show_labels;
        } else if c == ' ' {
            if self.is_solving() {
                match self.live {
                    Some(live) => {
                        self.live = Some(LiveState { follow_latest: !live.follow_latest, ..live });
                    },
                    None => {},
                }
            } else if self.frame_count > 1 {
                if !self.playing && self.loop_mode == LoopMode::Once && self.frame_index + 1
                    == self.frame_count {
                    self.frame_index = 0;
                    self.playback_direction = PlaybackDirection::Forward;
                }
                self.playing = !self.playing;
            }
        } else if c == '1' {
            self.projection = Projection::Xy;
        } else if c == '2' {
            self.projection = Projection::Xz;
        } else if c == '3' {
            self.projection = Projection::Yz;
        } else if c == '4' {
            self.projection = Projection::Isometric;
        } else if c == '+' || c == '=' {
            self.faster();
        } else if c == '-' {
            self.slower();
        } else if c == 'l' {
            self.loop_mode = match self.loop_mode {
                LoopMode::Restart => LoopMode::Bounce,
                LoopMode::Bounce => LoopMode::Once,
                LoopMode::Once => LoopMode::Restart,
            };
            self.playback_direction = PlaybackDirection::Forward;
        }
        ViewerAction::KeepViewport
    }

    fn faster(&mut self)
        requires
            old(self).wf(),
        ensures
            *final(self) == (ViewerApp { playback_fps: faster_fps(old(self).playback_fps), ..*old(self) }),
    {
        let fps = self.playback_fps.saturating_add(PLAYBACK_FPS_STEP);
        self.playback_fps = if fps < MAX_PLAYBACK_FPS {
            fps
        } else {
            MAX_PLAYBACK_FPS
        };
    }

    fn slower(&mut self)
        requires
            old(self).wf(),
        ensures
            *final(self) == (ViewerApp { playback_fps: slower_fps(old(self).playback_fps), ..*old(self) }),
    {
        let fps = self.playback_fps.saturating_sub(PLAYBACK_FPS_STEP);
        self.playback_fps = if fps > MIN_PLAYBACK_FPS {
            fps
        } else {
            MIN_PLAYBACK_FPS
        };
    }

    /// Advances playback by one frame, as the playback timer asks.
    pub fn tick(&mut self)
        requires
            old(self).wf(),
        ensures
            *final(self) == ticked(*old(self)),
            final(self).wf(),
    {
        if !self.playing || self.is_solving() {
            return;
        }
        match self.playback_direction {
            PlaybackDirection::Forward => {
                if self.frame_index + 1 < self.frame_count {
                    self.frame_index = self.frame_index + 1;
                } else {
                    match self.loop_mode {
                        LoopMode::Restart => {
                            self.frame_index = 0;
                        },
                        LoopMode::Bounce => {
                            if self.frame_count > 1 {
                                self.playback_direction = PlaybackDirection::Backward;
                                self.frame_index = self.frame_index - 1;
                            } else {
                                self.playing = false;
                            }
                        },
                        LoopMode::Once => {
                            self.playing = false;
                        },
                    }
                }
            },
            PlaybackDirection::Backward => {
                if self.frame_index > 0 {
                    self.frame_index = self.frame_index - 1;
                } else {
                    self.playback_direction = PlaybackDirection::Forward;
                    if self.frame_count > 1 {
                        self.frame_index = 1;
                    }
                }
            },
        }
    }

    /// Applies an event of the solver behind a live view; for a solved
    /// frame, returns where the caller puts it in the frame list.
    pub fn apply_live_event(&mut self, event: LiveViewEvent) -> (slot: Option<FrameSlot>)
        requires
            old(self).wf(),
            event == LiveViewEvent::FrameSolved ==> (old(self).live matches Some(live) ==> live.solved_frames
                < usize::MAX),
        ensures
            *final(self) == after_live_event(*old(self), event),
            slot == live_event_slot(*old(self), event),
            final(self).wf(),
    {
        match event {
            LiveViewEvent::FrameStarted { index, total } => {
                match self.live {
                    Some(live) => {
                        self.live = Some(
                            LiveState {
                                total_frames: total,
                                current_frame: Some(index),
                                iteration: None,
                                ..live
                            },
                        );
                    },
                    None => {},
                }
                None
            },
            LiveViewEvent::Progress { iteration } => {
                match self.live {
                    Some(live) => {
                        self.live = Some(LiveState { iteration: Some(iteration), ..live });
                    },
                    None => {},
                }
                None
            },
            LiveViewEvent::FrameSolved => {
                match self.live {
                    Some(live) => {
                        let slot = if live.solved_frames == 0 {
                            FrameSlot::ReplaceFirst
                        } else {
                            self.frame_count = self.frame_count + 1;
                            FrameSlot::Append
                        };
                        let solved_frames = live.solved_frames + 1;
                        self.live = Some(LiveState { solved_frames, ..live });
                        if live.follow_latest {
                            self.frame_index = solved_frames - 1;
                        }
                        Some(slot)
                    },
                    None => None,
                }
            },
            LiveViewEvent::Finished => {
                match self.live {
                    Some(live) => {
                        self.live = Some(
                            LiveState { finished: true, current_frame: None, iteration: None, ..live },
                        );
                    },
                    None => {},
                }
                self.playing = false;
                None
            },
            LiveViewEvent::Failed => {
                self.should_quit = true;
                None
            },
        }
    }
}

/// The viewer for a fixed list of `frame_count` frames.
pub open spec fn initial_state(frame_count: usize) -> ViewerApp {
    ViewerApp {
        frame_count,
        frame_index: 0,
        projection: Projection::Xz,
        playing: frame_count > 1,
        playback_fps: DEFAULT_PLAYBACK_FPS,
        loop_mode: LoopMode::Restart,
        playback_direction: PlaybackDirection::Forward,
        show_labels: false,
        live: None,
        should_quit: false,
    }
}

/// The viewer for a live solve of `total_frames` frames.
pub open spec fn initial_live_state(total_frames: usize) -> ViewerApp {
    ViewerApp {
        live: Some(
            LiveState {
                total_frames,
                solved_frames: 0,
                current_frame: None,
                iteration: None,
                follow_latest: true,
                finished: false,
            },
        ),
        ..initial_state(1)
    }
}

pub open spec fn frame_counts_spec(app: ViewerApp) -> (usize, usize) {
    match app.live {
        Some(live) => (live.solved_frames, live.total_frames),
        None => ((app.frame_index + 1) as usize, app.frame_count),
    }
}

/// The playback speed one step faster, at most the fastest.
pub open spec fn faster_fps(fps: u16) -> u16 {
    if fps + PLAYBACK_FPS_STEP < MAX_PLAYBACK_FPS {
        (fps + PLAYBACK_FPS_STEP) as u16
    } else {
        MAX_PLAYBACK_FPS
    }
}

/// The playback speed one step slower, at least the slowest.
pub open spec fn slower_fps(fps: u16) -> u16 {
    if fps - PLAYBACK_FPS_STEP > MIN_PLAYBACK_FPS {
        (fps - PLAYBACK_FPS_STEP) as u16
    } else {
        MIN_PLAYBACK_FPS
    }
}

/// The loop mode that follows `mode` when cycling.
pub open spec fn next_loop_mode(mode: LoopMode) -> LoopMode {
    match mode {
        LoopMode::Restart => LoopMode::Bounce,
        LoopMode::Bounce => LoopMode::Once,
        LoopMode::Once => LoopMode::Restart,
    }
}

/// The live state with `follow_latest` set to `follow`, if there is one.
pub open spec fn with_follow(live: Option<LiveState>, follow: bool) -> Option<LiveState> {
    match live {
        Some(l) => Some(LiveState { follow_latest: follow, ..l }),
        None => None,
    }
}

/// Shows the next frame, or stays at the last one, playing forward.
pub open spec fn advanced(app: ViewerApp) -> ViewerApp {
    ViewerApp {
        frame_index: if app.frame_index + 1 < app.frame_count {
            (app.frame_index + 1) as usize
        } else {
            (app.frame_count - 1) as usize
        },
        playback_direction: PlaybackDirection::Forward,
        ..app
    }
}

/// The work a character key leaves to the caller: `f` fits the viewport to
/// the current frame, `F` to all frames.
pub open spec fn char_action(c: char) -> ViewerAction {
    if c == 'f' {
        ViewerAction::FitCurrentFrame
    } else if c == 'F' {
        ViewerAction::FitAllFrames
    } else {
        ViewerAction::KeepViewport
    }
}

/// The work a key leaves to the caller.
pub open spec fn key_action(key: KeyEvent) -> ViewerAction {
    match key.code {
        KeyCode::Char(c) => if key.kind == KeyEventKind::Press {
            char_action(c)
        } else {
            ViewerAction::KeepViewport
        },
        _ => ViewerAction::KeepViewport,
    }
}

/// The state after a key event.
///
/// Only presses count. `q` and Esc quit. End, in a live view, follows the
/// latest frame again and shows it. `v` toggles labels. Space, while a solver
/// runs, toggles following; otherwise, with more than one frame, it toggles
/// playing, starting over when a once-through playback has stopped at the
/// end. Left steps back and pauses; while solving it stops following and
/// stays at the first frame, otherwise it wraps to the last. Right pauses,
/// stops following and steps forward, staying at the last frame. `1` to `4`
/// pick the XY, XZ, YZ and isometric projections. `+`, `=` and Up speed up,
/// `-` and Down slow down, within the limits. `l` cycles restart, bounce and
/// once, and plays forward.
pub open spec fn after_key(app: ViewerApp, key: KeyEvent) -> ViewerApp {
    if key.kind != KeyEventKind::Press {
        app
    } else {
        match key.code {
            KeyCode::Esc => ViewerApp { should_quit: true, ..app },
            KeyCode::End => match app.live {
                Some(live) => ViewerApp {
                    frame_index: if live.solved_frames > 0 {
                        (live.solved_frames - 1) as usize
                    } else {
                        app.frame_index
                    },
                    live: with_follow(app.live, true),
                    ..app
                },
                None => app,
            },
            KeyCode::Left => if app.solving() {
                ViewerApp {
                    playing: false,
                    live: with_follow(app.live, false),
                    frame_index: if app.frame_index > 0 {
                        (app.frame_index - 1) as usize
                    } else {
                        0
                    },
                    ..app
                }
            } else {
                ViewerApp {
                    playing: false,
                    frame_index: if app.frame_index > 0 {
                        (app.frame_index - 1) as usize
                    } else {
                        (app.frame_count - 1) as usize
                    },
                    ..app
                }
            },
            KeyCode::Right => advanced(ViewerApp { playing: false, live: with_follow(app.live, false), ..app }),
            KeyCode::Up => ViewerApp { playback_fps: faster_fps(app.playback_fps), ..app },
            KeyCode::Down => ViewerApp { playback_fps: slower_fps(app.playback_fps), ..app },
            KeyCode::Other => app,
            KeyCode::Char(c) => after_char(app, c),
        }
    }
}

/// The state after a press of the character key `c`.
pub open spec fn after_char(app: ViewerApp, c: char) -> ViewerApp {
    if c == 'q' {
        ViewerApp { should_quit: true, ..app }
    } else if c == 'v' {
        ViewerApp { show_labels: !app.show_labels, ..app }
    } else if c == ' ' {
        if app.solving() {
            ViewerApp { live: with_follow(app.live, !app.live.unwrap().follow_latest), ..app }
        } else if app.frame_count > 1 {
            if !app.playing && app.loop_mode == LoopMode::Once && app.frame_index + 1 == app.frame_count {
                ViewerApp {
                    frame_index: 0,
                    playback_direction: PlaybackDirection::Forward,
                    playing: true,
                    ..app
                }
            } else {
                ViewerApp { playing: !app.playing, ..app }
            }
        } else {
            app
        }
    } else if c == '1' {
        ViewerApp { projection: Projection::Xy, ..app }
    } else if c == '2' {
        ViewerApp { projection: Projection::Xz, ..app }
    } else if c == '3' {
        ViewerApp { projection: Projection::Yz, ..app }
    } else if c == '4' {
        ViewerApp { projection: Projection::Isometric, ..app }
    } else if c == '+' || c == '=' {
        ViewerApp { playback_fps: faster_fps(app.playback_fps), ..app }
    } else if c == '-' {
        ViewerApp { playback_fps: slower_fps(app.playback_fps), ..app }
    } else if c == 'l' {
        ViewerApp {
            loop_mode: next_loop_mode(app.loop_mode),
            playback_direction: PlaybackDirection::Forward,
            ..app
        }
    } else {
        app
    }
}

/// The state after a tick of the playback timer.
///
/// Nothing moves unless playing with no solver running. Playing forward
/// steps to the next frame; at the last one it starts over (restart), turns
/// around (bounce, with more than one frame) or stops. Playing backward
/// steps to the previous frame; at the first one it turns forward again,
/// onto the second frame if there is one.
pub open spec fn ticked(app: ViewerApp) -> ViewerApp {
    if !app.playing || app.solving() {
        app
    } else {
        match app.playback_direction {
            PlaybackDirection::Forward => if app.frame_index + 1 < app.frame_count {
                ViewerApp { frame_index: (app.frame_index + 1) as usize, ..app }
            } else {
                match app.loop_mode {
                    LoopMode::Restart => ViewerApp { frame_index: 0, ..app },
                    LoopMode::Bounce => if app.frame_count > 1 {
                        ViewerApp {
                            playback_direction: PlaybackDirection::Backward,
                            frame_index: (app.frame_index - 1) as usize,
                            ..app
                        }
                    } else {
                        ViewerApp { playing: false, ..app }
                    },
                    LoopMode::Once => ViewerApp { playing: false, ..app },
                }
            },
            PlaybackDirection::Backward => if app.frame_index > 0 {
                ViewerApp { frame_index: (app.frame_index - 1) as usize, ..app }
            } else {
                ViewerApp {
                    playback_direction: PlaybackDirection::Forward,
                    frame_index: if app.frame_count > 1 {
                        1
                    } else {
                        app.frame_index
                    },
                    ..app
                }
            },
        }
    }
}

/// The state after an event of the solver behind a live view.
///
/// A started frame sets the total and the current frame and clears the
/// iteration; progress sets the iteration; a solved frame is counted, and
/// shown when following; finishing marks the solve done and pauses; failure
/// quits. Without a live view only finishing (pausing) and failure count.
pub open spec fn after_live_event(app: ViewerApp, event: LiveViewEvent) -> ViewerApp {
    match event {
        LiveViewEvent::FrameStarted { index, total } => match app.live {
            Some(live) => ViewerApp {
                live: Some(LiveState { total_frames: total, current_frame: Some(index), iteration: None, ..live }),
                ..app
            },
            None => app,
        },
        LiveViewEvent::Progress { iteration } => match app.live {
            Some(live) => ViewerApp { live: Some(LiveState { iteration: Some(iteration), ..live }), ..app },
            None => app,
        },
        LiveViewEvent::FrameSolved => match app.live {
            Some(live) => ViewerApp {
                frame_count: if live.solved_frames == 0 {
                    app.frame_count
                } else {
                    (app.frame_count + 1) as usize
                },
                frame_index: if live.follow_latest {
                    live.solved_frames
                } else {
                    app.frame_index
                },
                live: Some(LiveState { solved_frames: (live.solved_frames + 1) as usize, ..live }),
                ..app
            },
            None => app,
        },
        LiveViewEvent::Finished => ViewerApp {
            live: match app.live {
                Some(live) => Some(LiveState { finished: true, current_frame: None, iteration: None, ..live }),
                None => None,
            },
            playing: false,
            ..app
        },
        LiveViewEvent::Failed => ViewerApp { should_quit: true, ..app },
    }
}

/// Where a solved frame goes: the first replaces the reference frame, the
/// others are appended; other events and views without a solver place none.
pub open spec fn live_event_slot(app: ViewerApp, event: LiveViewEvent) -> Option<FrameSlot> {
    match (event, app.live) {
        (LiveViewEvent::FrameSolved, Some(live)) => Some(
            if live.solved_frames == 0 {
                FrameSlot::ReplaceFirst
            } else {
                FrameSlot::Append
            },
        ),
        _ => None,
    }
}

/// Every key keeps the viewer state consistent: a frame of the list is
/// shown and the playback speed stays within its limits.
pub proof fn lemma_key_keeps_state_consistent(app: ViewerApp, key: KeyEvent)
    requires
        app.wf(),
    ensures
        after_key(app, key).wf(),
        MIN_PLAYBACK_FPS <= after_key(app, key).playback_fps <= MAX_PLAYBACK_FPS,
{
}

/// Pressing `l` three times brings back the loop mode one started with.
pub proof fn lemma_loop_mode_cycles(app: ViewerApp)
    ensures
        after_key(
            after_key(after_key(app, KeyEvent { code: KeyCode::Char('l'), kind: KeyEventKind::Press }), KeyEvent {
                code: KeyCode::Char('l'),
                kind: KeyEventKind::Press,
            }),
            KeyEvent { code: KeyCode::Char('l'), kind: KeyEventKind::Press },
        ).loop_mode == app.loop_mode,
{
}

/// Pressing `v` twice leaves the state as it was.
pub proof fn lemma_labels_toggle_back(app: ViewerApp)
    ensures
        after_key(
            after_key(app, KeyEvent { code: KeyCode::Char('v'), kind: KeyEventKind::Press }),
            KeyEvent { code: KeyCode::Char('v'), kind: KeyEventKind::Press },
        ) == app,
{
}

/// Only presses count: repeated and released keys change nothing.
pub proof fn lemma_only_presses_count(app: ViewerApp, key: KeyEvent)
    requires
        key.kind != KeyEventKind::Press,
    ensures
        after_key(app, key) == app,
        key_action(key) == ViewerAction::KeepViewport,
{
}

/// Fitting the viewport changes nothing of the playback state.
pub proof fn lemma_fit_keeps_state(app: ViewerApp)
    ensures
        after_key(app, KeyEvent { code: KeyCode::Char('f'), kind: KeyEventKind::Press }) == app,
        after_key(app, KeyEvent { code: KeyCode::Char('F'), kind: KeyEventKind::Press }) == app,
{
}

/// Speeding up from any speed within the limits and slowing down again
/// never leaves the limits, and the speed steps stop at the limits.
pub proof fn lemma_speed_stays_within_limits(fps: u16)
    requires
        MIN_PLAYBACK_FPS <= fps <= MAX_PLAYBACK_FPS,
    ensures
        MIN_PLAYBACK_FPS <= faster_fps(fps) <= MAX_PLAYBACK_FPS,
        MIN_PLAYBACK_FPS <= slower_fps(fps) <= MAX_PLAYBACK_FPS,
        faster_fps(MAX_PLAYBACK_FPS) == MAX_PLAYBACK_FPS,
        slower_fps(MIN_PLAYBACK_FPS) == MIN_PLAYBACK_FPS,
{
}

/// Playback never moves while a solver runs behind the view.
pub proof fn lemma_tick_waits_for_solver(app: ViewerApp)
    requires
        app.solving(),
    ensures
        ticked(app) == app,
{
}

/// While following, a live view shows each frame as soon as it is solved.
pub proof fn lemma_live_view_follows_latest(app: ViewerApp)
    requires
        app.wf(),
        app.live matches Some(live) && live.follow_latest && live.solved_frames < usize::MAX,
    ensures
        after_live_event(app, LiveViewEvent::FrameSolved).frame_index + 1 == after_live_event(
            app,
            LiveViewEvent::FrameSolved,
        ).live.unwrap().solved_frames,
        after_live_event(app, LiveViewEvent::FrameSolved).frame_index + 1 == after_live_event(
            app,
            LiveViewEvent::FrameSolved,
        ).frame_count,
{
}


/// A press of the key for `c`.
pub open spec fn press(c: char) -> KeyEvent {
    KeyEvent { code: KeyCode::Char(c), kind: KeyEventKind::Press }
}

/// Pressing `1`, `2`, `3` or `4` shows the XY, XZ, YZ or isometric
/// projection, whatever the viewer showed before, and changes nothing else;
/// the keys leave the viewports as they are.
pub proof fn lemma_number_keys_pick_projections(app: ViewerApp)
    ensures
        after_key(app, press('1')) == (ViewerApp { projection: Projection::Xy, ..app }),
        after_key(app, press('2')) == (ViewerApp { projection: Projection::Xz, ..app }),
        after_key(app, press('3')) == (ViewerApp { projection: Projection::Yz, ..app }),
        after_key(app, press('4')) == (ViewerApp { projection: Projection::Isometric, ..app }),
        key_action(press('1')) == ViewerAction::KeepViewport,
        key_action(press('2')) == ViewerAction::KeepViewport,
        key_action(press('3')) == ViewerAction::KeepViewport,
        key_action(press('4')) == ViewerAction::KeepViewport,
{
}


/// A press of `code`.
pub open spec fn press_code(code: KeyCode) -> KeyEvent {
    KeyEvent { code, kind: KeyEventKind::Press }
}

/// `q` and Esc quit and change nothing else.
pub proof fn lemma_quit_keys(app: ViewerApp)
    ensures
        after_key(app, press('q')) == (ViewerApp { should_quit: true, ..app }),
        after_key(app, press_code(KeyCode::Esc)) == (ViewerApp { should_quit: true, ..app }),
{
}

/// `+`, `=` and Up raise the playback speed by one step, to at most the
/// fastest; `-` and Down lower it by one step, to at least the slowest.
/// Nothing else changes.
pub proof fn lemma_speed_keys(app: ViewerApp)
    ensures
        after_key(app, press('+')).playback_fps == if app.playback_fps + PLAYBACK_FPS_STEP
            <= MAX_PLAYBACK_FPS {
            app.playback_fps + PLAYBACK_FPS_STEP
        } else {
            MAX_PLAYBACK_FPS as int
        },
        after_key(app, press('-')).playback_fps == if app.playback_fps - PLAYBACK_FPS_STEP
            >= MIN_PLAYBACK_FPS {
            app.playback_fps - PLAYBACK_FPS_STEP
        } else {
            MIN_PLAYBACK_FPS as int
        },
        after_key(app, press('+')) == (ViewerApp { playback_fps: after_key(app, press('+')).playback_fps, ..app }),
        after_key(app, press('-')) == (ViewerApp { playback_fps: after_key(app, press('-')).playback_fps, ..app }),
        after_key(app, press('=')) == after_key(app, press('+')),
        after_key(app, press_code(KeyCode::Up)) == after_key(app, press('+')),
        after_key(app, press_code(KeyCode::Down)) == after_key(app, press('-')),
{
}

/// `l` moves from restarting to bouncing, from bouncing to playing once, and
/// from playing once to restarting, and plays forward.
pub proof fn lemma_loop_key(app: ViewerApp)
    ensures
        after_key(app, press('l')).playback_direction == PlaybackDirection::Forward,
        app.loop_mode == LoopMode::Restart ==> after_key(app, press('l')).loop_mode == LoopMode::Bounce,
        app.loop_mode == LoopMode::Bounce ==> after_key(app, press('l')).loop_mode == LoopMode::Once,
        app.loop_mode == LoopMode::Once ==> after_key(app, press('l')).loop_mode == LoopMode::Restart,
{
}

} // verus!

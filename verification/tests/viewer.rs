use kinemagic::model::{Bodies, Body, BodyId, Joint, JointId, JointKind, JointRole, Joints, Marker, Model};
use kinemagic::view::terminal::{
    DEFAULT_PLAYBACK_FPS, FrameSlot, KeyCode, KeyEvent, KeyEventKind, LiveViewEvent, LoopMode,
    MAX_PLAYBACK_FPS, MIN_PLAYBACK_FPS, PLAYBACK_FPS_STEP, ViewerAction, ViewerApp, ViewerError,
    loop_mode_name,
};
use kinemagic::view::{Projection, SceneBuildError, check_body_poses};

fn press(code: KeyCode) -> KeyEvent {
    KeyEvent::new(code)
}

#[test]
fn rejects_empty_frame_list() {
    assert!(matches!(ViewerApp::new(0), Err(ViewerError::EmptyFrames)));
    assert!(matches!(ViewerApp::new_live(0), Err(ViewerError::EmptyFrames)));
}

#[test]
fn starts_static_reference_view_in_xz_projection() {
    let app = ViewerApp::new(1).unwrap();

    assert_eq!(app.frame_index, 0);
    assert_eq!(app.projection, Projection::Xz);
    assert!(!app.playing);
    assert_eq!(app.playback_fps, DEFAULT_PLAYBACK_FPS);
    assert_eq!(app.frame_counts(), (1, 1));
}

#[test]
fn handles_projection_playback_step_and_quit_keys() {
    let mut app = ViewerApp::new(2).unwrap();

    app.handle_key(press(KeyCode::Char('1')));
    assert_eq!(app.projection, Projection::Xy);
    app.handle_key(press(KeyCode::Char('4')));
    assert_eq!(app.projection, Projection::Isometric);

    app.handle_key(press(KeyCode::Char('+')));
    assert_eq!(app.playback_fps, DEFAULT_PLAYBACK_FPS + PLAYBACK_FPS_STEP);
    app.handle_key(press(KeyCode::Down));
    assert_eq!(app.playback_fps, DEFAULT_PLAYBACK_FPS);

    app.handle_key(press(KeyCode::Char(' ')));
    assert!(!app.playing);

    app.handle_key(press(KeyCode::Right));
    assert_eq!(app.frame_index, 1);
    app.handle_key(press(KeyCode::Left));
    assert_eq!(app.frame_index, 0);

    app.handle_key(press(KeyCode::Esc));
    assert!(app.should_quit);
}

#[test]
fn advances_and_wraps_playing_frames() {
    let mut app = ViewerApp::new(2).unwrap();

    app.tick();
    assert_eq!(app.frame_index, 1);
    app.tick();
    assert_eq!(app.frame_index, 0);
}

#[test]
fn cycles_restart_bounce_and_once_modes() {
    let mut app = ViewerApp::new(1).unwrap();

    app.handle_key(press(KeyCode::Char('l')));
    assert_eq!(app.loop_mode, LoopMode::Bounce);
    app.handle_key(press(KeyCode::Char('l')));
    assert_eq!(app.loop_mode, LoopMode::Once);
    app.handle_key(press(KeyCode::Char('l')));
    assert_eq!(app.loop_mode, LoopMode::Restart);
}

#[test]
fn toggles_scene_labels() {
    let mut app = ViewerApp::new(1).unwrap();

    app.handle_key(press(KeyCode::Char('v')));
    assert!(app.show_labels);

    app.handle_key(press(KeyCode::Char('v')));
    assert!(!app.show_labels);
}

#[test]
fn bounces_at_both_ends() {
    let mut app = ViewerApp::new(3).unwrap();
    app.loop_mode = LoopMode::Bounce;

    let indices = (0..5)
        .map(|_| {
            app.tick();
            app.frame_index
        })
        .collect::<Vec<_>>();

    assert_eq!(indices, vec![1, 2, 1, 0, 1]);
    assert!(app.playing);
}

#[test]
fn once_mode_stops_and_can_restart() {
    let mut app = ViewerApp::new(2).unwrap();
    app.loop_mode = LoopMode::Once;

    app.tick();
    app.tick();

    assert_eq!(app.frame_index, 1);
    assert!(!app.playing);

    app.handle_key(press(KeyCode::Char(' ')));
    assert_eq!(app.frame_index, 0);
    assert!(app.playing);
}

#[test]
fn clamps_playback_frame_rate() {
    let mut app = ViewerApp::new(1).unwrap();

    for _ in 0..20 {
        app.handle_key(press(KeyCode::Char('+')));
    }
    assert_eq!(app.playback_fps, MAX_PLAYBACK_FPS);

    for _ in 0..20 {
        app.handle_key(press(KeyCode::Char('-')));
    }
    assert_eq!(app.playback_fps, MIN_PLAYBACK_FPS);
}

#[test]
fn follows_live_frames_until_user_inspects_history() {
    let mut app = ViewerApp::new_live(2).unwrap();

    assert_eq!(app.apply_live_event(LiveViewEvent::FrameStarted { index: 1, total: 2 }), None);
    assert_eq!(app.apply_live_event(LiveViewEvent::Progress { iteration: 3 }), None);
    assert_eq!(app.apply_live_event(LiveViewEvent::FrameSolved), Some(FrameSlot::ReplaceFirst));

    assert_eq!(app.frame_counts(), (1, 2));
    assert_eq!(app.frame_index, 0);
    assert_eq!(app.live.unwrap().iteration, Some(3));
    assert_eq!(app.live.unwrap().current_frame, Some(1));

    app.handle_key(press(KeyCode::Char(' ')));
    assert_eq!(app.apply_live_event(LiveViewEvent::FrameSolved), Some(FrameSlot::Append));

    assert_eq!(app.frame_index, 0);
    assert_eq!(app.frame_count, 2);

    app.handle_key(press(KeyCode::End));
    assert_eq!(app.frame_index, 1);
    assert!(app.live.unwrap().follow_latest);

    app.apply_live_event(LiveViewEvent::Finished);
    assert!(!app.is_solving());
    assert!(!app.playing);
}

#[test]
fn live_viewport_changes_only_when_explicitly_fitted() {
    let mut app = ViewerApp::new_live(2).unwrap();

    app.apply_live_event(LiveViewEvent::FrameSolved);
    let before = app;

    assert_eq!(app.handle_key(press(KeyCode::Char('f'))), ViewerAction::FitCurrentFrame);
    assert_eq!(app, before);
    assert_eq!(app.handle_key(press(KeyCode::Char('F'))), ViewerAction::FitAllFrames);
    assert_eq!(app.handle_key(press(KeyCode::Char('v'))), ViewerAction::KeepViewport);
}

#[test]
fn exits_live_view_when_solver_fails() {
    let mut app = ViewerApp::new_live(1).unwrap();

    app.apply_live_event(LiveViewEvent::Failed);

    assert!(app.should_quit);
}

#[test]
fn ignores_released_keys() {
    let mut app = ViewerApp::new(2).unwrap();
    let before = app;

    let action = app.handle_key(KeyEvent { code: KeyCode::Char('q'), kind: KeyEventKind::Release });

    assert_eq!(action, ViewerAction::KeepViewport);
    assert_eq!(app, before);
}

#[test]
fn stepping_left_wraps_unless_solving() {
    let mut app = ViewerApp::new(3).unwrap();
    app.handle_key(press(KeyCode::Left));
    assert_eq!(app.frame_index, 2);

    let mut live = ViewerApp::new_live(3).unwrap();
    live.handle_key(press(KeyCode::Left));
    assert_eq!(live.frame_index, 0);
    assert!(!live.live.unwrap().follow_latest);
}

#[test]
fn playback_waits_while_solving() {
    let mut app = ViewerApp::new_live(3).unwrap();
    app.apply_live_event(LiveViewEvent::FrameSolved);
    app.apply_live_event(LiveViewEvent::FrameSolved);
    app.playing = true;
    let before = app;

    app.tick();

    assert_eq!(app, before);
}

#[test]
fn names_loop_modes() {
    assert_eq!(loop_mode_name(LoopMode::Restart), "restart");
    assert_eq!(loop_mode_name(LoopMode::Bounce), "bounce");
    assert_eq!(loop_mode_name(LoopMode::Once), "once");
}

fn one_body_model() -> Model {
    let bodies = Bodies::new(vec![Body::new(BodyId::new(0), "ground"), Body::new(BodyId::new(1), "B1")]).unwrap();
    let joints = Joints::new(vec![Joint::new(
        JointId::new(1),
        "J1",
        JointKind::Spherical,
        JointRole::Auto,
        Marker::new("J1:i", BodyId::new(0)),
        Marker::new("J1:j", BodyId::new(1)),
    )])
    .unwrap();
    Model::new(bodies, joints).unwrap()
}

#[test]
fn scene_needs_a_pose_for_every_body() {
    let model = one_body_model();

    assert_eq!(check_body_poses(&model, &[BodyId::new(1), BodyId::new(0)]), Ok(()));
    assert_eq!(
        check_body_poses(&model, &[BodyId::new(1)]),
        Err(SceneBuildError::MissingBodyPose { body_id: BodyId::new(0) })
    );
    assert_eq!(
        check_body_poses(&model, &[]),
        Err(SceneBuildError::MissingBodyPose { body_id: BodyId::new(0) })
    );
}

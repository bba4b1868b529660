use shape_engine_core::config::{EngineConfig, EngineSettings, SceneConfig};
use shape_engine_core::control::{command_for_key, LoopCommand, RunControl};
use shape_engine_core::draw::PixelMode;
use shape_engine_core::input::{InputState, KeyCode, KeyEventKind};
use shape_engine_core::time::Clock;

#[test]
fn clock_pacing_never_reports_less_than_target() {
    // Target 10 fps: the frame budget is 100_000 microseconds.  Two ticks
    // in immediate succession still yield a delta of at least 0.1 s.
    let mut clock = Clock::new(10, 0);
    let (first_delta, _) = clock.tick(5);
    let (second_delta, second_sleep) = clock.tick(100_005);
    assert_eq!(first_delta, 100_000);
    assert!(second_delta >= 100_000);
    assert_eq!(second_delta, 100_000);
    assert_eq!(second_sleep, 99_995);
    let seconds = second_delta as f32 / 1_000_000.0;
    assert!(seconds >= 0.1);
}

#[test]
fn clock_slow_frame_reports_true_elapsed_time() {
    let mut clock = Clock::new(10, 0);
    let (delta, sleep) = clock.tick(250_000);
    assert_eq!(delta, 250_000);
    assert_eq!(sleep, 0);
}

#[test]
fn input_press_and_release_track_the_key_set() {
    let mut input = InputState::new();
    assert!(!input.is_key_pressed(KeyCode::Char('w')));
    input.set_key_pressed(KeyCode::Char('w'), true);
    input.set_key_pressed(KeyCode::Up, true);
    assert!(input.is_key_pressed(KeyCode::Char('w')));
    assert!(input.is_key_pressed(KeyCode::Up));
    input.set_key_pressed(KeyCode::Char('w'), false);
    assert!(!input.is_key_pressed(KeyCode::Char('w')));
    assert!(input.is_key_pressed(KeyCode::Up));
    input.clear();
    assert!(!input.is_key_pressed(KeyCode::Up));
}

#[test]
fn input_events_distinguish_press_repeat_release() {
    let mut input = InputState::new();
    assert!(input.apply_key_event(KeyCode::Char('q'), KeyEventKind::Press));
    assert!(input.is_key_pressed(KeyCode::Char('q')));
    assert!(!input.apply_key_event(KeyCode::Char('q'), KeyEventKind::Repeat));
    assert!(input.is_key_pressed(KeyCode::Char('q')));
    assert!(!input.apply_key_event(KeyCode::Char('q'), KeyEventKind::Release));
    assert!(!input.is_key_pressed(KeyCode::Char('q')));
}

#[test]
fn key_commands_match_the_documented_bindings() {
    assert_eq!(command_for_key(KeyCode::Char('q')), Some(LoopCommand::Quit));
    assert_eq!(command_for_key(KeyCode::Char('Q')), Some(LoopCommand::Quit));
    assert_eq!(command_for_key(KeyCode::Esc), Some(LoopCommand::Quit));
    assert_eq!(command_for_key(KeyCode::Char('p')), Some(LoopCommand::TogglePause));
    assert_eq!(command_for_key(KeyCode::Char('n')), Some(LoopCommand::NextScene));
    assert_eq!(command_for_key(KeyCode::Char('m')), Some(LoopCommand::ToggleMode));
    assert_eq!(command_for_key(KeyCode::Char('z')), None);
    assert_eq!(command_for_key(KeyCode::Up), None);
}

#[test]
fn run_control_interprets_commands() {
    let mut settings = EngineSettings { width: 80, height: 24, framerate: 60, mode: PixelMode::Ascii };
    let mut control = RunControl::new(0);
    assert_eq!(control.apply_command(LoopCommand::TogglePause, 3, &mut settings), None);
    assert!(control.paused);
    assert_eq!(control.apply_command(LoopCommand::TogglePause, 3, &mut settings), None);
    assert!(!control.paused);

    assert_eq!(control.apply_command(LoopCommand::NextScene, 3, &mut settings), Some(1));
    assert_eq!(control.apply_command(LoopCommand::NextScene, 3, &mut settings), Some(2));
    assert_eq!(control.apply_command(LoopCommand::NextScene, 3, &mut settings), Some(0));
    assert_eq!(control.active_scene_index, 0);
    assert_eq!(control.apply_command(LoopCommand::NextScene, 0, &mut settings), None);

    assert_eq!(control.apply_command(LoopCommand::ToggleMode, 3, &mut settings), None);
    assert_eq!(settings.mode, PixelMode::HalfBlock);

    assert!(!control.exit_requested);
    assert_eq!(control.apply_command(LoopCommand::Quit, 3, &mut settings), None);
    assert!(control.exit_requested);
}

#[test]
fn scene_config_duration_splits_milliseconds() {
    let with = SceneConfig { name: String::from("intro"), duration_ms: Some(2_500) };
    assert_eq!(with.duration_parts(), Some((2, 500)));
    let without = SceneConfig { name: String::from("loop"), duration_ms: None };
    assert_eq!(without.duration_parts(), None);
}

#[test]
fn engine_config_carries_settings_and_scenes() {
    let config = EngineConfig {
        engine: EngineSettings { width: 120, height: 40, framerate: 30, mode: PixelMode::Braille },
        scenes: vec![SceneConfig { name: String::from("demo"), duration_ms: Some(1_000) }],
    };
    assert_eq!(config.engine.width, 120);
    assert_eq!(config.scenes.len(), 1);
    assert_eq!(config.scenes[0].name, "demo");
}

use std::cell::RefCell;
use std::rc::Rc;

use shape_engine_core::config::EngineSettings;
use shape_engine_core::input::{InputState, KeyCode};
use shape_engine_core::draw::{Canvas, PixelMode};
use shape_engine_core::render::Cell;
use shape_engine_core::scene::{Context, EngineError, Scene, SceneManager};

type Log = Rc<RefCell<Vec<String>>>;

struct RecordingScene {
    name: &'static str,
    log: Log,
}

impl Scene for RecordingScene {
    fn on_start(&mut self, _ctx: &mut Context) {
        self.log.borrow_mut().push(format!("{}.on_start", self.name));
    }

    fn on_update(&mut self, _ctx: &mut Context) {
        self.log.borrow_mut().push(format!("{}.on_update", self.name));
    }

    fn on_draw(&mut self, _ctx: &mut Context) {
        self.log.borrow_mut().push(format!("{}.on_draw", self.name));
    }

    fn on_exit(&mut self, _ctx: &mut Context) {
        self.log.borrow_mut().push(format!("{}.on_exit", self.name));
    }
}

fn test_context() -> Context {
    let canvas = Canvas::new(4, 4, vec![Cell::default(); 16]);
    let settings = EngineSettings { width: 4, height: 4, framerate: 60, mode: PixelMode::Ascii };
    Context::new(canvas, settings)
}

#[test]
fn lifecycle_order_across_a_transition() {
    let log: Log = Rc::new(RefCell::new(Vec::new()));
    let mut manager = SceneManager::new();
    manager.add_scene(
        String::from("a"),
        RecordingScene { name: "a", log: Rc::clone(&log) },
    );
    manager.add_scene(
        String::from("b"),
        RecordingScene { name: "b", log: Rc::clone(&log) },
    );
    let mut ctx = test_context();
    manager.activate("a", &mut ctx).unwrap();
    manager.update(&mut ctx).unwrap();
    manager.queue_transition(String::from("b"));
    manager.update(&mut ctx).unwrap();
    assert_eq!(
        *log.borrow(),
        vec!["a.on_start", "a.on_update", "a.on_exit", "b.on_start", "b.on_update"]
    );
    assert_eq!(manager.current_scene(), Some("b"));
}

#[test]
fn activate_same_scene_is_idempotent() {
    let log: Log = Rc::new(RefCell::new(Vec::new()));
    let mut manager = SceneManager::new();
    manager.add_scene(
        String::from("a"),
        RecordingScene { name: "a", log: Rc::clone(&log) },
    );
    let mut ctx = test_context();
    manager.activate("a", &mut ctx).unwrap();
    manager.activate("a", &mut ctx).unwrap();
    assert_eq!(*log.borrow(), vec!["a.on_start"]);
}

#[test]
fn activate_unregistered_returns_scene_not_found() {
    let log: Log = Rc::new(RefCell::new(Vec::new()));
    let mut manager: SceneManager<RecordingScene> = SceneManager::new();
    manager.add_scene(
        String::from("a"),
        RecordingScene { name: "a", log: Rc::clone(&log) },
    );
    let mut ctx = test_context();
    let result = manager.activate("missing", &mut ctx);
    assert_eq!(result, Err(EngineError::SceneNotFound));
    assert_eq!(manager.current_scene(), None);
    assert!(log.borrow().is_empty());
}

#[test]
fn update_with_unregistered_queued_transition_fails() {
    let log: Log = Rc::new(RefCell::new(Vec::new()));
    let mut manager: SceneManager<RecordingScene> = SceneManager::new();
    let mut ctx = test_context();
    manager.queue_transition(String::from("ghost-scene"));
    let result = manager.update(&mut ctx);
    assert_eq!(result, Err(EngineError::SceneNotFound));
    assert_eq!(manager.current_scene(), None);
}

#[test]
fn duplicate_registration_last_write_wins() {
    let log: Log = Rc::new(RefCell::new(Vec::new()));
    let mut manager = SceneManager::new();
    manager.add_scene(
        String::from("a"),
        RecordingScene { name: "first", log: Rc::clone(&log) },
    );
    manager.add_scene(
        String::from("a"),
        RecordingScene { name: "second", log: Rc::clone(&log) },
    );
    let mut ctx = test_context();
    manager.activate("a", &mut ctx).unwrap();
    assert_eq!(*log.borrow(), vec!["second.on_start"]);
}

#[test]
fn shutdown_exits_active_scene_once() {
    let log: Log = Rc::new(RefCell::new(Vec::new()));
    let mut manager = SceneManager::new();
    manager.add_scene(
        String::from("a"),
        RecordingScene { name: "a", log: Rc::clone(&log) },
    );
    let mut ctx = test_context();
    manager.activate("a", &mut ctx).unwrap();
    manager.shutdown(&mut ctx);
    manager.shutdown(&mut ctx);
    assert_eq!(*log.borrow(), vec!["a.on_start", "a.on_exit"]);
    assert_eq!(manager.current_scene(), None);
}

#[test]
fn draw_dispatches_only_to_active_scene() {
    let log: Log = Rc::new(RefCell::new(Vec::new()));
    let mut manager = SceneManager::new();
    manager.add_scene(
        String::from("a"),
        RecordingScene { name: "a", log: Rc::clone(&log) },
    );
    let mut ctx = test_context();
    manager.draw(&mut ctx);
    assert!(log.borrow().is_empty());
    manager.activate("a", &mut ctx).unwrap();
    manager.draw(&mut ctx);
    assert_eq!(*log.borrow(), vec!["a.on_start", "a.on_draw"]);
}

#[test]
fn has_scene_and_boxed_registration() {
    let log: Log = Rc::new(RefCell::new(Vec::new()));
    let mut manager: SceneManager<RecordingScene> = SceneManager::new();
    assert!(!manager.has_scene(&String::from("a")));
    manager.add_boxed_scene(
        String::from("a"),
        Box::new(RecordingScene { name: "a", log: Rc::clone(&log) }),
    );
    assert!(manager.has_scene(&String::from("a")));
    assert!(!manager.has_scene(&String::from("b")));
}

#[test]
fn context_carries_timing_and_input() {
    let mut ctx = test_context();
    assert_eq!(ctx.delta_time_us, 0);
    assert!(ctx.input().is_none());
    ctx.set_timing(16_667, 1_000_000, 60);
    assert_eq!(ctx.delta_time_us, 16_667);
    assert_eq!(ctx.total_time_us, 1_000_000);
    assert_eq!(ctx.frame, 60);
    let mut input = InputState::new();
    input.set_key_pressed(KeyCode::Up, true);
    ctx.set_input(Some(input));
    assert!(ctx.input().unwrap().is_key_pressed(KeyCode::Up));
    ctx.set_input(None);
    assert!(ctx.input().is_none());
}

//! A minimal terminal rendering and scene-orchestration engine.
//!
//! The crate keeps a grid of styled character cells, offers drawing
//! primitives (points, lines, rectangles, circles, text) over that grid,
//! reconciles successive frames against the terminal with a minimal set of
//! positioned writes, and drives named scenes through a fixed lifecycle
//! under a frame clock.  All terminal, file and event I/O lives outside the
//! crate; the library computes what to draw and which writes to emit.

pub mod color;
pub mod config;
pub mod control;
pub mod draw;
pub mod input;
pub mod raster;
pub mod render;
pub mod scene;
pub mod time;

pub use config::{EngineConfig, EngineSettings, SceneConfig};
pub use draw::{Canvas, PixelMode};
pub use input::InputState;
pub use scene::{Context, Scene, SceneManager};

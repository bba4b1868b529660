//! Engine and scene configuration values.
//!
//! The declarative configuration file itself is read and parsed outside the
//! library; what arrives here are the plain settled values the engine runs
//! on.

use vstd::prelude::*;

use crate::draw::PixelMode;

verus! {

/// The per-run engine settings.  `width`, `height` are fixed for the run;
/// `mode` and `framerate` may be mutated at runtime (toggled by input or
/// overridden by the caller).
#[derive(Clone, Copy, Debug, PartialEq, Eq, Structural)]
pub struct EngineSettings {
    pub width: u16,
    pub height: u16,
    pub framerate: u32,
    pub mode: PixelMode,
}

/// A declarative description of one scene instance; `name` is the registry
/// key, `duration_ms` an optional lifetime in milliseconds.
#[derive(Clone, Debug)]
pub struct SceneConfig {
    pub name: String,
    pub duration_ms: Option<u64>,
}

impl SceneConfig {
    /// The whole milliseconds of the configured duration, split into whole
    /// seconds and the millisecond remainder, when a duration is present.
    pub fn duration_parts(&self) -> (r: Option<(u64, u64)>)
        ensures
            r is Some <==> self.duration_ms is Some,
            self.duration_ms is Some ==> r == Some(
                (self.duration_ms->0 / 1000, self.duration_ms->0 % 1000),
            ),
    {
        match self.duration_ms {
            Some(ms) => Some((ms / 1000, ms % 1000)),
            None => None,
        }
    }
}

/// The full configuration: engine settings plus the scene list.
#[derive(Clone, Debug)]
pub struct EngineConfig {
    pub engine: EngineSettings,
    pub scenes: Vec<SceneConfig>,
}

} // verus!

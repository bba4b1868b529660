//! The run loop's decisions: polled keys become explicit commands, and a
//! small control state interprets one command per iteration.
//!
//! The loop around this module polls input, sleeps, and flushes; every
//! choice it makes — quit, pause, advance to the next scene, toggle the
//! pixel mode — is decided here.

use vstd::prelude::*;

use crate::config::EngineSettings;
use crate::input::KeyCode;

verus! {

/// A command derived from one discrete key press.
#[derive(Clone, Copy, Debug, PartialEq, Eq, Structural)]
pub enum LoopCommand {
    Quit,
    TogglePause,
    NextScene,
    ToggleMode,
}

/// What a pressed key means to the run loop: `q` or Escape quits, `p`
/// pauses, `n` advances to the next scene, `m` toggles the pixel mode;
/// letters match case-insensitively and every other key means nothing.
pub open spec fn command_of(key: KeyCode) -> Option<LoopCommand> {
    match key {
        KeyCode::Char(c) => if c == 'q' || c == 'Q' {
            Some(LoopCommand::Quit)
        } else if c == 'p' || c == 'P' {
            Some(LoopCommand::TogglePause)
        } else if c == 'n' || c == 'N' {
            Some(LoopCommand::NextScene)
        } else if c == 'm' || c == 'M' {
            Some(LoopCommand::ToggleMode)
        } else {
            None
        },
        KeyCode::Esc => Some(LoopCommand::Quit),
        _ => None,
    }
}

/// The command a discrete key press asks for, if any.
pub fn command_for_key(key: KeyCode) -> (r: Option<LoopCommand>)
    ensures
        r == command_of(key),
{
    match key {
        KeyCode::Char(c) => {
            if c == 'q' || c == 'Q' {
                Some(LoopCommand::Quit)
            } else if c == 'p' || c == 'P' {
                Some(LoopCommand::TogglePause)
            } else if c == 'n' || c == 'N' {
                Some(LoopCommand::NextScene)
            } else if c == 'm' || c == 'M' {
                Some(LoopCommand::ToggleMode)
            } else {
                None
            }
        },
        KeyCode::Esc => Some(LoopCommand::Quit),
        _ => None,
    }
}

/// The run loop's own mutable state: whether a quit was requested, whether
/// updates are paused, and which scene of the configured list is current.
#[derive(Clone, Copy, Debug, PartialEq, Eq, Structural)]
pub struct RunControl {
    pub exit_requested: bool,
    pub paused: bool,
    pub active_scene_index: usize,
}

impl RunControl {
    /// The loop starts running, unpaused, at the scene it was launched
    /// with.
    pub fn new(initial_scene_index: usize) -> (c: RunControl)
        ensures
            c == (RunControl {
                exit_requested: false,
                paused: false,
                active_scene_index: initial_scene_index,
            }),
    {
        RunControl { exit_requested: false, paused: false, active_scene_index: initial_scene_index }
    }

    /// Interprets one command.
    ///
    /// Quit marks the loop for exit at the top of the next iteration;
    /// pause flips; next-scene advances the index cyclically through the
    /// `scene_count` configured scenes and returns the new index so the
    /// caller can queue the transition; mode-toggle cycles the settings'
    /// pixel mode.  With no scenes configured, next-scene does nothing.
    pub fn apply_command(
        &mut self,
        command: LoopCommand,
        scene_count: usize,
        settings: &mut EngineSettings,
    ) -> (advance_to: Option<usize>)
        requires
            old(self).active_scene_index < usize::MAX,
        ensures
            final(self).exit_requested == (old(self).exit_requested || command
                == LoopCommand::Quit),
            final(self).paused == if command == LoopCommand::TogglePause {
                !old(self).paused
            } else {
                old(self).paused
            },
            final(self).active_scene_index as int == if command == LoopCommand::NextScene
                && scene_count > 0 {
                (old(self).active_scene_index + 1) % (scene_count as int)
            } else {
                old(self).active_scene_index as int
            },
            advance_to == if command == LoopCommand::NextScene && scene_count > 0 {
                Some(final(self).active_scene_index)
            } else {
                None::<usize>
            },
            final(settings).mode == if command == LoopCommand::ToggleMode {
                old(settings).mode.next_mode()
            } else {
                old(settings).mode
            },
            final(settings).width == old(settings).width,
            final(settings).height == old(settings).height,
            final(settings).framerate == old(settings).framerate,
    {
        match command {
            LoopCommand::Quit => {
                self.exit_requested = true;
                None
            },
            LoopCommand::TogglePause => {
                self.paused = !self.paused;
                None
            },
            LoopCommand::NextScene => {
                if scene_count > 0 {
                    let next = (self.active_scene_index + 1) % scene_count;
                    self.active_scene_index = next;
                    Some(next)
                } else {
                    None
                }
            },
            LoopCommand::ToggleMode => {
                settings.mode = settings.mode.next();
                None
            },
        }
    }
}

} // verus!

//! The commands by which a driver works an engine.
//!
//! An engine is paused or running. Edits (toggling a cell, loading a
//! pattern) are taken while it is paused and ignored while it runs; a step
//! is taken in either state, so a driver can single-step a paused engine and
//! step a running one on every tick.

use crate::board::{cell_set, toggled};
use crate::engine::{Engine, EngineView};
use crate::models::Coordinate;
use vstd::prelude::*;

verus! {

/// What a driver can ask of an engine.
#[derive(Debug, PartialEq, Eq)]
pub enum Command {
    /// Change the state of one cell.
    Toggle(Coordinate),
    /// Take one step.
    Step,
    /// Start running.
    Run,
    /// Stop running.
    Pause,
    /// Replace the board by the given cells.
    Load(Vec<Coordinate>),
    /// Leave.
    Quit,
}

/// What became of a command.
#[derive(Copy, Clone, Debug, PartialEq, Eq, Structural)]
pub enum Outcome {
    /// The command was carried out.
    Applied,
    /// The command was an edit, and the engine was running.
    Ignored,
    /// The driver is to leave; the engine is as it was.
    Quit,
}

/// What `command` leads to on `engine`.
pub open spec fn outcome_of(engine: EngineView, command: Command) -> Outcome {
    match command {
        Command::Quit => Outcome::Quit,
        Command::Toggle(_) | Command::Load(_) => if engine.running {
            Outcome::Ignored
        } else {
            Outcome::Applied
        },
        Command::Step | Command::Run | Command::Pause => Outcome::Applied,
    }
}

/// The engine after `command`.
pub open spec fn applied(engine: EngineView, command: Command) -> EngineView {
    match command {
        Command::Toggle(c) => if engine.running {
            engine
        } else {
            engine.with_cells(toggled(engine.cells, c@))
        },
        Command::Step => engine.after(1),
        Command::Run => EngineView { running: true, ..engine },
        Command::Pause => EngineView { running: false, ..engine },
        Command::Load(cells) => if engine.running {
            engine
        } else {
            engine.loaded(cell_set(cells@))
        },
        Command::Quit => engine,
    }
}

/// A running engine keeps its cells apart from steps: no command but
/// `Step` changes the board while the engine runs.
pub proof fn lemma_running_board_is_stepped_only(engine: EngineView, command: Command)
    requires
        engine.running,
        command != Command::Step,
    ensures
        applied(engine, command).cells == engine.cells,
        applied(engine, command).generation == engine.generation,
{
}

impl Engine {
    /// Carries out a command, or ignores it if it is an edit and the engine
    /// is running, and says which.
    pub fn apply(&mut self, command: Command) -> (outcome: Outcome)
        requires
            command == Command::Step ==> old(self)@.generation < u64::MAX,
        ensures
            final(self)@ == applied(old(self)@, command),
            outcome == outcome_of(old(self)@, command),
    {
        match command {
            Command::Toggle(c) => {
                if self.is_running() {
                    Outcome::Ignored
                } else {
                    self.toggle(c);
                    Outcome::Applied
                }
            },
            Command::Step => {
                self.step();
                Outcome::Applied
            },
            Command::Run => {
                self.run();
                Outcome::Applied
            },
            Command::Pause => {
                self.pause();
                Outcome::Applied
            },
            Command::Load(cells) => {
                if self.is_running() {
                    Outcome::Ignored
                } else {
                    self.load_pattern(cells.as_slice());
                    Outcome::Applied
                }
            },
            Command::Quit => Outcome::Quit,
        }
    }
}

} // verus!

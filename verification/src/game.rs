//! The states of the game and the moves between them.
//!
//! The game starts in `Start`, waits in `MainMenu` for a level to be chosen,
//! reads the level in `LevelPreparing`, and plays it in `Level` until the
//! player leaves for the menu. Every move is one call of `step`, which takes
//! a state and an event and gives the next state and what the host should
//! be told.

use vstd::prelude::*;
use crate::blocking::ConnectionData;
use crate::engine::{
    attempt_spec,
    ConnectOutcome,
    ConnectionEngine,
    InvalidConnectionAttempt,
};
use crate::geometry::Vector;
use crate::level::{LevelAdditionalData, LevelData};
use crate::loader::{is_reading_of, parse_level};
use crate::parser::ParseError;
use crate::pointer::{active_points, first_picked, first_touched};

verus! {

/// The levels that the game offers.
#[derive(Debug)]
pub struct GameData {
    pub levels: Vec<LevelData>,
}

/// Where the game is.
#[derive(Debug)]
pub enum GameState {
    /// Before the first event.
    Start,
    /// Waiting for a level to be chosen.
    MainMenu,
    /// The level `level_index` was chosen and is to be read.
    LevelPreparing { level_index: usize },
    /// The level `level_index` is played; `layout_index` is the layout shown.
    Level { level_index: usize, layout_index: usize, engine: ConnectionEngine },
    /// The game is over.
    Quit,
}

/// What happened outside.
#[derive(Clone, Copy, Debug, PartialEq, Eq, Structural)]
pub enum InputEvent {
    /// A frame has passed.
    Frame,
    /// The player chose a level.
    SelectLevel(usize),
    /// The player asked for the menu.
    ExitToMenu,
    /// The pointer was pressed at a position, in lattice units.
    PointerPressed(Vector),
    /// The pointer was released at a position, in lattice units.
    PointerReleased(Vector),
}

/// What the host is told after a step.
#[derive(Clone, Copy, Debug, PartialEq, Eq, Structural)]
pub enum Signal {
    /// The layout shown has changed.
    LayoutSwitched(usize),
    /// The level could not be read; the game is back in the menu.
    LoadFailed(ParseError),
    /// The connection was not made.
    Rejected(InvalidConnectionAttempt),
}

/// What the host is told of an attempt to connect.
pub open spec fn signals_of_attempt(
    r: Result<ConnectOutcome, InvalidConnectionAttempt>,
) -> Seq<Signal> {
    match r {
        Ok(ConnectOutcome::NoTarget) => seq![],
        Ok(ConnectOutcome::Connected { switch_to: None }) => seq![],
        Ok(ConnectOutcome::Connected { switch_to: Some(l) }) => seq![Signal::LayoutSwitched(l)],
        Err(e) => seq![Signal::Rejected(e)],
    }
}

/// What the host is told when the layout shown was `before` and is `after`.
pub open spec fn signals_of_layouts(before: usize, after: usize) -> Seq<Signal> {
    if before != after {
        seq![Signal::LayoutSwitched(after)]
    } else {
        seq![]
    }
}

impl GameState {
    /// The state names a level of `data`; while a level is played, the engine
    /// holds that level as read and the layout shown is the anchor's.
    pub open spec fn wf(&self, data: GameData) -> bool {
        match self {
            GameState::LevelPreparing { level_index } => *level_index < data.levels@.len(),
            GameState::Level { level_index, layout_index, engine } => {
                &&& *level_index < data.levels@.len()
                &&& engine.wf()
                &&& *layout_index == engine.anchor_point().layout_index
                &&& is_reading_of(
                    data.levels@[*level_index as int],
                    Ok::<LevelAdditionalData, ParseError>(engine.level()),
                )
            },
            _ => true,
        }
    }

    /// The game is over.
    pub fn is_over(&self) -> (r: bool)
        ensures
            r == (self is Quit),
    {
        match self {
            GameState::Quit => true,
            _ => false,
        }
    }
}

/// The step from `LevelPreparing`: into the level where it can be read, with
/// no connection made and the layout of its start shown; back to the menu,
/// with the error, where it cannot.
pub open spec fn is_prepared(
    data: GameData,
    level_index: usize,
    next: GameState,
    signals: Seq<Signal>,
) -> bool {
    exists|r: Result<LevelAdditionalData, ParseError>| #[trigger]
        is_reading_of(data.levels@[level_index as int], r) && match r {
            Ok(level) => {
                &&& signals == Seq::<Signal>::empty()
                &&& next matches GameState::Level { level_index: n, layout_index, engine }
                &&& n == level_index
                &&& layout_index == level.start_point().layout_index
                &&& engine.level() == level
                &&& engine.path() == Seq::<ConnectionData>::empty()
            },
            Err(e) => next is MainMenu && signals == seq![Signal::LoadFailed(e)],
        }
}

/// The step on a release of the pointer while a level is played: an attempt
/// to connect to the point that the pointer touches.
pub open spec fn is_release(
    engine: ConnectionEngine,
    pointer: Vector,
    after: ConnectionEngine,
    signals: Seq<Signal>,
) -> bool {
    exists|target: Option<usize>, r: Result<ConnectOutcome, InvalidConnectionAttempt>|
        first_touched(active_points(engine.level(), engine.path()), pointer, target)
            && #[trigger] attempt_spec(engine.level(), engine.path(), target, r, after.path())
            && signals == signals_of_attempt(r)
}

/// The step on a press of the pointer while a level is played: the
/// connection that the press picks is taken back, with all that follow it.
pub open spec fn is_press(
    engine: ConnectionEngine,
    pointer: Vector,
    after: ConnectionEngine,
    signals: Seq<Signal>,
) -> bool {
    exists|pick: Option<usize>| #[trigger]
        first_picked(engine.level(), engine.path(), pointer, pick) && after.path() == (match pick {
            Some(i) => engine.path().take(i as int),
            None => engine.path(),
        }) && signals == signals_of_layouts(
            engine.anchor_point().layout_index,
            after.anchor_point().layout_index,
        )
}

/// `next` and `signals` are what the step from `state` on `event` gives.
pub open spec fn is_step(
    data: GameData,
    state: GameState,
    event: InputEvent,
    next: GameState,
    signals: Seq<Signal>,
) -> bool {
    match state {
        GameState::Start => next is MainMenu && signals == Seq::<Signal>::empty(),
        GameState::MainMenu => signals == Seq::<Signal>::empty() && match event {
            InputEvent::SelectLevel(n) => next == (GameState::LevelPreparing { level_index: n }),
            _ => next is MainMenu,
        },
        GameState::LevelPreparing { level_index } => is_prepared(data, level_index, next, signals),
        GameState::Level { level_index, layout_index, engine } => match event {
            InputEvent::ExitToMenu => next is MainMenu && signals == Seq::<Signal>::empty(),
            InputEvent::PointerReleased(pointer) => {
                &&& next matches GameState::Level { level_index: n, layout_index: l, engine: after }
                &&& n == level_index
                &&& after.level() == engine.level()
                &&& l == after.anchor_point().layout_index
                &&& is_release(engine, pointer, after, signals)
            },
            InputEvent::PointerPressed(pointer) => {
                &&& next matches GameState::Level { level_index: n, layout_index: l, engine: after }
                &&& n == level_index
                &&& after.level() == engine.level()
                &&& l == after.anchor_point().layout_index
                &&& is_press(engine, pointer, after, signals)
            },
            _ => next == state && signals == Seq::<Signal>::empty(),
        },
        GameState::Quit => next is Quit && signals == Seq::<Signal>::empty(),
    }
}

/// One step of the game.
pub fn step(data: &GameData, state: GameState, event: InputEvent) -> (r: (GameState, Vec<Signal>))
    requires
        state.wf(*data),
        state is MainMenu ==> (event matches InputEvent::SelectLevel(n) ==> n < data.levels@.len()),
    ensures
        r.0.wf(*data),
        is_step(*data, state, event, r.0, r.1@),
{
    match state {
        GameState::Start => (GameState::MainMenu, Vec::new()),
        GameState::MainMenu => match event {
            InputEvent::SelectLevel(n) => (GameState::LevelPreparing { level_index: n }, Vec::new()),
            _ => (GameState::MainMenu, Vec::new()),
        },
        GameState::LevelPreparing { level_index } => {
            match parse_level(&data.levels[level_index]) {
                Ok(level) => {
                    let ghost read = level;
                    let layout_index = level.start().layout_index;
                    let engine = ConnectionEngine::new(level);
                    let next = GameState::Level { level_index, layout_index, engine };
                    proof {
                        assert(is_reading_of(
                            data.levels@[level_index as int],
                            Ok::<LevelAdditionalData, ParseError>(read),
                        ));
                    }
                    (next, Vec::new())
                },
                Err(e) => {
                    let mut signals: Vec<Signal> = Vec::new();
                    signals.push(Signal::LoadFailed(e));
                    proof {
                        assert(signals@ =~= seq![Signal::LoadFailed(e)]);
                        assert(is_reading_of(
                            data.levels@[level_index as int],
                            Err::<LevelAdditionalData, ParseError>(e),
                        ));
                    }
                    (GameState::MainMenu, signals)
                },
            }
        },
        GameState::Level { level_index, layout_index, engine } => match event {
            InputEvent::ExitToMenu => (GameState::MainMenu, Vec::new()),
            InputEvent::PointerReleased(pointer) => {
                let ghost before = engine;
                let mut engine = engine;
                let target = engine.point_at(pointer);
                let outcome = engine.attempt_connect(target);
                let mut signals: Vec<Signal> = Vec::new();
                match outcome {
                    Ok(ConnectOutcome::NoTarget) => {},
                    Ok(ConnectOutcome::Connected { switch_to: None }) => {},
                    Ok(ConnectOutcome::Connected { switch_to: Some(l) }) => {
                        signals.push(Signal::LayoutSwitched(l));
                    },
                    Err(e) => {
                        signals.push(Signal::Rejected(e));
                    },
                }
                proof {
                    assert(signals@ =~= signals_of_attempt(outcome));
                    assert(attempt_spec(
                        before.level(),
                        before.path(),
                        target,
                        outcome,
                        engine.path(),
                    ));
                }
                let layout_index = engine.active_layout();
                (GameState::Level { level_index, layout_index, engine }, signals)
            },
            InputEvent::PointerPressed(pointer) => {
                let ghost before = engine;
                let mut engine = engine;
                let pick = engine.connection_at(pointer);
                let mut signals: Vec<Signal> = Vec::new();
                match pick {
                    Some(i) => {
                        match engine.undo_to(i) {
                            Some(l) => {
                                signals.push(Signal::LayoutSwitched(l));
                            },
                            None => {},
                        }
                    },
                    None => {},
                }
                proof {
                    assert(signals@ =~= signals_of_layouts(
                        before.anchor_point().layout_index,
                        engine.anchor_point().layout_index,
                    ));
                    assert(first_picked(before.level(), before.path(), pointer, pick));
                }
                let layout_index = engine.active_layout();
                (GameState::Level { level_index, layout_index, engine }, signals)
            },
            _ => (GameState::Level { level_index, layout_index, engine }, Vec::new()),
        },
        GameState::Quit => (GameState::Quit, Vec::new()),
    }
}

} // verus!

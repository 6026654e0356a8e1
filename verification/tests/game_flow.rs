use connect_pairs::engine::InvalidConnectionAttempt;
use connect_pairs::game::{step, GameData, GameState, InputEvent, Signal};
use connect_pairs::geometry::Vector;
use connect_pairs::level::LevelData;
use connect_pairs::parser::ParseError;
use connect_pairs::win::evaluate;

fn level(name: &str, win_count: usize, layouts: &[&str]) -> LevelData {
    LevelData {
        name: String::from(name),
        win_count,
        layouts: layouts.iter().map(|text| String::from(*text)).collect(),
    }
}

fn data() -> GameData {
    GameData {
        levels: vec![
            level("two layouts", 1, &["1f", "s1"]),
            level("broken", 0, &["s1f"]),
            level("blocked", 0, &["s\nz\nf"]),
        ],
    }
}

fn playing(data: &GameData, index: usize) -> GameState {
    let (state, signals) = step(data, GameState::Start, InputEvent::Frame);
    assert!(signals.is_empty());
    let (state, signals) = step(data, state, InputEvent::SelectLevel(index));
    assert!(signals.is_empty());
    let (state, signals) = step(data, state, InputEvent::Frame);
    assert!(signals.is_empty());
    state
}

fn shown(state: &GameState) -> (usize, usize, usize) {
    match state {
        GameState::Level { level_index, layout_index, engine } => {
            (*level_index, *layout_index, engine.connections().len())
        }
        other => panic!("not playing: {:?}", other),
    }
}

fn at(x: i64, y: i64) -> InputEvent {
    InputEvent::PointerReleased(Vector { x, y })
}

#[test]
fn the_game_starts_in_the_menu() {
    let data = data();
    for event in [InputEvent::Frame, InputEvent::ExitToMenu, InputEvent::SelectLevel(7)] {
        let (state, signals) = step(&data, GameState::Start, event);
        assert!(matches!(state, GameState::MainMenu));
        assert!(signals.is_empty());
        assert!(!state.is_over());
    }
}

#[test]
fn the_menu_waits_for_a_level() {
    let data = data();
    for event in [InputEvent::Frame, InputEvent::ExitToMenu, at(0, 0)] {
        let (state, signals) = step(&data, GameState::MainMenu, event);
        assert!(matches!(state, GameState::MainMenu));
        assert!(signals.is_empty());
    }
    let (state, signals) = step(&data, GameState::MainMenu, InputEvent::SelectLevel(2));
    assert!(matches!(state, GameState::LevelPreparing { level_index: 2 }));
    assert!(signals.is_empty());
}

#[test]
fn a_level_begins_in_the_layout_of_its_start() {
    let data = data();
    let state = playing(&data, 0);
    assert_eq!(shown(&state), (0, 1, 0));
}

#[test]
fn a_level_that_cannot_be_read_leads_back_to_the_menu() {
    let data = data();
    let state = GameState::LevelPreparing { level_index: 1 };
    let (state, signals) = step(&data, state, InputEvent::Frame);
    assert!(matches!(state, GameState::MainMenu));
    assert_eq!(signals, vec![Signal::LoadFailed(ParseError::UnpairedPoint)]);
}

#[test]
fn releasing_on_points_draws_the_path() {
    let data = data();
    let state = playing(&data, 0);
    // nothing under the pointer
    let (state, signals) = step(&data, state, at(128, 128));
    assert!(signals.is_empty());
    assert_eq!(shown(&state), (0, 1, 0));
    // the paired point of layout 1, at column 1
    let (state, signals) = step(&data, state, at(256, 0));
    assert_eq!(signals, vec![Signal::LayoutSwitched(0)]);
    assert_eq!(shown(&state), (0, 0, 1));
    // the finish of layout 0, at column 1
    let (state, signals) = step(&data, state, at(250, 5));
    assert!(signals.is_empty());
    assert_eq!(shown(&state), (0, 0, 2));
    match &state {
        GameState::Level { engine, .. } => assert!(evaluate(engine).won),
        _ => unreachable!(),
    }
    // a press on the anchor of layout 0 takes the last two connections back
    let (state, signals) = step(&data, state, InputEvent::PointerPressed(Vector { x: 0, y: 0 }));
    assert_eq!(signals, vec![Signal::LayoutSwitched(1)]);
    assert_eq!(shown(&state), (0, 1, 0));
    // a press on nothing changes nothing
    let (state, signals) = step(&data, state, InputEvent::PointerPressed(Vector { x: 900, y: 0 }));
    assert!(signals.is_empty());
    assert_eq!(shown(&state), (0, 1, 0));
}

#[test]
fn a_refused_connection_is_signalled() {
    let data = data();
    let state = playing(&data, 0);
    // the start is the anchor
    let (state, signals) = step(&data, state, at(0, 0));
    assert_eq!(signals, vec![Signal::Rejected(InvalidConnectionAttempt::TargetOccupied)]);
    assert_eq!(shown(&state), (0, 1, 0));
    let state = playing(&data, 2);
    let (state, signals) = step(&data, state, at(0, 512));
    assert_eq!(signals.len(), 1);
    assert!(matches!(
        signals[0],
        Signal::Rejected(InvalidConnectionAttempt::PathBlocked(_))
    ));
    assert_eq!(shown(&state), (2, 0, 0));
}

#[test]
fn the_finish_is_refused_too_early() {
    let data = GameData { levels: vec![level("gate", 1, &["sf"])] };
    let state = playing(&data, 0);
    let (state, signals) = step(&data, state, at(256, 0));
    assert_eq!(signals, vec![Signal::Rejected(InvalidConnectionAttempt::InsufficientConnections)]);
    assert_eq!(shown(&state), (0, 0, 0));
}

#[test]
fn other_events_leave_the_level_as_it_is() {
    let data = data();
    let state = playing(&data, 0);
    let (state, signals) = step(&data, state, InputEvent::Frame);
    assert!(signals.is_empty());
    let (state, signals) = step(&data, state, InputEvent::SelectLevel(2));
    assert!(signals.is_empty());
    assert_eq!(shown(&state), (0, 1, 0));
}

#[test]
fn leaving_a_level_forgets_the_path() {
    let data = data();
    let state = playing(&data, 0);
    let (state, _) = step(&data, state, at(256, 0));
    assert_eq!(shown(&state), (0, 0, 1));
    let (state, signals) = step(&data, state, InputEvent::ExitToMenu);
    assert!(matches!(state, GameState::MainMenu));
    assert!(signals.is_empty());
    let (state, _) = step(&data, state, InputEvent::SelectLevel(0));
    let (state, _) = step(&data, state, InputEvent::Frame);
    assert_eq!(shown(&state), (0, 1, 0));
}

#[test]
fn quit_is_the_end() {
    let data = data();
    for event in [InputEvent::Frame, InputEvent::ExitToMenu, InputEvent::SelectLevel(0), at(0, 0)] {
        let (state, signals) = step(&data, GameState::Quit, event);
        assert!(matches!(state, GameState::Quit));
        assert!(state.is_over());
        assert!(signals.is_empty());
    }
}

use std::sync::Arc;

use sogo::ai::value::{column_value, point_value, SideValue};
use sogo::game::{Color, LineState, PointState, Position2, Position3, State, Structure};
use sogo::game_view::{self, Phase};
use sogo::lines::{add_ball, standard_lines};
use sogo::replay::History;
use sogo::thread_synchronisation::{CoreEvent, HumanPlayer, UiEvent};

fn standard_structure() -> Arc<Structure> {
    Arc::new(Structure::new(&standard_lines()))
}

fn history_of(columns: &[u8]) -> History {
    let mut history = History::new(standard_structure());
    for &c in columns {
        history.add(Position2(c));
    }
    history
}

#[test]
fn history_records_and_plays_moves() {
    let history = history_of(&[0, 5, 0]);
    assert!(history.is_resumed());
    assert_eq!(history.state.age, 3);
    assert_eq!(history.state.at(Position3(16)), PointState::Piece(Color::White));
    assert_eq!(history.state.at(Position3(5)), PointState::Piece(Color::Black));
}

#[test]
fn back_forward_and_resume() {
    let mut history = history_of(&[0, 5, 0]);
    assert_eq!(history.forward(), Err(()));
    assert_eq!(history.back(), Ok(()));
    assert!(!history.is_resumed());
    assert_eq!(history.state.age, 2);
    assert_eq!(history.state.at(Position3(16)), PointState::Empty);
    assert_eq!(history.back(), Ok(()));
    assert_eq!(history.back(), Ok(()));
    assert_eq!(history.state.age, 0);
    assert_eq!(history.back(), Err(()));
    assert_eq!(history.forward(), Ok(()));
    assert_eq!(history.state.age, 1);
    // A move recorded while looking back waits at the end.
    history.add(Position2(9));
    assert_eq!(history.state.age, 1);
    history.resume();
    assert!(history.is_resumed());
    assert_eq!(history.state.age, 4);
    assert_eq!(history.state.at(Position3(9)), PointState::Piece(Color::Black));
    assert_eq!(history.forward(), Err(()));
}

#[test]
fn playback_names_cells_and_colors() {
    let history = history_of(&[0, 0, 15]);
    let mut playback = history.playback();
    assert_eq!(playback.next(), Some((Position3(0), Color::White)));
    assert_eq!(playback.next(), Some((Position3(16), Color::Black)));
    assert_eq!(playback.next(), Some((Position3(15), Color::White)));
    assert_eq!(playback.next(), None);
}

#[test]
fn notation_lists_the_shown_moves() {
    let mut history = history_of(&[0, 0, 15]);
    assert_eq!(history.notation(), "1. A1 (1) 2. A1 (2) 3. D4 (1) ");
    history.back().unwrap();
    assert_eq!(history.notation(), "1. A1 (1) 2. A1 (2) ");
    assert_eq!(History::new(standard_structure()).notation(), "");
    let mut long = History::new(standard_structure());
    for _ in 0..3 {
        for c in 0..4u8 {
            long.add(Position2(c));
        }
    }
    assert!(long.notation().ends_with("12. D1 (3) "));
}

#[test]
fn empty_view_waits() {
    let view = game_view::State::empty(standard_structure());
    assert_eq!(view.phase, Phase::Waiting);
    assert!(view.hint.is_none());
    assert!(view.replay.is_resumed());
    assert_eq!(view.replay.state.age, 0);
}

#[test]
fn events_carry_moves() {
    let event = CoreEvent::Action { action: Position2(3), color: Color::Black };
    match event.clone() {
        CoreEvent::Action { action, color } => assert_eq!((action, color), (Position2(3), Color::Black)),
        _ => panic!("wrong event"),
    }
    let ui = UiEvent::RenderAction { action: Position2(1), color: Color::White };
    assert!(matches!(ui, UiEvent::RenderAction { .. }));
    assert!(matches!(CoreEvent::DebugOutput("x".to_owned()), CoreEvent::DebugOutput(_)));
    assert_eq!(HumanPlayer::Active, HumanPlayer::Active);
    assert!(matches!(UiEvent::StartTurn, UiEvent::StartTurn));
    assert!(matches!(CoreEvent::Halt, CoreEvent::Halt));
}

#[test]
fn balls_fill_a_line() {
    let mut line = LineState::Empty;
    line = add_ball(line, Color::White);
    assert_eq!(line, LineState::Pure { color: Color::White, count: 1 });
    line = add_ball(line, Color::White);
    line = add_ball(line, Color::White);
    assert_eq!(line, LineState::Pure { color: Color::White, count: 3 });
    assert_eq!(add_ball(line, Color::White), LineState::Win(Color::White));
    assert_eq!(add_ball(line, Color::Black), LineState::Mixed);
    assert_eq!(add_ball(LineState::Mixed, Color::White), LineState::Mixed);
}

#[test]
fn point_and_column_values() {
    let mut state = State::new(standard_structure());
    // The empty corner lies on seven empty lines.
    assert_eq!(
        point_value(&state, Position3(0)),
        Some((SideValue::Heuristic(7), SideValue::Heuristic(7)))
    );
    state.execute(Position2(0));
    assert_eq!(point_value(&state, Position3(0)), None);
    // Above the white corner: the vertical line counts 4 for White, not for Black.
    assert_eq!(
        point_value(&state, Position3(16)),
        Some((SideValue::Heuristic(3 + 4), SideValue::Heuristic(3)))
    );
    // Three white pieces in a row: the fourth cell completes the line for White.
    let mut row = State::new(standard_structure());
    for column in [0u8, 12, 1, 13, 2, 5] {
        row.execute(Position2(column));
    }
    match point_value(&row, Position3(3)) {
        Some((SideValue::LastMissingPiece, SideValue::Heuristic(_))) => {}
        other => panic!("unexpected {:?}", other),
    }
    assert_eq!(
        column_value(&row, Position2(3)).map(|(w, _)| w),
        Some(SideValue::LastMissingPiece)
    );
    let mut full = State::new(standard_structure());
    for _ in 0..4 {
        full.execute(Position2(6));
    }
    assert_eq!(column_value(&full, Position2(6)), None);
    full.execute(Position2(7));
    full.execute(Position2(7));
    full.execute(Position2(7));
    assert_eq!(column_value(&full, Position2(7)), point_value(&full, Position3(55)));
    let empty = State::new(standard_structure());
    match column_value(&empty, Position2(0)) {
        Some((SideValue::Heuristic(w), SideValue::Heuristic(b))) => assert_eq!((w, b), (7 - 4, 7 - 4)),
        other => panic!("unexpected {:?}", other),
    }
}

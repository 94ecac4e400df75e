use std::sync::Arc;

use rand::RngCore;
use sogo::ai::mc::random_playout_board;
use sogo::ai::value::subsets;
use sogo::game::{
    Color, LineState, PointState, Position2, Position3, State, Structure, Subset, VictoryState,
    VictoryStats,
};
use sogo::helpers::EqualityVerifier;
use sogo::lines::{flatten, standard_lines, Line, Point};

fn standard_structure() -> Arc<Structure> {
    Arc::new(Structure::new(&standard_lines()))
}

#[test]
fn test_subsets_values() {
    let structure = Structure::new(&standard_lines());

    let mut state = State::new(Arc::new(structure));
    assert_eq!(0, subsets(&state, Color::White));

    state.insert(Position2::new(0, 0));
    assert_eq!(7, subsets(&state, Color::White));

    state.insert(Position2::new(0, 3));
    assert_eq!(0, subsets(&state, Color::White));
}

#[test]
fn subset_coherence() {
    let mut rng = rand::thread_rng();

    for _ in 0..10000 {
        let subset = Subset(rng.next_u64());
        let mut it = subset.iter();
        while let Some(position) = it.next() {
            assert!(subset.contains(position));
        }
    }
}

#[test]
fn subset_iterator_lists_every_cell_once_in_order() {
    let subset = Subset((1u64 << 0) | (1u64 << 5) | (1u64 << 63));
    let mut it = subset.iter();
    let mut seen = vec![];
    while let Some(position) = it.next() {
        seen.push(position.0);
    }
    assert_eq!(seen, vec![0, 5, 63]);
    assert_eq!(subset.size(), 3);
    let mut empty = Subset(0).iter();
    assert_eq!(empty.next(), None);
    assert_eq!(Subset(u64::MAX).size(), 64);
}

#[test]
fn positions_and_coordinates() {
    assert_eq!(Position2::new(3, 2), Position2(11));
    assert_eq!(Position2(11).coords(), (3, 2));
    assert_eq!(Position2(11).with_height(3), Position3(59));
    assert_eq!(Position3::new(1, 2, 3), Position3(57));
    assert_eq!(Position3(57).coords(), (1, 2, 3));
    assert_eq!(Position3(57).column(), Position2(9));
    assert_eq!(flatten(3, 3, 3), 63);
    let p = Point::new(1, 2, 3);
    assert_eq!((p.x, p.y, p.z, p.flat_coordinate), (1, 2, 3, 57));
}

#[test]
fn standard_lines_are_76_lines_of_four() {
    let lines = standard_lines();
    assert_eq!(lines.len(), 76);
    for mask in &lines {
        assert_eq!(mask.count_ones(), 4);
    }
    let mut sorted = lines.clone();
    sorted.sort();
    sorted.dedup();
    assert_eq!(sorted.len(), 76);
    let diagonal = Line::new(0, 0, 0, 1, 1, 1).mask();
    assert_eq!(diagonal, (1 << 0) | (1 << 21) | (1 << 42) | (1 << 63));
    assert!(lines.contains(&diagonal));
}

#[test]
fn structure_reverse_index_and_sizes() {
    let structure = standard_structure();
    assert_eq!(structure.object_size, 4);
    assert_eq!(structure.source.len(), 76);
    assert_eq!(structure.reverse.len(), 64);
    // A corner lies on seven lines, an inner cell of a face on four.
    assert_eq!(structure.reverse[0].len(), 7);
    assert_eq!(structure.reverse[5].len(), 4);
    for p in 0..64u8 {
        for &i in &structure.reverse[p as usize] {
            assert!(structure.source[i].contains(Position3(p)));
        }
    }
}

#[test]
fn try_new_rejects_unequal_or_empty_shapes() {
    assert!(Structure::try_new(&[0b11, 0b1100]).is_some());
    assert!(Structure::try_new(&[0b11, 0b111]).is_none());
    assert!(Structure::try_new(&[]).is_none());
    assert!(Structure::try_new(&[0, 0]).is_none());
    assert!(Structure::try_new(&standard_lines()).is_some());
}

#[test]
fn equality_verifier_tracks_agreement() {
    let v = EqualityVerifier::NoValue.update(4);
    assert_eq!(v, EqualityVerifier::Value(4));
    assert_eq!(v.update(4), EqualityVerifier::Value(4));
    assert_eq!(v.update(5), EqualityVerifier::Conflict);
    assert_eq!(v.update(5).update(4), EqualityVerifier::Conflict);
    assert_eq!(v.unwrap(), 4);
}

#[test]
fn new_board_is_empty() {
    let state = State::new(standard_structure());
    assert_eq!(state.age, 0);
    assert_eq!(state.current_color, Color::White);
    assert_eq!(state.victory_state, VictoryState::Undecided);
    assert_eq!(state.legal_actions().len(), 16);
    assert!(state.points.iter().all(|p| *p == PointState::Empty));
    let stats = VictoryStats::new();
    assert_eq!((stats.white, stats.black, stats.draws), (0, 0, 0));
}

#[test]
fn insert_stacks_pieces_and_alternates_colors() {
    let mut state = State::new(standard_structure());
    assert_eq!(state.insert(Position2(5)), Position3(5));
    assert_eq!(state.insert(Position2(5)), Position3(21));
    assert_eq!(state.at(Position3(5)), PointState::Piece(Color::White));
    assert_eq!(state.at(Position3(21)), PointState::Piece(Color::Black));
    state.insert(Position2(5));
    state.insert(Position2(5));
    assert!(state.column_full(Position2(5)));
    let legal = state.legal_actions();
    assert_eq!(legal.len(), 15);
    assert!(!legal.contains(&Position2(5)));
}

#[test]
fn age_and_color_follow_every_legal_sequence() {
    let mut rng = rand::thread_rng();
    for _ in 0..200 {
        let mut state = State::new(standard_structure());
        let mut n = 0u8;
        while state.victory_state.active() {
            let legal = state.legal_actions();
            let column = legal[(rng.next_u32() as usize) % legal.len()];
            let expected = if n % 2 == 0 { Color::White } else { Color::Black };
            assert_eq!(state.current_color, expected);
            state.execute(column);
            n += 1;
            assert_eq!(state.age, n);
            let sum: u32 = state.column_height.iter().map(|h| *h as u32).sum();
            assert_eq!(sum, state.age as u32);
        }
    }
}

#[test]
fn four_in_a_column_wins() {
    let mut state = State::new(standard_structure());
    for _ in 0..3 {
        state.execute(Position2(0));
        state.execute(Position2(1));
    }
    assert!(state.victory_state.active());
    state.execute(Position2(0));
    match state.victory_state {
        VictoryState::Win { winner, reason } => {
            assert_eq!(winner, Color::White);
            assert_eq!(reason, Some(Subset((1 << 0) | (1 << 16) | (1 << 32) | (1 << 48))));
        }
        other => panic!("expected a win, got {:?}", other),
    }
    assert_eq!(state.victory_state.scoring(Color::White), Some(1));
    assert_eq!(state.victory_state.scoring(Color::Black), Some(-1));
}

#[test]
fn full_board_without_line_is_a_draw() {
    // Filling column after column gives each shape one piece of each color.
    let structure = Arc::new(Structure::new(&[1u64 << 0 | 1u64 << 16, 1u64 << 1 | 1u64 << 17]));
    let mut state = State::new(structure);
    for column in 0..16u8 {
        for _ in 0..4 {
            state.execute(Position2(column));
        }
    }
    assert_eq!(state.age, 64);
    assert_eq!(state.victory_state, VictoryState::Draw);
    assert_eq!(state.victory_state.scoring(Color::White), Some(0));
    assert!(state.legal_actions().is_empty());
}

#[test]
fn win_state_classifies_lines() {
    let mut state = State::new(standard_structure());
    let row = Subset(0b1111);
    assert_eq!(row.win_state(&state), LineState::Empty);
    state.execute(Position2(0));
    assert_eq!(row.win_state(&state), LineState::Pure { color: Color::White, count: 1 });
    state.execute(Position2(1));
    assert_eq!(row.win_state(&state), LineState::Mixed);
    let mut other = State::new(standard_structure());
    for column in [0u8, 5, 1, 6, 2, 7, 3] {
        other.insert(Position2(column));
    }
    assert_eq!(row.win_state(&other), LineState::Win(Color::White));
}

#[test]
fn random_playout_agrees_with_a_full_rescan() {
    let structure = standard_structure();
    for _ in 0..300 {
        let start = State::new(structure.clone());
        let end = random_playout_board(&start);
        let mut white = false;
        let mut black = false;
        for subset in &structure.source {
            match subset.win_state(&end) {
                LineState::Win(Color::White) => white = true,
                LineState::Win(Color::Black) => black = true,
                _ => {}
            }
        }
        match end.victory_state {
            VictoryState::Win { winner: Color::White, reason } => {
                assert!(white && !black);
                assert_eq!(reason.unwrap().win_state(&end), LineState::Win(Color::White));
            }
            VictoryState::Win { winner: Color::Black, reason } => {
                assert!(black && !white);
                assert_eq!(reason.unwrap().win_state(&end), LineState::Win(Color::Black));
            }
            VictoryState::Draw => {
                assert!(!white && !black);
                assert_eq!(end.age, 64);
            }
            VictoryState::Undecided => panic!("a playout ends the game"),
        }
    }
}

#[test]
fn standard_masks_follow_the_line_table() {
    let lines = standard_lines();
    assert_eq!(lines[0], (1 << 0) | (1 << 16) | (1 << 32) | (1 << 48));
    assert_eq!(lines[1], 0b1111);
    assert_eq!(lines[2], (1 << 0) | (1 << 4) | (1 << 8) | (1 << 12));
    assert_eq!(lines[72], Line::new(0, 0, 0, 1, 1, 1).mask());
    assert_eq!(lines[75], Line::new(0, 3, 0, 1, -1, 1).mask());
}

#[test]
fn reverse_lists_increase_strictly() {
    let structure = standard_structure();
    let mut total = 0;
    for list in &structure.reverse {
        assert!(list.windows(2).all(|w| w[0] < w[1]));
        total += list.len();
    }
    assert_eq!(total, 76 * 4);
}

use std::sync::Arc;

use sogo::ai::mc::{last_max_index, monte_carlo_judgement, random_playout, random_playout_sample, MonteCarloAI};
use sogo::ai::mctree::{playout_value, Index, MCTreeAI, PlayoutSchedule, ScheduleStep, VecTree};
use sogo::ai::random::RandomSogoAI;
use sogo::ai::tree::{recursive_judgement, TreeJudgementAI};
use sogo::ai::ucb::{ln_fixed, sqrt_fixed, ucb_value};
use sogo::ai::value::{win_only, Simple};
use sogo::ai::{best_actions, random_best_move, run_match, AIBox, Constructor, StatelessAI};
use sogo::game::{Color, Position2, State, Structure, VictoryState};
use sogo::lines::standard_lines;

fn standard_structure() -> Arc<Structure> {
    Arc::new(Structure::new(&standard_lines()))
}

#[test]
fn match_mc() {
    let structure = standard_structure();
    let mut white_player = MonteCarloAI::new(1000);
    let mut black_player = MonteCarloAI::new(1000);
    run_match(structure, &mut white_player, &mut black_player);
}

#[test]
fn match_mc_tree() {
    let structure = standard_structure();
    let mut white_player = MonteCarloAI::new(1000);
    let mut black_player = TreeJudgementAI::new(2, Simple::Subsets);
    run_match(structure, &mut white_player, &mut black_player);
}

#[test]
fn match_tree() {
    let structure = standard_structure();
    let mut white_player = TreeJudgementAI::new(2, Simple::Subsets);
    let mut black_player = TreeJudgementAI::new(2, Simple::Subsets);
    run_match(structure, &mut white_player, &mut black_player);
}

#[test]
fn match_random_ends_the_game() {
    let mut white_player = RandomSogoAI::new();
    let mut black_player = AIBox::new(Constructor::Random);
    let end = run_match(standard_structure(), &mut white_player, &mut black_player);
    assert!(!end.victory_state.active());
}

/// White holds three of the bottom row; column 3 wins at once.
fn one_move_from_a_win() -> State {
    let mut state = State::new(standard_structure());
    for column in [0u8, 12, 1, 13, 2, 14] {
        state.execute(Position2(column));
    }
    assert_eq!(state.current_color, Color::White);
    state
}

#[test]
fn mcts_finds_the_winning_column() {
    let state = one_move_from_a_win();
    let ai = MCTreeAI::new(2000, 1414);
    let mut hits = 0;
    for _ in 0..10 {
        if ai.action(&state) == Position2(3) {
            hits += 1;
        }
    }
    assert!(hits >= 10, "won in {} of 10 runs", hits);
}

#[test]
fn mcts_tree_counts_every_iteration() {
    let state = State::new(standard_structure());
    let tree = MCTreeAI::new(200, 1414).create_tree(&state);
    assert_eq!(tree.simulation_count(0), 200);
    assert_eq!(tree.node_count(), 201);
    let best = tree.robust_move();
    assert!(best.0 < 16);
}

#[test]
fn backpropagation_alternates_signs() {
    let state = State::new(standard_structure());
    let mut tree = VecTree::new(64, &state);
    for _ in 0..16 {
        let (leaf, _) = tree.select_best(Index(0), state.clone(), 1414);
        assert_eq!(tree.parent(leaf.0), Some(Index(0)));
        tree.backpropagate(leaf, 0);
    }
    let (grandchild, _) = tree.select_best(Index(0), state.clone(), 1414);
    let child = tree.parent(grandchild.0).unwrap();
    assert!(child.0 >= 1 && child.0 <= 16);
    assert_eq!(tree.parent(child.0), Some(Index(0)));
    tree.backpropagate(grandchild, 1);
    assert_eq!(tree.win_count(grandchild.0), 1);
    assert_eq!(tree.win_count(child.0), -1);
    assert_eq!(tree.win_count(0), 1);
    assert_eq!(tree.simulation_count(grandchild.0), 1);
    assert_eq!(tree.simulation_count(child.0), 2);
    assert_eq!(tree.simulation_count(0), 17);
}

#[test]
fn finished_board_stops_selection() {
    let mut state = one_move_from_a_win();
    state.execute(Position2(3));
    let mut tree = VecTree::new(4, &state);
    let (leaf, _) = tree.select_best(Index(0), state.clone(), 1414);
    assert_eq!(leaf, Index(0));
    assert_eq!(tree.node_count(), 1);
}

#[test]
fn best_children_prefers_the_higher_tally() {
    let state = State::new(standard_structure());
    let mut tree = VecTree::new(64, &state);
    let mut winner = None;
    for k in 0..16 {
        let (leaf, _) = tree.select_best(Index(0), state.clone(), 1414);
        let score = if k == 0 { 1 } else { -1 };
        if k == 0 {
            winner = Some(leaf);
        }
        tree.backpropagate(leaf, score);
    }
    let winner = winner.unwrap();
    let best = tree.best_children(0, 1414);
    assert_eq!(best.len(), 1);
    let most = tree.most_visited();
    assert_eq!(most.len(), 16);
    let (next, _) = tree.select_best(Index(0), state.clone(), 1414);
    assert_eq!(tree.parent(next.0), Some(winner));
}

#[test]
fn fixed_point_arithmetic() {
    assert_eq!(ln_fixed(1), 0);
    assert_eq!(ln_fixed(2), 45426);
    assert_eq!(ln_fixed(3), 45426 + 22713);
    assert_eq!(ln_fixed(1024), 10 * 45426);
    assert_eq!(sqrt_fixed(0), 0);
    assert_eq!(sqrt_fixed(15), 3);
    assert_eq!(sqrt_fixed(16), 4);
    assert_eq!(sqrt_fixed(1_000_000), 1000);
    // No exploration: the tally alone, shifted by one unit.
    assert_eq!(ucb_value(1, 1, 1, 0), 2 * 65536);
    assert_eq!(ucb_value(-1, 1, 1, 0), 0);
    assert_eq!(ucb_value(0, 2, 2, 0), 65536);
    // ln 4 in units is 2 * 45426; the root of (ln 4 / 1) in units is 77162.
    assert_eq!(ucb_value(0, 1, 4, 1000), 65536 + 77162);
    assert_eq!(ucb_value(0, 1, 4, 2000), 65536 + 154324);
}

#[test]
fn schedule_hands_out_the_whole_budget() {
    let mut schedule = PlayoutSchedule::new(10, 4);
    assert_eq!((schedule.remaining, schedule.in_flight), (6, 4));
    let mut dispatched = 4;
    let mut steps = vec![];
    loop {
        let step = schedule.on_result();
        steps.push(step);
        match step {
            ScheduleStep::Dispatch => dispatched += 1,
            ScheduleStep::Wait => {}
            ScheduleStep::Finish => break,
        }
    }
    assert_eq!(dispatched, 10);
    assert_eq!(steps.len(), 10);
    assert_eq!(steps.iter().filter(|s| **s == ScheduleStep::Wait).count(), 3);
    let small = PlayoutSchedule::new(2, 4);
    assert_eq!((small.remaining, small.in_flight), (0, 2));
}

#[test]
fn minimax_is_deterministic_and_builds_pairs() {
    // White holds the corner and is to move again.
    let mut state = State::new(standard_structure());
    state.insert(Position2::new(0, 0));
    state.current_color = Color::White;
    state.age = 0;
    let deep = TreeJudgementAI::new(2, Simple::Subsets);
    let first = deep.graded_actions(&state);
    let second = deep.graded_actions(&state);
    assert_eq!(first, second);
    assert_eq!(best_actions(&first), best_actions(&second));
    let a = recursive_judgement(&state, Color::White, 2, Simple::Subsets);
    let b = recursive_judgement(&state, Color::White, 2, Simple::Subsets);
    assert_eq!(a, b);

    let shallow = TreeJudgementAI::new(1, Simple::Subsets);
    let graded = shallow.graded_actions(&state);
    let grade = |c: Position2| graded.iter().find(|(a, _)| *a == c).unwrap().1;
    // (1, 0) makes a pair with the corner; (2, 1) shares no line with it.
    assert_eq!(grade(Position2::new(1, 0)), 13);
    assert_eq!(grade(Position2::new(2, 1)), 11);
    let best = best_actions(&graded);
    assert!(!best.contains(&Position2::new(2, 1)));
    // Every best move makes a pair with the corner: the far corners lie on
    // seven lines, one of them shared with (0, 0).
    assert_eq!(best, vec![Position2::new(3, 0), Position2::new(0, 3), Position2::new(3, 3)]);
    for action in &best {
        let (x, y) = action.coords();
        assert!(x == 0 || y == 0 || x == y);
    }
    for _ in 0..5 {
        assert!(best.contains(&shallow.action(&state)));
    }
}

#[test]
fn minimax_sees_a_win_one_move_ahead() {
    let state = one_move_from_a_win();
    let ai = TreeJudgementAI::new(1, Simple::WinOnly);
    for _ in 0..5 {
        assert_eq!(ai.action(&state), Position2(3));
    }
    let mut won = state.clone();
    won.execute(Position2(3));
    assert_eq!(win_only(&won, Color::White), 1);
    assert_eq!(win_only(&won, Color::Black), -1);
    assert_eq!(Simple::Subsets.value_of(&won, Color::Black), -1000);
    assert_eq!(recursive_judgement(&won, Color::White, 3, Simple::WinOnly), 1);
}

#[test]
fn best_moves_and_maxima() {
    let tuples = vec![(Position2(1), 3), (Position2(2), 5), (Position2(3), 5), (Position2(4), -2)];
    let best = best_actions(&tuples);
    assert_eq!(best, vec![Position2(2), Position2(3)]);
    let chosen = random_best_move(&tuples);
    assert!(chosen == Position2(2) || chosen == Position2(3));
    assert!(best_actions(&vec![]).is_empty());
    assert_eq!(last_max_index(&vec![1, 7, 3, 7, 2]), 3);
    assert_eq!(last_max_index(&vec![-4]), 0);
}

#[test]
fn playouts_from_a_finished_board() {
    let mut state = one_move_from_a_win();
    state.execute(Position2(3));
    let outcome = random_playout(&state);
    assert_eq!(outcome, state.victory_state);
    let stats = random_playout_sample(&state, 7);
    assert_eq!((stats.white, stats.black, stats.draws), (7, 0, 0));
    assert_eq!(monte_carlo_judgement(&state, Color::Black, 7), -7);
    let fresh = State::new(standard_structure());
    let sample = random_playout_sample(&fresh, 50);
    assert_eq!(sample.white + sample.black + sample.draws, 50);
}

#[test]
fn monte_carlo_takes_the_immediate_win() {
    let state = one_move_from_a_win();
    let ai = AIBox::new(Constructor::MonteCarlo { endurance: 320 });
    assert_eq!(ai.action(&state), Position2(3));
    match AIBox::new(Constructor::MonteCarloTree { endurance: 50, exploration: 1414 }) {
        AIBox::MCTree(inner) => assert_eq!((inner.endurance, inner.exploration), (50, 1414)),
        _ => panic!("wrong player"),
    }
    match AIBox::new(Constructor::Tree { depth: 3, value_function: Simple::WinOnly }) {
        AIBox::Tree(inner) => assert_eq!(inner.search_depth, 3),
        _ => panic!("wrong player"),
    }
}

#[test]
fn draw_scores_zero() {
    assert_eq!(VictoryState::Draw.scoring(Color::White), Some(0));
    assert_eq!(VictoryState::Undecided.scoring(Color::White), None);
    assert!(VictoryState::Undecided.active());
    assert!(!VictoryState::Draw.active());
}

#[test]
fn tree_player_is_deterministic_and_answers_the_corner() {
    let structure = standard_structure();
    let mut state = State::new(structure.clone());
    state.execute(Position2::new(0, 0));
    let ai = TreeJudgementAI::new(2, Simple::Subsets);
    let first = ai.action(&state);
    let second = ai.action(&state);
    assert_eq!(first, second);
    assert_eq!(ai.choose_action(&state), first);
    let landing = first.with_height(state.column_height[first.0 as usize]);
    let shares_a_line = structure
        .source
        .iter()
        .any(|s| s.contains(landing) && s.contains(sogo::game::Position3(0)));
    assert!(shares_a_line, "{:?} shares no line with the corner", landing);
}

#[test]
fn choose_action_takes_the_first_best_column() {
    let state = one_move_from_a_win();
    let ai = TreeJudgementAI::new(1, Simple::WinOnly);
    assert_eq!(ai.choose_action(&state), Position2(3));
    let tuples = vec![(Position2(4), 2), (Position2(6), 5), (Position2(9), 5)];
    assert_eq!(sogo::ai::tree::first_best_index(&tuples), 1);
}

#[test]
fn an_iteration_on_a_finished_board_scores_the_mover_into_it() {
    let mut state = one_move_from_a_win();
    state.execute(Position2(3));
    let mut tree = VecTree::new(4, &state);
    tree.run_iteration(&state, 1414);
    // Black is to move on a board White won: the root gains a win.
    assert_eq!(tree.node_count(), 1);
    assert_eq!(tree.simulation_count(0), 1);
    assert_eq!(tree.win_count(0), 1);
}

#[test]
fn an_iteration_widens_the_root() {
    let state = State::new(standard_structure());
    let mut tree = VecTree::new(8, &state);
    tree.run_iteration(&state, 1414);
    assert_eq!(tree.node_count(), 2);
    assert_eq!(tree.parent(1), Some(Index(0)));
    assert_eq!(tree.simulation_count(0), 1);
    assert_eq!(tree.simulation_count(1), 1);
    assert_eq!(tree.win_count(0), -tree.win_count(1));
}

#[test]
fn playout_value_scores_the_mover_into_the_leaf() {
    let white_won = VictoryState::Win { winner: Color::White, reason: None };
    // Black is to move at the leaf, so White moved into it: a White win counts 1.
    assert_eq!(playout_value(white_won, Color::Black), 1);
    assert_eq!(playout_value(white_won, Color::White), -1);
    assert_eq!(playout_value(VictoryState::Draw, Color::White), 0);
}

#[test]
fn node_visits_cover_their_children() {
    let state = State::new(standard_structure());
    let tree = MCTreeAI::new(300, 1414).create_tree(&state);
    assert_eq!(tree.simulation_count(0), 300);
    assert!(tree.node_count() <= 301);
    let n = tree.node_count();
    let mut children_sum = vec![0u64; n];
    for i in 1..n {
        let parent = tree.parent(i).unwrap().0;
        children_sum[parent] += tree.simulation_count(i);
    }
    for i in 0..n {
        assert!(children_sum[i] <= tree.simulation_count(i));
        assert!(tree.win_count(i).unsigned_abs() <= tree.simulation_count(i));
    }
}

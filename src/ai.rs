use vstd::prelude::*;
use rand::seq::SliceRandom;
use std::sync::Arc;
use crate::game::{Position2, State, Structure, VictoryState};
use crate::ai::mc::MonteCarloAI;
use crate::ai::mctree::MCTreeAI;
use crate::ai::random::RandomSogoAI;
use crate::ai::tree::TreeJudgementAI;
use crate::ai::value::Simple;
use crate::replay::{replay_legal, replay_view};

pub mod ucb;
pub mod mc;
pub mod mctree;
pub mod value;
pub mod tree;
pub mod random;

verus! {

/// Relies on rand's `SliceRandom::choose` with `thread_rng`: `None` for an
/// empty slice, else one of its elements.
#[verifier::external_body]
pub(crate) fn choose_one<T: Copy>(items: &Vec<T>) -> (r: Option<T>)
    ensures
        (r is None) == (items@.len() == 0),
        r matches Some(x) ==> items@.contains(x),
{
    items.choose(&mut rand::thread_rng()).copied()
}

/// A player that decides from the board alone.
pub trait StatelessAI {
    /// The player's settings allow it to decide.
    spec fn ready(&self) -> bool;

    /// A column that still takes a piece.
    fn action(&self, state: &State) -> (r: Position2)
        requires
            self.ready(),
            state.wf(),
            state.victory_agrees(),
            state.victory_state is Undecided,
        ensures
            r.0 < 16,
            state.height(r) < 4,
    ;
}

/// The actions of `tuples` that carry the highest value.
pub fn best_actions(tuples: &Vec<(Position2, i32)>) -> (r: Vec<Position2>)
    ensures
        forall|a: Position2|
            r@.contains(a) <==> exists|k: int|
                0 <= k < tuples@.len() && (#[trigger] tuples@[k]).0 == a && forall|j: int|
                    0 <= j < tuples@.len() ==> (#[trigger] tuples@[j]).1 <= tuples@[k].1,
        (r@.len() == 0) == (tuples@.len() == 0),
{
    let mut best_actions: Vec<Position2> = Vec::new();
    if tuples.len() == 0 {
        return best_actions;
    }
    let mut best_value = tuples[0].1;
    let mut i: usize = 0;
    while i < tuples.len()
        invariant
            0 < tuples@.len(),
            i <= tuples@.len(),
            forall|j: int| 0 <= j < i ==> (#[trigger] tuples@[j]).1 <= best_value,
            i > 0 ==> exists|j: int| 0 <= j < i && (#[trigger] tuples@[j]).1 == best_value,
            i == 0 ==> best_value == tuples@[0].1 && best_actions@.len() == 0,
            forall|a: Position2|
                best_actions@.contains(a) <==> exists|k: int|
                    0 <= k < i && (#[trigger] tuples@[k]).0 == a && tuples@[k].1 == best_value,
        decreases tuples@.len() - i,
    {
        let (action, value) = tuples[i];
        if value > best_value || i == 0 {
            best_actions = Vec::new();
            best_actions.push(action);
            best_value = value;
            proof {
                assert forall|a: Position2|
                    best_actions@.contains(a) <==> exists|k: int|
                        0 <= k < i + 1 && (#[trigger] tuples@[k]).0 == a && tuples@[k].1 == best_value by {
                    if best_actions@.contains(a) {
                        assert(tuples@[i as int].0 == a);
                    }
                    if exists|k: int| 0 <= k < i + 1 && (#[trigger] tuples@[k]).0 == a && tuples@[k].1 == best_value {
                        let k = choose|k: int| 0 <= k < i + 1 && (#[trigger] tuples@[k]).0 == a && tuples@[k].1 == best_value;
                        if k < i {
                            assert(tuples@[k].1 <= tuples@[i as int].1 - 1 || i == 0);
                        }
                        assert(best_actions@[0] == a);
                    }
                }
            }
        } else if value == best_value {
            let ghost previous = best_actions@;
            best_actions.push(action);
            proof {
                assert forall|a: Position2|
                    best_actions@.contains(a) <==> exists|k: int|
                        0 <= k < i + 1 && (#[trigger] tuples@[k]).0 == a && tuples@[k].1 == best_value by {
                    if best_actions@.contains(a) {
                        let m = choose|m: int| 0 <= m < best_actions@.len() && best_actions@[m] == a;
                        if m < previous.len() {
                            assert(previous[m] == a);
                            assert(previous.contains(a));
                        } else {
                            assert(tuples@[i as int].0 == a);
                        }
                    }
                    if exists|k: int| 0 <= k < i + 1 && (#[trigger] tuples@[k]).0 == a && tuples@[k].1 == best_value {
                        let k = choose|k: int| 0 <= k < i + 1 && (#[trigger] tuples@[k]).0 == a && tuples@[k].1 == best_value;
                        if k < i {
                            assert(previous.contains(a));
                            let m = choose|m: int| 0 <= m < previous.len() && previous[m] == a;
                            assert(best_actions@[m] == a);
                        } else {
                            assert(best_actions@[best_actions@.len() - 1] == a);
                        }
                    }
                }
            }
        }
        i = i + 1;
    }
    proof {
        assert forall|a: Position2|
            best_actions@.contains(a) <==> exists|k: int|
                0 <= k < tuples@.len() && (#[trigger] tuples@[k]).0 == a && forall|j: int|
                    0 <= j < tuples@.len() ==> (#[trigger] tuples@[j]).1 <= tuples@[k].1 by {
            if best_actions@.contains(a) {
                let k = choose|k: int| 0 <= k < tuples@.len() && (#[trigger] tuples@[k]).0 == a && tuples@[k].1 == best_value;
                assert(tuples@[k].0 == a);
            }
            if exists|k: int|
                0 <= k < tuples@.len() && (#[trigger] tuples@[k]).0 == a && forall|j: int|
                    0 <= j < tuples@.len() ==> (#[trigger] tuples@[j]).1 <= tuples@[k].1 {
                let k = choose|k: int|
                    0 <= k < tuples@.len() && (#[trigger] tuples@[k]).0 == a && forall|j: int|
                        0 <= j < tuples@.len() ==> (#[trigger] tuples@[j]).1 <= tuples@[k].1;
                let w = choose|j: int| 0 <= j < tuples@.len() && (#[trigger] tuples@[j]).1 == best_value;
                assert(tuples@[w].1 <= tuples@[k].1);
                assert(tuples@[k].1 == best_value);
            }
        }
        let w = choose|j: int| 0 <= j < tuples@.len() && (#[trigger] tuples@[j]).1 == best_value;
        assert(best_actions@.contains(tuples@[w].0));
    }
    best_actions
}

/// One of the actions of highest value, drawn uniformly, so that play
/// varies between games.
pub fn random_best_move(tuples: &Vec<(Position2, i32)>) -> (r: Position2)
    requires
        tuples@.len() > 0,
    ensures
        exists|k: int|
            0 <= k < tuples@.len() && (#[trigger] tuples@[k]).0 == r && forall|j: int|
                0 <= j < tuples@.len() ==> (#[trigger] tuples@[j]).1 <= tuples@[k].1,
{
    let best = best_actions(tuples);
    match choose_one(&best) {
        Some(action) => action,
        None => tuples[0].0,
    }
}

/// The settings of a player, as chosen by the user.
#[derive(Clone, Copy, Debug)]
pub enum Constructor {
    Random,
    MonteCarlo { endurance: usize },
    Tree { depth: u8, value_function: Simple },
    /// Tree search; `exploration` is in thousandths.
    MonteCarloTree { endurance: usize, exploration: u64 },
}

/// One of the players, chosen by settings.
pub enum AIBox {
    Random(RandomSogoAI),
    MC(MonteCarloAI),
    Tree(TreeJudgementAI),
    MCTree(MCTreeAI),
}

impl AIBox {
    pub fn new(ai_parameter: Constructor) -> (r: AIBox)
        ensures
            match ai_parameter {
                Constructor::Random => r is Random,
                Constructor::MonteCarlo { endurance } => r matches AIBox::MC(ai) && ai.endurance == endurance,
                Constructor::Tree { depth, value_function } => r matches AIBox::Tree(ai) && ai.search_depth == depth
                    && ai.value_function == value_function,
                Constructor::MonteCarloTree { endurance, exploration } => r matches AIBox::MCTree(ai)
                    && ai.endurance == endurance && ai.exploration == exploration,
            },
    {
        match ai_parameter {
            Constructor::Random => AIBox::Random(RandomSogoAI::new()),
            Constructor::MonteCarlo { endurance } => AIBox::MC(MonteCarloAI::new(endurance)),
            Constructor::Tree { depth, value_function } => AIBox::Tree(TreeJudgementAI::new(depth, value_function)),
            Constructor::MonteCarloTree { endurance, exploration } => AIBox::MCTree(
                MCTreeAI::new(endurance, exploration),
            ),
        }
    }
}

impl StatelessAI for AIBox {
    open spec fn ready(&self) -> bool {
        match self {
            AIBox::Random(ai) => ai.ready(),
            AIBox::MC(ai) => ai.ready(),
            AIBox::Tree(ai) => ai.ready(),
            AIBox::MCTree(ai) => ai.ready(),
        }
    }

    fn action(&self, state: &State) -> (r: Position2) {
        match self {
            AIBox::Random(ai) => ai.action(state),
            AIBox::MC(ai) => ai.action(state),
            AIBox::Tree(ai) => ai.action(state),
            AIBox::MCTree(ai) => ai.action(state),
        }
    }
}

/// Plays a whole game, White first, and gives the final board.
pub fn run_match<T: StatelessAI, U: StatelessAI>(
    structure: Arc<Structure>,
    white_player: &mut T,
    black_player: &mut U,
) -> (r: State)
    requires
        structure.wf(),
        old(white_player).ready(),
        old(black_player).ready(),
    ensures
        r.wf(),
        r.victory_agrees(),
        !(r.victory_state is Undecided),
        r.structure == structure,
        exists|moves: Seq<Position2>|
            #[trigger] replay_legal(*structure, moves) && r.view() == replay_view(*structure, moves) && moves.len()
                == r.age,
{
    let mut i: u8 = 0;
    let mut state = State::new(structure);
    let ghost mut moves: Seq<Position2> = Seq::empty();
    proof {
        crate::replay::lemma_new_is_initial(state);
        crate::replay::lemma_replay_empty(state.rules(), moves);
    }
    while state.victory_state == VictoryState::Undecided
        invariant
            state.wf(),
            state.victory_agrees(),
            state.structure == structure,
            white_player.ready(),
            black_player.ready(),
            i == state.age,
            replay_legal(*structure, moves),
            state.view() == replay_view(*structure, moves),
            moves.len() == state.age,
        decreases 64 - state.age,
    {
        if state.age == 64 {
            state.victory_state = VictoryState::Draw;
            return state;
        }
        let action = if i % 2 == 0 {
            white_player.action(&state)
        } else {
            black_player.action(&state)
        };
        proof {
            crate::game::lemma_view_heights(state);
            crate::replay::lemma_replay_legal_prefix(state.rules(), moves, action);
            crate::replay::lemma_replay_last(state.rules(), moves.push(action));
            assert(moves.push(action).drop_last() =~= moves);
        }
        state.execute(action);
        proof {
            moves = moves.push(action);
        }
        i = i + 1;
    }
    assert(replay_legal(*structure, moves));
    state
}

} // verus!

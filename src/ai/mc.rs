use vstd::prelude::*;
use crate::ai::{choose_one, StatelessAI};
use crate::game::{play, BoardView, Color, Position2, State, Structure, VictoryState, VictoryStats};

verus! {

/// The board after playing `moves` in order from `v`.
#[verifier::opaque]
pub open spec fn play_all(v: BoardView, st: Structure, moves: Seq<Position2>) -> BoardView
    decreases moves.len(),
{
    if moves.len() == 0 {
        v
    } else {
        play(play_all(v, st, moves.drop_last()), st, moves.last().0 as int)
    }
}

/// Each of `moves` goes, in turn, into a column that still takes a piece, on
/// a board whose game is not over.
pub open spec fn moves_playable(v: BoardView, st: Structure, moves: Seq<Position2>) -> bool {
    forall|k: int|
        0 <= k < moves.len() ==> {
            &&& (#[trigger] moves[k]).0 < 16
            &&& play_all(v, st, moves.take(k)).heights[moves[k].0 as int] < 4
            &&& play_all(v, st, moves.take(k)).victory is Undecided
        }
}

proof fn lemma_play_all_empty(v: BoardView, st: Structure, moves: Seq<Position2>)
    requires
        moves.len() == 0,
    ensures
        play_all(v, st, moves) == v,
{
    reveal(play_all);
}

proof fn lemma_play_all_push(v: BoardView, st: Structure, moves: Seq<Position2>, a: Position2)
    requires
        moves_playable(v, st, moves),
        a.0 < 16,
        play_all(v, st, moves).heights[a.0 as int] < 4,
        play_all(v, st, moves).victory is Undecided,
    ensures
        moves_playable(v, st, moves.push(a)),
        play_all(v, st, moves.push(a)) == play(play_all(v, st, moves), st, a.0 as int),
{
    let longer = moves.push(a);
    assert(longer.drop_last() =~= moves);
    reveal(play_all);
    assert forall|k: int| 0 <= k < longer.len() implies {
        &&& (#[trigger] longer[k]).0 < 16
        &&& play_all(v, st, longer.take(k)).heights[longer[k].0 as int] < 4
        &&& play_all(v, st, longer.take(k)).victory is Undecided
    } by {
        if k < moves.len() {
            assert(longer.take(k) =~= moves.take(k));
            assert(longer[k] == moves[k]);
        } else {
            assert(longer.take(k) =~= moves);
        }
    }
}

/// `end` is a finished board reached from `start` by legal moves: each goes
/// into an open column while the game is not over. Every piece of `start`
/// stands where it stood, the outcome agrees with a scan of every shape, and
/// a board that was already finished is left as it was.
pub open spec fn playout_end(start: State, end: State) -> bool {
    &&& exists|moves: Seq<Position2>|
        #[trigger] moves_playable(start.view(), start.rules(), moves) && end.view() == play_all(
            start.view(),
            start.rules(),
            moves,
        )
    &&& end.wf()
    &&& end.victory_agrees()
    &&& !(end.victory_state is Undecided)
    &&& end.structure == start.structure
    &&& end.age >= start.age
    &&& forall|p: int| 0 <= p < 64 && (#[trigger] start.points@[p]) is Piece ==> end.points@[p] == start.points@[p]
    &&& !(start.victory_state is Undecided) ==> end == start
}

/// Plays uniformly random legal moves until the game ends, and gives the
/// final board.
pub fn random_playout_board(state: &State) -> (r: State)
    requires
        state.wf(),
        state.victory_agrees(),
    ensures
        playout_end(*state, r),
{
    let mut my_state = state.clone();
    let ghost sv = state.view();
    let ghost st = state.rules();
    let ghost mut moves: Seq<Position2> = Seq::empty();
    proof {
        lemma_play_all_empty(sv, st, moves);
    }
    while my_state.victory_state.active()
        invariant
            sv == state.view(),
            st == state.rules(),
            moves_playable(sv, st, moves),
            my_state.view() == play_all(sv, st, moves),
            my_state.wf(),
            my_state.victory_agrees(),
            my_state.structure == state.structure,
            my_state.age >= state.age,
            forall|p: int| 0 <= p < 64 && (#[trigger] state.points@[p]) is Piece ==> my_state.points@[p] == state.points@[p],
            state.victory_state !is Undecided ==> my_state == *state,
        decreases 64 - my_state.age,
    {
        let legal_actions = my_state.legal_actions();
        proof {
            crate::game::lemma_open_column(my_state);
            let c = choose|c: int| 0 <= c < 16 && #[trigger] my_state.column_height@[c] < 4;
            assert(legal_actions@.contains(crate::game::Position2(c as u8)));
        }
        match choose_one(&legal_actions) {
            Some(action) => {
                let ghost before = my_state;
                proof {
                    crate::game::lemma_view_heights(my_state);
                    lemma_play_all_push(sv, st, moves, action);
                }
                my_state.execute(action);
                proof {
                    moves = moves.push(action);
                    let pos = action.0 + 16 * before.height(action);
                    assert(before.points@[pos] is Empty);
                    assert forall|p: int| 0 <= p < 64 && (#[trigger] state.points@[p]) is Piece implies my_state.points@[p]
                        == state.points@[p] by {
                        if p == pos {
                            assert(before.points@[p] == state.points@[p]);
                        }
                    }
                }
            },
            None => {},
        }
    }
    my_state
}

/// The outcome of one game of uniformly random legal moves from `state`.
pub fn random_playout(state: &State) -> (r: VictoryState)
    requires
        state.wf(),
        state.victory_agrees(),
    ensures
        exists|end: State| playout_end(*state, end) && end.victory_state == r,
        !(r is Undecided),
        state.victory_state !is Undecided ==> r == state.victory_state,
{
    let end = random_playout_board(state);
    end.victory_state
}

/// Tallies the outcomes of `number` random playouts from `state`.
pub fn random_playout_sample(state: &State, number: usize) -> (r: VictoryStats)
    requires
        state.wf(),
        state.victory_agrees(),
        number <= i32::MAX,
    ensures
        r.white >= 0,
        r.black >= 0,
        r.draws >= 0,
        r.white + r.black + r.draws == number,
        state.victory_state matches VictoryState::Win { winner, .. } ==> if winner == Color::White {
            r.white == number
        } else {
            r.black == number
        },
        state.victory_state is Draw ==> r.draws == number,
{
    let mut statistics = VictoryStats::new();
    let mut i: usize = 0;
    while i < number
        invariant
            i <= number <= i32::MAX,
            state.wf(),
            state.victory_agrees(),
            statistics.white >= 0,
            statistics.black >= 0,
            statistics.draws >= 0,
            statistics.white + statistics.black + statistics.draws == i,
            state.victory_state matches VictoryState::Win { winner, .. } ==> if winner == Color::White {
                statistics.white == i
            } else {
                statistics.black == i
            },
            state.victory_state is Draw ==> statistics.draws == i,
        decreases number - i,
    {
        let result = random_playout(state);
        match result {
            VictoryState::Win { winner, .. } => {
                match winner {
                    Color::White => statistics.white = statistics.white + 1,
                    Color::Black => statistics.black = statistics.black + 1,
                }
            },
            VictoryState::Draw => statistics.draws = statistics.draws + 1,
            VictoryState::Undecided => {},
        }
        i = i + 1;
    }
    statistics
}

/// Judges each legal move by the outcomes of random playouts after it.
pub struct MonteCarloAI {
    pub endurance: usize,
}

impl MonteCarloAI {
    pub fn new(endurance: usize) -> (r: MonteCarloAI)
        ensures
            r.endurance == endurance,
    {
        MonteCarloAI { endurance }
    }
}

/// Wins minus losses for `my_color` over `amount` random playouts.
pub fn monte_carlo_judgement(state: &State, my_color: Color, amount: usize) -> (r: i32)
    requires
        state.wf(),
        state.victory_agrees(),
        amount <= i32::MAX,
    ensures
        -(amount as int) <= r <= amount,
        state.victory_state matches VictoryState::Win { winner, .. } ==> r == if winner == my_color {
            amount as int
        } else {
            -(amount as int)
        },
        state.victory_state is Draw ==> r == 0,
{
    let stats = random_playout_sample(state, amount);
    if my_color == Color::White {
        stats.white - stats.black
    } else {
        stats.black - stats.white
    }
}

/// The last position of a highest value.
pub fn last_max_index(values: &Vec<i32>) -> (r: usize)
    requires
        values@.len() > 0,
    ensures
        r < values@.len(),
        forall|j: int| 0 <= j < values@.len() ==> values@[j] <= values@[r as int],
        forall|j: int| r < j < values@.len() ==> values@[j] < values@[r as int],
{
    let mut best: usize = 0;
    let mut i: usize = 1;
    while i < values.len()
        invariant
            0 < values@.len(),
            best < i <= values@.len(),
            forall|j: int| 0 <= j < i ==> values@[j] <= values@[best as int],
            forall|j: int| best < j < i ==> values@[j] < values@[best as int],
        decreases values@.len() - i,
    {
        if values[i] >= values[best] {
            best = i;
        }
        i = i + 1;
    }
    best
}

impl StatelessAI for MonteCarloAI {
    open spec fn ready(&self) -> bool {
        self.endurance <= i32::MAX
    }

    fn action(&self, state: &State) -> (r: Position2) {
        let my_color = state.current_color;
        let legal_actions = state.legal_actions();
        proof {
            crate::game::lemma_open_column(*state);
            let c = choose|c: int| 0 <= c < 16 && #[trigger] state.column_height@[c] < 4;
            assert(legal_actions@.contains(Position2(c as u8)));
        }
        let endurance_per_action = self.endurance / legal_actions.len();
        let mut values: Vec<i32> = Vec::new();
        let mut i: usize = 0;
        while i < legal_actions.len()
            invariant
                state.wf(),
                state.victory_agrees(),
                state.victory_state is Undecided,
                i <= legal_actions@.len(),
                values@.len() == i,
                endurance_per_action <= self.endurance <= i32::MAX,
                forall|k: int| 0 <= k < legal_actions@.len() ==> (#[trigger] legal_actions@[k]).0 < 16 && state.height(legal_actions@[k]) < 4,
            decreases legal_actions@.len() - i,
        {
            let mut new_state = state.clone();
            new_state.execute(legal_actions[i]);
            let value = monte_carlo_judgement(&new_state, my_color, endurance_per_action);
            values.push(value);
            i = i + 1;
        }
        let best = last_max_index(&values);
        legal_actions[best]
    }
}

} // verus!

use vstd::prelude::*;
use crate::ai::StatelessAI;
use crate::ai::value::{graded, Simple};
use crate::game::{play, BoardView, Color, Position2, State, Structure};

verus! {

/// The minimax grade of board `v` for `my_color`, looking `depth` moves
/// ahead: the grade itself at depth 0 or on a finished game, else the best
/// (for `my_color` to move) or worst (for the opponent) grade over the
/// columns that take a piece.
pub open spec fn judgement(v: BoardView, st: Structure, my_color: Color, depth: nat, vf: Simple) -> int
    decreases depth, 17int,
{
    if depth == 0 || !(v.victory is Undecided) {
        graded(vf, v.points, v.victory, st, my_color)
    } else {
        match extreme_upto(v, st, my_color, depth, vf, 16) {
            Some(x) => x,
            None => 0,
        }
    }
}

/// The best or worst minimax grade over the open columns below `k`, if any.
pub open spec fn extreme_upto(v: BoardView, st: Structure, my_color: Color, depth: nat, vf: Simple, k: int) -> Option<
    int,
>
    decreases depth, k,
{
    if k <= 0 || depth == 0 {
        None
    } else {
        let prev = extreme_upto(v, st, my_color, depth, vf, k - 1);
        if v.heights[k - 1] < 4 {
            let x = judgement(play(v, st, k - 1), st, my_color, (depth - 1) as nat, vf);
            match prev {
                None => Some(x),
                Some(y) => Some(
                    if v.color == my_color {
                        if x > y {
                            x
                        } else {
                            y
                        }
                    } else {
                        if x < y {
                            x
                        } else {
                            y
                        }
                    },
                ),
            }
        } else {
            prev
        }
    }
}

/// The open columns below `k` of board `v`, in ascending order, each with
/// the minimax grade for `my_color` of the board it leads to, `depth` moves
/// further.
pub open spec fn graded_list(v: BoardView, st: Structure, my_color: Color, depth: nat, vf: Simple, k: int) -> Seq<
    (Position2, i32),
>
    decreases k,
{
    if k <= 0 {
        Seq::empty()
    } else if v.heights[k - 1] < 4 {
        graded_list(v, st, my_color, depth, vf, k - 1).push(
            (Position2((k - 1) as u8), judgement(play(v, st, k - 1), st, my_color, depth, vf) as i32),
        )
    } else {
        graded_list(v, st, my_color, depth, vf, k - 1)
    }
}

/// Minimax is deterministic: two searches from equal boards with equal
/// depth and value function give equal grades, and grade the moves alike,
/// so they settle on the same best moves.
pub proof fn lemma_judgement_deterministic(
    v1: BoardView,
    v2: BoardView,
    st: Structure,
    my_color: Color,
    depth: nat,
    vf: Simple,
)
    requires
        v1 == v2,
    ensures
        judgement(v1, st, my_color, depth, vf) == judgement(v2, st, my_color, depth, vf),
        graded_list(v1, st, my_color, depth, vf, 16) == graded_list(v2, st, my_color, depth, vf, 16),
{
}

/// The minimax grade of `state` for `my_color`, `depth` moves ahead.
pub fn recursive_judgement(state: &State, my_color: Color, depth: u8, value_function: Simple) -> (r: i32)
    requires
        state.wf(),
        state.victory_agrees(),
    ensures
        r == judgement(state.view(), state.rules(), my_color, depth as nat, value_function),
    decreases depth,
{
    if depth == 0 || !state.victory_state.active() {
        return value_function.value_of(state, my_color);
    }
    let ghost v = state.view();
    let ghost st = state.rules();
    let mut found = false;
    let mut best: i32 = 0;
    let mut c: u8 = 0;
    while c < 16
        invariant
            c <= 16,
            depth > 0,
            state.wf(),
            state.victory_agrees(),
            state.victory_state is Undecided,
            v == state.view(),
            st == state.rules(),
            extreme_upto(v, st, my_color, depth as nat, value_function, c as int) == if found {
                Some(best as int)
            } else {
                None::<int>
            },
        decreases 16 - c,
    {
        if !state.column_full(Position2(c)) {
            let mut new_state = state.clone();
            new_state.execute(Position2(c));
            let value = recursive_judgement(&new_state, my_color, depth - 1, value_function);
            proof {
                crate::game::lemma_view_heights(*state);
            }
            if !found {
                best = value;
                found = true;
            } else if state.current_color == my_color {
                if value > best {
                    best = value;
                }
            } else {
                if value < best {
                    best = value;
                }
            }
        } else {
            proof {
                crate::game::lemma_view_heights(*state);
            }
        }
        c = c + 1;
    }
    proof {
        crate::game::lemma_open_column(*state);
        crate::game::lemma_view_heights(*state);
        let d = choose|d: int| 0 <= d < 16 && #[trigger] state.column_height@[d] < 4;
        lemma_extreme_found(v, st, my_color, depth as nat, value_function, 16, d);
    }
    best
}

proof fn lemma_extreme_found(v: BoardView, st: Structure, my_color: Color, depth: nat, vf: Simple, k: int, c: int)
    requires
        depth > 0,
        0 <= c < k,
        v.heights[c] < 4,
    ensures
        extreme_upto(v, st, my_color, depth, vf, k) is Some,
    decreases k,
{
    if c < k - 1 {
        lemma_extreme_found(v, st, my_color, depth, vf, k - 1, c);
    }
}

/// Looks a fixed number of moves ahead and plays the lowest column of best
/// minimax grade.
pub struct TreeJudgementAI {
    pub search_depth: u8,
    pub value_function: Simple,
}

impl TreeJudgementAI {
    pub fn new(depth: u8, value_function: Simple) -> (r: TreeJudgementAI)
        ensures
            r.search_depth == depth,
            r.value_function == value_function,
    {
        TreeJudgementAI { search_depth: depth, value_function }
    }

    /// Each open column with the minimax grade of the board it leads to.
    pub fn graded_actions(&self, state: &State) -> (r: Vec<(Position2, i32)>)
        requires
            self.search_depth >= 1,
            state.wf(),
            state.victory_agrees(),
            state.victory_state is Undecided,
        ensures
            forall|k: int|
                0 <= k < r@.len() ==> {
                    &&& (#[trigger] r@[k]).0.0 < 16
                    &&& state.height(r@[k].0) < 4
                    &&& r@[k].1 == judgement(
                        play(state.view(), state.rules(), r@[k].0.0 as int),
                        state.rules(),
                        state.current_color,
                        (self.search_depth - 1) as nat,
                        self.value_function,
                    )
                },
            forall|c: int| 0 <= c < 16 && state.column_height@[c] < 4 ==> exists|k: int| 0 <= k < r@.len() && (#[trigger] r@[k]).0.0 == c,
            r@.len() > 0,
            r@ == graded_list(
                state.view(),
                state.rules(),
                state.current_color,
                (self.search_depth - 1) as nat,
                self.value_function,
                16,
            ),
    {
        let my_color = state.current_color;
        let mut graded: Vec<(Position2, i32)> = Vec::new();
        let mut c: u8 = 0;
        while c < 16
            invariant
                c <= 16,
                self.search_depth >= 1,
                state.wf(),
                state.victory_agrees(),
                state.victory_state is Undecided,
                my_color == state.current_color,
                forall|k: int|
                    0 <= k < graded@.len() ==> {
                        &&& (#[trigger] graded@[k]).0.0 < c
                        &&& state.height(graded@[k].0) < 4
                        &&& graded@[k].1 == judgement(
                            play(state.view(), state.rules(), graded@[k].0.0 as int),
                            state.rules(),
                            my_color,
                            (self.search_depth - 1) as nat,
                            self.value_function,
                        )
                    },
                forall|d: int| 0 <= d < c && state.column_height@[d] < 4 ==> exists|k: int| 0 <= k < graded@.len() && (#[trigger] graded@[k]).0.0 == d,
                graded@ == graded_list(
                    state.view(),
                    state.rules(),
                    my_color,
                    (self.search_depth - 1) as nat,
                    self.value_function,
                    c as int,
                ),
            decreases 16 - c,
        {
            proof {
                crate::game::lemma_view_heights(*state);
            }
            if !state.column_full(Position2(c)) {
                let mut new_state = state.clone();
                new_state.execute(Position2(c));
                let value = recursive_judgement(&new_state, my_color, self.search_depth - 1, self.value_function);
                let ghost previous = graded@;
                graded.push((Position2(c), value));
                proof {
                    assert(graded@[graded@.len() - 1].0.0 == c);
                    assert forall|d: int| 0 <= d < c + 1 && state.column_height@[d] < 4 implies exists|k: int|
                        0 <= k < graded@.len() && (#[trigger] graded@[k]).0.0 == d by {
                        if d < c {
                            let k = choose|k: int| 0 <= k < previous.len() && (#[trigger] previous[k]).0.0 == d;
                            assert(graded@[k] == previous[k]);
                        } else {
                            assert(graded@[graded@.len() - 1].0.0 == d);
                        }
                    }
                }
            }
            c = c + 1;
        }
        proof {
            crate::game::lemma_open_column(*state);
            let d = choose|d: int| 0 <= d < 16 && #[trigger] state.column_height@[d] < 4;
            assert(exists|k: int| 0 <= k < graded@.len() && (#[trigger] graded@[k]).0.0 == d);
        }
        graded
    }
}

/// The first position of a highest value in `tuples`.
pub fn first_best_index(tuples: &Vec<(Position2, i32)>) -> (r: usize)
    requires
        tuples@.len() > 0,
    ensures
        r < tuples@.len(),
        forall|j: int| 0 <= j < tuples@.len() ==> tuples@[j].1 <= tuples@[r as int].1,
        forall|j: int| 0 <= j < r ==> tuples@[j].1 < tuples@[r as int].1,
{
    let mut best: usize = 0;
    let mut i: usize = 1;
    while i < tuples.len()
        invariant
            0 < tuples@.len(),
            best < i <= tuples@.len(),
            forall|j: int| 0 <= j < i ==> tuples@[j].1 <= tuples@[best as int].1,
            forall|j: int| 0 <= j < best ==> tuples@[j].1 < tuples@[best as int].1,
        decreases tuples@.len() - i,
    {
        if tuples[i].1 > tuples[best].1 {
            best = i;
        }
        i = i + 1;
    }
    best
}

impl TreeJudgementAI {
    /// The lowest open column of highest minimax grade: the same board
    /// always gives the same move.
    pub fn choose_action(&self, state: &State) -> (r: Position2)
        requires
            self.search_depth >= 1,
            state.wf(),
            state.victory_agrees(),
            state.victory_state is Undecided,
        ensures
            r.0 < 16,
            state.height(r) < 4,
            ({
                let g = graded_list(
                    state.view(),
                    state.rules(),
                    state.current_color,
                    (self.search_depth - 1) as nat,
                    self.value_function,
                    16,
                );
                exists|k: int|
                    0 <= k < g.len() && (#[trigger] g[k]).0 == r && (forall|j: int| 0 <= j < g.len() ==> g[j].1 <= g[k].1)
                        && (forall|j: int| 0 <= j < k ==> g[j].1 < g[k].1)
            }),
    {
        let graded = self.graded_actions(state);
        let best = first_best_index(&graded);
        let r = graded[best].0;
        proof {
            assert(graded@[best as int].0 == r);
        }
        r
    }
}

impl StatelessAI for TreeJudgementAI {
    open spec fn ready(&self) -> bool {
        self.search_depth >= 1
    }

    fn action(&self, state: &State) -> (r: Position2)
        ensures
            ({
                let g = graded_list(
                    state.view(),
                    state.rules(),
                    state.current_color,
                    (self.search_depth - 1) as nat,
                    self.value_function,
                    16,
                );
                exists|k: int|
                    0 <= k < g.len() && (#[trigger] g[k]).0 == r && (forall|j: int| 0 <= j < g.len() ==> g[j].1 <= g[k].1)
                        && (forall|j: int| 0 <= j < k ==> g[j].1 < g[k].1)
            }),
    {
        self.choose_action(state)
    }
}

} // verus!

use vstd::prelude::*;
use crate::game::{line_state, Color, LineState, Position2, Position3, State, Structure, VictoryState, PointState, MAX_SHAPES};

verus! {

/// A way to grade a board for one player.
#[derive(Copy, Clone, Debug, PartialEq, Eq, Structural)]
pub enum Simple {
    Subsets,
    WinOnly,
}

/// The score of one shape for `my_color`: the square of the pieces of a
/// shape held by one color, counted for that color. A full shape only
/// stands on a finished game, where the outcome decides, so it counts 0.
pub open spec fn line_points(ls: LineState, my_color: Color) -> int {
    match ls {
        LineState::Pure { color, count } => if color == my_color {
            count * count
        } else {
            -(count * count)
        },
        _ => 0,
    }
}

/// The scores of the first `n` shapes summed.
pub open spec fn lines_total(points: Seq<PointState>, st: Structure, my_color: Color, n: int) -> int
    decreases n,
{
    if n <= 0 {
        0
    } else {
        lines_total(points, st, my_color, n - 1) + line_points(
            line_state(points, st.source@[n - 1].0),
            my_color,
        )
    }
}

/// The grade of `subsets`: 1000 for a won game, -1000 for a lost one, else
/// the scores of all shapes.
pub open spec fn subsets_value(points: Seq<PointState>, victory: VictoryState, st: Structure, my_color: Color) -> int {
    match victory {
        VictoryState::Win { winner, .. } => if winner == my_color {
            1000
        } else {
            -1000
        },
        _ => lines_total(points, st, my_color, st.source@.len() as int),
    }
}

/// The grade of `win_only`: 1 for a won game, -1 for a lost one, else 0.
pub open spec fn win_only_value(victory: VictoryState, my_color: Color) -> int {
    match victory {
        VictoryState::Win { winner, .. } => if winner == my_color {
            1
        } else {
            -1
        },
        _ => 0,
    }
}

/// The grade that `value_function` gives.
pub open spec fn graded(
    value_function: Simple,
    points: Seq<PointState>,
    victory: VictoryState,
    st: Structure,
    my_color: Color,
) -> int {
    match value_function {
        Simple::Subsets => subsets_value(points, victory, st, my_color),
        Simple::WinOnly => win_only_value(victory, my_color),
    }
}

impl Simple {
    pub fn value_of(self, state: &State, my_color: Color) -> (r: i32)
        requires
            state.structure.wf(),
        ensures
            r == graded(self, state.points@, state.victory_state, state.rules(), my_color),
    {
        match self {
            Simple::Subsets => subsets(state, my_color),
            Simple::WinOnly => win_only(state, my_color),
        }
    }
}

/// Grades a board by its shapes: each shape with `k` pieces of one color
/// and none of the other counts `k * k` for that color.
pub fn subsets(state: &State, my_color: Color) -> (r: i32)
    requires
        state.structure.wf(),
    ensures
        r == subsets_value(state.points@, state.victory_state, state.rules(), my_color),
{
    if let VictoryState::Win { winner, .. } = state.victory_state {
        if winner == my_color {
            return 1000;
        } else {
            return -1000;
        }
    }
    let ghost st = state.rules();
    let source = &state.structure.source;
    let mut score: i32 = 0;
    let mut i: usize = 0;
    while i < source.len()
        invariant
            *source == st.source,
            st.wf(),
            source@.len() <= MAX_SHAPES,
            i <= source@.len(),
            score == lines_total(state.points@, st, my_color, i as int),
            -4096 * i <= score <= 4096 * i,
        decreases source@.len() - i,
    {
        let subset = source[i];
        proof {
            assert(crate::game::subset_size(st.source@[i as int].0) == st.object_size);
        }
        let line = subset.win_state(state);
        let points: i32 = match line {
            LineState::Pure { color, count } => {
                proof {
                    crate::game::lemma_line_count(state.points@, subset.0);
                    assert(0 < count <= 64);
                    assert((count as int) * (count as int) <= 4096) by (nonlinear_arith)
                        requires
                            0 < count <= 64,
                    ;
                }
                let square = (count as i32) * (count as i32);
                if color == my_color {
                    square
                } else {
                    -square
                }
            },
            _ => 0,
        };
        assert(-4096 <= points <= 4096);
        score = score + points;
        i = i + 1;
    }
    score
}

/// Grades a board by its outcome alone.
pub fn win_only(state: &State, my_color: Color) -> (r: i32)
    ensures
        r == win_only_value(state.victory_state, my_color),
{
    if let VictoryState::Win { winner, .. } = state.victory_state {
        if winner == my_color {
            1
        } else {
            -1
        }
    } else {
        0
    }
}

/// How much an empty cell is worth to one player.
#[derive(Copy, Clone, Debug, PartialEq, Eq, Structural)]
pub enum SideValue {
    /// Playing here completes a line.
    LastMissingPiece,
    /// Otherwise, a score for the lines through the cell.
    Heuristic(i32),
    /// Playing here lets the opponent complete a line right above.
    DirectLoss,
}

/// The tallies over the first `j` shapes through cell `pos`: White's
/// score, Black's score, and whether a shape lacks only this cell for White
/// or for Black.
pub open spec fn point_tally(st: Structure, points: Seq<PointState>, pos: int, j: int) -> (int, int, bool, bool)
    decreases j,
{
    if j <= 0 {
        (0, 0, false, false)
    } else {
        let (w, b, lw, lb) = point_tally(st, points, pos, j - 1);
        let ls = line_state(points, st.source@[st.reverse@[pos]@[j - 1] as int].0);
        match ls {
            LineState::Empty => (w + 1, b + 1, lw, lb),
            LineState::Pure { color, count } => {
                let total = count + 1;
                if total == st.object_size {
                    if color == Color::White {
                        (w, b, true, lb)
                    } else {
                        (w, b, lw, true)
                    }
                } else if color == Color::White {
                    (w + total * total, b, lw, lb)
                } else {
                    (w, b + total * total, lw, lb)
                }
            },
            _ => (w, b, lw, lb),
        }
    }
}

/// The worth of cell `pos` for White and for Black, or `None` when taken.
pub open spec fn point_worth(st: Structure, points: Seq<PointState>, pos: int) -> Option<(SideValue, SideValue)> {
    if points[pos] is Piece {
        None
    } else {
        let (w, b, lw, lb) = point_tally(st, points, pos, st.reverse@[pos]@.len() as int);
        Some(
            (
                if lw {
                    SideValue::LastMissingPiece
                } else {
                    SideValue::Heuristic(w as i32)
                },
                if lb {
                    SideValue::LastMissingPiece
                } else {
                    SideValue::Heuristic(b as i32)
                },
            ),
        )
    }
}

/// A player's worth of a column: completing a line, losing to a line right
/// above, or the worth of the cell less the opponent's worth of the cell
/// above.
pub open spec fn column_side(placement: SideValue, response: SideValue) -> SideValue {
    match placement {
        SideValue::Heuristic(mine) => match response {
            SideValue::Heuristic(theirs) => SideValue::Heuristic((mine - theirs) as i32),
            _ => SideValue::DirectLoss,
        },
        _ => SideValue::LastMissingPiece,
    }
}

/// The worth of cell `position` for White and for Black.
pub fn point_value(state: &State, position: Position3) -> (r: Option<(SideValue, SideValue)>)
    requires
        state.structure.wf(),
        position.0 < 64,
    ensures
        r == point_worth(state.rules(), state.points@, position.0 as int),
        r matches Some((SideValue::Heuristic(w), _)) ==> 0 <= w <= 4225 * MAX_SHAPES,
        r matches Some((_, SideValue::Heuristic(b))) ==> 0 <= b <= 4225 * MAX_SHAPES,
{
    if let PointState::Piece(_) = state.at(position) {
        return None;
    }
    let ghost st = state.rules();
    let ghost pos = position.0 as int;
    let structure = &state.structure;
    let holders = &structure.reverse[position.0 as usize];
    let mut white_value: i32 = 0;
    let mut black_value: i32 = 0;
    let mut last_white_piece = false;
    let mut last_black_piece = false;
    let mut j: usize = 0;
    while j < holders.len()
        invariant
            **structure == st,
            st.wf(),
            0 <= pos < 64,
            state.points@[pos] is Empty,
            *holders == st.reverse@[pos],
            j <= holders@.len(),
            (white_value as int, black_value as int, last_white_piece, last_black_piece) == point_tally(
                st,
                state.points@,
                pos,
                j as int,
            ),
            0 <= white_value <= 4225 * j,
            0 <= black_value <= 4225 * j,
            holders@.len() <= MAX_SHAPES,
        decreases holders@.len() - j,
    {
        let index = holders[j];
        let subset = structure.source[index];
        proof {
            assert(crate::game::subset_size(st.source@[index as int].0) == st.object_size);
            assert(holders@.len() <= st.source@.len());
        }
        let win_state = subset.win_state(state);
        match win_state {
            LineState::Empty => {
                white_value = white_value + 1;
                black_value = black_value + 1;
            },
            LineState::Pure { color, count } => {
                proof {
                    crate::game::lemma_line_count(state.points@, subset.0);
                }
                let total_count = count as i32 + 1;
                if total_count == structure.object_size as i32 {
                    if color == Color::White {
                        last_white_piece = true;
                    } else {
                        last_black_piece = true;
                    }
                } else {
                    proof {
                        assert(total_count * total_count <= 4225) by (nonlinear_arith)
                            requires
                                0 < total_count <= 65,
                        ;
                    }
                    if color == Color::White {
                        white_value = white_value + total_count * total_count;
                    } else {
                        black_value = black_value + total_count * total_count;
                    }
                }
            },
            _ => {},
        }
        j = j + 1;
    }
    let white_point_value = if last_white_piece {
        SideValue::LastMissingPiece
    } else {
        SideValue::Heuristic(white_value)
    };
    let black_point_value = if last_black_piece {
        SideValue::LastMissingPiece
    } else {
        SideValue::Heuristic(black_value)
    };
    Some((white_point_value, black_point_value))
}

/// Whether a column is worth playing, for White and for Black: `None` for a
/// full column; the worth of the top cell when one cell is left; else each
/// player's worth of the free cell weighed against the opponent's worth of
/// the cell above it.
pub fn column_value(state: &State, position: Position2) -> (r: Option<(SideValue, SideValue)>)
    requires
        state.wf(),
        position.0 < 16,
    ensures
        ({
            let h = state.height(position) as int;
            let st = state.rules();
            let c = position.0 as int;
            if h == 4 {
                r is None
            } else if h == 3 {
                r == point_worth(st, state.points@, c + 48)
            } else {
                let (wp, bp) = point_worth(st, state.points@, c + 16 * h)->0;
                let (wr, br) = point_worth(st, state.points@, c + 16 * (h + 1))->0;
                r == Some((column_side(wp, br), column_side(bp, wr)))
            }
        }),
{
    let height: u8 = state.column_height[position.0 as usize];
    if height == 4 {
        None
    } else if height == 3 {
        point_value(state, position.with_height(3))
    } else {
        let h = height;
        proof {
            assert(state.points@[position.0 + 16 * h] is Empty);
            assert(state.points@[position.0 + 16 * (h + 1)] is Empty);
        }
        let (white_placement_value, black_placement_value) = match point_value(state, position.with_height(h)) {
            Some(pair) => pair,
            None => (SideValue::DirectLoss, SideValue::DirectLoss),
        };
        let (white_response_value, black_response_value) = match point_value(state, position.with_height(h + 1)) {
            Some(pair) => pair,
            None => (SideValue::DirectLoss, SideValue::DirectLoss),
        };
        let white_value = match white_placement_value {
            SideValue::Heuristic(w) => match black_response_value {
                SideValue::Heuristic(b) => SideValue::Heuristic(w - b),
                _ => SideValue::DirectLoss,
            },
            _ => SideValue::LastMissingPiece,
        };
        let black_value = match black_placement_value {
            SideValue::Heuristic(b) => match white_response_value {
                SideValue::Heuristic(w) => SideValue::Heuristic(b - w),
                _ => SideValue::DirectLoss,
            },
            _ => SideValue::LastMissingPiece,
        };
        Some((white_value, black_value))
    }
}

} // verus!

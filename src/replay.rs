use vstd::prelude::*;
use std::sync::Arc;
use crate::game::{height_sum, play, BoardView, Color, PointState, Position2, Position3, State, Structure, VictoryState};

verus! {

/// Relies on `String::push`: appends one character at the end.
#[verifier::external_body]
fn push_char(text: &mut String, c: char)
    ensures
        final(text)@ == old(text)@.push(c),
{
    text.push(c);
}

pub open spec fn digit_char(d: nat) -> char {
    if d == 0 {
        '0'
    } else if d == 1 {
        '1'
    } else if d == 2 {
        '2'
    } else if d == 3 {
        '3'
    } else if d == 4 {
        '4'
    } else if d == 5 {
        '5'
    } else if d == 6 {
        '6'
    } else if d == 7 {
        '7'
    } else if d == 8 {
        '8'
    } else {
        '9'
    }
}

/// `n` in decimal digits.
pub open spec fn decimal(n: nat) -> Seq<char>
    decreases n,
{
    if n < 10 {
        seq![digit_char(n)]
    } else {
        decimal(n / 10).push(digit_char(n % 10))
    }
}

/// The letter of a file: `A` to `D`.
pub open spec fn file_letter(x: nat) -> char {
    if x == 0 {
        'A'
    } else if x == 1 {
        'B'
    } else if x == 2 {
        'C'
    } else {
        'D'
    }
}

/// One move in notation: `"<number>. <file><rank> (<level>) "`.
pub open spec fn entry_text(number: nat, cell: nat) -> Seq<char> {
    decimal(number) + seq!['.', ' ', file_letter(cell % 4)] + decimal((cell / 4) % 4 + 1) + seq![' ', '('] + decimal(
        cell / 16 + 1,
    ) + seq![')', ' ']
}

/// The cell that move `k` of `actions` fills.
pub open spec fn move_cell(st: Structure, actions: Seq<Position2>, k: int) -> nat {
    let column = actions[k].0 as int;
    (column + 16 * replay_view(st, actions.take(k)).heights[column]) as nat
}

/// The notation of the first `n` moves of `actions`.
pub open spec fn notation_text(st: Structure, actions: Seq<Position2>, n: int) -> Seq<char>
    decreases n,
{
    if n <= 0 {
        Seq::empty()
    } else {
        notation_text(st, actions, n - 1) + entry_text(n as nat, move_cell(st, actions, n - 1))
    }
}

fn digit(d: u64) -> (r: char)
    requires
        d < 10,
    ensures
        r == digit_char(d as nat),
{
    if d == 0 {
        '0'
    } else if d == 1 {
        '1'
    } else if d == 2 {
        '2'
    } else if d == 3 {
        '3'
    } else if d == 4 {
        '4'
    } else if d == 5 {
        '5'
    } else if d == 6 {
        '6'
    } else if d == 7 {
        '7'
    } else if d == 8 {
        '8'
    } else {
        '9'
    }
}

fn push_decimal(text: &mut String, n: u64)
    ensures
        final(text)@ == old(text)@ + decimal(n as nat),
    decreases n,
{
    if n >= 10 {
        push_decimal(text, n / 10);
    }
    push_char(text, digit(n % 10));
    proof {
        assert(decimal(n as nat) == if n < 10 {
            seq![digit_char(n as nat)]
        } else {
            decimal((n / 10) as nat).push(digit_char((n % 10) as nat))
        });
        if n < 10 {
            assert(old(text)@ + decimal(n as nat) =~= old(text)@.push(digit_char(n as nat)));
        } else {
            assert((old(text)@ + decimal((n / 10) as nat)).push(digit_char((n % 10) as nat)) =~= old(text)@
                + decimal(n as nat));
        }
    }
}

/// Writes one move in notation.
fn push_entry(text: &mut String, number: u64, cell: u64)
    requires
        cell < 64,
    ensures
        final(text)@ == old(text)@ + entry_text(number as nat, cell as nat),
{
    push_decimal(text, number);
    push_char(text, '.');
    push_char(text, ' ');
    let x = cell % 4;
    let letter = if x == 0 {
        'A'
    } else if x == 1 {
        'B'
    } else if x == 2 {
        'C'
    } else {
        'D'
    };
    push_char(text, letter);
    push_decimal(text, (cell / 4) % 4 + 1);
    push_char(text, ' ');
    push_char(text, '(');
    push_decimal(text, cell / 16 + 1);
    push_char(text, ')');
    push_char(text, ' ');
    assert(final(text)@ =~= old(text)@ + entry_text(number as nat, cell as nat));
}

/// The view of the empty board.
pub open spec fn initial_view() -> BoardView {
    BoardView {
        points: Seq::new(64, |i: int| PointState::Empty),
        heights: Seq::new(16, |i: int| 0u8),
        color: Color::White,
        age: 0,
        victory: VictoryState::Undecided,
    }
}

/// The board after playing `actions` in order from the empty board.
#[verifier::opaque]
pub open spec fn replay_view(st: Structure, actions: Seq<Position2>) -> BoardView
    decreases actions.len(),
{
    if actions.len() == 0 {
        initial_view()
    } else {
        play(replay_view(st, actions.drop_last()), st, actions.last().0 as int)
    }
}

/// Each of `actions` drops a piece into a column that still takes one.
pub open spec fn replay_legal(st: Structure, actions: Seq<Position2>) -> bool {
    forall|k: int|
        0 <= k < actions.len() ==> (#[trigger] actions[k]).0 < 16 && replay_view(st, actions.take(k)).heights[actions[k].0 as int]
            < 4
}

proof fn lemma_replay_step(st: Structure, actions: Seq<Position2>, i: int)
    requires
        0 <= i < actions.len(),
    ensures
        replay_view(st, actions.take(i + 1)) == play(replay_view(st, actions.take(i)), st, actions[i].0 as int),
{
    reveal(replay_view);
    assert(actions.take(i + 1).drop_last() =~= actions.take(i));
}

pub proof fn lemma_replay_legal_prefix(st: Structure, actions: Seq<Position2>, a: Position2)
    requires
        replay_legal(st, actions),
        a.0 < 16,
        replay_view(st, actions).heights[a.0 as int] < 4,
    ensures
        replay_legal(st, actions.push(a)),
{
    let longer = actions.push(a);
    assert forall|k: int| 0 <= k < longer.len() implies (#[trigger] longer[k]).0 < 16 && replay_view(st, longer.take(k)).heights[longer[k].0 as int] < 4 by {
        if k < actions.len() {
            assert(longer.take(k) =~= actions.take(k));
        } else {
            assert(longer.take(k) =~= actions);
        }
    }
}

/// Any legal sequence of `n` moves from the empty board leaves `n` pieces,
/// column heights that sum to `n`, and the players alternating from White:
/// White is to move after an even number of moves.
pub proof fn lemma_replay_counts(st: Structure, actions: Seq<Position2>)
    requires
        replay_legal(st, actions),
    ensures
        replay_view(st, actions).age == actions.len(),
        height_sum(replay_view(st, actions).heights) == actions.len(),
        replay_view(st, actions).heights.len() == 16,
        replay_view(st, actions).color == if actions.len() % 2 == 0 {
            Color::White
        } else {
            Color::Black
        },
    decreases actions.len(),
{
    if actions.len() == 0 {
        lemma_replay_empty(st, actions);
        crate::game::lemma_height_sum_zero(16);
        assert(initial_view().heights =~= Seq::new(16, |i: int| 0u8));
    } else {
        let shorter = actions.drop_last();
        lemma_replay_legal_shorter(st, actions);
        lemma_replay_counts(st, shorter);
        let before = replay_view(st, shorter);
        let c = actions.last().0 as int;
        lemma_replay_last(st, actions);
        crate::game::lemma_play_counts(before, st, c);
        crate::game::lemma_height_sum_update(before.heights, c, (before.heights[c] + 1) as u8);
    }
}

pub proof fn lemma_replay_last(st: Structure, actions: Seq<Position2>)
    requires
        actions.len() > 0,
    ensures
        replay_view(st, actions) == play(replay_view(st, actions.drop_last()), st, actions.last().0 as int),
{
    reveal(replay_view);
}

/// No moves leave the empty board.
pub proof fn lemma_replay_empty(st: Structure, actions: Seq<Position2>)
    requires
        actions.len() == 0,
    ensures
        replay_view(st, actions) == initial_view(),
{
    reveal(replay_view);
}

proof fn lemma_replay_legal_shorter(st: Structure, actions: Seq<Position2>)
    requires
        replay_legal(st, actions),
        actions.len() > 0,
    ensures
        replay_legal(st, actions.drop_last()),
        actions.last().0 < 16,
        replay_view(st, actions.drop_last()).heights[actions.last().0 as int] < 4,
{
    let shorter = actions.drop_last();
    assert forall|k: int| 0 <= k < shorter.len() implies (#[trigger] shorter[k]).0 < 16 && replay_view(
        st,
        shorter.take(k),
    ).heights[shorter[k].0 as int] < 4 by {
        assert(shorter.take(k) =~= actions.take(k));
        assert(shorter[k] == actions[k]);
    }
    let k = actions.len() - 1;
    assert(actions.take(k) =~= shorter);
    assert(actions[k] == actions.last());
}

pub proof fn lemma_new_is_initial(state: State)
    requires
        state.age == 0,
        state.current_color == Color::White,
        state.victory_state == VictoryState::Undecided,
        state.points@.len() == 64,
        state.column_height@.len() == 16,
        forall|p: int| 0 <= p < 64 ==> state.points@[p] == PointState::Empty,
        forall|c: int| 0 <= c < 16 ==> state.column_height@[c] == 0,
    ensures
        state.view() == initial_view(),
{
    assert(state.points@ =~= initial_view().points);
    assert(state.column_height@ =~= initial_view().heights);
}

/// The moves of a game, and a board that shows either the latest position
/// or, while the moves are being looked back on, an earlier one.
pub struct History {
    actions: Vec<Position2>,
    playback_count: Option<usize>,
    pub state: State,
}

impl History {
    /// The moves recorded.
    pub closed spec fn moves(&self) -> Seq<Position2> {
        self.actions@
    }

    /// The board shown.
    pub closed spec fn board(&self) -> State {
        self.state
    }

    /// How many moves the board shows.
    pub closed spec fn shown(&self) -> int {
        match self.playback_count {
            Some(n) => n as int,
            None => self.actions@.len() as int,
        }
    }

    /// The board shows the latest position.
    pub closed spec fn live(&self) -> bool {
        self.playback_count is None
    }

    /// Every recorded move was legal in turn, and the board is the replay of
    /// the moves shown from the empty board.
    pub open spec fn shows_replay(&self) -> bool {
        &&& self.board().wf()
        &&& 0 <= self.shown() <= self.moves().len()
        &&& replay_legal(self.board().rules(), self.moves())
        &&& self.board().view() == replay_view(self.board().rules(), self.moves().take(self.shown()))
    }

    pub closed spec fn wf(&self) -> bool {
        &&& self.state.wf()
        &&& 0 <= self.shown() <= self.actions@.len()
        &&& replay_legal(self.state.rules(), self.actions@)
        &&& self.state.view() == replay_view(self.state.rules(), self.actions@.take(self.shown()))
    }

    pub fn new(structure: Arc<Structure>) -> (r: History)
        requires
            structure.wf(),
        ensures
            r.wf(),
            r.shows_replay(),
            r.moves().len() == 0,
            r.live(),
            r.board().structure == structure,
    {
        let state = State::new(structure);
        proof {
            lemma_new_is_initial(state);
        }
        let r = History { actions: Vec::new(), playback_count: None, state };
        proof {
            assert(r.actions@.take(0) =~= Seq::<Position2>::empty());
            lemma_replay_empty(r.state.rules(), r.actions@.take(0));
        }
        r
    }

    /// Records a move after the last one; on the latest position it is also
    /// played on the board.
    pub fn add(&mut self, action: Position2)
        requires
            old(self).wf(),
            action.0 < 16,
            replay_view(old(self).board().rules(), old(self).moves()).heights[action.0 as int] < 4,
        ensures
            final(self).wf(),
            final(self).shows_replay(),
            final(self).board().rules() == old(self).board().rules(),
            final(self).moves() == old(self).moves().push(action),
            final(self).live() == old(self).live(),
            final(self).shown() == if old(self).live() {
                old(self).shown() + 1
            } else {
                old(self).shown()
            },
            final(self).board().structure == old(self).board().structure,
    {
        let ghost st = self.state.rules();
        let ghost before = self.actions@;
        proof {
            lemma_replay_legal_prefix(st, before, action);
        }
        self.actions.push(action);
        if self.playback_count.is_none() {
            proof {
                assert(before.take(before.len() as int) =~= before);
                crate::game::lemma_view_heights(self.state);
            }
            self.state.execute(action);
            proof {
                lemma_replay_step(st, self.actions@, before.len() as int);
                assert(self.actions@.take(before.len() as int) =~= before);
                assert(self.actions@.take(self.actions@.len() as int) =~= self.actions@);
            }
        } else {
            proof {
                assert(self.actions@.take(self.shown()) =~= before.take(self.shown()));
            }
        }
    }

    /// Plays the moves from `from` up to `to` on a board that shows the
    /// first `from`.
    fn advance(&mut self, from: usize, to: usize)
        requires
            old(self).state.wf(),
            from <= to <= old(self).actions@.len(),
            replay_legal(old(self).state.rules(), old(self).actions@),
            old(self).state.view() == replay_view(old(self).state.rules(), old(self).actions@.take(from as int)),
        ensures
            final(self).state.wf(),
            final(self).state.view() == replay_view(old(self).state.rules(), old(self).actions@.take(to as int)),
            final(self).state.rules() == old(self).state.rules(),
            final(self).state.structure == old(self).state.structure,
            final(self).actions == old(self).actions,
            final(self).playback_count == old(self).playback_count,
    {
        let ghost st = self.state.rules();
        let mut i: usize = from;
        while i < to
            invariant
                from <= i <= to <= self.actions@.len(),
                self.state.wf(),
                self.state.rules() == st,
                self.state.structure == old(self).state.structure,
                self.actions == old(self).actions,
                self.playback_count == old(self).playback_count,
                replay_legal(st, self.actions@),
                self.state.view() == replay_view(st, self.actions@.take(i as int)),
            decreases to - i,
        {
            let action = self.actions[i];
            proof {
                assert(self.actions@[i as int] == action);
                crate::game::lemma_view_heights(self.state);
                lemma_replay_step(st, self.actions@, i as int);
            }
            self.state.execute(action);
            i = i + 1;
        }
    }

    /// Rebuilds the board from the empty one with the first `count` moves.
    fn rebuild(&mut self, count: usize)
        requires
            old(self).state.wf(),
            count <= old(self).actions@.len(),
            replay_legal(old(self).state.rules(), old(self).actions@),
        ensures
            final(self).state.wf(),
            final(self).state.view() == replay_view(old(self).state.rules(), old(self).actions@.take(count as int)),
            final(self).state.rules() == old(self).state.rules(),
            final(self).state.structure == old(self).state.structure,
            final(self).actions == old(self).actions,
            final(self).playback_count == old(self).playback_count,
    {
        self.state = State::new(self.state.structure.clone());
        proof {
            lemma_new_is_initial(self.state);
            assert(self.actions@.take(0) =~= Seq::<Position2>::empty());
            lemma_replay_empty(self.state.rules(), self.actions@.take(0));
        }
        self.advance(0, count);
    }

    /// Steps back one move; fails at the empty board.
    pub fn back(&mut self) -> (r: Result<(), ()>)
        requires
            old(self).wf(),
        ensures
            final(self).wf(),
            final(self).shows_replay(),
            final(self).board().rules() == old(self).board().rules(),
            final(self).moves() == old(self).moves(),
            final(self).board().structure == old(self).board().structure,
            r is Err <==> old(self).shown() == 0,
            r is Err ==> final(self).shown() == old(self).shown() && final(self).live() == old(self).live(),
            r is Ok ==> final(self).shown() == old(self).shown() - 1 && !final(self).live(),
    {
        let current_count = match self.playback_count {
            Some(n) => n,
            None => self.actions.len(),
        };
        if current_count == 0 {
            return Err(());
        }
        let new_count = current_count - 1;
        self.playback_count = Some(new_count);
        self.rebuild(new_count);
        Ok(())
    }

    /// Steps forward one move while looking back; fails on the latest
    /// position or when not looking back.
    pub fn forward(&mut self) -> (r: Result<(), ()>)
        requires
            old(self).wf(),
        ensures
            final(self).wf(),
            final(self).shows_replay(),
            final(self).board().rules() == old(self).board().rules(),
            final(self).moves() == old(self).moves(),
            final(self).board().structure == old(self).board().structure,
            r is Err <==> (old(self).live() || old(self).shown() >= old(self).moves().len()),
            r is Err ==> final(self).shown() == old(self).shown() && final(self).live() == old(self).live(),
            r is Ok ==> final(self).shown() == old(self).shown() + 1 && !final(self).live(),
    {
        let current_count = match self.playback_count {
            Some(n) => n,
            None => {
                return Err(());
            },
        };
        if current_count >= self.actions.len() {
            return Err(());
        }
        let ghost st = self.state.rules();
        let action = self.actions[current_count];
        proof {
            crate::game::lemma_view_heights(self.state);
            lemma_replay_step(st, self.actions@, current_count as int);
        }
        self.playback_count = Some(current_count + 1);
        self.state.execute(action);
        Ok(())
    }

    /// Plays the moves not shown yet and goes back to the latest position.
    pub fn resume(&mut self)
        requires
            old(self).wf(),
        ensures
            final(self).wf(),
            final(self).shows_replay(),
            final(self).board().rules() == old(self).board().rules(),
            final(self).moves() == old(self).moves(),
            final(self).live(),
            final(self).board().structure == old(self).board().structure,
    {
        if let Some(current_count) = self.playback_count {
            let total = self.actions.len();
            self.advance(current_count, total);
            self.playback_count = None;
            proof {
                assert(self.actions@.take(self.actions@.len() as int) =~= self.actions@);
            }
        }
    }

    pub fn is_resumed(&self) -> (r: bool)
        ensures
            r == self.live(),
    {
        self.playback_count.is_none()
    }

    /// The moves shown, in notation: `"1. A1 (1) 2. B1 (1) "` and so on,
    /// with the file as a letter, then the rank and the level from 1.
    #[verifier::rlimit(50)]
    pub fn notation(&self) -> (r: String)
        requires
            self.wf(),
        ensures
            r@ == notation_text(self.board().rules(), self.moves(), self.shown()),
    {
        let mut buffer = String::new();
        let mut playback = self.playback();
        let mut index: u64 = 0;
        proof {
            assert(buffer@ =~= notation_text(self.state.rules(), self.actions@, 0));
        }
        loop
            invariant
                playback.wf(),
                playback.moves() == self.actions@,
                playback.end() == self.shown(),
                playback.rules() == self.state.rules(),
                index == playback.position(),
                0 <= playback.position() <= playback.end() <= self.actions@.len(),
                buffer@ == notation_text(self.state.rules(), self.actions@, index as int),
            ensures
                buffer@ == notation_text(self.state.rules(), self.actions@, self.shown()),
            decreases playback.end() - playback.position(),
        {
            let ghost k = index as int;
            match playback.next() {
                Some((position, _)) => {
                    let ghost before = buffer@;
                    push_entry(&mut buffer, index + 1, position.0 as u64);
                    proof {
                        assert(before == notation_text(self.state.rules(), self.actions@, k));
                        assert(buffer@ == notation_text(self.state.rules(), self.actions@, k + 1));
                    }
                    index = index + 1;
                },
                None => {
                    break;
                },
            }
        }
        buffer
    }

    /// Walks the moves shown, from the empty board.
    pub fn playback(&self) -> (r: HistoryPlayback)
        requires
            self.wf(),
        ensures
            r.wf(),
            r.position() == 0,
            r.end() == self.shown(),
            r.moves() == self.moves(),
            r.rules() == self.board().rules(),
    {
        let max_index = match self.playback_count {
            Some(n) => n,
            None => self.actions.len(),
        };
        let state = State::new(self.state.structure.clone());
        proof {
            lemma_new_is_initial(state);
            assert(self.actions@.take(0) =~= Seq::<Position2>::empty());
            lemma_replay_empty(state.rules(), self.actions@.take(0));
        }
        let actions = self.actions.clone();
        proof {
            assert(actions@ =~= self.actions@);
        }
        HistoryPlayback { index: 0, max_index, actions, state }
    }
}

/// Walks recorded moves from the empty board and tells, for each, the cell
/// filled and the color that filled it.
pub struct HistoryPlayback {
    index: usize,
    max_index: usize,
    actions: Vec<Position2>,
    state: State,
}

impl HistoryPlayback {
    pub closed spec fn position(&self) -> int {
        self.index as int
    }

    pub closed spec fn end(&self) -> int {
        self.max_index as int
    }

    pub closed spec fn moves(&self) -> Seq<Position2> {
        self.actions@
    }

    pub closed spec fn rules(&self) -> Structure {
        self.state.rules()
    }

    pub closed spec fn wf(&self) -> bool {
        let v = replay_view(self.state.rules(), self.actions@.take(self.index as int));
        &&& self.state.wf()
        &&& self.index <= self.max_index <= self.actions@.len()
        &&& replay_legal(self.state.rules(), self.actions@)
        &&& self.state.points@ == v.points
        &&& self.state.column_height@ == v.heights
        &&& self.state.current_color == v.color
        &&& self.state.age == v.age
    }

    /// The next move: the cell it filled and the color of the piece.
    pub fn next(&mut self) -> (r: Option<(Position3, Color)>)
        requires
            old(self).wf(),
        ensures
            final(self).wf(),
            final(self).moves() == old(self).moves(),
            final(self).end() == old(self).end(),
            final(self).rules() == old(self).rules(),
            r matches Some((cell, _)) ==> cell.0 == move_cell(old(self).rules(), old(self).moves(), old(self).position()),
            old(self).position() >= old(self).end() ==> r is None && final(self).position() == old(self).position(),
            old(self).position() < old(self).end() ==> {
                let v = replay_view(old(self).rules(), old(self).moves().take(old(self).position()));
                let column = old(self).moves()[old(self).position()].0;
                &&& r == Some((Position3((column + 16 * v.heights[column as int]) as u8), v.color))
                &&& final(self).position() == old(self).position() + 1
            },
    {
        if self.index >= self.max_index {
            return None;
        }
        let ghost st = self.state.rules();
        let action = self.actions[self.index];
        let color = self.state.current_color;
        proof {
            lemma_replay_step(st, self.actions@, self.index as int);
        }
        let position = self.state.insert(action);
        self.index = self.index + 1;
        Some((position, color))
    }
}

} // verus!

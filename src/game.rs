use vstd::prelude::*;
use std::sync::Arc;
use crate::helpers::EqualityVerifier;

verus! {

/// A column of the board, `0..16`, as `x + 4 * y`.
#[derive(Copy, Clone, Debug, PartialEq, Eq, Structural)]
pub struct Position2(pub u8);

/// A cell of the board, `0..64`, as `x + 4 * y + 16 * z`.
#[derive(Copy, Clone, Debug, PartialEq, Eq, Structural)]
pub struct Position3(pub u8);

/// A winning shape: bit `p` is set when cell `p` belongs to it.
#[derive(Copy, Clone, Debug, PartialEq, Eq, Structural)]
pub struct Subset(pub u64);

/// Cell `p` belongs to the shape `m`.
pub open spec fn has_bit(m: u64, p: int) -> bool {
    0 <= p < 64 && (m >> (p as u64)) % 2 == 1
}

/// The number of cells below `k` that belong to the shape `m`.
pub open spec fn count_below(m: u64, k: int) -> nat
    decreases k,
{
    if k <= 0 {
        0
    } else {
        count_below(m, k - 1) + if has_bit(m, k - 1) { 1nat } else { 0nat }
    }
}

/// The number of cells of the shape `m`.
pub open spec fn subset_size(m: u64) -> nat {
    count_below(m, 64)
}

impl Position2 {
    pub fn new(x: u8, y: u8) -> (r: Position2)
        requires
            x <= 3,
            y <= 3,
        ensures
            r.0 == x + 4 * y,
            r.0 < 16,
    {
        Position2(x + 4 * y)
    }

    pub fn with_height(self, z: u8) -> (r: Position3)
        requires
            self.0 < 16,
            z <= 3,
        ensures
            r.0 == self.0 + 16 * z,
            r.0 < 64,
    {
        Position3(self.0 + 16 * z)
    }

    pub fn coords(self) -> (r: (u8, u8))
        ensures
            r.0 == self.0 % 4,
            r.1 == self.0 / 4,
    {
        (self.0 % 4, self.0 / 4)
    }
}

impl Position3 {
    pub fn new(x: u8, y: u8, z: u8) -> (r: Position3)
        requires
            x <= 3,
            y <= 3,
            z <= 3,
        ensures
            r.0 == x + 4 * y + 16 * z,
            r.0 < 64,
    {
        Position3(x + 4 * y + 16 * z)
    }

    pub fn coords(self) -> (r: (u8, u8, u8))
        ensures
            r.0 == self.0 % 4,
            r.1 == (self.0 / 4) % 4,
            r.2 == self.0 / 16,
    {
        (self.0 % 4, (self.0 / 4) % 4, self.0 / 16)
    }

    /// The column that holds this cell.
    pub fn column(self) -> (r: Position2)
        ensures
            r.0 == self.0 % 16,
    {
        Position2(self.0 % 16)
    }
}

impl Subset {
    pub fn contains(self, position: Position3) -> (r: bool)
        requires
            position.0 < 64,
        ensures
            r == has_bit(self.0, position.0 as int),
    {
        (self.0 >> position.0) % 2 == 1
    }

    pub fn iter(self) -> (r: SubsetIterator)
        ensures
            r.wf(),
            r.shape() == self.0,
            r.step() == 0,
    {
        SubsetIterator { step_count: 0, shape: self.0 }
    }

    /// The number of cells of the shape.
    pub fn size(self) -> (r: u8)
        ensures
            r == subset_size(self.0),
    {
        let mut count: u8 = 0;
        let mut p: u8 = 0;
        while p < 64
            invariant
                p <= 64,
                count == count_below(self.0, p as int),
                count <= p,
            decreases 64 - p,
        {
            if self.contains(Position3(p)) {
                count = count + 1;
            }
            p = p + 1;
        }
        count
    }
}

/// Walks the cells of a shape in ascending order.
pub struct SubsetIterator {
    step_count: u8,
    shape: u64,
}

impl SubsetIterator {
    pub closed spec fn step(&self) -> int {
        self.step_count as int
    }

    pub closed spec fn shape(&self) -> u64 {
        self.shape
    }

    pub closed spec fn wf(&self) -> bool {
        self.step_count <= 64
    }

    /// The next cell of the shape at or after the current step; each one
    /// handed out belongs to the shape.
    pub fn next(&mut self) -> (r: Option<Position3>)
        requires
            old(self).wf(),
        ensures
            final(self).wf(),
            final(self).shape() == old(self).shape(),
            match r {
                Some(p) => {
                    &&& old(self).step() <= p.0 < 64
                    &&& has_bit(old(self).shape(), p.0 as int)
                    &&& forall|q: int|
                        old(self).step() <= q < p.0 ==> !has_bit(old(self).shape(), q)
                    &&& final(self).step() == p.0 + 1
                },
                None => {
                    &&& forall|q: int| old(self).step() <= q < 64 ==> !has_bit(old(self).shape(), q)
                    &&& final(self).step() == 64
                },
            },
    {
        while self.step_count < 64
            invariant
                self.step_count <= 64,
                self.shape == old(self).shape,
                old(self).step_count <= self.step_count,
                forall|q: int|
                    old(self).step_count <= q < self.step_count ==> !has_bit(self.shape, q),
            decreases 64 - self.step_count,
        {
            let p = self.step_count;
            self.step_count = self.step_count + 1;
            if (self.shape >> p) % 2 == 1 {
                return Some(Position3(p));
            }
        }
        None
    }
}

#[derive(Copy, Clone, Debug, PartialEq, Eq, Structural)]
pub enum Color {
    White,
    Black,
}

impl Color {
    pub open spec fn flip(self) -> Color {
        match self {
            Color::White => Color::Black,
            Color::Black => Color::White,
        }
    }

    /// The other player.
    pub fn opponent(self) -> (r: Color)
        ensures
            r == self.flip(),
    {
        match self {
            Color::White => Color::Black,
            Color::Black => Color::White,
        }
    }
}

#[derive(Copy, Clone, Debug, PartialEq, Eq, Structural)]
pub enum PointState {
    Piece(Color),
    Empty,
}

/// What a winning shape looks like on a board.
#[derive(Copy, Clone, Debug, PartialEq, Eq, Structural)]
pub enum LineState {
    Empty,
    Pure { color: Color, count: i8 },
    Mixed,
    Win(Color),
}

#[derive(Copy, Clone, Debug, PartialEq, Eq, Structural)]
pub enum VictoryState {
    Undecided,
    Win { winner: Color, reason: Option<Subset> },
    Draw,
}

impl VictoryState {
    pub fn active(&self) -> (r: bool)
        ensures
            r == (*self is Undecided),
    {
        match *self {
            VictoryState::Undecided => true,
            _ => false,
        }
    }

    /// The signed score of a finished game for `color`.
    pub open spec fn score_for(self, color: Color) -> Option<i8> {
        match self {
            VictoryState::Win { winner, .. } => if winner == color {
                Some(1i8)
            } else {
                Some(-1i8)
            },
            VictoryState::Draw => Some(0i8),
            VictoryState::Undecided => None,
        }
    }

    pub fn scoring(&self, color: Color) -> (r: Option<i8>)
        ensures
            r == self.score_for(color),
    {
        match *self {
            VictoryState::Win { winner, .. } => if winner == color {
                Some(1)
            } else {
                Some(-1)
            },
            VictoryState::Draw => Some(0),
            VictoryState::Undecided => None,
        }
    }
}

/// Tallies of finished games.
#[derive(Copy, Clone, Debug)]
pub struct VictoryStats {
    pub white: i32,
    pub black: i32,
    pub draws: i32,
}

impl VictoryStats {
    pub fn new() -> (r: VictoryStats)
        ensures
            r.white == 0,
            r.black == 0,
            r.draws == 0,
    {
        VictoryStats { white: 0, black: 0, draws: 0 }
    }
}

/// The most shapes a structure may hold; grades summed over all shapes stay
/// within `i32`.
pub const MAX_SHAPES: usize = 500000;

/// All shapes in `objects` have the same, positive, number of cells.
pub open spec fn uniform_sizes(objects: Seq<u64>) -> bool {
    &&& 0 < objects.len() <= MAX_SHAPES
    &&& subset_size(objects[0]) > 0
    &&& forall|i: int| 0 <= i < objects.len() ==> subset_size(#[trigger] objects[i]) == subset_size(objects[0])
}

/// The winning shapes of a game, and for each cell the shapes that hold it.
pub struct Structure {
    pub source: Vec<Subset>,
    pub reverse: Vec<Vec<usize>>,
    pub object_size: u8,
}

impl Structure {
    pub open spec fn wf(&self) -> bool {
        &&& self.reverse@.len() == 64
        &&& self.source@.len() <= MAX_SHAPES
        &&& forall|p: int| 0 <= p < 64 ==> (#[trigger] self.reverse@[p])@.len() <= self.source@.len()
        &&& forall|p: int, i: int, j: int|
            0 <= p < 64 && 0 <= i < j < self.reverse@[p]@.len() ==> (#[trigger] self.reverse@[p]@[i]) < (
            #[trigger] self.reverse@[p]@[j])
        &&& forall|p: int, j: int|
            0 <= p < 64 && 0 <= j < self.reverse@[p]@.len() ==> {
                &&& (#[trigger] self.reverse@[p]@[j]) < self.source@.len()
                &&& has_bit(self.source@[self.reverse@[p]@[j] as int].0, p)
            }
        &&& forall|i: int, p: int|
            0 <= i < self.source@.len() && #[trigger] has_bit(self.source@[i].0, p)
                ==> self.reverse@[p]@.contains(i as usize)
        &&& self.object_size > 0
        &&& forall|i: int|
            0 <= i < self.source@.len() ==> subset_size(#[trigger] self.source@[i].0)
                == self.object_size
    }

    /// Builds the shapes and the reverse index; all shapes must have the
    /// same positive size, and there may be at most `MAX_SHAPES` of them.
    pub fn new(victory_objects: &[u64]) -> (r: Structure)
        requires
            uniform_sizes(victory_objects@),
        ensures
            r.wf(),
            r.source@.len() == victory_objects@.len(),
            forall|i: int| 0 <= i < r.source@.len() ==> (#[trigger] r.source@[i]).0 == victory_objects@[i],
            r.object_size == subset_size(victory_objects@[0]),
    {
        let mut source: Vec<Subset> = Vec::new();
        let mut object_size = EqualityVerifier::NoValue;
        let mut i: usize = 0;
        while i < victory_objects.len()
            invariant
                i <= victory_objects@.len(),
                uniform_sizes(victory_objects@),
                source@.len() == i,
                forall|k: int| 0 <= k < i ==> (#[trigger] source@[k]).0 == victory_objects@[k],
                i == 0 ==> object_size is NoValue,
                i > 0 ==> object_size is Value && object_size->0 == subset_size(victory_objects@[0]),
            decreases victory_objects@.len() - i,
        {
            let subset = Subset(victory_objects[i]);
            source.push(subset);
            let size = subset.size();
            assert(subset_size(victory_objects@[i as int]) == subset_size(victory_objects@[0]));
            object_size = object_size.update(size);
            i = i + 1;
        }
        let mut reverse: Vec<Vec<usize>> = Vec::new();
        let mut p: u8 = 0;
        while p < 64
            invariant
                p <= 64,
                reverse@.len() == p,
                forall|k: int| 0 <= k < source@.len() ==> (#[trigger] source@[k]).0 == victory_objects@[k],
                source@.len() == victory_objects@.len(),
                forall|q: int| 0 <= q < p ==> (#[trigger] reverse@[q])@.len() <= source@.len(),
                forall|q: int, i: int, j: int|
                    0 <= q < p && 0 <= i < j < reverse@[q]@.len() ==> (#[trigger] reverse@[q]@[i]) < (
                    #[trigger] reverse@[q]@[j]),
                forall|q: int, j: int|
                    0 <= q < p && 0 <= j < reverse@[q]@.len() ==> {
                        &&& (#[trigger] reverse@[q]@[j]) < source@.len()
                        &&& has_bit(source@[reverse@[q]@[j] as int].0, q)
                    },
                forall|k: int, q: int|
                    0 <= k < source@.len() && 0 <= q < p && #[trigger] has_bit(source@[k].0, q)
                        ==> reverse@[q]@.contains(k as usize),
            decreases 64 - p,
        {
            let mut holders: Vec<usize> = Vec::new();
            let mut k: usize = 0;
            while k < source.len()
                invariant
                    k <= source@.len(),
                    holders@.len() <= k,
                    forall|i: int, j: int| 0 <= i < j < holders@.len() ==> (#[trigger] holders@[i]) < (#[trigger] holders@[j]),
                    p < 64,
                    forall|j: int| 0 <= j < holders@.len() ==> {
                        &&& (#[trigger] holders@[j]) < k
                        &&& has_bit(source@[holders@[j] as int].0, p as int)
                    },
                    forall|m: int| 0 <= m < k && #[trigger] has_bit(source@[m].0, p as int)
                        ==> holders@.contains(m as usize),
                decreases source@.len() - k,
            {
                if source[k].contains(Position3(p)) {
                    let ghost before = holders@;
                    holders.push(k);
                    assert forall|m: int| 0 <= m < k && #[trigger] has_bit(source@[m].0, p as int)
                        implies holders@.contains(m as usize) by {
                        let j = choose|j: int| 0 <= j < before.len() && before[j] == m as usize;
                        assert(holders@[j] == m as usize);
                    }
                    assert(holders@[holders@.len() - 1] == k);
                }
                k = k + 1;
            }
            reverse.push(holders);
            p = p + 1;
        }
        let size = object_size.unwrap();
        proof {
            assert forall|k: int| 0 <= k < source@.len() implies subset_size(#[trigger] source@[k].0) == size by {
                assert(subset_size(victory_objects@[k]) == subset_size(victory_objects@[0]));
            }
            assert forall|k: int, q: int|
                0 <= k < source@.len() && #[trigger] has_bit(source@[k].0, q)
                    implies reverse@[q]@.contains(k as usize) by {
                assert(0 <= q < 64);
            }
        }
        Structure { source, reverse, object_size: size }
    }
}

/// Every cell of the shape `m` holds a piece of `c`.
pub open spec fn full_of(points: Seq<PointState>, m: u64, c: Color) -> bool {
    forall|p: int| #[trigger] has_bit(m, p) ==> points[p] == PointState::Piece(c)
}

/// Some shape of `structure` is full of `c`.
pub open spec fn some_full(structure: Structure, points: Seq<PointState>, c: Color) -> bool {
    exists|i: int| 0 <= i < structure.source@.len() && full_of(points, #[trigger] structure.source@[i].0, c)
}

/// Some shape of `structure` through cell `pos` is full of `c`.
pub open spec fn completes(structure: Structure, points: Seq<PointState>, pos: int, c: Color) -> bool {
    exists|i: int|
        0 <= i < structure.source@.len() && has_bit(#[trigger] structure.source@[i].0, pos) && full_of(
            points,
            structure.source@[i].0,
            c,
        )
}

/// The sum of the heights.
pub open spec fn height_sum(s: Seq<u8>) -> int
    decreases s.len(),
{
    if s.len() == 0 {
        0
    } else {
        height_sum(s.drop_last()) + s.last()
    }
}

pub proof fn lemma_height_sum_update(s: Seq<u8>, i: int, v: u8)
    requires
        0 <= i < s.len(),
    ensures
        height_sum(s.update(i, v)) == height_sum(s) - s[i] + v,
    decreases s.len(),
{
    if i == s.len() - 1 {
        assert(s.update(i, v).drop_last() =~= s.drop_last());
    } else {
        lemma_height_sum_update(s.drop_last(), i, v);
        assert(s.update(i, v).drop_last() =~= s.drop_last().update(i, v));
    }
}

proof fn lemma_height_sum_bound(s: Seq<u8>)
    requires
        forall|i: int| 0 <= i < s.len() ==> s[i] <= 4,
    ensures
        height_sum(s) <= 4 * s.len(),
        height_sum(s) == 4 * s.len() ==> forall|i: int| 0 <= i < s.len() ==> s[i] == 4,
        height_sum(s) >= 0,
    decreases s.len(),
{
    if s.len() > 0 {
        lemma_height_sum_bound(s.drop_last());
        assert forall|i: int| 0 <= i < s.len() && height_sum(s) == 4 * s.len() implies s[i] == 4 by {
            if i < s.len() - 1 {
                assert(s.drop_last()[i] == s[i]);
            }
        }
    }
}

pub proof fn lemma_height_sum_zero(n: int)
    requires
        n >= 0,
    ensures
        height_sum(Seq::new(n as nat, |i: int| 0u8)) == 0,
    decreases n,
{
    if n > 0 {
        lemma_height_sum_zero(n - 1);
        assert(Seq::new(n as nat, |i: int| 0u8).drop_last() =~= Seq::new((n - 1) as nat, |i: int| 0u8));
    }
}

/// The first shape, in the order of the reverse index of cell `pos` from
/// entry `j` on, that is full of `c`.
pub open spec fn first_full_from(st: Structure, points: Seq<PointState>, pos: int, c: Color, j: int) -> Option<
    Subset,
>
    decreases st.reverse@[pos]@.len() - j,
{
    if j < 0 || j >= st.reverse@[pos]@.len() {
        None
    } else if full_of(points, st.source@[st.reverse@[pos]@[j] as int].0, c) {
        Some(st.source@[st.reverse@[pos]@[j] as int])
    } else {
        first_full_from(st, points, pos, c, j + 1)
    }
}

/// The outcome once `c` has moved to `pos`, giving `points`, at move count
/// `age`, from the earlier outcome `prior`.
pub open spec fn outcome_after(
    st: Structure,
    points: Seq<PointState>,
    pos: int,
    c: Color,
    age: int,
    prior: VictoryState,
) -> VictoryState {
    match first_full_from(st, points, pos, c, 0) {
        Some(s) => VictoryState::Win { winner: c, reason: Some(s) },
        None => if age == 64 {
            VictoryState::Draw
        } else {
            prior
        },
    }
}

/// A board as plain values.
pub struct BoardView {
    pub points: Seq<PointState>,
    pub heights: Seq<u8>,
    pub color: Color,
    pub age: int,
    pub victory: VictoryState,
}

/// The board after the player to move drops a piece into `column`.
pub open spec fn play(v: BoardView, st: Structure, column: int) -> BoardView {
    let pos = column + 16 * v.heights[column];
    let points = v.points.update(pos, PointState::Piece(v.color));
    BoardView {
        points,
        heights: v.heights.update(column, (v.heights[column] + 1) as u8),
        color: v.color.flip(),
        age: v.age + 1,
        victory: outcome_after(st, points, pos, v.color, v.age + 1, v.victory),
    }
}

/// A board: its cells, the player to move, the number of moves made, the
/// outcome so far, and the height of each column.
pub struct State {
    pub points: [PointState; 64],
    pub current_color: Color,
    pub age: u8,
    pub victory_state: VictoryState,
    pub column_height: [u8; 16],
    pub structure: Arc<Structure>,
}

impl State {
    /// The board is one that moves from the empty board can reach: columns
    /// fill from the bottom, `age` counts the pieces, and the players alternate
    /// starting with White.
    pub open spec fn wf(&self) -> bool {
        &&& self.structure.wf()
        &&& forall|c: int| 0 <= c < 16 ==> #[trigger] self.column_height@[c] <= 4
        &&& self.age == height_sum(self.column_height@)
        &&& self.current_color == if self.age % 2 == 0 {
            Color::White
        } else {
            Color::Black
        }
        &&& forall|p: int|
            0 <= p < 64 ==> ((#[trigger] self.points@[p] is Empty) <==> p / 16 >= self.column_height@[p % 16])
    }

    /// The recorded outcome agrees with a scan of every shape on the board.
    pub open spec fn victory_agrees(&self) -> bool {
        let st = *self.structure;
        let pts = self.points@;
        match self.victory_state {
            VictoryState::Undecided => {
                &&& self.age < 64
                &&& !some_full(st, pts, Color::White)
                &&& !some_full(st, pts, Color::Black)
            },
            VictoryState::Win { winner, reason } => {
                &&& reason is Some
                &&& exists|i: int| 0 <= i < st.source@.len() && #[trigger] st.source@[i] == reason->0
                &&& full_of(pts, (reason->0).0, winner)
                &&& !some_full(st, pts, winner.flip())
            },
            VictoryState::Draw => {
                &&& self.age == 64
                &&& !some_full(st, pts, Color::White)
                &&& !some_full(st, pts, Color::Black)
            },
        }
    }

    pub open spec fn view(&self) -> BoardView {
        BoardView {
            points: self.points@,
            heights: self.column_height@,
            color: self.current_color,
            age: self.age as int,
            victory: self.victory_state,
        }
    }

    /// The shapes that this board is played with.
    pub open spec fn rules(&self) -> Structure {
        *self.structure
    }

    pub open spec fn height(&self, column: Position2) -> u8 {
        self.column_height@[column.0 as int]
    }

    pub fn new(structure: Arc<Structure>) -> (r: State)
        requires
            structure.wf(),
        ensures
            r.wf(),
            r.victory_agrees(),
            r.age == 0,
            r.current_color == Color::White,
            r.victory_state == VictoryState::Undecided,
            r.structure == structure,
            forall|p: int| 0 <= p < 64 ==> r.points@[p] == PointState::Empty,
            forall|c: int| 0 <= c < 16 ==> r.column_height@[c] == 0,
    {
        let r = State {
            points: [PointState::Empty; 64],
            current_color: Color::White,
            age: 0,
            victory_state: VictoryState::Undecided,
            column_height: [0; 16],
            structure,
        };
        proof {
            lemma_height_sum_zero(16);
            assert(r.column_height@ =~= Seq::new(16, |i: int| 0u8));
            assert forall|c: Color| !some_full(*r.structure, r.points@, c) by {
                assert forall|i: int| 0 <= i < r.structure.source@.len() implies !full_of(
                    r.points@,
                    #[trigger] r.structure.source@[i].0,
                    c,
                ) by {
                    let m = r.structure.source@[i].0;
                    assert(subset_size(m) > 0);
                    let p = lemma_some_bit(m, 64);
                    assert(has_bit(m, p));
                }
            }
        }
        r
    }

    pub fn at(&self, position: Position3) -> (r: PointState)
        requires
            position.0 < 64,
        ensures
            r == self.points@[position.0 as int],
    {
        self.points[position.0 as usize]
    }

    pub fn column_full(&self, column: Position2) -> (r: bool)
        requires
            column.0 < 16,
        ensures
            r == (self.height(column) == 4),
    {
        self.column_height[column.0 as usize] == 4
    }

    /// Drops a piece of the player to move into `column`; the outcome is
    /// left as it was.
    pub fn insert(&mut self, column: Position2) -> (r: Position3)
        requires
            old(self).wf(),
            column.0 < 16,
            old(self).height(column) < 4,
        ensures
            final(self).wf(),
            r.0 == column.0 + 16 * old(self).height(column),
            old(self).points@[r.0 as int] == PointState::Empty,
            final(self).points@ == old(self).points@.update(r.0 as int, PointState::Piece(old(self).current_color)),
            final(self).column_height@ == old(self).column_height@.update(
                column.0 as int,
                (old(self).height(column) + 1) as u8,
            ),
            final(self).age == old(self).age + 1,
            final(self).current_color == old(self).current_color.flip(),
            final(self).victory_state == old(self).victory_state,
            final(self).structure == old(self).structure,
    {
        let c = column.0;
        let z = self.column_height[c as usize];
        let position = column.with_height(z);
        proof {
            lemma_height_sum_bound(self.column_height@);
            lemma_height_sum_update(self.column_height@, c as int, (z + 1) as u8);
            assert(self.points@[position.0 as int] is Empty);
        }
        let ghost old_points = self.points@;
        let ghost old_heights = self.column_height@;
        self.column_height[c as usize] = z + 1;
        self.points[position.0 as usize] = PointState::Piece(self.current_color);
        self.age = self.age + 1;
        self.current_color = self.current_color.opponent();
        proof {
            assert forall|p: int| 0 <= p < 64 implies ((#[trigger] self.points@[p] is Empty) <==> p / 16
                >= self.column_height@[p % 16]) by {
                assert(old_points[p] is Empty <==> p / 16 >= old_heights[p % 16]);
            }
        }
        position
    }
}

/// A shape with a positive size has a cell below `k` when it counts one there.
proof fn lemma_some_bit(m: u64, k: int) -> (p: int)
    requires
        count_below(m, k) > 0,
    ensures
        0 <= p < k,
        has_bit(m, p),
    decreases k,
{
    if has_bit(m, k - 1) {
        k - 1
    } else {
        lemma_some_bit(m, k - 1)
    }
}

impl State {
    /// Every cell of `subset` holds a piece of `color`.
    pub fn subset_filled_by(&self, subset: Subset, color: Color) -> (r: bool)
        ensures
            r == full_of(self.points@, subset.0, color),
    {
        let mut it = subset.iter();
        loop
            invariant
                it.wf(),
                it.shape() == subset.0,
                forall|q: int| 0 <= q < it.step() && #[trigger] has_bit(subset.0, q) ==> self.points@[q]
                    == PointState::Piece(color),
            decreases 64 - it.step(),
        {
            match it.next() {
                Some(position) => {
                    if self.at(position) != PointState::Piece(color) {
                        return false;
                    }
                },
                None => {
                    return true;
                },
            }
        }
    }

    /// Looks for a full shape of `color` among those through `position` only.
    fn update_victory_state(&mut self, position: Position3, color: Color)
        requires
            old(self).structure.wf(),
            position.0 < 64,
        ensures
            final(self).points == old(self).points,
            final(self).column_height == old(self).column_height,
            final(self).age == old(self).age,
            final(self).current_color == old(self).current_color,
            final(self).structure == old(self).structure,
            completes(*old(self).structure, old(self).points@, position.0 as int, color) ==> {
                &&& final(self).victory_state matches VictoryState::Win { winner, reason }
                &&& winner == color
                &&& reason is Some
                &&& full_of(old(self).points@, (reason->0).0, color)
                &&& has_bit((reason->0).0, position.0 as int)
                &&& exists|i: int|
                    0 <= i < old(self).structure.source@.len() && #[trigger] old(self).structure.source@[i]
                        == reason->0
            },
            !completes(*old(self).structure, old(self).points@, position.0 as int, color) ==> {
                final(self).victory_state == if old(self).age == 64 {
                    VictoryState::Draw
                } else {
                    old(self).victory_state
                }
            },
            final(self).victory_state == outcome_after(
                *old(self).structure,
                old(self).points@,
                position.0 as int,
                color,
                old(self).age as int,
                old(self).victory_state,
            ),
    {
        let structure = self.structure.clone();
        let holders = &structure.reverse[position.0 as usize];
        let shape_count = structure.source.len();
        let mut j: usize = 0;
        while j < holders.len()
            invariant
                *structure == *self.structure,
                structure.wf(),
                shape_count == structure.source@.len(),
                position.0 < 64,
                *holders == structure.reverse@[position.0 as int],
                self.points == old(self).points,
                self.victory_state == old(self).victory_state,
                self.structure == old(self).structure,
                self.age == old(self).age,
                self.column_height == old(self).column_height,
                self.current_color == old(self).current_color,
                j <= holders@.len(),
                first_full_from(*structure, self.points@, position.0 as int, color, 0) == first_full_from(
                    *structure,
                    self.points@,
                    position.0 as int,
                    color,
                    j as int,
                ),
                forall|k: int|
                    0 <= k < j ==> !full_of(
                        self.points@,
                        structure.source@[(#[trigger] holders@[k]) as int].0,
                        color,
                    ),
            decreases holders@.len() - j,
        {
            let index = holders[j];
            let subset = structure.source[index];
            if self.subset_filled_by(subset, color) {
                assert(has_bit(structure.source@[holders@[j as int] as int].0, position.0 as int));
                assert(structure.source@[index as int] == subset);
                self.victory_state = VictoryState::Win { winner: color, reason: Some(subset) };
                return;
            }
            j = j + 1;
        }
        let ghost st: Structure = self.rules();
        proof {
            if completes(st, self.points@, position.0 as int, color) {
                let i = choose|i: int|
                    0 <= i < structure.source@.len() && has_bit(#[trigger] structure.source@[i].0, position.0 as int)
                        && full_of(self.points@, structure.source@[i].0, color);
                assert(holders@.contains(i as usize));
                let k = choose|k: int| 0 <= k < holders@.len() && holders@[k] == i as usize;
                assert(!full_of(self.points@, structure.source@[holders@[k] as int].0, color));
                assert(false);
            }
        }
        if self.age == 64 {
            self.victory_state = VictoryState::Draw;
        }
    }

    /// Plays `column` and updates the outcome by looking only at the shapes
    /// through the new piece.
    pub fn execute(&mut self, column: Position2)
        requires
            old(self).wf(),
            column.0 < 16,
            old(self).height(column) < 4,
        ensures
            final(self).wf(),
            final(self).view() == play(old(self).view(), old(self).rules(), column.0 as int),
            final(self).points@ == old(self).points@.update(
                column.0 + 16 * old(self).height(column),
                PointState::Piece(old(self).current_color),
            ),
            final(self).column_height@ == old(self).column_height@.update(
                column.0 as int,
                (old(self).height(column) + 1) as u8,
            ),
            final(self).age == old(self).age + 1,
            final(self).current_color == old(self).current_color.flip(),
            final(self).structure == old(self).structure,
            completes(
                *final(self).structure,
                final(self).points@,
                column.0 + 16 * old(self).height(column),
                old(self).current_color,
            ) ==> {
                &&& final(self).victory_state matches VictoryState::Win { winner, reason }
                &&& winner == old(self).current_color
                &&& reason is Some
                &&& has_bit((reason->0).0, column.0 + 16 * old(self).height(column))
                &&& full_of(final(self).points@, (reason->0).0, winner)
            },
            !completes(
                *final(self).structure,
                final(self).points@,
                column.0 + 16 * old(self).height(column),
                old(self).current_color,
            ) ==> final(self).victory_state == if final(self).age == 64 {
                VictoryState::Draw
            } else {
                old(self).victory_state
            },
            old(self).victory_state is Undecided && old(self).victory_agrees() ==> final(self).victory_agrees(),
    {
        let ghost before = *self;
        let position = self.insert(column);
        let color = self.current_color.opponent();
        self.update_victory_state(position, color);
        proof {
            if before.victory_state is Undecided && before.victory_agrees() {
                lemma_agrees_after_move(before, *self, position.0 as int);
            }
        }
    }

    /// The columns that still take a piece, in ascending order.
    pub fn legal_actions(&self) -> (r: Vec<Position2>)
        requires
            self.wf(),
        ensures
            forall|i: int| 0 <= i < r@.len() ==> (#[trigger] r@[i]).0 < 16 && self.height(r@[i]) < 4,
            forall|i: int, j: int| 0 <= i < j < r@.len() ==> (#[trigger] r@[i]).0 < (#[trigger] r@[j]).0,
            forall|c: int| 0 <= c < 16 && #[trigger] self.column_height@[c] < 4 ==> r@.contains(Position2(c as u8)),
    {
        let mut r: Vec<Position2> = Vec::new();
        let mut c: u8 = 0;
        while c < 16
            invariant
                c <= 16,
                self.wf(),
                forall|i: int| 0 <= i < r@.len() ==> (#[trigger] r@[i]).0 < c && self.height(r@[i]) < 4,
                forall|i: int, j: int| 0 <= i < j < r@.len() ==> (#[trigger] r@[i]).0 < (#[trigger] r@[j]).0,
                forall|d: int| 0 <= d < c && #[trigger] self.column_height@[d] < 4 ==> r@.contains(Position2(d as u8)),
            decreases 16 - c,
        {
            if self.column_height[c as usize] <= 3 {
                let ghost before = r@;
                r.push(Position2(c));
                assert forall|d: int| 0 <= d < c && #[trigger] self.column_height@[d] < 4 implies r@.contains(Position2(d as u8)) by {
                    let k = choose|k: int| 0 <= k < before.len() && before[k] == Position2(d as u8);
                    assert(r@[k] == Position2(d as u8));
                }
                assert(r@[r@.len() - 1] == Position2(c));
            }
            c = c + 1;
        }
        r
    }
}

/// After a move from an undecided board whose outcome agreed with a full
/// scan, the new outcome agrees too.
proof fn lemma_agrees_after_move(before: State, after: State, pos: int)
    requires
        before.wf(),
        after.wf(),
        before.victory_state is Undecided,
        before.victory_agrees(),
        0 <= pos < 64,
        before.points@[pos] is Empty,
        after.points@ == before.points@.update(pos, PointState::Piece(before.current_color)),
        after.age == before.age + 1,
        after.structure == before.structure,
        completes(*after.structure, after.points@, pos, before.current_color) ==> {
            &&& after.victory_state matches VictoryState::Win { winner, reason }
            &&& winner == before.current_color
            &&& reason is Some
            &&& full_of(after.points@, (reason->0).0, winner)
            &&& exists|i: int|
                0 <= i < after.structure.source@.len() && #[trigger] after.structure.source@[i] == reason->0
        },
        !completes(*after.structure, after.points@, pos, before.current_color) ==> after.victory_state == if after.age
            == 64 {
            VictoryState::Draw
        } else {
            VictoryState::Undecided
        },
    ensures
        after.victory_agrees(),
{
    let st = *after.structure;
    let c = before.current_color;
    assert forall|i: int, x: Color|
        0 <= i < st.source@.len() && !has_bit(st.source@[i].0, pos) && #[trigger] full_of(
            after.points@,
            st.source@[i].0,
            x,
        ) implies full_of(before.points@, st.source@[i].0, x) by {
        assert forall|p: int| #[trigger] has_bit(st.source@[i].0, p) implies before.points@[p] == PointState::Piece(x) by {
            assert(after.points@[p] == PointState::Piece(x));
        }
    }
    assert(!some_full(st, after.points@, c.flip())) by {
        if some_full(st, after.points@, c.flip()) {
            let i = choose|i: int| 0 <= i < st.source@.len() && full_of(after.points@, #[trigger] st.source@[i].0, c.flip());
            if has_bit(st.source@[i].0, pos) {
                assert(after.points@[pos] == PointState::Piece(c.flip()));
            } else {
                assert(full_of(before.points@, st.source@[i].0, c.flip()));
            }
        }
    }
    if !completes(st, after.points@, pos, c) {
        assert(!some_full(st, after.points@, c)) by {
            if some_full(st, after.points@, c) {
                let i = choose|i: int| 0 <= i < st.source@.len() && full_of(after.points@, #[trigger] st.source@[i].0, c);
                if !has_bit(st.source@[i].0, pos) {
                    assert(full_of(before.points@, st.source@[i].0, c));
                }
            }
        }
    }
}

impl Clone for State {
    fn clone(&self) -> (r: State)
        ensures
            r == *self,
    {
        State {
            points: self.points,
            current_color: self.current_color,
            age: self.age,
            victory_state: self.victory_state,
            column_height: self.column_height,
            structure: self.structure.clone(),
        }
    }
}

/// The number of cells below `k` of the shape `m` that hold a piece of `c`.
pub open spec fn count_color(points: Seq<PointState>, m: u64, c: Color, k: int) -> nat
    decreases k,
{
    if k <= 0 {
        0
    } else {
        count_color(points, m, c, k - 1) + if has_bit(m, k - 1) && points[k - 1] == PointState::Piece(c) {
            1nat
        } else {
            0nat
        }
    }
}

/// What the shape `m` looks like on `points`.
pub open spec fn line_state(points: Seq<PointState>, m: u64) -> LineState {
    let w = count_color(points, m, Color::White, 64);
    let b = count_color(points, m, Color::Black, 64);
    let first = if w > 0 {
        Color::White
    } else {
        Color::Black
    };
    if w > 0 && b > 0 {
        LineState::Mixed
    } else if w + b == subset_size(m) {
        LineState::Win(first)
    } else if w + b == 0 {
        LineState::Empty
    } else {
        LineState::Pure { color: first, count: (w + b) as i8 }
    }
}

proof fn lemma_counts_skip(points: Seq<PointState>, m: u64, a: int, b: int)
    requires
        0 <= a <= b,
        forall|q: int| a <= q < b ==> !has_bit(m, q),
    ensures
        count_below(m, b) == count_below(m, a),
        forall|c: Color| count_color(points, m, c, b) == count_color(points, m, c, a),
    decreases b - a,
{
    if a < b {
        lemma_counts_skip(points, m, a, b - 1);
    }
}

proof fn lemma_counts_bound(points: Seq<PointState>, m: u64, k: int)
    requires
        0 <= k,
    ensures
        count_color(points, m, Color::White, k) + count_color(points, m, Color::Black, k) <= count_below(m, k),
        count_below(m, k) <= k,
    decreases k,
{
    if k > 0 {
        lemma_counts_bound(points, m, k - 1);
    }
}

/// Running tallies over the cells of one shape.
struct SubsetStats {
    color: Option<Color>,
    objects: u8,
    full: bool,
    mixed: bool,
}

impl SubsetStats {
    fn add_point(&mut self, new_point: PointState)
        requires
            old(self).objects < 255,
        ensures
            match new_point {
                PointState::Empty => {
                    &&& final(self).objects == old(self).objects
                    &&& final(self).full == false
                    &&& final(self).color == old(self).color
                    &&& final(self).mixed == old(self).mixed
                },
                PointState::Piece(color) => {
                    &&& final(self).objects == old(self).objects + 1
                    &&& final(self).full == old(self).full
                    &&& final(self).color == (if old(self).color is None {
                        Some(color)
                    } else {
                        old(self).color
                    })
                    &&& final(self).mixed == (old(self).mixed || ((old(self).color is Some) && old(self).color
                        != Some(color)))
                },
            },
    {
        match new_point {
            PointState::Empty => self.full = false,
            PointState::Piece(color) => {
                self.objects = self.objects + 1;
                match self.color {
                    None => self.color = Some(color),
                    Some(seen) => {
                        if color != seen {
                            self.mixed = true;
                        }
                    },
                }
            },
        }
    }
}

/// The tallies hold for the cells of `m` below `k`.
spec fn stats_match(stats: SubsetStats, pts: Seq<PointState>, m: u64, k: int) -> bool {
    let w = count_color(pts, m, Color::White, k);
    let b = count_color(pts, m, Color::Black, k);
    &&& stats.objects == w + b
    &&& stats.objects <= k
    &&& stats.full == (w + b == count_below(m, k))
    &&& stats.mixed == (w > 0 && b > 0)
    &&& (stats.color is None <==> w + b == 0)
    &&& (stats.color == Some(Color::White) ==> w > 0)
    &&& (stats.color == Some(Color::Black) ==> b > 0)
}

impl Subset {
    /// Classifies the shape on `state`: empty, pieces of one color, both
    /// colors, or full of one color.
    pub fn win_state(self, state: &State) -> (r: LineState)
        requires
            subset_size(self.0) > 0,
        ensures
            r == line_state(state.points@, self.0),
    {
        let ghost m = self.0;
        let ghost pts = state.points@;
        let mut stats = SubsetStats { color: None, objects: 0, full: true, mixed: false };
        let mut it = self.iter();
        loop
            invariant
                it.wf(),
                it.shape() == m,
                m == self.0,
                pts == state.points@,
                stats_match(stats, pts, m, it.step()),
            ensures
                stats_match(stats, pts, m, 64),
            decreases 64 - it.step(),
        {
            let ghost start = it.step();
            match it.next() {
                Some(position) => {
                    proof {
                        lemma_counts_skip(pts, m, start, position.0 as int);
                        lemma_counts_bound(pts, m, position.0 as int);
                        let p = position.0 as int;
                        assert(count_below(m, p + 1) == count_below(m, p) + 1);
                        assert(count_color(pts, m, Color::White, p + 1) == count_color(pts, m, Color::White, p)
                            + if pts[p] == PointState::Piece(Color::White) { 1nat } else { 0nat });
                        assert(count_color(pts, m, Color::Black, p + 1) == count_color(pts, m, Color::Black, p)
                            + if pts[p] == PointState::Piece(Color::Black) { 1nat } else { 0nat });
                    }
                    let point = state.at(position);
                    let ghost before = stats;
                    stats.add_point(point);
                    proof {
                        // The tallies before this cell held; split on the color seen first.
                        let p = position.0 as int;
                        assert(stats_match(before, pts, m, p));
                        match before.color {
                            Some(Color::White) => {},
                            Some(Color::Black) => {},
                            None => {},
                        }
                        match point {
                            PointState::Piece(Color::White) => {},
                            PointState::Piece(Color::Black) => {},
                            PointState::Empty => {},
                        }
                    }
                },
                None => {
                    proof {
                        lemma_counts_skip(pts, m, start, 64);
                        lemma_counts_bound(pts, m, 64);
                    }
                    break;
                },
            }
        }
        if stats.mixed {
            LineState::Mixed
        } else if stats.full {
            match stats.color {
                Some(color) => LineState::Win(color),
                None => LineState::Win(Color::White),
            }
        } else {
            match stats.color {
                None => LineState::Empty,
                Some(color) => LineState::Pure { color, count: stats.objects as i8 },
            }
        }
    }
}

impl Structure {
    /// Builds the structure when all shapes have the same positive size, and
    /// gives `None` otherwise.
    pub fn try_new(victory_objects: &[u64]) -> (r: Option<Structure>)
        ensures
            r is Some <==> uniform_sizes(victory_objects@),
            r matches Some(st) ==> {
                &&& st.wf()
                &&& st.source@.len() == victory_objects@.len()
                &&& forall|i: int| 0 <= i < st.source@.len() ==> (#[trigger] st.source@[i]).0 == victory_objects@[i]
            },
    {
        if victory_objects.len() > MAX_SHAPES {
            return None;
        }
        let mut sizes = EqualityVerifier::NoValue;
        let mut i: usize = 0;
        while i < victory_objects.len()
            invariant
                i <= victory_objects@.len(),
                i == 0 ==> sizes is NoValue,
                i > 0 ==> sizes is Value || sizes is Conflict,
                sizes matches EqualityVerifier::Value(v) ==> v == subset_size(victory_objects@[0]) && forall|k: int|
                    0 <= k < i ==> subset_size(#[trigger] victory_objects@[k]) == v,
                sizes is Conflict ==> exists|k: int|
                    0 <= k < i && subset_size(#[trigger] victory_objects@[k]) != subset_size(victory_objects@[0]),
            decreases victory_objects@.len() - i,
        {
            let size = Subset(victory_objects[i]).size();
            sizes = sizes.update(size);
            i = i + 1;
        }
        match sizes {
            EqualityVerifier::Value(v) => {
                if v == 0 {
                    None
                } else {
                    Some(Structure::new(victory_objects))
                }
            },
            _ => None,
        }
    }
}

/// On a board with fewer than 64 pieces some column takes a piece.
pub proof fn lemma_open_column(state: State)
    requires
        state.wf(),
        state.age < 64,
    ensures
        exists|c: int| 0 <= c < 16 && #[trigger] state.column_height@[c] < 4,
{
    lemma_height_sum_bound(state.column_height@);
    if forall|c: int| 0 <= c < 16 ==> #[trigger] state.column_height@[c] >= 4 {
        lemma_height_sum_all_full(state.column_height@);
    }
}

proof fn lemma_height_sum_all_full(s: Seq<u8>)
    requires
        forall|i: int| 0 <= i < s.len() ==> #[trigger] s[i] >= 4,
    ensures
        height_sum(s) >= 4 * s.len(),
    decreases s.len(),
{
    if s.len() > 0 {
        lemma_height_sum_all_full(s.drop_last());
    }
}

/// The heights of a board's view are its column heights.
pub proof fn lemma_view_heights(state: State)
    ensures
        state.view().heights == state.column_height@,
        state.view().points == state.points@,
{
}

/// The count of a shape held by one color is between 1 and 64.
pub proof fn lemma_line_count(points: Seq<PointState>, m: u64)
    ensures
        line_state(points, m) matches LineState::Pure { count, .. } ==> 0 < count <= 64,
{
    lemma_counts_bound(points, m, 64);
}

/// A move adds one piece to the board's count and one to its column, and
/// passes the turn.
pub proof fn lemma_play_counts(v: BoardView, st: Structure, column: int)
    ensures
        play(v, st, column).age == v.age + 1,
        play(v, st, column).color == v.color.flip(),
        play(v, st, column).heights == v.heights.update(column, (v.heights[column] + 1) as u8),
{
}

} // verus!

use vstd::prelude::*;
use crate::game::{count_below, has_bit, subset_size, uniform_sizes, Color, LineState};

verus! {

/// The cell number of the coordinates `(x, y, z)`.
pub open spec fn flat(x: int, y: int, z: int) -> int {
    x + 4 * y + 16 * z
}

pub open spec fn on_board(x: int, y: int, z: int) -> bool {
    0 <= x <= 3 && 0 <= y <= 3 && 0 <= z <= 3
}

pub fn flatten(x: i8, y: i8, z: i8) -> (r: i8)
    requires
        on_board(x as int, y as int, z as int),
    ensures
        r == flat(x as int, y as int, z as int),
        0 <= r < 64,
{
    x + 4 * y + 16 * z
}

/// A cell of the board.
#[derive(Copy, Clone, Debug)]
pub struct Point {
    pub x: i8,
    pub y: i8,
    pub z: i8,
    pub flat_coordinate: i8,
}

impl Point {
    pub fn new(x: i8, y: i8, z: i8) -> (r: Point)
        requires
            on_board(x as int, y as int, z as int),
        ensures
            r.x == x && r.y == y && r.z == z,
            r.flat_coordinate == flat(x as int, y as int, z as int),
            0 <= r.flat_coordinate < 64,
    {
        Point { x, y, z, flat_coordinate: flatten(x, y, z) }
    }
}

/// Four cells in a row, from `(x, y, z)` in steps of `(dx, dy, dz)`.
pub struct Line {
    pub points: [Point; 4],
}

/// The line from `(x, y, z)` in steps of `(dx, dy, dz)` stays on the board.
pub open spec fn line_fits(x: int, y: int, z: int, dx: int, dy: int, dz: int) -> bool {
    on_board(x, y, z) && on_board(x + 3 * dx, y + 3 * dy, z + 3 * dz)
}

/// The shape of the line from `(x, y, z)` in steps of `(dx, dy, dz)`.
pub open spec fn line_mask(x: int, y: int, z: int, dx: int, dy: int, dz: int) -> u64 {
    (1u64 << (flat(x, y, z) as u64)) | (1u64 << (flat(x + dx, y + dy, z + dz) as u64)) | (1u64 << (flat(
        x + 2 * dx,
        y + 2 * dy,
        z + 2 * dz,
    ) as u64)) | (1u64 << (flat(x + 3 * dx, y + 3 * dy, z + 3 * dz) as u64))
}

impl Line {
    pub fn new(x: i8, y: i8, z: i8, dx: i8, dy: i8, dz: i8) -> (r: Line)
        requires
            line_fits(x as int, y as int, z as int, dx as int, dy as int, dz as int),
        ensures
            r.points@[0].flat_coordinate == flat(x as int, y as int, z as int),
            r.points@[1].flat_coordinate == flat(x + dx, y + dy, z + dz),
            r.points@[2].flat_coordinate == flat(x + 2 * dx, y + 2 * dy, z + 2 * dz),
            r.points@[3].flat_coordinate == flat(x + 3 * dx, y + 3 * dy, z + 3 * dz),
            forall|k: int| 0 <= k < 4 ==> 0 <= (#[trigger] r.points@[k]).flat_coordinate < 64,
    {
        let point1 = Point::new(x, y, z);
        let point2 = Point::new(x + dx, y + dy, z + dz);
        let point3 = Point::new(x + 2 * dx, y + 2 * dy, z + 2 * dz);
        let point4 = Point::new(x + 3 * dx, y + 3 * dy, z + 3 * dz);
        Line { points: [point1, point2, point3, point4] }
    }

    /// The line as a shape: one bit per cell.
    pub fn mask(&self) -> (r: u64)
        requires
            forall|k: int| 0 <= k < 4 ==> 0 <= (#[trigger] self.points@[k]).flat_coordinate < 64,
        ensures
            r == (1u64 << (self.points@[0].flat_coordinate as u64)) | (1u64 << (self.points@[1].flat_coordinate as u64))
                | (1u64 << (self.points@[2].flat_coordinate as u64)) | (1u64 << (
            self.points@[3].flat_coordinate as u64)),
    {
        (1u64 << (self.points[0].flat_coordinate as u64)) | (1u64 << (self.points[1].flat_coordinate as u64)) | (1u64
            << (self.points[2].flat_coordinate as u64)) | (1u64 << (self.points[3].flat_coordinate as u64))
    }
}

fn push_line(masks: &mut Vec<u64>, x: i8, y: i8, z: i8, dx: i8, dy: i8, dz: i8)
    requires
        line_fits(x as int, y as int, z as int, dx as int, dy as int, dz as int),
    ensures
        final(masks)@ == old(masks)@.push(line_mask(x as int, y as int, z as int, dx as int, dy as int, dz as int)),
{
    let line = Line::new(x, y, z, dx, dy, dz);
    masks.push(line.mask());
}

/// The 76 lines of four cells of the cube: 48 along the axes, 24 diagonals
/// of the faces parallel to the axes, and 4 through the center. Line `k` is
/// the one from `standard_line(k)`; each has four cells.
pub fn standard_lines() -> (r: Vec<u64>)
    ensures
        r@.len() == 76,
        forall|k: int| 0 <= k < 76 ==> #[trigger] r@[k] == standard_mask(k),
        forall|k: int| 0 <= k < 76 ==> subset_size(#[trigger] r@[k]) == 4,
        uniform_sizes(r@),
{
    let mut masks: Vec<u64> = Vec::new();
    let mut a: i8 = 0;
    while a < 4
        invariant
            0 <= a <= 4,
            masks@.len() == 18 * a,
            forall|k: int| 0 <= k < masks@.len() ==> #[trigger] masks@[k] == standard_mask(k),
        decreases 4 - a,
    {
        let mut b: i8 = 0;
        while b < 4
            invariant
                0 <= a < 4,
                0 <= b <= 4,
                masks@.len() == 18 * a + 3 * b,
                forall|k: int| 0 <= k < masks@.len() ==> #[trigger] masks@[k] == standard_mask(k),
            decreases 4 - b,
        {
            let ghost k = 18 * a + 3 * b;
            assert(standard_line(k) == (a as int, b as int, 0int, 0int, 0int, 1int));
            assert(standard_line(k + 1) == (0int, a as int, b as int, 1int, 0int, 0int));
            assert(standard_line(k + 2) == (b as int, 0int, a as int, 0int, 1int, 0int));
            push_line(&mut masks, a, b, 0, 0, 0, 1);
            push_line(&mut masks, 0, a, b, 1, 0, 0);
            push_line(&mut masks, b, 0, a, 0, 1, 0);
            b = b + 1;
        }
        let ghost k = 18 * a + 12;
        assert(standard_line(k) == (a as int, 0int, 0int, 0int, 1int, 1int));
        assert(standard_line(k + 1) == (0int, a as int, 0int, 1int, 0int, 1int));
        assert(standard_line(k + 2) == (0int, 0int, a as int, 1int, 1int, 0int));
        assert(standard_line(k + 3) == (a as int, 3int, 0int, 0int, -1int, 1int));
        assert(standard_line(k + 4) == (0int, a as int, 3int, 1int, 0int, -1int));
        assert(standard_line(k + 5) == (3int, 0int, a as int, -1int, 1int, 0int));
        push_line(&mut masks, a, 0, 0, 0, 1, 1);
        push_line(&mut masks, 0, a, 0, 1, 0, 1);
        push_line(&mut masks, 0, 0, a, 1, 1, 0);
        push_line(&mut masks, a, 3, 0, 0, -1, 1);
        push_line(&mut masks, 0, a, 3, 1, 0, -1);
        push_line(&mut masks, 3, 0, a, -1, 1, 0);
        a = a + 1;
    }
    push_line(&mut masks, 0, 0, 0, 1, 1, 1);
    push_line(&mut masks, 3, 0, 0, -1, 1, 1);
    push_line(&mut masks, 3, 3, 0, -1, -1, 1);
    push_line(&mut masks, 0, 3, 0, 1, -1, 1);
    proof {
        assert forall|k: int| 0 <= k < 76 implies subset_size(#[trigger] masks@[k]) == 4 by {
            lemma_standard_line_fits(k);
        }
        assert(subset_size(masks@[0]) == 4);
    }
    masks
}

/// A line after one more piece of `new_color` lands on it: four pieces of
/// one color win it, two colors spoil it.
pub fn add_ball(line_state: LineState, new_color: Color) -> (r: LineState)
    requires
        !(line_state is Win),
        line_state matches LineState::Pure { count, .. } ==> 0 < count < 4,
    ensures
        match line_state {
            LineState::Empty => r == LineState::Pure { color: new_color, count: 1 },
            LineState::Pure { color, count } => if color != new_color {
                r == LineState::Mixed
            } else if count == 3 {
                r == LineState::Win(color)
            } else {
                r == LineState::Pure { color, count: (count + 1) as i8 }
            },
            _ => r == LineState::Mixed,
        },
{
    match line_state {
        LineState::Empty => LineState::Pure { color: new_color, count: 1 },
        LineState::Pure { color: current_color, count: old_count } => {
            if current_color != new_color {
                LineState::Mixed
            } else if old_count == 3 {
                LineState::Win(current_color)
            } else {
                LineState::Pure { color: current_color, count: old_count + 1 }
            }
        },
        _ => LineState::Mixed,
    }
}

/// Bit `p` of the mask of cells `a`, `b`, `c`, `d` is set exactly when `p`
/// is one of them.
proof fn lemma_four_bits(a: u64, b: u64, c: u64, d: u64, p: u64)
    requires
        a < 64,
        b < 64,
        c < 64,
        d < 64,
        p < 64,
    ensures
        (((1u64 << a) | (1u64 << b) | (1u64 << c) | (1u64 << d)) >> p) % 2 == 1 <==> (p == a || p == b || p == c
            || p == d),
{
    assert((((1u64 << a) | (1u64 << b) | (1u64 << c) | (1u64 << d)) >> p) % 2 == 1 <==> (p == a || p == b || p
        == c || p == d)) by (bit_vector)
        requires
            a < 64,
            b < 64,
            c < 64,
            d < 64,
            p < 64,
    ;
}

spec fn below(v: u64, k: int) -> nat {
    if (v as int) < k {
        1
    } else {
        0
    }
}

proof fn lemma_four_count(a: u64, b: u64, c: u64, d: u64, k: int)
    requires
        a < 64 && b < 64 && c < 64 && d < 64,
        a != b && a != c && a != d && b != c && b != d && c != d,
        0 <= k <= 64,
    ensures
        count_below((1u64 << a) | (1u64 << b) | (1u64 << c) | (1u64 << d), k) == below(a, k) + below(b, k) + below(c, k)
            + below(d, k),
    decreases k,
{
    if k > 0 {
        lemma_four_count(a, b, c, d, k - 1);
        lemma_four_bits(a, b, c, d, (k - 1) as u64);
    }
}

/// A direction of one step along some axes, not standing still.
pub open spec fn unit_step(dx: int, dy: int, dz: int) -> bool {
    -1 <= dx <= 1 && -1 <= dy <= 1 && -1 <= dz <= 1 && !(dx == 0 && dy == 0 && dz == 0)
}

/// A line that stays on the board covers four cells.
pub proof fn lemma_line_size(x: int, y: int, z: int, dx: int, dy: int, dz: int)
    requires
        line_fits(x, y, z, dx, dy, dz),
        unit_step(dx, dy, dz),
    ensures
        subset_size(line_mask(x, y, z, dx, dy, dz)) == 4,
{
    let f0 = flat(x, y, z);
    let f1 = flat(x + dx, y + dy, z + dz);
    let f2 = flat(x + 2 * dx, y + 2 * dy, z + 2 * dz);
    let f3 = flat(x + 3 * dx, y + 3 * dy, z + 3 * dz);
    assert(f1 - f0 == dx + 4 * dy + 16 * dz);
    assert(f2 - f0 == 2 * (dx + 4 * dy + 16 * dz));
    assert(f3 - f0 == 3 * (dx + 4 * dy + 16 * dz));
    assert(dx + 4 * dy + 16 * dz != 0);
    lemma_four_count(f0 as u64, f1 as u64, f2 as u64, f3 as u64, 64);
}

/// Start and step of line `k` of the standard set, in the order that
/// `standard_lines` gives them.
pub open spec fn standard_line(k: int) -> (int, int, int, int, int, int) {
    if k < 72 {
        let a = k / 18;
        let r = k % 18;
        if r < 12 {
            let b = r / 3;
            let t = r % 3;
            if t == 0 {
                (a, b, 0, 0, 0, 1)
            } else if t == 1 {
                (0, a, b, 1, 0, 0)
            } else {
                (b, 0, a, 0, 1, 0)
            }
        } else if r == 12 {
            (a, 0, 0, 0, 1, 1)
        } else if r == 13 {
            (0, a, 0, 1, 0, 1)
        } else if r == 14 {
            (0, 0, a, 1, 1, 0)
        } else if r == 15 {
            (a, 3, 0, 0, -1, 1)
        } else if r == 16 {
            (0, a, 3, 1, 0, -1)
        } else {
            (3, 0, a, -1, 1, 0)
        }
    } else if k == 72 {
        (0, 0, 0, 1, 1, 1)
    } else if k == 73 {
        (3, 0, 0, -1, 1, 1)
    } else if k == 74 {
        (3, 3, 0, -1, -1, 1)
    } else {
        (0, 3, 0, 1, -1, 1)
    }
}

/// The shape of line `k` of the standard set.
pub open spec fn standard_mask(k: int) -> u64 {
    let l = standard_line(k);
    line_mask(l.0, l.1, l.2, l.3, l.4, l.5)
}

proof fn lemma_standard_line_fits(k: int)
    requires
        0 <= k < 76,
    ensures
        ({
            let l = standard_line(k);
            line_fits(l.0, l.1, l.2, l.3, l.4, l.5) && unit_step(l.3, l.4, l.5)
        }),
        subset_size(standard_mask(k)) == 4,
{
    let l = standard_line(k);
    assert(line_fits(l.0, l.1, l.2, l.3, l.4, l.5) && unit_step(l.3, l.4, l.5));
    lemma_line_size(l.0, l.1, l.2, l.3, l.4, l.5);
}

} // verus!

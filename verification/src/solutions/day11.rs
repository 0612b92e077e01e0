//! The painting robot's vocabulary: hull colors, turn commands, the
//! heading after a turn, and one step of movement.

use vstd::prelude::*;

verus! {

/// A hull panel color.
#[derive(Debug, Clone, Copy, PartialEq, Eq, Structural)]
pub enum Color {
    Black,
    White,
}

/// A turn command the machine emits.
#[derive(Debug, Clone, Copy, PartialEq, Eq, Structural)]
pub enum Turn {
    Left,
    Right,
}

/// The robot's heading.
#[derive(Debug, Clone, Copy, PartialEq, Eq, Structural)]
pub enum Direction {
    Up,
    Left,
    Down,
    Right,
}

impl Color {
    /// The value the camera reports for this color.
    pub fn into(self) -> (r: i64)
        ensures
            r == color_code(self),
    {
        match self {
            Color::Black => 0,
            Color::White => 1,
        }
    }

    /// The color a paint command names. Meaningful for 0 and 1.
    pub fn from(n: i64) -> (r: Color)
        requires
            n == 0 || n == 1,
        ensures
            r == color_of(n),
    {
        match n {
            0 => Color::Black,
            _ => Color::White,
        }
    }
}

/// The value the camera reports for a color.
pub open spec fn color_code(c: Color) -> i64 {
    match c {
        Color::Black => 0,
        Color::White => 1,
    }
}

/// The color a paint command names.
pub open spec fn color_of(n: i64) -> Color {
    if n == 0 {
        Color::Black
    } else {
        Color::White
    }
}

/// The turn a command value names.
pub open spec fn turn_of(n: i64) -> Turn {
    if n == 0 {
        Turn::Left
    } else {
        Turn::Right
    }
}

impl Turn {
    /// The turn a command value names. Meaningful for 0 and 1.
    pub fn from(n: i64) -> (r: Turn)
        requires
            n == 0 || n == 1,
        ensures
            r == turn_of(n),
    {
        match n {
            0 => Turn::Left,
            _ => Turn::Right,
        }
    }
}

/// The heading after turning.
pub open spec fn turn_spec(d: Direction, t: Turn) -> Direction {
    match d {
        Direction::Up => match t {
            Turn::Left => Direction::Left,
            Turn::Right => Direction::Right,
        },
        Direction::Down => match t {
            Turn::Left => Direction::Right,
            Turn::Right => Direction::Left,
        },
        Direction::Left => match t {
            Turn::Left => Direction::Down,
            Turn::Right => Direction::Up,
        },
        Direction::Right => match t {
            Turn::Left => Direction::Up,
            Turn::Right => Direction::Down,
        },
    }
}

impl Direction {
    /// The heading after turning left or right from this one.
    pub fn turn(self, t: Turn) -> (r: Direction)
        ensures
            r == turn_spec(self, t),
    {
        match self {
            Direction::Up => match t {
                Turn::Left => Direction::Left,
                Turn::Right => Direction::Right,
            },
            Direction::Down => match t {
                Turn::Left => Direction::Right,
                Turn::Right => Direction::Left,
            },
            Direction::Left => match t {
                Turn::Left => Direction::Down,
                Turn::Right => Direction::Up,
            },
            Direction::Right => match t {
                Turn::Left => Direction::Up,
                Turn::Right => Direction::Down,
            },
        }
    }
}

/// One step of movement along a heading, on the grid the robot paints.
pub open spec fn go_spec(x: int, y: int, d: Direction) -> (int, int) {
    match d {
        Direction::Up => (x, y + 1),
        Direction::Down => (x, y - 1),
        Direction::Left => (x - 1, y),
        Direction::Right => (x + 1, y),
    }
}

/// One step of movement along a heading.
pub fn go(x: i64, y: i64, dir: Direction) -> (r: (i64, i64))
    requires
        i64::MIN < x < i64::MAX,
        i64::MIN < y < i64::MAX,
    ensures
        (r.0 as int, r.1 as int) == go_spec(x as int, y as int, dir),
{
    match dir {
        Direction::Up => (x, y + 1),
        Direction::Down => (x, y - 1),
        Direction::Left => (x - 1, y),
        Direction::Right => (x + 1, y),
    }
}

} // verus!

verus! {

/// The camera's view of a canvas at one panel: the color last painted
/// there, black where nothing ever was.
pub open spec fn camera_spec(canvas: Seq<((i64, i64), Color)>, loc: (i64, i64)) -> Color {
    if exists|i: int| 0 <= i < canvas.len() && (#[trigger] canvas[i]).0 == loc {
        canvas[last_paint_at(canvas, loc)].1
    } else {
        Color::Black
    }
}

/// The latest paint record for one panel.
pub open spec fn last_paint_at(canvas: Seq<((i64, i64), Color)>, loc: (i64, i64)) -> int
    decreases canvas.len(),
{
    if canvas.len() == 0 {
        0
    } else if canvas.last().0 == loc {
        canvas.len() - 1
    } else {
        last_paint_at(canvas.drop_last(), loc)
    }
}

proof fn lemma_last_paint_at(canvas: Seq<((i64, i64), Color)>, loc: (i64, i64), i: int)
    requires
        0 <= i < canvas.len(),
        canvas[i].0 == loc,
        forall|j: int| i < j < canvas.len() ==> (#[trigger] canvas[j]).0 != loc,
    ensures
        last_paint_at(canvas, loc) == i,
    decreases canvas.len(),
{
    if i + 1 < canvas.len() {
        lemma_last_paint_at(canvas.drop_last(), loc, i);
    }
}

/// What the camera reports at `loc`.
pub fn camera_color(canvas: &Vec<((i64, i64), Color)>, loc: (i64, i64)) -> (r: Color)
    ensures
        r == camera_spec(canvas@, loc),
{
    let mut j = canvas.len();
    while j > 0
        invariant
            j <= canvas@.len(),
            forall|t: int| j <= t < canvas@.len() ==> (#[trigger] canvas@[t]).0 != loc,
        decreases j,
    {
        j = j - 1;
        let rec = canvas[j];
        if rec.0.0 == loc.0 && rec.0.1 == loc.1 {
            proof {
                assert(canvas@[j as int].0 == loc);
                lemma_last_paint_at(canvas@, loc, j as int);
            }
            return rec.1;
        }
        proof {
            assert(canvas@[j as int].0 != loc);
        }
    }
    proof {
        if exists|i: int| 0 <= i < canvas@.len() && (#[trigger] canvas@[i]).0 == loc {
            let i = choose|i: int| 0 <= i < canvas@.len() && (#[trigger] canvas@[i]).0 == loc;
            assert(false);
        }
    }
    Color::Black
}

/// The robot's course after obeying the first `k` paint-and-turn
/// pairs of the machine's outputs: its canvas records (in painting
/// order), where it stands, and where it faces. The walk is kept to a
/// bounded board so positions always fit their words.
pub open spec fn replay(outs: Seq<i64>, start_white: bool, k: int) -> (
    Seq<((i64, i64), Color)>,
    (i64, i64),
    Direction,
)
    decreases k,
{
    if k <= 0 {
        (
            if start_white {
                seq![(((0i64, 0i64)), Color::White)]
            } else {
                Seq::empty()
            },
            (0, 0),
            Direction::Up,
        )
    } else {
        let (canvas, loc, facing) = replay(outs, start_white, k - 1);
        let color = color_of(outs[2 * (k - 1)]);
        let turn = turn_of(outs[2 * (k - 1) + 1]);
        let canvas2 = canvas.push((loc, color));
        let facing2 = turn_spec(facing, turn);
        let moved = go_spec(loc.0 as int, loc.1 as int, facing2);
        let loc2 = (
            if -0x1000_0000_0000 <= moved.0 <= 0x1000_0000_0000 {
                moved.0 as i64
            } else {
                loc.0
            },
            if -0x1000_0000_0000 <= moved.1 <= 0x1000_0000_0000 {
                moved.1 as i64
            } else {
                loc.1
            },
        );
        (canvas2, loc2, facing2)
    }
}

/// Replays the machine's paint-and-turn pairs into the hull canvas,
/// handing back the records, the final position, and the final
/// heading.
pub fn replay_paint(outs: &Vec<i64>, start_white: bool) -> (r: (
    Vec<((i64, i64), Color)>,
    (i64, i64),
    Direction,
))
    requires
        forall|i: int| 0 <= i < outs@.len() ==> 0 <= #[trigger] outs@[i] <= 1,
    ensures
        ({
            let (canvas, loc, facing) = replay(outs@, start_white, outs@.len() as int / 2);
            r.0@ == canvas && r.1 == loc && r.2 == facing
        }),
{
    let mut canvas: Vec<((i64, i64), Color)> = Vec::new();
    if start_white {
        canvas.push(((0, 0), Color::White));
    }
    let mut loc: (i64, i64) = (0, 0);
    let mut facing = Direction::Up;
    let n = outs.len();
    let np = n / 2;
    proof {
        assert(canvas@ =~= replay(outs@, start_white, 0).0);
        assert(2 * (np as int) <= n as int) by (nonlinear_arith)
            requires
                np == n as int / 2,
        ;
    }
    let mut k: usize = 0;
    while k < np
        invariant
            k <= np,
            n == outs@.len(),
            np == n as int / 2,
            2 * (np as int) <= n as int,
            forall|i: int| 0 <= i < outs@.len() ==> 0 <= #[trigger] outs@[i] <= 1,
            canvas@ == replay(outs@, start_white, k as int).0,
            loc == replay(outs@, start_white, k as int).1,
            facing == replay(outs@, start_white, k as int).2,
            -0x1000_0000_0000 <= loc.0 <= 0x1000_0000_0000,
            -0x1000_0000_0000 <= loc.1 <= 0x1000_0000_0000,
        decreases np - k,
    {
        let color = Color::from(outs[2 * k]);
        let turn = Turn::from(outs[2 * k + 1]);
        canvas.push((loc, color));
        facing = facing.turn(turn);
        let moved = go(loc.0, loc.1, facing);
        if -0x1000_0000_0000 <= moved.0 && moved.0 <= 0x1000_0000_0000 && -0x1000_0000_0000
            <= moved.1 && moved.1 <= 0x1000_0000_0000 {
            loc = moved;
        }
        k = k + 1;
    }
    (canvas, loc, facing)
}

/// How many distinct panels the canvas ever painted: records whose
/// panel appears in no earlier record.
pub open spec fn panels_painted(canvas: Seq<((i64, i64), Color)>, k: int) -> int
    decreases k,
{
    if k <= 0 {
        0
    } else {
        panels_painted(canvas, k - 1) + if exists|j: int|
            0 <= j < k - 1 && (#[trigger] canvas[j]).0 == canvas[k - 1].0 {
            0int
        } else {
            1int
        }
    }
}

/// Counts the distinct panels a canvas painted.
pub fn count_panels(canvas: &Vec<((i64, i64), Color)>) -> (r: usize)
    ensures
        r == panels_painted(canvas@, canvas@.len() as int),
{
    let mut cnt: usize = 0;
    let mut k: usize = 0;
    while k < canvas.len()
        invariant
            k <= canvas@.len(),
            cnt == panels_painted(canvas@, k as int),
            cnt <= k,
        decreases canvas@.len() - k,
    {
        let cur = canvas[k];
        let mut seen = false;
        let mut j: usize = 0;
        while j < k
            invariant
                j <= k < canvas@.len(),
                cur == canvas@[k as int],
                seen == exists|t: int| 0 <= t < j && (#[trigger] canvas@[t]).0 == canvas@[
                    k as int].0,
            decreases k - j + if seen {
                0int
            } else {
                1int
            },
        {
            let rec = canvas[j];
            if rec.0.0 == cur.0.0 && rec.0.1 == cur.0.1 {
                proof {
                    assert(canvas@[j as int].0 == canvas@[k as int].0);
                }
                seen = true;
                j = k;
            } else {
                proof {
                    assert(canvas@[j as int].0 != canvas@[k as int].0);
                }
                j = j + 1;
            }
        }
        if !seen {
            cnt = cnt + 1;
        }
        k = k + 1;
    }
    cnt
}

} // verus!

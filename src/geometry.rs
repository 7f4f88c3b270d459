//! Board coordinates, distances and moves.
use vstd::prelude::*;

verus! {

/// Largest board side the library handles: every flat index `x * size + y`
/// fits in `usize` and every path cost fits in `u64`.
pub const MAX_SIZE: usize = 32768;

/// Cost of one cardinal step.
pub const STEP_COST: u64 = 10;

/// A board position: `x` selects the row, `y` the column; `y` grows to the south.
#[derive(Debug, Clone, Copy, PartialEq, Eq, Structural, Hash)]
pub struct UVector2 {
    pub x: usize,
    pub y: usize,
}

/// A signed offset or position, used where coordinates may step off the board.
#[derive(Debug, Clone, Copy, PartialEq, Eq, Structural)]
pub struct IVector2 {
    pub x: isize,
    pub y: isize,
}

impl<'a> From<&'a UVector2> for IVector2 {
    fn from(vec: &'a UVector2) -> (r: IVector2) {
        IVector2 { x: vec.x as isize, y: vec.y as isize }
    }
}

impl<'a> vstd::std_specs::convert::FromSpecImpl<&'a UVector2> for IVector2 {
    open spec fn obeys_from_spec() -> bool {
        true
    }

    open spec fn from_spec(vec: &'a UVector2) -> IVector2 {
        IVector2 { x: vec.x as isize, y: vec.y as isize }
    }
}

pub open spec fn abs_of(v: isize) -> int {
    if v >= 0 { v as int } else { -(v as int) }
}

impl<'a> From<&'a IVector2> for UVector2 {
    /// The magnitude of each coordinate.
    fn from(vec: &'a IVector2) -> (r: UVector2) {
        let x: usize = if vec.x >= 0 { vec.x as usize } else { (-(vec.x + 1)) as usize + 1 };
        let y: usize = if vec.y >= 0 { vec.y as usize } else { (-(vec.y + 1)) as usize + 1 };
        UVector2 { x: x, y: y }
    }
}

impl<'a> vstd::std_specs::convert::FromSpecImpl<&'a IVector2> for UVector2 {
    open spec fn obeys_from_spec() -> bool {
        true
    }

    open spec fn from_spec(vec: &'a IVector2) -> UVector2 {
        UVector2 { x: abs_of(vec.x) as usize, y: abs_of(vec.y) as usize }
    }
}

/// One of the five legal moves of a turn.
#[derive(Debug, Clone, Copy, PartialEq, Eq, Structural)]
pub enum Dir {
    North,
    East,
    South,
    West,
    Stay,
}

pub open spec fn abs_diff(a: int, b: int) -> int {
    if a >= b { a - b } else { b - a }
}

/// Number of cardinal steps between two positions on an open board.
pub open spec fn manhattan(a: UVector2, b: UVector2) -> int {
    abs_diff(a.x as int, b.x as int) + abs_diff(a.y as int, b.y as int)
}

/// The two positions are one cardinal step apart.
pub open spec fn adjacent(a: UVector2, b: UVector2) -> bool {
    manhattan(a, b) == 1
}

/// Estimated cost from `p` to `target`: ten per cardinal step.
pub open spec fn heuristic_spec(p: UVector2, target: UVector2) -> int {
    10 * manhattan(p, target)
}

pub open spec fn within_max(p: UVector2) -> bool {
    p.x < MAX_SIZE && p.y < MAX_SIZE
}

/// Manhattan estimate of the cost from `pos` to `target`.
pub fn heuristic(pos: &UVector2, target: &UVector2) -> (r: u64)
    requires
        within_max(*pos),
        within_max(*target),
    ensures
        r == heuristic_spec(*pos, *target),
{
    let dx: usize = if pos.x >= target.x { pos.x - target.x } else { target.x - pos.x };
    let dy: usize = if pos.y >= target.y { pos.y - target.y } else { target.y - pos.y };
    10 * ((dx + dy) as u64)
}

/// The move that takes a unit from `cur` to `next`; `Stay` for anything but
/// one cardinal step. North lowers `y`, South raises it, East lowers `x` and
/// West raises it.
pub open spec fn direction_spec(cur: UVector2, next: UVector2) -> Dir {
    if next.x == cur.x && next.y + 1 == cur.y {
        Dir::North
    } else if next.y == cur.y && next.x + 1 == cur.x {
        Dir::East
    } else if next.x == cur.x && next.y == cur.y + 1 {
        Dir::South
    } else if next.y == cur.y && next.x == cur.x + 1 {
        Dir::West
    } else {
        Dir::Stay
    }
}

/// Triangle inequality of the step distance.
pub proof fn lemma_manhattan_triangle(a: UVector2, b: UVector2, c: UVector2)
    ensures
        manhattan(a, c) <= manhattan(a, b) + manhattan(b, c),
{
}

} // verus!

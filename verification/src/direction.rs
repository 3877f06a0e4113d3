use vstd::prelude::*;

verus! {

/// One of the four grid-relative moves. `x` grows to the right, `y` grows
/// downward, so `Top` is the move toward smaller `y`.
#[derive(Clone, Copy, Debug, PartialEq, Eq, Structural)]
pub enum Direction {
    Top,
    Left,
    Bottom,
    Right,
}

impl Direction {
    /// The unit coordinate delta of this move.
    pub open spec fn delta_spec(self) -> (int, int) {
        match self {
            Direction::Top => (0int, -1int),
            Direction::Left => (-1int, 0int),
            Direction::Bottom => (0int, 1int),
            Direction::Right => (1int, 0int),
        }
    }

    /// The numeric index of this move, used for 90-degree rotation by
    /// modular arithmetic.
    pub open spec fn index_spec(self) -> u8 {
        match self {
            Direction::Top => 0u8,
            Direction::Left => 1u8,
            Direction::Bottom => 2u8,
            Direction::Right => 3u8,
        }
    }

    /// The move with index `n` modulo four; indices above three fall back to
    /// `Top`, and only arise from callers that skipped the modulus.
    pub open spec fn from_number_spec(n: u8) -> Direction {
        if n == 1 {
            Direction::Left
        } else if n == 2 {
            Direction::Bottom
        } else if n == 3 {
            Direction::Right
        } else {
            Direction::Top
        }
    }

    /// The move that leads back: the side a neighbor sees toward this cell.
    pub open spec fn opposite_spec(self) -> Direction {
        match self {
            Direction::Top => Direction::Bottom,
            Direction::Left => Direction::Right,
            Direction::Bottom => Direction::Top,
            Direction::Right => Direction::Left,
        }
    }

    pub fn to_rel_coord(&self) -> (r: (i32, i32))
        ensures
            r.0 == self.delta_spec().0,
            r.1 == self.delta_spec().1,
    {
        match *self {
            Direction::Top => (0, -1),
            Direction::Left => (-1, 0),
            Direction::Bottom => (0, 1),
            Direction::Right => (1, 0),
        }
    }

    pub fn to_number(&self) -> (n: u8)
        ensures
            n == self.index_spec(),
    {
        match *self {
            Direction::Top => 0,
            Direction::Left => 1,
            Direction::Bottom => 2,
            Direction::Right => 3,
        }
    }

    pub fn from_number(n: u8) -> (d: Direction)
        ensures
            d == Direction::from_number_spec(n),
    {
        match n {
            1 => Direction::Left,
            2 => Direction::Bottom,
            3 => Direction::Right,
            _ => Direction::Top,
        }
    }

    /// All four moves, in the fixed order the solver explores them.
    pub open spec fn order() -> Seq<Direction> {
        seq![Direction::Top, Direction::Left, Direction::Bottom, Direction::Right]
    }

    /// All four moves, in the fixed order the solver explores them.
    pub fn iterator() -> (r: Vec<Direction>)
        ensures
            r@ == Direction::order(),
    {
        let mut v: Vec<Direction> = Vec::new();
        v.push(Direction::Top);
        v.push(Direction::Left);
        v.push(Direction::Bottom);
        v.push(Direction::Right);
        proof {
            assert(v@ =~= Direction::order());
        }
        v
    }
}

/// Componentwise sum of two coordinates.
pub fn add_coords(a: (i32, i32), b: (i32, i32)) -> (r: (i32, i32))
    requires
        i32::MIN <= a.0 + b.0 <= i32::MAX,
        i32::MIN <= a.1 + b.1 <= i32::MAX,
    ensures
        r.0 == a.0 + b.0,
        r.1 == a.1 + b.1,
{
    (a.0 + b.0, a.1 + b.1)
}

/// The eligibility predicate shared by carving and solving. It is asymmetric
/// on purpose: row zero and column zero are never eligible, while the far
/// edges are excluded only by the width and height themselves.
pub open spec fn in_interior(c: (i32, i32), width: int, height: int) -> bool {
    0 < c.0 && (c.0 as int) < width && 0 < c.1 && (c.1 as int) < height
}

/// Whether a candidate coordinate may be carved or traversed.
pub fn bound_check(next_field: (i32, i32), width: usize, height: usize) -> (r: bool)
    ensures
        r == in_interior(next_field, width as int, height as int),
{
    next_field.0 > 0 && next_field.1 > 0 && (next_field.0 as usize) < width && (next_field.1
        as usize) < height
}

} // verus!

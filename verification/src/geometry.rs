//! Grid geometry: coordinates, cardinal directions, and their unit
//! displacements.

use vstd::prelude::*;

verus! {

/// One of the four cardinal directions of the grid.
#[derive(Clone, Copy, PartialEq, Eq, Structural, Debug)]
pub enum Direction {
    Up,
    Down,
    Left,
    Right,
}

impl Direction {
    /// Horizontal component of this direction's unit displacement.
    pub open spec fn spec_dx(self) -> int {
        match self {
            Direction::Left => -1,
            Direction::Right => 1,
            _ => 0,
        }
    }

    /// Vertical component of this direction's unit displacement.
    /// `Up` decreases `y`; `Down` increases it.
    pub open spec fn spec_dy(self) -> int {
        match self {
            Direction::Up => -1,
            Direction::Down => 1,
            _ => 0,
        }
    }

    /// The direction pointing the opposite way.
    pub open spec fn opposite(self) -> Direction {
        match self {
            Direction::Up => Direction::Down,
            Direction::Down => Direction::Up,
            Direction::Left => Direction::Right,
            Direction::Right => Direction::Left,
        }
    }

    /// The unit displacement of this direction as a coordinate offset.
    pub fn relative_position(self) -> (r: Coordinate)
        ensures
            r.x as int == self.spec_dx(),
            r.y as int == self.spec_dy(),
    {
        match self {
            Direction::Up => Coordinate::new(0, -1),
            Direction::Down => Coordinate::new(0, 1),
            Direction::Left => Coordinate::new(-1, 0),
            Direction::Right => Coordinate::new(1, 0),
        }
    }

    /// All four directions, in a fixed order.
    pub fn values() -> (r: Vec<Direction>)
        ensures
            r@ == seq![Direction::Up, Direction::Down, Direction::Left, Direction::Right],
    {
        let mut v: Vec<Direction> = Vec::new();
        v.push(Direction::Up);
        v.push(Direction::Down);
        v.push(Direction::Left);
        v.push(Direction::Right);
        proof {
            assert(v@ =~= seq![
                Direction::Up,
                Direction::Down,
                Direction::Left,
                Direction::Right,
            ]);
        }
        v
    }
}

/// A grid position: 0-indexed column `x` and row `y`.
#[derive(Clone, Copy, PartialEq, Eq, Structural, Debug)]
pub struct Coordinate {
    pub x: i32,
    pub y: i32,
}

impl Coordinate {
    pub fn new(x: i32, y: i32) -> (r: Coordinate)
        ensures
            r.x == x,
            r.y == y,
    {
        Coordinate { x, y }
    }

    /// Whether the coordinate lies on a `width` by `height` board.
    pub open spec fn spec_inside(self, width: int, height: int) -> bool {
        0 <= self.x < width && 0 <= self.y < height
    }

    pub fn inside(self, width: i32, height: i32) -> (r: bool)
        ensures
            r == self.spec_inside(width as int, height as int),
    {
        self.x >= 0 && self.x < width && self.y >= 0 && self.y < height
    }

    /// The adjacent coordinate one step in `direction`.
    pub fn move_to(self, direction: Direction) -> (r: Coordinate)
        requires
            i32::MIN < self.x < i32::MAX,
            i32::MIN < self.y < i32::MAX,
        ensures
            r.x as int == self.x + direction.spec_dx(),
            r.y as int == self.y + direction.spec_dy(),
    {
        let rel = direction.relative_position();
        Coordinate { x: self.x + rel.x, y: self.y + rel.y }
    }
}

} // verus!

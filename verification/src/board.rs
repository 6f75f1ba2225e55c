//! A rectangular grid of cells. The game uses two of these as wall layers:
//! each cell records which player, if any, owns the wall on that edge.

use vstd::prelude::*;
use crate::geometry::Coordinate;

verus! {

/// The state of one grid cell (or wall edge): unowned, or owned by a player.
#[derive(Clone, Copy, PartialEq, Eq, Structural, Debug)]
pub enum Cell {
    Empty,
    Blue,
    Green,
}

impl Cell {
    pub open spec fn spec_is_empty(self) -> bool {
        self is Empty
    }

    pub fn is_empty(&self) -> (r: bool)
        ensures
            r == self.spec_is_empty(),
    {
        match self {
            Cell::Empty => true,
            _ => false,
        }
    }
}

/// A grid of cells, stored row-major: `board_matrix[y][x]`.
pub struct Board {
    pub board_matrix: Vec<Vec<Cell>>,
}

impl Board {
    /// The grid has exactly `height` rows of exactly `width` cells each.
    pub open spec fn well_formed(self, width: int, height: int) -> bool {
        self.board_matrix@.len() == height && forall|yy: int|
            0 <= yy < height ==> (#[trigger] self.board_matrix@[yy])@.len() == width
    }

    /// The cell in column `x` of row `y`.
    pub open spec fn cell_at(self, x: int, y: int) -> Cell {
        self.board_matrix@[y]@[x]
    }

    /// A fresh `width` by `height` grid, all cells `Empty`.
    pub fn new(width: i32, height: i32) -> (r: Board)
        requires
            0 <= width,
            0 <= height,
        ensures
            r.well_formed(width as int, height as int),
            forall|x: int, y: int|
                0 <= x < width && 0 <= y < height ==> r.cell_at(x, y) == Cell::Empty,
    {
        let mut matrix: Vec<Vec<Cell>> = Vec::new();
        let mut yy: i32 = 0;
        while yy < height
            invariant
                0 <= width,
                0 <= yy <= height,
                matrix@.len() == yy,
                forall|j: int| 0 <= j < yy ==> (#[trigger] matrix@[j])@.len() == width,
                forall|i: int, j: int|
                    0 <= i < width && 0 <= j < yy ==> (#[trigger] matrix@[j]@[i]) == Cell::Empty,
            decreases height - yy,
        {
            let mut row: Vec<Cell> = Vec::new();
            let mut xx: i32 = 0;
            while xx < width
                invariant
                    0 <= width,
                    0 <= xx <= width,
                    row@.len() == xx,
                    forall|i: int| 0 <= i < xx ==> (#[trigger] row@[i]) == Cell::Empty,
                decreases width - xx,
            {
                row.push(Cell::Empty);
                xx = xx + 1;
            }
            matrix.push(row);
            yy = yy + 1;
        }
        Board { board_matrix: matrix }
    }

    /// Read the cell at `coordinate`.
    pub fn get(&self, coordinate: Coordinate) -> (r: &Cell)
        requires
            0 <= coordinate.y < self.board_matrix@.len(),
            0 <= coordinate.x < self.board_matrix@[coordinate.y as int]@.len(),
        ensures
            *r == self.cell_at(coordinate.x as int, coordinate.y as int),
    {
        &self.board_matrix[coordinate.y as usize][coordinate.x as usize]
    }

    /// Overwrite the cell at `coordinate`, leaving every other cell as it was.
    pub fn set(&mut self, coordinate: Coordinate, cell: Cell)
        requires
            0 <= coordinate.y < old(self).board_matrix@.len(),
            0 <= coordinate.x < old(self).board_matrix@[coordinate.y as int]@.len(),
        ensures
            final(self).board_matrix@.len() == old(self).board_matrix@.len(),
            forall|yy: int|
                0 <= yy < old(self).board_matrix@.len()
                    ==> (#[trigger] final(self).board_matrix@[yy])@.len()
                        == old(self).board_matrix@[yy]@.len(),
            final(self).cell_at(coordinate.x as int, coordinate.y as int) == cell,
            forall|x: int, y: int|
                0 <= y < old(self).board_matrix@.len() && 0 <= x < old(self).board_matrix@[y]@.len()
                    && !(x == coordinate.x as int && y == coordinate.y as int)
                    ==> final(self).cell_at(x, y) == old(self).cell_at(x, y),
    {
        self.board_matrix[coordinate.y as usize][coordinate.x as usize] = cell;
    }
}

} // verus!

//! The game-state engine: wall layers, the reachability search, move
//! enumeration, move application, and terminal detection with scoring.

use vstd::prelude::*;
use crate::board::{Board, Cell};
use crate::geometry::{Coordinate, Direction};

verus! {

/// Largest accepted board side, chosen so that `width * height` fits in `i32`.
pub const MAX_DIMENSION: i32 = 46340;

/// One hop from `p` across an open edge lands on (x, y).
pub open spec fn elem_reaches(g: Game, p: Coordinate, x: int, y: int) -> bool {
    ||| (g.step_ok(p.x as int, p.y as int, Direction::Up) && x == p.x && y == p.y - 1)
    ||| (g.step_ok(p.x as int, p.y as int, Direction::Down) && x == p.x && y == p.y + 1)
    ||| (g.step_ok(p.x as int, p.y as int, Direction::Left) && x == p.x - 1 && y == p.y)
    ||| (g.step_ok(p.x as int, p.y as int, Direction::Right) && x == p.x + 1 && y == p.y)
}

/// One hop from one of the first `upto` coordinates of `fr` lands on (x, y).
pub open spec fn expanded(g: Game, fr: Seq<Coordinate>, upto: int, x: int, y: int) -> bool {
    exists|i: int| 0 <= i < upto && #[trigger] elem_reaches(g, fr[i], x, y)
}

/// Some coordinate of `fr` is exactly (x, y).
pub open spec fn in_coord_list(fr: Seq<Coordinate>, x: int, y: int) -> bool {
    exists|i: int| 0 <= i < fr.len() && (#[trigger] fr[i]).x == x && fr[i].y == y
}

/// (x, y) is first reached from `start` at depth exactly `k`.
pub open spec fn newly_reached(g: Game, start: Coordinate, x: int, y: int, k: nat) -> bool {
    g.reach_within(start, x, y, k) && (k == 0 || !g.reach_within(start, x, y, (k - 1) as nat))
}

/// Column of the wall-layer cell that `m` writes. A `Left` wall is recorded
/// one column to the destination's left; every other direction records at the
/// destination's own column.
pub open spec fn wall_cell_x(m: Move) -> int {
    if m.place_wall is Left {
        m.destination.x - 1
    } else {
        m.destination.x as int
    }
}

/// Row of the wall-layer cell that `m` writes. An `Up` wall is recorded one
/// row above the destination; every other direction records at the
/// destination's own row.
pub open spec fn wall_cell_y(m: Move) -> int {
    if m.place_wall is Up {
        m.destination.y - 1
    } else {
        m.destination.y as int
    }
}

/// Whether `m` writes the horizontal wall layer (Up or Down) rather than the
/// vertical one (Left or Right).
pub open spec fn horizontal_wall_move(m: Move) -> bool {
    m.place_wall is Up || m.place_wall is Down
}

/// The two states hold exactly the same walls.
pub open spec fn same_walls(a: Game, b: Game) -> bool {
    &&& forall|x: int, y: int|
        0 <= x < a.width && 0 <= y < a.height - 1 ==> #[trigger] b.horizontal_walls.cell_at(x, y)
            == a.horizontal_walls.cell_at(x, y)
    &&& forall|x: int, y: int|
        0 <= x < a.width - 1 && 0 <= y < a.height ==> #[trigger] b.vertical_walls.cell_at(x, y)
            == a.vertical_walls.cell_at(x, y)
}

/// The two states agree on every observable component.
pub open spec fn same_state(a: Game, b: Game) -> bool {
    &&& b.width == a.width
    &&& b.height == a.height
    &&& b.blue_position == a.blue_position
    &&& b.green_position == a.green_position
    &&& b.blue_turn == a.blue_turn
    &&& same_walls(a, b)
}

/// `post` is `pre` after playing `m`: the active player stands on the
/// destination, exactly one new wall is recorded — on the edge adjacent to
/// the destination in the move's direction, owned by the mover — and the
/// turn has passed to the other player.
pub open spec fn move_applied(pre: Game, post: Game, m: Move) -> bool {
    &&& post.width == pre.width
    &&& post.height == pre.height
    &&& post.blue_turn == !pre.blue_turn
    &&& if pre.blue_turn {
        post.blue_position == m.destination && post.green_position == pre.green_position
    } else {
        post.green_position == m.destination && post.blue_position == pre.blue_position
    }
    &&& if horizontal_wall_move(m) {
        &&& post.horizontal_walls.cell_at(wall_cell_x(m), wall_cell_y(m)) == (if pre.blue_turn {
            Cell::Blue
        } else {
            Cell::Green
        })
        &&& forall|x: int, y: int|
            0 <= x < pre.width && 0 <= y < pre.height - 1 && !(x == wall_cell_x(m) && y
                == wall_cell_y(m)) ==> #[trigger] post.horizontal_walls.cell_at(x, y)
                == pre.horizontal_walls.cell_at(x, y)
        &&& forall|x: int, y: int|
            0 <= x < pre.width - 1 && 0 <= y < pre.height ==> #[trigger] post.vertical_walls.cell_at(
                x,
                y,
            ) == pre.vertical_walls.cell_at(x, y)
    } else {
        &&& post.vertical_walls.cell_at(wall_cell_x(m), wall_cell_y(m)) == (if pre.blue_turn {
            Cell::Blue
        } else {
            Cell::Green
        })
        &&& forall|x: int, y: int|
            0 <= x < pre.width - 1 && 0 <= y < pre.height && !(x == wall_cell_x(m) && y
                == wall_cell_y(m)) ==> #[trigger] post.vertical_walls.cell_at(x, y)
                == pre.vertical_walls.cell_at(x, y)
        &&& forall|x: int, y: int|
            0 <= x < pre.width && 0 <= y < pre.height - 1 ==> #[trigger] post.horizontal_walls.cell_at(
                x,
                y,
            ) == pre.horizontal_walls.cell_at(x, y)
    }
}

/// Destinations scanned strictly before column `x` of row `y`, in row-major
/// order.
pub open spec fn dest_scanned(m: Move, x: int, y: int) -> bool {
    m.destination.y < y || (m.destination.y == y && m.destination.x < x)
}

/// Appending to a move list keeps its members and adds exactly the appended
/// move.
pub proof fn lemma_moves_push(s: Seq<Move>, e: Move)
    ensures
        forall|m: Move| #[trigger] s.push(e).contains(m) <==> (s.contains(m) || m == e),
{
    assert forall|m: Move| #[trigger] s.push(e).contains(m) implies (s.contains(m) || m == e) by {
        let i = choose|i: int| 0 <= i < s.push(e).len() && s.push(e)[i] == m;
        if i < s.len() {
            assert(s[i] == m);
        }
    }
    assert forall|m: Move| s.contains(m) implies #[trigger] s.push(e).contains(m) by {
        let i = choose|i: int| 0 <= i < s.len() && s[i] == m;
        assert(s.push(e)[i] == m);
    }
    assert(s.push(e)[s.len() as int] == e);
}

/// A single open-edge hop extends any bounded reach by one.
pub proof fn lemma_elem_reaches_step(
    g: Game,
    start: Coordinate,
    p: Coordinate,
    x: int,
    y: int,
    k: nat,
)
    requires
        elem_reaches(g, p, x, y),
        g.reach_within(start, p.x as int, p.y as int, k),
    ensures
        g.reach_within(start, x, y, (k + 1) as nat),
{
    let k1 = (k + 1) as nat;
    if g.step_ok(p.x as int, p.y as int, Direction::Up) && x == p.x && y == p.y - 1 {
        assert(g.step_ok(x, y + 1, Direction::Up));
        assert(g.reach_within(start, x, y + 1, k));
    } else if g.step_ok(p.x as int, p.y as int, Direction::Down) && x == p.x && y == p.y + 1 {
        assert(g.step_ok(x, y - 1, Direction::Down));
        assert(g.reach_within(start, x, y - 1, k));
    } else if g.step_ok(p.x as int, p.y as int, Direction::Left) && x == p.x - 1 && y == p.y {
        assert(g.step_ok(x + 1, y, Direction::Left));
        assert(g.reach_within(start, x + 1, y, k));
    } else {
        assert(g.step_ok(x - 1, y, Direction::Right));
        assert(g.reach_within(start, x - 1, y, k));
    }
    assert(g.reach_within(start, x, y, k1));
}

/// Appending to a coordinate list keeps every coordinate it already held,
/// and holds the appended one.
pub proof fn lemma_coord_list_push(fr: Seq<Coordinate>, n: Coordinate)
    ensures
        forall|x: int, y: int| in_coord_list(fr, x, y) ==> #[trigger] in_coord_list(
            fr.push(n),
            x,
            y,
        ),
        in_coord_list(fr.push(n), n.x as int, n.y as int),
{
    assert forall|x: int, y: int| in_coord_list(fr, x, y) implies #[trigger] in_coord_list(
        fr.push(n),
        x,
        y,
    ) by {
        let i = choose|i: int| 0 <= i < fr.len() && (#[trigger] fr[i]).x == x && fr[i].y == y;
        assert(fr.push(n)[i].x == x && fr.push(n)[i].y == y);
    }
    let last = fr.len() as int;
    assert(fr.push(n)[last].x == n.x && fr.push(n)[last].y == n.y);
}

/// An all-`false` grid of `height` rows by `width` columns.
fn grid_new(width: i32, height: i32) -> (r: Vec<Vec<bool>>)
    requires
        0 <= width,
        0 <= height,
    ensures
        r@.len() == height as int,
        forall|j: int| 0 <= j < height ==> (#[trigger] r@[j])@.len() == width as int,
        forall|i: int, j: int| 0 <= i < width && 0 <= j < height ==> !(#[trigger] r@[j]@[i]),
{
    let mut grid: Vec<Vec<bool>> = Vec::new();
    let mut yy: i32 = 0;
    while yy < height
        invariant
            0 <= width,
            0 <= yy <= height,
            grid@.len() == yy as int,
            forall|j: int| 0 <= j < yy ==> (#[trigger] grid@[j])@.len() == width as int,
            forall|i: int, j: int| 0 <= i < width && 0 <= j < yy ==> !(#[trigger] grid@[j]@[i]),
        decreases height - yy,
    {
        let mut row: Vec<bool> = Vec::new();
        let mut xx: i32 = 0;
        while xx < width
            invariant
                0 <= width,
                0 <= xx <= width,
                row@.len() == xx as int,
                forall|i: int| 0 <= i < xx ==> !(#[trigger] row@[i]),
            decreases width - xx,
        {
            row.push(false);
            xx = xx + 1;
        }
        grid.push(row);
        yy = yy + 1;
    }
    grid
}

/// Read one flag of the grid.
fn grid_get(grid: &Vec<Vec<bool>>, x: usize, y: usize) -> (r: bool)
    requires
        y < grid@.len(),
        x < grid@[y as int]@.len(),
    ensures
        r == grid@[y as int]@[x as int],
{
    grid[y][x]
}

/// Set one flag of the grid, leaving all others as they were.
fn grid_mark(grid: &mut Vec<Vec<bool>>, x: usize, y: usize)
    requires
        y < old(grid)@.len(),
        x < old(grid)@[y as int]@.len(),
    ensures
        final(grid)@.len() == old(grid)@.len(),
        forall|j: int|
            0 <= j < old(grid)@.len() ==> (#[trigger] final(grid)@[j])@.len()
                == old(grid)@[j]@.len(),
        forall|i: int, j: int|
            0 <= j < old(grid)@.len() && 0 <= i < old(grid)@[j]@.len()
                ==> (#[trigger] final(grid)@[j]@[i]) == (old(grid)@[j]@[i] || (i == x as int && j
                == y as int)),
{
    grid[y][x] = true;
}

/// A turn's action: relocate to `destination`, then place a wall on the edge
/// adjacent to `destination` in direction `place_wall`.
#[derive(Clone, Copy, PartialEq, Eq, Structural, Debug)]
pub struct Move {
    pub destination: Coordinate,
    pub place_wall: Direction,
}

impl Move {
    pub fn new(destination: Coordinate, place_wall: Direction) -> (r: Move)
        ensures
            r.destination == destination,
            r.place_wall == place_wall,
    {
        Move { destination, place_wall }
    }

    /// Parse the shell's three-character notation `<column><row><wall>`:
    /// the column letter counts from 'A', the row digit counts downwards
    /// from the board's top row on the fixed 7-row board, and the wall
    /// letter is one of U, D, L, R. Malformed text is the caller's concern
    /// and excluded here.
    pub fn from_notation(notation: &str) -> (r: Move)
        requires
            notation@.len() >= 3,
            notation@[2] == 'U' || notation@[2] == 'D' || notation@[2] == 'L' || notation@[2]
                == 'R',
        ensures
            r.destination.x as int == notation@[0] as int - 'A' as int,
            r.destination.y as int == 7 - notation@[1] as int + '0' as int,
            notation@[2] == 'U' ==> r.place_wall == Direction::Up,
            notation@[2] == 'D' ==> r.place_wall == Direction::Down,
            notation@[2] == 'L' ==> r.place_wall == Direction::Left,
            notation@[2] == 'R' ==> r.place_wall == Direction::Right,
    {
        let c0 = notation.get_char(0);
        let c1 = notation.get_char(1);
        let c2 = notation.get_char(2);
        let destination = Coordinate::new(
            (c0 as u32) as i32 - ('A' as u32) as i32,
            7 - (c1 as u32) as i32 + ('0' as u32) as i32,
        );
        let place_wall = if c2 == 'U' {
            Direction::Up
        } else if c2 == 'D' {
            Direction::Down
        } else if c2 == 'L' {
            Direction::Left
        } else {
            Direction::Right
        };
        Move::new(destination, place_wall)
    }
}

/// Final areas of the two players' regions.
#[derive(Clone, Copy, PartialEq, Eq, Structural, Debug)]
pub struct Score {
    pub blue: i32,
    pub green: i32,
}

/// Outcome of a finished game.
#[derive(Clone, Copy, PartialEq, Eq, Structural, Debug)]
pub enum Winner {
    Blue,
    Green,
    Draw,
}

/// The whole state of one game.
pub struct Game {
    pub width: i32,
    pub height: i32,
    pub blue_position: Coordinate,
    pub green_position: Coordinate,
    /// Cell (x, y) holds the wall between board rows y and y + 1 at column x.
    pub horizontal_walls: Board,
    /// Cell (x, y) holds the wall between board columns x and x + 1 at row y.
    pub vertical_walls: Board,
    pub blue_turn: bool,
}

impl Game {
    /// Structural invariant: positive bounded dimensions, wall layers of the
    /// right shape, both players on the board.
    pub open spec fn wf(self) -> bool {
        &&& 1 <= self.width <= MAX_DIMENSION
        &&& 1 <= self.height <= MAX_DIMENSION
        &&& self.horizontal_walls.well_formed(self.width as int, self.height as int - 1)
        &&& self.vertical_walls.well_formed(self.width as int - 1, self.height as int)
        &&& self.blue_position.spec_inside(self.width as int, self.height as int)
        &&& self.green_position.spec_inside(self.width as int, self.height as int)
    }

    /// Whether a horizontal wall is recorded at cell (x, y) of that layer.
    pub open spec fn h_walled(self, x: int, y: int) -> bool {
        !(self.horizontal_walls.cell_at(x, y) is Empty)
    }

    /// Whether a vertical wall is recorded at cell (x, y) of that layer.
    pub open spec fn v_walled(self, x: int, y: int) -> bool {
        !(self.vertical_walls.cell_at(x, y) is Empty)
    }

    /// Whether (x, y) lies on the board.
    pub open spec fn on_board(self, x: int, y: int) -> bool {
        0 <= x < self.width && 0 <= y < self.height
    }

    /// The single-hop occlusion rule: one may step from cell (x, y) one cell
    /// in direction `d` iff both cells are on the board and the edge between
    /// them carries no wall. Moving Right or Down looks the edge up at the
    /// source cell's own coordinate; moving Left or Up looks it up at the
    /// neighbour's coordinate, so that the two directions of travel consult
    /// the same edge cell.
    pub open spec fn step_ok(self, x: int, y: int, d: Direction) -> bool {
        &&& self.on_board(x, y)
        &&& self.on_board(x + d.spec_dx(), y + d.spec_dy())
        &&& match d {
            Direction::Right => !self.v_walled(x, y),
            Direction::Left => !self.v_walled(x - 1, y),
            Direction::Down => !self.h_walled(x, y),
            Direction::Up => !self.h_walled(x, y - 1),
        }
    }

    /// Cell (x, y) can be reached from `start` by at most `k` hops, each
    /// across an open edge. The origin itself is reachable at any depth.
    pub open spec fn reach_within(self, start: Coordinate, x: int, y: int, k: nat) -> bool
        decreases k,
    {
        (x == start.x && y == start.y) || (k > 0 && {
            let kk = (k - 1) as nat;
            ||| (self.step_ok(x, y + 1, Direction::Up) && self.reach_within(start, x, y + 1, kk))
            ||| (self.step_ok(x, y - 1, Direction::Down) && self.reach_within(start, x, y - 1, kk))
            ||| (self.step_ok(x + 1, y, Direction::Left) && self.reach_within(start, x + 1, y, kk))
            ||| (self.step_ok(x - 1, y, Direction::Right) && self.reach_within(
                start,
                x - 1,
                y,
                kk,
            ))
        })
    }

    /// Reachability only grows when more hops are allowed.
    pub proof fn lemma_reach_mono(self, start: Coordinate, x: int, y: int, k1: nat, k2: nat)
        requires
            k1 <= k2,
            self.reach_within(start, x, y, k1),
        ensures
            self.reach_within(start, x, y, k2),
        decreases k1,
    {
        if !(x == start.x && y == start.y) {
            let kk1 = (k1 - 1) as nat;
            let kk2 = (k2 - 1) as nat;
            if self.step_ok(x, y + 1, Direction::Up) && self.reach_within(start, x, y + 1, kk1) {
                self.lemma_reach_mono(start, x, y + 1, kk1, kk2);
            } else if self.step_ok(x, y - 1, Direction::Down) && self.reach_within(
                start,
                x,
                y - 1,
                kk1,
            ) {
                self.lemma_reach_mono(start, x, y - 1, kk1, kk2);
            } else if self.step_ok(x + 1, y, Direction::Left) && self.reach_within(
                start,
                x + 1,
                y,
                kk1,
            ) {
                self.lemma_reach_mono(start, x + 1, y, kk1, kk2);
            } else {
                self.lemma_reach_mono(start, x - 1, y, kk1, kk2);
            }
        }
    }

    /// Every reachable cell lies on the board, provided the origin does.
    pub proof fn lemma_reach_on_board(self, start: Coordinate, x: int, y: int, k: nat)
        requires
            self.on_board(start.x as int, start.y as int),
            self.reach_within(start, x, y, k),
        ensures
            self.on_board(x, y),
        decreases k,
    {
    }

    /// The reachable set no longer grows past depth `k`: each cell reachable
    /// with one more hop was already reachable within `k`.
    pub open spec fn stable_at(self, start: Coordinate, k: nat) -> bool {
        forall|x: int, y: int|
            self.reach_within(start, x, y, (k + 1) as nat) ==> #[trigger] self.reach_within(
                start,
                x,
                y,
                k,
            )
    }

    /// Once the reachable set has stabilised, it stays the same at every
    /// greater depth.
    pub proof fn lemma_reach_stable(self, start: Coordinate, k: nat, n: nat)
        requires
            k <= n,
            self.stable_at(start, k),
        ensures
            forall|x: int, y: int|
                self.reach_within(start, x, y, n) ==> #[trigger] self.reach_within(start, x, y, k),
        decreases n - k,
    {
        let k1 = (k + 1) as nat;
        let k2 = (k + 2) as nat;
        if k < n {
            assert forall|x: int, y: int| self.reach_within(start, x, y, k2) implies #[trigger] self
                .reach_within(start, x, y, k1) by {
                if !(x == start.x && y == start.y) {
                    if self.step_ok(x, y + 1, Direction::Up) && self.reach_within(
                        start,
                        x,
                        y + 1,
                        k1,
                    ) {
                        assert(self.reach_within(start, x, y + 1, k));
                    } else if self.step_ok(x, y - 1, Direction::Down) && self.reach_within(
                        start,
                        x,
                        y - 1,
                        k1,
                    ) {
                        assert(self.reach_within(start, x, y - 1, k));
                    } else if self.step_ok(x + 1, y, Direction::Left) && self.reach_within(
                        start,
                        x + 1,
                        y,
                        k1,
                    ) {
                        assert(self.reach_within(start, x + 1, y, k));
                    } else {
                        assert(self.reach_within(start, x - 1, y, k));
                    }
                }
            }
            assert(self.stable_at(start, k1));
            self.lemma_reach_stable(start, k1, n);
            assert forall|x: int, y: int| self.reach_within(start, x, y, n) implies #[trigger] self
                .reach_within(start, x, y, k) by {
                assert(self.reach_within(start, x, y, k1));
            }
        }
    }

    /// A fresh game: empty wall layers, Blue in the top-left corner, Green in
    /// the bottom-right corner, Blue to move.
    pub fn new(width: i32, height: i32) -> (r: Game)
        requires
            1 <= width <= MAX_DIMENSION,
            1 <= height <= MAX_DIMENSION,
        ensures
            r.wf(),
            r.width == width,
            r.height == height,
            r.blue_position.x == 0 && r.blue_position.y == 0,
            r.green_position.x == width - 1 && r.green_position.y == height - 1,
            r.blue_turn,
            forall|x: int, y: int|
                0 <= x < width && 0 <= y < height - 1 ==> !(#[trigger] r.h_walled(x, y)),
            forall|x: int, y: int|
                0 <= x < width - 1 && 0 <= y < height ==> !(#[trigger] r.v_walled(x, y)),
    {
        Game {
            width,
            height,
            blue_position: Coordinate::new(0, 0),
            green_position: Coordinate::new(width - 1, height - 1),
            horizontal_walls: Board::new(width, height - 1),
            vertical_walls: Board::new(width - 1, height),
            blue_turn: true,
        }
    }

    /// Decide the occlusion rule for one edge: can a token at `c` take one
    /// step in direction `d`?
    pub fn edge_open(&self, c: Coordinate, d: Direction) -> (r: bool)
        requires
            self.wf(),
        ensures
            r == self.step_ok(c.x as int, c.y as int, d),
    {
        if !c.inside(self.width, self.height) {
            return false;
        }
        let next = c.move_to(d);
        if !next.inside(self.width, self.height) {
            return false;
        }
        match d {
            Direction::Right => self.vertical_walls.get(c).is_empty(),
            Direction::Left => self.vertical_walls.get(next).is_empty(),
            Direction::Down => self.horizontal_walls.get(c).is_empty(),
            Direction::Up => self.horizontal_walls.get(next).is_empty(),
        }
    }

    /// Breadth-first search from `start` under the current walls. The
    /// returned grid flags exactly the cells reachable within `step` hops;
    /// with `step >= width * height` that is the whole connected component
    /// of `start`.
    pub fn reachable_positions(&self, start: Coordinate, step: i32) -> (r: Vec<Vec<bool>>)
        requires
            self.wf(),
            start.spec_inside(self.width as int, self.height as int),
            0 <= step,
        ensures
            r@.len() == self.height as int,
            forall|j: int| 0 <= j < self.height ==> (#[trigger] r@[j])@.len() == self.width as int,
            forall|x: int, y: int|
                0 <= x < self.width && 0 <= y < self.height ==> (#[trigger] r@[y]@[x])
                    == self.reach_within(start, x, y, step as nat),
    {
        let mut marked = grid_new(self.width, self.height);
        grid_mark(&mut marked, start.x as usize, start.y as usize);
        let mut frontier: Vec<Coordinate> = Vec::new();
        frontier.push(start);
        proof {
            assert(frontier@[0].x == start.x && frontier@[0].y == start.y);
        }
        let mut k: i32 = 0;
        while k < step
            invariant
                self.wf(),
                start.spec_inside(self.width as int, self.height as int),
                0 <= k <= step,
                marked@.len() == self.height as int,
                forall|j: int|
                    0 <= j < self.height ==> (#[trigger] marked@[j])@.len() == self.width as int,
                forall|x: int, y: int|
                    0 <= x < self.width && 0 <= y < self.height ==> (#[trigger] marked@[y]@[x])
                        == self.reach_within(start, x, y, k as nat),
                forall|i: int|
                    0 <= i < frontier@.len() ==> (#[trigger] frontier@[i]).spec_inside(
                        self.width as int,
                        self.height as int,
                    ) && self.reach_within(
                        start,
                        frontier@[i].x as int,
                        frontier@[i].y as int,
                        k as nat,
                    ),
                forall|x: int, y: int|
                    #[trigger] newly_reached(*self, start, x, y, k as nat) ==> in_coord_list(
                        frontier@,
                        x,
                        y,
                    ),
            decreases step - k,
        {
            if frontier.len() == 0 {
                proof {
                    let kn = k as nat;
                    let sn = step as nat;
                    if k == 0 {
                        assert(newly_reached(*self, start, start.x as int, start.y as int, kn));
                        assert(false);
                    }
                    let km1 = (kn - 1) as nat;
                    assert forall|x: int, y: int|
                        self.reach_within(start, x, y, (km1 + 1) as nat) implies #[trigger] self
                        .reach_within(start, x, y, km1) by {
                        if !self.reach_within(start, x, y, km1) {
                            assert(newly_reached(*self, start, x, y, kn));
                        }
                    }
                    assert(self.stable_at(start, km1));
                    self.lemma_reach_stable(start, km1, sn);
                    assert forall|x: int, y: int|
                        0 <= x < self.width && 0 <= y < self.height implies (
                    #[trigger] marked@[y]@[x]) == self.reach_within(start, x, y, sn) by {
                        if marked@[y]@[x] {
                            self.lemma_reach_mono(start, x, y, kn, sn);
                        }
                        if self.reach_within(start, x, y, sn) {
                            assert(self.reach_within(start, x, y, km1));
                            self.lemma_reach_mono(start, x, y, km1, kn);
                        }
                    }
                    assert forall|x: int, y: int|
                        #[trigger] newly_reached(*self, start, x, y, sn) implies in_coord_list(
                        frontier@,
                        x,
                        y,
                    ) by {
                        assert(self.reach_within(start, x, y, km1));
                        self.lemma_reach_mono(start, x, y, km1, (sn - 1) as nat);
                        assert(false);
                    }
                }
                k = step;
            } else {
                let ghost fr = frontier@;
                let mut next_frontier: Vec<Coordinate> = Vec::new();
                let mut idx: usize = 0;
                while idx < frontier.len()
                    invariant
                        self.wf(),
                        start.spec_inside(self.width as int, self.height as int),
                        0 <= k < step,
                        frontier@ == fr,
                        0 <= idx <= fr.len(),
                        marked@.len() == self.height as int,
                        forall|j: int|
                            0 <= j < self.height ==> (#[trigger] marked@[j])@.len()
                                == self.width as int,
                        forall|i: int|
                            0 <= i < fr.len() ==> (#[trigger] fr[i]).spec_inside(
                                self.width as int,
                                self.height as int,
                            ) && self.reach_within(start, fr[i].x as int, fr[i].y as int, k as nat),
                        forall|x: int, y: int|
                            #[trigger] newly_reached(*self, start, x, y, k as nat)
                                ==> in_coord_list(fr, x, y),
                        forall|x: int, y: int|
                            0 <= x < self.width && 0 <= y < self.height ==> (
                            #[trigger] marked@[y]@[x]) == (self.reach_within(start, x, y, k as nat)
                                || expanded(*self, fr, idx as int, x, y)),
                        forall|j: int|
                            0 <= j < next_frontier@.len() ==> (#[trigger] next_frontier@[j]).spec_inside(
                                self.width as int,
                                self.height as int,
                            ) && self.reach_within(
                                start,
                                next_frontier@[j].x as int,
                                next_frontier@[j].y as int,
                                (k + 1) as nat,
                            ),
                        forall|x: int, y: int|
                            0 <= x < self.width && 0 <= y < self.height && #[trigger] marked@[y]@[x]
                                && !self.reach_within(start, x, y, k as nat) ==> in_coord_list(
                                next_frontier@,
                                x,
                                y,
                            ),
                    decreases fr.len() - idx,
                {
                    let c = frontier[idx];
                    if self.edge_open(c, Direction::Up) {
                        let n = c.move_to(Direction::Up);
                        if !grid_get(&marked, n.x as usize, n.y as usize) {
                            grid_mark(&mut marked, n.x as usize, n.y as usize);
                            proof {
                                lemma_elem_reaches_step(
                                    *self,
                                    start,
                                    c,
                                    n.x as int,
                                    n.y as int,
                                    k as nat,
                                );
                                lemma_coord_list_push(next_frontier@, n);
                            }
                            next_frontier.push(n);
                        }
                    }
                    if self.edge_open(c, Direction::Down) {
                        let n = c.move_to(Direction::Down);
                        if !grid_get(&marked, n.x as usize, n.y as usize) {
                            grid_mark(&mut marked, n.x as usize, n.y as usize);
                            proof {
                                lemma_elem_reaches_step(
                                    *self,
                                    start,
                                    c,
                                    n.x as int,
                                    n.y as int,
                                    k as nat,
                                );
                                lemma_coord_list_push(next_frontier@, n);
                            }
                            next_frontier.push(n);
                        }
                    }
                    if self.edge_open(c, Direction::Left) {
                        let n = c.move_to(Direction::Left);
                        if !grid_get(&marked, n.x as usize, n.y as usize) {
                            grid_mark(&mut marked, n.x as usize, n.y as usize);
                            proof {
                                lemma_elem_reaches_step(
                                    *self,
                                    start,
                                    c,
                                    n.x as int,
                                    n.y as int,
                                    k as nat,
                                );
                                lemma_coord_list_push(next_frontier@, n);
                            }
                            next_frontier.push(n);
                        }
                    }
                    if self.edge_open(c, Direction::Right) {
                        let n = c.move_to(Direction::Right);
                        if !grid_get(&marked, n.x as usize, n.y as usize) {
                            grid_mark(&mut marked, n.x as usize, n.y as usize);
                            proof {
                                lemma_elem_reaches_step(
                                    *self,
                                    start,
                                    c,
                                    n.x as int,
                                    n.y as int,
                                    k as nat,
                                );
                                lemma_coord_list_push(next_frontier@, n);
                            }
                            next_frontier.push(n);
                        }
                    }
                    proof {
                        let up1 = idx as int + 1;
                        assert forall|x: int, y: int|
                            0 <= x < self.width && 0 <= y < self.height implies (
                        #[trigger] marked@[y]@[x]) == (self.reach_within(start, x, y, k as nat)
                            || expanded(*self, fr, up1, x, y)) by {
                            if expanded(*self, fr, idx as int, x, y) {
                                let i = choose|i: int|
                                    0 <= i < idx as int && #[trigger] elem_reaches(
                                        *self,
                                        fr[i],
                                        x,
                                        y,
                                    );
                                assert(0 <= i < up1 && elem_reaches(*self, fr[i], x, y));
                            }
                            if elem_reaches(*self, fr[idx as int], x, y) {
                                assert(expanded(*self, fr, up1, x, y));
                            }
                            if expanded(*self, fr, up1, x, y) && !expanded(
                                *self,
                                fr,
                                idx as int,
                                x,
                                y,
                            ) {
                                let i = choose|i: int|
                                    0 <= i < up1 && #[trigger] elem_reaches(*self, fr[i], x, y);
                                assert(i == idx as int);
                                assert(elem_reaches(*self, fr[idx as int], x, y));
                            }
                        }
                    }
                    idx = idx + 1;
                }
                proof {
                    let kn = k as nat;
                    let k1 = (k + 1) as nat;
                    assert forall|x: int, y: int|
                        0 <= x < self.width && 0 <= y < self.height implies (
                    #[trigger] marked@[y]@[x]) == self.reach_within(start, x, y, k1) by {
                        if marked@[y]@[x] {
                            if self.reach_within(start, x, y, kn) {
                                self.lemma_reach_mono(start, x, y, kn, k1);
                            } else {
                                let i = choose|i: int|
                                    0 <= i < fr.len() && #[trigger] elem_reaches(*self, fr[i], x, y);
                                lemma_elem_reaches_step(
                                    *self,
                                    start,
                                    fr[i],
                                    x,
                                    y,
                                    kn,
                                );
                            }
                        }
                        if self.reach_within(start, x, y, k1) && !marked@[y]@[x] {
                            assert(!self.reach_within(start, x, y, kn));
                            assert(!(x == start.x && y == start.y));
                            if self.step_ok(x, y + 1, Direction::Up) && self.reach_within(
                                start,
                                x,
                                y + 1,
                                kn,
                            ) {
                                let px = x;
                                let py = y + 1;
                                if kn > 0 && self.reach_within(start, px, py, (kn - 1) as nat) {
                                    assert(self.reach_within(start, x, y, kn));
                                } else {
                                    assert(newly_reached(*self, start, px, py, kn));
                                    let i = choose|i: int|
                                        0 <= i < fr.len() && (#[trigger] fr[i]).x == px && fr[i].y
                                            == py;
                                    assert(elem_reaches(*self, fr[i], x, y));
                                    assert(expanded(*self, fr, fr.len() as int, x, y));
                                }
                            } else if self.step_ok(x, y - 1, Direction::Down) && self.reach_within(
                                start,
                                x,
                                y - 1,
                                kn,
                            ) {
                                let px = x;
                                let py = y - 1;
                                if kn > 0 && self.reach_within(start, px, py, (kn - 1) as nat) {
                                    assert(self.reach_within(start, x, y, kn));
                                } else {
                                    assert(newly_reached(*self, start, px, py, kn));
                                    let i = choose|i: int|
                                        0 <= i < fr.len() && (#[trigger] fr[i]).x == px && fr[i].y
                                            == py;
                                    assert(elem_reaches(*self, fr[i], x, y));
                                    assert(expanded(*self, fr, fr.len() as int, x, y));
                                }
                            } else if self.step_ok(x + 1, y, Direction::Left) && self.reach_within(
                                start,
                                x + 1,
                                y,
                                kn,
                            ) {
                                let px = x + 1;
                                let py = y;
                                if kn > 0 && self.reach_within(start, px, py, (kn - 1) as nat) {
                                    assert(self.reach_within(start, x, y, kn));
                                } else {
                                    assert(newly_reached(*self, start, px, py, kn));
                                    let i = choose|i: int|
                                        0 <= i < fr.len() && (#[trigger] fr[i]).x == px && fr[i].y
                                            == py;
                                    assert(elem_reaches(*self, fr[i], x, y));
                                    assert(expanded(*self, fr, fr.len() as int, x, y));
                                }
                            } else {
                                let px = x - 1;
                                let py = y;
                                if kn > 0 && self.reach_within(start, px, py, (kn - 1) as nat) {
                                    assert(self.reach_within(start, x, y, kn));
                                } else {
                                    assert(newly_reached(*self, start, px, py, kn));
                                    let i = choose|i: int|
                                        0 <= i < fr.len() && (#[trigger] fr[i]).x == px && fr[i].y
                                            == py;
                                    assert(elem_reaches(*self, fr[i], x, y));
                                    assert(expanded(*self, fr, fr.len() as int, x, y));
                                }
                            }
                        }
                    }
                    assert forall|x: int, y: int|
                        #[trigger] newly_reached(*self, start, x, y, k1) implies in_coord_list(
                        next_frontier@,
                        x,
                        y,
                    ) by {
                        self.lemma_reach_on_board(start, x, y, k1);
                        assert((k1 - 1) as nat == kn);
                        assert(marked@[y]@[x]);
                    }
                }
                frontier = next_frontier;
                k = k + 1;
            }
        }
        marked
    }

    /// The position of the player whose turn it is.
    pub open spec fn active_position(self) -> Coordinate {
        if self.blue_turn {
            self.blue_position
        } else {
            self.green_position
        }
    }

    /// A move is legal iff its destination is reachable by the active player
    /// within three hops under the current walls, and the edge to be walled
    /// lies on the board and carries no wall yet.
    pub open spec fn is_legal_move(self, m: Move) -> bool {
        &&& self.reach_within(
            self.active_position(),
            m.destination.x as int,
            m.destination.y as int,
            3,
        )
        &&& self.step_ok(m.destination.x as int, m.destination.y as int, m.place_wall)
    }

    /// Enumerate the legal moves of the active player: the returned list
    /// holds a move iff it is legal in this state.
    pub fn possible_moves(&self) -> (moves: Vec<Move>)
        requires
            self.wf(),
        ensures
            forall|m: Move| #[trigger] moves@.contains(m) <==> self.is_legal_move(m),
    {
        let start = if self.blue_turn {
            self.blue_position
        } else {
            self.green_position
        };
        let reachable = self.reachable_positions(start, 3);
        let mut moves: Vec<Move> = Vec::new();
        let mut y: i32 = 0;
        while y < self.height
            invariant
                self.wf(),
                start == self.active_position(),
                0 <= y <= self.height,
                reachable@.len() == self.height as int,
                forall|j: int|
                    0 <= j < self.height ==> (#[trigger] reachable@[j])@.len() == self.width as int,
                forall|xx: int, yy: int|
                    0 <= xx < self.width && 0 <= yy < self.height ==> (
                    #[trigger] reachable@[yy]@[xx]) == self.reach_within(start, xx, yy, 3),
                forall|m: Move|
                    #[trigger] moves@.contains(m) <==> (self.is_legal_move(m) && dest_scanned(
                        m,
                        0,
                        y as int,
                    )),
            decreases self.height - y,
        {
            let mut x: i32 = 0;
            while x < self.width
                invariant
                    self.wf(),
                    start == self.active_position(),
                    0 <= y < self.height,
                    0 <= x <= self.width,
                    reachable@.len() == self.height as int,
                    forall|j: int|
                        0 <= j < self.height ==> (#[trigger] reachable@[j])@.len()
                            == self.width as int,
                    forall|xx: int, yy: int|
                        0 <= xx < self.width && 0 <= yy < self.height ==> (
                        #[trigger] reachable@[yy]@[xx]) == self.reach_within(start, xx, yy, 3),
                    forall|m: Move|
                        #[trigger] moves@.contains(m) <==> (self.is_legal_move(m) && dest_scanned(
                            m,
                            x as int,
                            y as int,
                        )),
                decreases self.width - x,
            {
                let current = Coordinate::new(x, y);
                if grid_get(&reachable, x as usize, y as usize) {
                    if self.edge_open(current, Direction::Up) {
                        let mv = Move { destination: current, place_wall: Direction::Up };
                        proof {
                            lemma_moves_push(moves@, mv);
                        }
                        moves.push(mv);
                    }
                    if self.edge_open(current, Direction::Down) {
                        let mv = Move { destination: current, place_wall: Direction::Down };
                        proof {
                            lemma_moves_push(moves@, mv);
                        }
                        moves.push(mv);
                    }
                    if self.edge_open(current, Direction::Left) {
                        let mv = Move { destination: current, place_wall: Direction::Left };
                        proof {
                            lemma_moves_push(moves@, mv);
                        }
                        moves.push(mv);
                    }
                    if self.edge_open(current, Direction::Right) {
                        let mv = Move { destination: current, place_wall: Direction::Right };
                        proof {
                            lemma_moves_push(moves@, mv);
                        }
                        moves.push(mv);
                    }
                }
                proof {
                    assert forall|m: Move| #[trigger] moves@.contains(m) implies (
                    self.is_legal_move(m) && dest_scanned(m, x as int + 1, y as int)) by {}
                    assert forall|m: Move|
                        self.is_legal_move(m) && dest_scanned(
                            m,
                            x as int + 1,
                            y as int,
                        ) implies #[trigger] moves@.contains(m) by {
                        if !dest_scanned(m, x as int, y as int) {
                            assert(m.destination.x == x && m.destination.y == y);
                            assert(m.destination == current);
                            assert(self.reach_within(start, x as int, y as int, 3));
                            match m.place_wall {
                                Direction::Up => {
                                    assert(m == (Move {
                                        destination: current,
                                        place_wall: Direction::Up,
                                    }));
                                },
                                Direction::Down => {
                                    assert(m == (Move {
                                        destination: current,
                                        place_wall: Direction::Down,
                                    }));
                                },
                                Direction::Left => {
                                    assert(m == (Move {
                                        destination: current,
                                        place_wall: Direction::Left,
                                    }));
                                },
                                Direction::Right => {
                                    assert(m == (Move {
                                        destination: current,
                                        place_wall: Direction::Right,
                                    }));
                                },
                            }
                        }
                    }
                }
                x = x + 1;
            }
            y = y + 1;
        }
        moves
    }

    /// Play `mv` if it is legal. Returns whether it was: an illegal move is
    /// rejected and leaves the state exactly as it was, a legal one moves the
    /// active player, records the new wall, and passes the turn. Walls only
    /// ever accumulate: no move clears one.
    pub fn make_move(&mut self, mv: Move) -> (r: bool)
        requires
            old(self).wf(),
        ensures
            final(self).wf(),
            r == old(self).is_legal_move(mv),
            r ==> move_applied(*old(self), *final(self), mv),
            !r ==> same_state(*old(self), *final(self)),
            forall|x: int, y: int|
                0 <= x < old(self).width && 0 <= y < old(self).height - 1 && old(self).h_walled(
                    x,
                    y,
                ) ==> #[trigger] final(self).h_walled(x, y),
            forall|x: int, y: int|
                0 <= x < old(self).width - 1 && 0 <= y < old(self).height && old(self).v_walled(
                    x,
                    y,
                ) ==> #[trigger] final(self).v_walled(x, y),
    {
        let start = if self.blue_turn {
            self.blue_position
        } else {
            self.green_position
        };
        let reachable = self.reachable_positions(start, 3);
        let dest = mv.destination;
        let legal = dest.inside(self.width, self.height) && grid_get(
            &reachable,
            dest.x as usize,
            dest.y as usize,
        ) && self.edge_open(dest, mv.place_wall);
        if !legal {
            return false;
        }
        if self.blue_turn {
            self.blue_position = dest;
        } else {
            self.green_position = dest;
        }
        let cell = if self.blue_turn {
            Cell::Blue
        } else {
            Cell::Green
        };
        match mv.place_wall {
            Direction::Up => self.horizontal_walls.set(dest.move_to(Direction::Up), cell),
            Direction::Down => self.horizontal_walls.set(dest, cell),
            Direction::Left => self.vertical_walls.set(dest.move_to(Direction::Left), cell),
            Direction::Right => self.vertical_walls.set(dest, cell),
        }
        self.blue_turn = !self.blue_turn;
        true
    }

    /// A search depth that guarantees full traversal: no simple path on the
    /// board is longer than the number of cells.
    pub open spec fn full_depth(self) -> nat {
        (self.width * self.height) as nat
    }

    /// The game is over iff the wall graph has disconnected the two players.
    pub open spec fn is_terminal(self) -> bool {
        !self.reach_within(
            self.blue_position,
            self.green_position.x as int,
            self.green_position.y as int,
            self.full_depth(),
        )
    }

    /// Terminal check: true iff Green's position is outside the connected
    /// component of Blue's. A pure function of the state.
    pub fn game_over(&self) -> (r: bool)
        requires
            self.wf(),
        ensures
            r == self.is_terminal(),
    {
        proof {
            assert(self.width * self.height <= MAX_DIMENSION * MAX_DIMENSION) by (nonlinear_arith)
                requires
                    1 <= self.width <= MAX_DIMENSION,
                    1 <= self.height <= MAX_DIMENSION,
            ;
            assert(self.width * self.height >= 1) by (nonlinear_arith)
                requires
                    1 <= self.width,
                    1 <= self.height,
            ;
        }
        let bound = self.width * self.height;
        let blue_reachable = self.reachable_positions(self.blue_position, bound);
        !grid_get(
            &blue_reachable,
            self.green_position.x as usize,
            self.green_position.y as usize,
        )
    }

    /// How many of the first `x` cells of row `y` are reachable from `start`
    /// within `k` hops.
    pub open spec fn reach_row_count(self, start: Coordinate, y: int, x: int, k: nat) -> int
        decreases x,
    {
        if x <= 0 {
            0
        } else {
            self.reach_row_count(start, y, x - 1, k) + if self.reach_within(start, x - 1, y, k) {
                1int
            } else {
                0int
            }
        }
    }

    /// How many cells of the first `y` full rows are reachable from `start`
    /// within `k` hops.
    pub open spec fn reach_count_rows(self, start: Coordinate, y: int, k: nat) -> int
        decreases y,
    {
        if y <= 0 {
            0
        } else {
            self.reach_count_rows(start, y - 1, k) + self.reach_row_count(
                start,
                y - 1,
                self.width as int,
                k,
            )
        }
    }

    /// The size of the connected component of `start`: how many cells of the
    /// whole board it can reach.
    pub open spec fn area(self, start: Coordinate) -> int {
        self.reach_count_rows(start, self.height as int, self.full_depth())
    }

    pub proof fn lemma_row_count_bounds(self, start: Coordinate, y: int, x: int, k: nat)
        requires
            0 <= x,
        ensures
            0 <= self.reach_row_count(start, y, x, k) <= x,
        decreases x,
    {
        if x > 0 {
            self.lemma_row_count_bounds(start, y, x - 1, k);
        }
    }

    pub proof fn lemma_count_rows_bounds(self, start: Coordinate, y: int, k: nat)
        requires
            0 <= y,
            0 <= self.width,
        ensures
            0 <= self.reach_count_rows(start, y, k) <= y * self.width,
        decreases y,
    {
        if y > 0 {
            self.lemma_count_rows_bounds(start, y - 1, k);
            self.lemma_row_count_bounds(start, y - 1, self.width as int, k);
            assert((y - 1) * self.width + self.width == y * self.width) by (nonlinear_arith);
        }
    }

    /// Final outcome: each player's score is the size of their own connected
    /// component, and the larger area wins. Meaningful once the game is over;
    /// it is a pure function of the state.
    pub fn game_result(&self) -> (r: (Winner, Score))
        requires
            self.wf(),
        ensures
            r.1.blue as int == self.area(self.blue_position),
            r.1.green as int == self.area(self.green_position),
            r.0 == (if r.1.blue > r.1.green {
                Winner::Blue
            } else if r.1.blue < r.1.green {
                Winner::Green
            } else {
                Winner::Draw
            }),
    {
        proof {
            assert(self.width * self.height <= MAX_DIMENSION * MAX_DIMENSION) by (nonlinear_arith)
                requires
                    1 <= self.width <= MAX_DIMENSION,
                    1 <= self.height <= MAX_DIMENSION,
            ;
            assert(self.width * self.height >= 1) by (nonlinear_arith)
                requires
                    1 <= self.width,
                    1 <= self.height,
            ;
        }
        let bound = self.width * self.height;
        let blue_reachable = self.reachable_positions(self.blue_position, bound);
        let green_reachable = self.reachable_positions(self.green_position, bound);
        let mut blue_score: i32 = 0;
        let mut green_score: i32 = 0;
        let ghost kb = bound as nat;
        let mut y: i32 = 0;
        while y < self.height
            invariant
                self.wf(),
                kb == self.full_depth(),
                0 <= y <= self.height,
                self.width * self.height <= MAX_DIMENSION * MAX_DIMENSION,
                blue_reachable@.len() == self.height as int,
                forall|j: int|
                    0 <= j < self.height ==> (#[trigger] blue_reachable@[j])@.len()
                        == self.width as int,
                forall|xx: int, yy: int|
                    0 <= xx < self.width && 0 <= yy < self.height ==> (
                    #[trigger] blue_reachable@[yy]@[xx]) == self.reach_within(
                        self.blue_position,
                        xx,
                        yy,
                        kb,
                    ),
                green_reachable@.len() == self.height as int,
                forall|j: int|
                    0 <= j < self.height ==> (#[trigger] green_reachable@[j])@.len()
                        == self.width as int,
                forall|xx: int, yy: int|
                    0 <= xx < self.width && 0 <= yy < self.height ==> (
                    #[trigger] green_reachable@[yy]@[xx]) == self.reach_within(
                        self.green_position,
                        xx,
                        yy,
                        kb,
                    ),
                blue_score as int == self.reach_count_rows(self.blue_position, y as int, kb),
                green_score as int == self.reach_count_rows(self.green_position, y as int, kb),
            decreases self.height - y,
        {
            let mut x: i32 = 0;
            while x < self.width
                invariant
                    self.wf(),
                    kb == self.full_depth(),
                    0 <= y < self.height,
                    0 <= x <= self.width,
                    self.width * self.height <= MAX_DIMENSION * MAX_DIMENSION,
                    blue_reachable@.len() == self.height as int,
                    forall|j: int|
                        0 <= j < self.height ==> (#[trigger] blue_reachable@[j])@.len()
                            == self.width as int,
                    forall|xx: int, yy: int|
                        0 <= xx < self.width && 0 <= yy < self.height ==> (
                        #[trigger] blue_reachable@[yy]@[xx]) == self.reach_within(
                            self.blue_position,
                            xx,
                            yy,
                            kb,
                        ),
                    green_reachable@.len() == self.height as int,
                    forall|j: int|
                        0 <= j < self.height ==> (#[trigger] green_reachable@[j])@.len()
                            == self.width as int,
                    forall|xx: int, yy: int|
                        0 <= xx < self.width && 0 <= yy < self.height ==> (
                        #[trigger] green_reachable@[yy]@[xx]) == self.reach_within(
                            self.green_position,
                            xx,
                            yy,
                            kb,
                        ),
                    blue_score as int == self.reach_count_rows(self.blue_position, y as int, kb)
                        + self.reach_row_count(self.blue_position, y as int, x as int, kb),
                    green_score as int == self.reach_count_rows(self.green_position, y as int, kb)
                        + self.reach_row_count(self.green_position, y as int, x as int, kb),
                decreases self.width - x,
            {
                proof {
                    self.lemma_count_rows_bounds(self.blue_position, y as int, kb);
                    self.lemma_row_count_bounds(self.blue_position, y as int, x as int, kb);
                    self.lemma_count_rows_bounds(self.green_position, y as int, kb);
                    self.lemma_row_count_bounds(self.green_position, y as int, x as int, kb);
                    assert(y * self.width + x + 1 <= self.width * self.height) by (nonlinear_arith)
                        requires
                            0 <= y < self.height,
                            0 <= x < self.width,
                    ;
                }
                if grid_get(&blue_reachable, x as usize, y as usize) {
                    blue_score = blue_score + 1;
                }
                if grid_get(&green_reachable, x as usize, y as usize) {
                    green_score = green_score + 1;
                }
                x = x + 1;
            }
            y = y + 1;
        }
        let score = Score { blue: blue_score, green: green_score };
        let winner = if blue_score > green_score {
            Winner::Blue
        } else if blue_score < green_score {
            Winner::Green
        } else {
            Winner::Draw
        };
        (winner, score)
    }
}

} // verus!

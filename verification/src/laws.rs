//! Laws of the engine that relate several operations: edge occlusion is
//! symmetric, a just-played move can never be replayed, and at a terminal
//! state the two players' regions partition their part of the board.

use vstd::prelude::*;
use crate::game::{
    move_applied, wall_cell_x, wall_cell_y, horizontal_wall_move, Game, Move,
};
use crate::geometry::{Coordinate, Direction};

verus! {

/// Occlusion symmetry: a walled edge blocks both directions of travel. One
/// may step from (x, y) in direction `d` exactly when one may step back from
/// the adjacent cell in the opposite direction.
pub proof fn lemma_occlusion_symmetry(g: Game, x: int, y: int, d: Direction)
    ensures
        g.step_ok(x, y, d) == g.step_ok(x + d.spec_dx(), y + d.spec_dy(), d.opposite()),
{
}

/// A move, once played, is not legal in the resulting state: the wall it
/// placed now blocks the very edge it named.
pub proof fn lemma_no_immediate_repeat(pre: Game, post: Game, m: Move)
    requires
        pre.wf(),
        pre.is_legal_move(m),
        move_applied(pre, post, m),
    ensures
        !post.is_legal_move(m),
{
    let dx = m.destination.x as int;
    let dy = m.destination.y as int;
    if horizontal_wall_move(m) {
        assert(post.horizontal_walls.cell_at(wall_cell_x(m), wall_cell_y(m)) is Empty == false);
        assert(!post.step_ok(dx, dy, m.place_wall));
    } else {
        assert(post.vertical_walls.cell_at(wall_cell_x(m), wall_cell_y(m)) is Empty == false);
        assert(!post.step_ok(dx, dy, m.place_wall));
    }
}

/// Reaching a cell from `b` means reaching it from `a` with one more hop,
/// when one open edge leads from `a` to `b`.
pub proof fn lemma_reach_prepend(
    g: Game,
    a: Coordinate,
    b: Coordinate,
    d: Direction,
    tx: int,
    ty: int,
    k: nat,
)
    requires
        g.step_ok(a.x as int, a.y as int, d),
        b.x as int == a.x + d.spec_dx(),
        b.y as int == a.y + d.spec_dy(),
        g.reach_within(b, tx, ty, k),
    ensures
        g.reach_within(a, tx, ty, (k + 1) as nat),
    decreases k,
{
    let k1 = (k + 1) as nat;
    if tx == b.x && ty == b.y {
        match d {
            Direction::Up => {
                assert(g.step_ok(tx, ty + 1, Direction::Up));
                assert(g.reach_within(a, tx, ty + 1, k));
            },
            Direction::Down => {
                assert(g.step_ok(tx, ty - 1, Direction::Down));
                assert(g.reach_within(a, tx, ty - 1, k));
            },
            Direction::Left => {
                assert(g.step_ok(tx + 1, ty, Direction::Left));
                assert(g.reach_within(a, tx + 1, ty, k));
            },
            Direction::Right => {
                assert(g.step_ok(tx - 1, ty, Direction::Right));
                assert(g.reach_within(a, tx - 1, ty, k));
            },
        }
        assert(g.reach_within(a, tx, ty, k1));
    } else {
        let kk = (k - 1) as nat;
        if g.step_ok(tx, ty + 1, Direction::Up) && g.reach_within(b, tx, ty + 1, kk) {
            lemma_reach_prepend(g, a, b, d, tx, ty + 1, kk);
        } else if g.step_ok(tx, ty - 1, Direction::Down) && g.reach_within(b, tx, ty - 1, kk) {
            lemma_reach_prepend(g, a, b, d, tx, ty - 1, kk);
        } else if g.step_ok(tx + 1, ty, Direction::Left) && g.reach_within(b, tx + 1, ty, kk) {
            lemma_reach_prepend(g, a, b, d, tx + 1, ty, kk);
        } else {
            lemma_reach_prepend(g, a, b, d, tx - 1, ty, kk);
        }
        assert(g.reach_within(a, tx, ty, k1));
    }
}

/// Reachability is symmetric: every hop can be walked back, because the
/// occlusion rule blocks both directions of a walled edge alike.
pub proof fn lemma_reach_symmetric(g: Game, s: Coordinate, t: Coordinate, k: nat)
    requires
        g.wf(),
        g.reach_within(s, t.x as int, t.y as int, k),
    ensures
        g.reach_within(t, s.x as int, s.y as int, k),
    decreases k,
{
    let tx = t.x as int;
    let ty = t.y as int;
    if tx == s.x && ty == s.y {
    } else {
        let kk = (k - 1) as nat;
        if g.step_ok(tx, ty + 1, Direction::Up) && g.reach_within(s, tx, ty + 1, kk) {
            let p = Coordinate { x: t.x, y: (ty + 1) as i32 };
            lemma_reach_symmetric(g, s, p, kk);
            lemma_occlusion_symmetry(g, tx, ty + 1, Direction::Up);
            assert(g.step_ok(tx, ty, Direction::Down));
            lemma_reach_prepend(g, t, p, Direction::Down, s.x as int, s.y as int, kk);
        } else if g.step_ok(tx, ty - 1, Direction::Down) && g.reach_within(s, tx, ty - 1, kk) {
            let p = Coordinate { x: t.x, y: (ty - 1) as i32 };
            lemma_reach_symmetric(g, s, p, kk);
            lemma_occlusion_symmetry(g, tx, ty - 1, Direction::Down);
            assert(g.step_ok(tx, ty, Direction::Up));
            lemma_reach_prepend(g, t, p, Direction::Up, s.x as int, s.y as int, kk);
        } else if g.step_ok(tx + 1, ty, Direction::Left) && g.reach_within(s, tx + 1, ty, kk) {
            let p = Coordinate { x: (tx + 1) as i32, y: t.y };
            lemma_reach_symmetric(g, s, p, kk);
            lemma_occlusion_symmetry(g, tx + 1, ty, Direction::Left);
            assert(g.step_ok(tx, ty, Direction::Right));
            lemma_reach_prepend(g, t, p, Direction::Right, s.x as int, s.y as int, kk);
        } else {
            let p = Coordinate { x: (tx - 1) as i32, y: t.y };
            lemma_reach_symmetric(g, s, p, kk);
            lemma_occlusion_symmetry(g, tx - 1, ty, Direction::Right);
            assert(g.step_ok(tx, ty, Direction::Left));
            lemma_reach_prepend(g, t, p, Direction::Left, s.x as int, s.y as int, kk);
        }
    }
}

/// Reachability is transitive: paths concatenate, and their hop bounds add.
pub proof fn lemma_reach_trans(
    g: Game,
    a: Coordinate,
    b: Coordinate,
    tx: int,
    ty: int,
    j: nat,
    k: nat,
)
    requires
        g.reach_within(a, b.x as int, b.y as int, j),
        g.reach_within(b, tx, ty, k),
    ensures
        g.reach_within(a, tx, ty, (j + k) as nat),
    decreases k,
{
    if tx == b.x && ty == b.y {
        g.lemma_reach_mono(a, tx, ty, j, (j + k) as nat);
    } else {
        let kk = (k - 1) as nat;
        if g.step_ok(tx, ty + 1, Direction::Up) && g.reach_within(b, tx, ty + 1, kk) {
            lemma_reach_trans(g, a, b, tx, ty + 1, j, kk);
        } else if g.step_ok(tx, ty - 1, Direction::Down) && g.reach_within(b, tx, ty - 1, kk) {
            lemma_reach_trans(g, a, b, tx, ty - 1, j, kk);
        } else if g.step_ok(tx + 1, ty, Direction::Left) && g.reach_within(b, tx + 1, ty, kk) {
            lemma_reach_trans(g, a, b, tx + 1, ty, j, kk);
        } else {
            lemma_reach_trans(g, a, b, tx - 1, ty, j, kk);
        }
        assert((j + kk) as nat + 1 == (j + k) as nat);
        assert(g.reach_within(a, tx, ty, (j + k) as nat));
    }
}

/// Allowing more hops never shrinks a row's count of reachable cells.
pub proof fn lemma_row_count_mono(g: Game, s: Coordinate, y: int, x: int, k1: nat, k2: nat)
    requires
        0 <= x,
        k1 <= k2,
    ensures
        g.reach_row_count(s, y, x, k1) <= g.reach_row_count(s, y, x, k2),
    decreases x,
{
    if x > 0 {
        lemma_row_count_mono(g, s, y, x - 1, k1, k2);
        if g.reach_within(s, x - 1, y, k1) {
            g.lemma_reach_mono(s, x - 1, y, k1, k2);
        }
    }
}

/// Allowing more hops never shrinks the count over the first `y` rows.
pub proof fn lemma_count_rows_mono(g: Game, s: Coordinate, y: int, k1: nat, k2: nat)
    requires
        0 <= y,
        0 <= g.width,
        k1 <= k2,
    ensures
        g.reach_count_rows(s, y, k1) <= g.reach_count_rows(s, y, k2),
    decreases y,
{
    if y > 0 {
        lemma_count_rows_mono(g, s, y - 1, k1, k2);
        lemma_row_count_mono(g, s, y - 1, g.width as int, k1, k2);
    }
}

/// A cell reachable at the larger depth but not the smaller one makes the
/// row's count grow strictly.
pub proof fn lemma_row_count_strict(
    g: Game,
    s: Coordinate,
    y: int,
    x: int,
    k1: nat,
    k2: nat,
    x0: int,
)
    requires
        0 <= x0 < x,
        k1 <= k2,
        g.reach_within(s, x0, y, k2),
        !g.reach_within(s, x0, y, k1),
    ensures
        g.reach_row_count(s, y, x, k1) + 1 <= g.reach_row_count(s, y, x, k2),
    decreases x,
{
    if x - 1 == x0 {
        lemma_row_count_mono(g, s, y, x - 1, k1, k2);
    } else {
        lemma_row_count_strict(g, s, y, x - 1, k1, k2, x0);
        if g.reach_within(s, x - 1, y, k1) {
            g.lemma_reach_mono(s, x - 1, y, k1, k2);
        }
    }
}

/// The same, lifted to the count over the first `y` rows.
pub proof fn lemma_count_rows_strict(
    g: Game,
    s: Coordinate,
    y: int,
    k1: nat,
    k2: nat,
    x0: int,
    y0: int,
)
    requires
        0 <= x0 < g.width,
        0 <= y0 < y,
        k1 <= k2,
        g.reach_within(s, x0, y0, k2),
        !g.reach_within(s, x0, y0, k1),
    ensures
        g.reach_count_rows(s, y, k1) + 1 <= g.reach_count_rows(s, y, k2),
    decreases y,
{
    if y - 1 == y0 {
        lemma_count_rows_mono(g, s, y - 1, k1, k2);
        lemma_row_count_strict(g, s, y - 1, g.width as int, k1, k2, x0);
    } else {
        lemma_count_rows_strict(g, s, y - 1, k1, k2, x0, y0);
        lemma_row_count_mono(g, s, y - 1, g.width as int, k1, k2);
    }
}

/// A row holding one reachable cell counts at least one.
pub proof fn lemma_row_count_lower(g: Game, s: Coordinate, y: int, x: int, k: nat, x0: int)
    requires
        0 <= x0 < x,
        g.reach_within(s, x0, y, k),
    ensures
        g.reach_row_count(s, y, x, k) >= 1,
    decreases x,
{
    if x - 1 == x0 {
        g.lemma_row_count_bounds(s, y, x - 1, k);
    } else {
        lemma_row_count_lower(g, s, y, x - 1, k, x0);
        g.lemma_row_count_bounds(s, y, x - 1, k);
    }
}

/// A board holding one reachable cell counts at least one.
pub proof fn lemma_count_rows_lower(g: Game, s: Coordinate, y: int, k: nat, x0: int, y0: int)
    requires
        0 <= x0 < g.width,
        0 <= y0 < y,
        g.reach_within(s, x0, y0, k),
    ensures
        g.reach_count_rows(s, y, k) >= 1,
    decreases y,
{
    if y - 1 == y0 {
        g.lemma_count_rows_bounds(s, y - 1, k);
        lemma_row_count_lower(g, s, y - 1, g.width as int, k, x0);
    } else {
        lemma_count_rows_lower(g, s, y - 1, k, x0, y0);
        g.lemma_row_count_bounds(s, y - 1, g.width as int, k);
    }
}

/// While the reachable set keeps growing with depth, its size outruns the
/// depth: after `j` rounds at least `j + 1` cells are reachable.
pub proof fn lemma_reach_count_min(g: Game, s: Coordinate, j: nat)
    requires
        g.wf(),
        s.spec_inside(g.width as int, g.height as int),
        forall|j2: nat| j2 < j ==> !#[trigger] g.stable_at(s, j2),
    ensures
        g.reach_count_rows(s, g.height as int, j) >= j + 1,
    decreases j,
{
    if j == 0 {
        assert(g.reach_within(s, s.x as int, s.y as int, 0));
        lemma_count_rows_lower(g, s, g.height as int, 0, s.x as int, s.y as int);
    } else {
        let jm1 = (j - 1) as nat;
        lemma_reach_count_min(g, s, jm1);
        assert(!g.stable_at(s, jm1));
        let (x0, y0) = choose|x0: int, y0: int|
            g.reach_within(s, x0, y0, (jm1 + 1) as nat) && !#[trigger] g.reach_within(
                s,
                x0,
                y0,
                jm1,
            );
        assert((jm1 + 1) as nat == j);
        g.lemma_reach_on_board(s, x0, y0, j);
        lemma_count_rows_strict(g, s, g.height as int, jm1, j, x0, y0);
    }
}

/// Any reachable cell is reachable within `width * height` hops: a path can
/// always be shortened below the number of cells of the board.
pub proof fn lemma_reach_compress(g: Game, s: Coordinate, x: int, y: int, k: nat)
    requires
        g.wf(),
        s.spec_inside(g.width as int, g.height as int),
        g.reach_within(s, x, y, k),
    ensures
        g.reach_within(s, x, y, g.full_depth()),
{
    let n = g.full_depth();
    assert(g.width * g.height >= 1) by (nonlinear_arith)
        requires
            1 <= g.width,
            1 <= g.height,
    ;
    if k <= n {
        g.lemma_reach_mono(s, x, y, k, n);
    } else if !g.reach_within(s, x, y, n) {
        assert forall|j2: nat| j2 < n implies !#[trigger] g.stable_at(s, j2) by {
            if g.stable_at(s, j2) {
                g.lemma_reach_stable(s, j2, k);
                assert(g.reach_within(s, x, y, j2));
                g.lemma_reach_mono(s, x, y, j2, n);
            }
        }
        lemma_reach_count_min(g, s, n);
        g.lemma_count_rows_bounds(s, g.height as int, n);
        assert(g.height as int * g.width as int == g.width as int * g.height as int)
            by (nonlinear_arith);
        assert(false);
    }
}

/// Two origins whose reachable sets are disjoint fill at most one slot per
/// cell of a row.
pub proof fn lemma_row_count_disjoint(
    g: Game,
    a: Coordinate,
    b: Coordinate,
    y: int,
    x: int,
    k: nat,
)
    requires
        0 <= x,
        forall|xx: int, yy: int|
            !(#[trigger] g.reach_within(a, xx, yy, k) && #[trigger] g.reach_within(b, xx, yy, k)),
    ensures
        g.reach_row_count(a, y, x, k) + g.reach_row_count(b, y, x, k) <= x,
    decreases x,
{
    if x > 0 {
        lemma_row_count_disjoint(g, a, b, y, x - 1, k);
        assert(!(g.reach_within(a, x - 1, y, k) && g.reach_within(b, x - 1, y, k)));
    }
}

/// Two origins whose reachable sets are disjoint fill at most one slot per
/// cell of the board.
pub proof fn lemma_count_rows_disjoint(g: Game, a: Coordinate, b: Coordinate, y: int, k: nat)
    requires
        0 <= y,
        0 <= g.width,
        forall|xx: int, yy: int|
            !(#[trigger] g.reach_within(a, xx, yy, k) && #[trigger] g.reach_within(b, xx, yy, k)),
    ensures
        g.reach_count_rows(a, y, k) + g.reach_count_rows(b, y, k) <= y * g.width,
    decreases y,
{
    if y > 0 {
        lemma_count_rows_disjoint(g, a, b, y - 1, k);
        lemma_row_count_disjoint(g, a, b, y - 1, g.width as int, k);
        assert((y - 1) * g.width + g.width == y * g.width) by (nonlinear_arith);
    }
}

/// Scoring partition: at a terminal state the two players' components are
/// disjoint, so their areas together cover at most the whole board.
pub proof fn lemma_scoring_partition(g: Game)
    requires
        g.wf(),
        g.is_terminal(),
    ensures
        forall|x: int, y: int|
            !(#[trigger] g.reach_within(g.blue_position, x, y, g.full_depth())
                && #[trigger] g.reach_within(g.green_position, x, y, g.full_depth())),
        g.area(g.blue_position) + g.area(g.green_position) <= g.width * g.height,
{
    let n = g.full_depth();
    assert forall|x: int, y: int|
        !(#[trigger] g.reach_within(g.blue_position, x, y, n) && #[trigger] g.reach_within(
            g.green_position,
            x,
            y,
            n,
        )) by {
        if g.reach_within(g.blue_position, x, y, n) && g.reach_within(g.green_position, x, y, n) {
            g.lemma_reach_on_board(g.blue_position, x, y, n);
            let c = Coordinate { x: x as i32, y: y as i32 };
            lemma_reach_symmetric(g, g.green_position, c, n);
            lemma_reach_trans(
                g,
                g.blue_position,
                c,
                g.green_position.x as int,
                g.green_position.y as int,
                n,
                n,
            );
            lemma_reach_compress(
                g,
                g.blue_position,
                g.green_position.x as int,
                g.green_position.y as int,
                (n + n) as nat,
            );
            assert(false);
        }
    }
    lemma_count_rows_disjoint(g, g.blue_position, g.green_position, g.height as int, n);
    assert(g.height as int * g.width as int == g.width as int * g.height as int)
        by (nonlinear_arith);
}

} // verus!

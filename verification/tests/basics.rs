use wallgame::board::{Board, Cell};
use wallgame::game::{Game, Move};
use wallgame::geometry::{Coordinate, Direction};

#[test]
fn direction_displacements() {
    assert_eq!(Direction::Up.relative_position(), Coordinate::new(0, -1));
    assert_eq!(Direction::Down.relative_position(), Coordinate::new(0, 1));
    assert_eq!(Direction::Left.relative_position(), Coordinate::new(-1, 0));
    assert_eq!(Direction::Right.relative_position(), Coordinate::new(1, 0));
}

#[test]
fn direction_values_lists_all_four() {
    let all = Direction::values();
    assert_eq!(
        all,
        vec![
            Direction::Up,
            Direction::Down,
            Direction::Left,
            Direction::Right
        ]
    );
}

#[test]
fn coordinate_bounds_and_movement() {
    assert!(Coordinate::new(0, 0).inside(7, 7));
    assert!(Coordinate::new(6, 6).inside(7, 7));
    assert!(!Coordinate::new(7, 6).inside(7, 7));
    assert!(!Coordinate::new(6, 7).inside(7, 7));
    assert!(!Coordinate::new(-1, 0).inside(7, 7));
    assert!(!Coordinate::new(0, -1).inside(7, 7));
    let c = Coordinate::new(3, 4);
    assert_eq!(c.move_to(Direction::Up), Coordinate::new(3, 3));
    assert_eq!(c.move_to(Direction::Down), Coordinate::new(3, 5));
    assert_eq!(c.move_to(Direction::Left), Coordinate::new(2, 4));
    assert_eq!(c.move_to(Direction::Right), Coordinate::new(4, 4));
}

#[test]
fn board_starts_empty_and_records_cells() {
    let mut board = Board::new(3, 2);
    for y in 0..2 {
        for x in 0..3 {
            assert!(board.get(Coordinate::new(x, y)).is_empty());
        }
    }
    board.set(Coordinate::new(2, 1), Cell::Green);
    assert!(matches!(*board.get(Coordinate::new(2, 1)), Cell::Green));
    assert!(board.get(Coordinate::new(2, 0)).is_empty());
    assert!(board.get(Coordinate::new(1, 1)).is_empty());
}

#[test]
fn cell_emptiness() {
    assert!(Cell::Empty.is_empty());
    assert!(!Cell::Blue.is_empty());
    assert!(!Cell::Green.is_empty());
}

#[test]
fn new_game_layout() {
    let game = Game::new(7, 7);
    assert_eq!(game.width, 7);
    assert_eq!(game.height, 7);
    assert_eq!(game.blue_position, Coordinate::new(0, 0));
    assert_eq!(game.green_position, Coordinate::new(6, 6));
    assert!(game.blue_turn);
    for y in 0..6 {
        for x in 0..7 {
            assert!(game.horizontal_walls.get(Coordinate::new(x, y)).is_empty());
        }
    }
    for y in 0..7 {
        for x in 0..6 {
            assert!(game.vertical_walls.get(Coordinate::new(x, y)).is_empty());
        }
    }
}

#[test]
fn notation_parses_column_row_and_wall() {
    let m = Move::from_notation("A7U");
    assert_eq!(m.destination, Coordinate::new(0, 0));
    assert_eq!(m.place_wall, Direction::Up);
    let m = Move::from_notation("G1R");
    assert_eq!(m.destination, Coordinate::new(6, 6));
    assert_eq!(m.place_wall, Direction::Right);
    let m = Move::from_notation("C4D");
    assert_eq!(m.destination, Coordinate::new(2, 3));
    assert_eq!(m.place_wall, Direction::Down);
    let m = Move::from_notation("B2L");
    assert_eq!(m.destination, Coordinate::new(1, 5));
    assert_eq!(m.place_wall, Direction::Left);
}

#[test]
fn reachability_at_small_depths() {
    let game = Game::new(7, 7);
    let zero = game.reachable_positions(Coordinate::new(0, 0), 0);
    let mut marked = 0;
    for row in &zero {
        for &cell in row {
            if cell {
                marked += 1;
            }
        }
    }
    assert_eq!(marked, 1);
    assert!(zero[0][0]);
    let one = game.reachable_positions(Coordinate::new(0, 0), 1);
    assert!(one[0][0] && one[0][1] && one[1][0]);
    assert!(!one[1][1] && !one[0][2] && !one[2][0]);
    let three = game.reachable_positions(Coordinate::new(0, 0), 3);
    assert!(three[3][0] && three[0][3] && three[2][1] && three[1][2]);
    assert!(!three[2][2] && !three[0][4] && !three[4][0]);
}

#[test]
fn unbounded_reachability_covers_an_open_board() {
    let game = Game::new(7, 7);
    let full = game.reachable_positions(Coordinate::new(3, 3), 49);
    for row in &full {
        for &cell in row {
            assert!(cell);
        }
    }
}

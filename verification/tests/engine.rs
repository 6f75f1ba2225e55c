use wallgame::board::Cell;
use wallgame::game::{Game, Move, Score, Winner};
use wallgame::geometry::{Coordinate, Direction};

fn mv(x: i32, y: i32, d: Direction) -> Move {
    Move::new(Coordinate::new(x, y), d)
}

#[test]
fn initial_legal_moves_include_staying_put() {
    let game = Game::new(7, 7);
    let moves = game.possible_moves();
    assert!(moves.contains(&mv(0, 0, Direction::Right)));
    assert!(moves.contains(&mv(0, 0, Direction::Down)));
    // Up and Left from the corner leave the board: no wall can go there.
    assert!(!moves.contains(&mv(0, 0, Direction::Up)));
    assert!(!moves.contains(&mv(0, 0, Direction::Left)));
}

#[test]
fn initial_legal_moves_reach_three_hops() {
    let game = Game::new(7, 7);
    let moves = game.possible_moves();
    // Destinations within three hops of (0, 0), with directions off the border.
    assert!(moves.contains(&mv(1, 0, Direction::Right)));
    assert!(moves.contains(&mv(1, 0, Direction::Left)));
    assert!(moves.contains(&mv(1, 0, Direction::Down)));
    assert!(moves.contains(&mv(2, 0, Direction::Down)));
    assert!(moves.contains(&mv(3, 0, Direction::Right)));
    assert!(moves.contains(&mv(0, 1, Direction::Up)));
    assert!(moves.contains(&mv(0, 2, Direction::Right)));
    assert!(moves.contains(&mv(0, 3, Direction::Up)));
    assert!(moves.contains(&mv(0, 3, Direction::Down)));
    assert!(moves.contains(&mv(0, 3, Direction::Right)));
    assert!(moves.contains(&mv(1, 2, Direction::Up)));
    assert!(moves.contains(&mv(2, 1, Direction::Left)));
    // Border edges are not wallable.
    assert!(!moves.contains(&mv(0, 3, Direction::Left)));
    assert!(!moves.contains(&mv(3, 0, Direction::Up)));
    // Four hops away: out of reach.
    assert!(!moves.contains(&mv(0, 4, Direction::Right)));
    assert!(!moves.contains(&mv(4, 0, Direction::Down)));
    assert!(!moves.contains(&mv(2, 2, Direction::Down)));
}

#[test]
fn every_enumerated_move_succeeds() {
    let moves = Game::new(7, 7).possible_moves();
    assert!(!moves.is_empty());
    for m in moves {
        let mut game = Game::new(7, 7);
        assert!(game.make_move(m));
    }
}

#[test]
fn every_enumerated_move_succeeds_after_walls_exist() {
    let mut base = Game::new(7, 7);
    assert!(base.make_move(mv(0, 0, Direction::Right)));
    assert!(base.make_move(mv(6, 6, Direction::Left)));
    let moves = base.possible_moves();
    assert!(!moves.is_empty());
    for m in moves {
        let mut game = Game::new(7, 7);
        assert!(game.make_move(mv(0, 0, Direction::Right)));
        assert!(game.make_move(mv(6, 6, Direction::Left)));
        assert!(game.make_move(m));
    }
}

#[test]
fn illegal_move_is_rejected_and_state_kept() {
    let mut game = Game::new(7, 7);
    // (6, 6) is far beyond three hops of Blue at (0, 0).
    assert!(!game.make_move(mv(6, 6, Direction::Left)));
    assert_eq!(game.blue_position, Coordinate::new(0, 0));
    assert_eq!(game.green_position, Coordinate::new(6, 6));
    assert!(game.blue_turn);
    assert!(game.vertical_walls.get(Coordinate::new(5, 6)).is_empty());
    // A destination off the board is rejected too.
    assert!(!game.make_move(mv(-1, 0, Direction::Right)));
    assert!(!game.make_move(mv(0, 7, Direction::Up)));
    assert!(game.blue_turn);
}

#[test]
fn walls_accumulate_and_are_never_cleared() {
    let mut game = Game::new(7, 7);
    assert!(game.make_move(mv(0, 0, Direction::Right)));
    assert!(!game.vertical_walls.get(Coordinate::new(0, 0)).is_empty());
    assert!(game.make_move(mv(6, 6, Direction::Left)));
    assert!(!game.vertical_walls.get(Coordinate::new(0, 0)).is_empty());
    assert!(!game.vertical_walls.get(Coordinate::new(5, 6)).is_empty());
    assert!(game.make_move(mv(1, 0, Direction::Down)));
    assert!(!game.vertical_walls.get(Coordinate::new(0, 0)).is_empty());
    assert!(!game.vertical_walls.get(Coordinate::new(5, 6)).is_empty());
    assert!(!game.horizontal_walls.get(Coordinate::new(1, 0)).is_empty());
}

#[test]
fn move_and_wall_bookkeeping() {
    let mut game = Game::new(7, 7);
    assert!(game.make_move(mv(1, 1, Direction::Up)));
    assert_eq!(game.blue_position, Coordinate::new(1, 1));
    assert_eq!(game.green_position, Coordinate::new(6, 6));
    assert!(!game.blue_turn);
    // An Up wall at (1, 1) is recorded one row above the destination.
    assert!(matches!(
        *game.horizontal_walls.get(Coordinate::new(1, 0)),
        Cell::Blue
    ));
}

#[test]
fn played_move_is_never_legal_again() {
    let mut game = Game::new(7, 7);
    let m = mv(0, 0, Direction::Right);
    assert!(game.make_move(m));
    assert!(!game.possible_moves().contains(&m));
    // Even back on Blue's next turn the edge stays walled.
    assert!(game.make_move(mv(6, 6, Direction::Left)));
    assert!(!game.possible_moves().contains(&m));
}

#[test]
fn wall_blocks_direct_edge_but_detour_remains() {
    let mut game = Game::new(7, 7);
    assert!(game.make_move(mv(0, 0, Direction::Down)));
    // The walled edge itself is closed in both directions.
    assert!(!game.edge_open(Coordinate::new(0, 0), Direction::Down));
    assert!(!game.edge_open(Coordinate::new(0, 1), Direction::Up));
    // One hop no longer reaches (0, 1)…
    let one_hop = game.reachable_positions(Coordinate::new(0, 0), 1);
    assert!(one_hop[0][1]);
    assert!(!one_hop[1][0]);
    // …but the full component still holds it, through (1, 0) and (1, 1).
    let full = game.reachable_positions(Coordinate::new(0, 0), 49);
    assert!(full[1][0]);
    assert!(full[1][1]);
    assert!(full[0][1]);
}

fn enclosed_green_game() -> Game {
    // Wall off Green's corner (6, 6): the Up and Left edges get walls, the
    // other two sides are the board border.
    let mut game = Game::new(7, 7);
    game.horizontal_walls
        .set(Coordinate::new(6, 5), Cell::Blue);
    game.vertical_walls.set(Coordinate::new(5, 6), Cell::Blue);
    game
}

#[test]
fn enclosing_green_ends_the_game() {
    let game = enclosed_green_game();
    assert!(game.game_over());
    let (winner, score) = game.game_result();
    assert!(matches!(winner, Winner::Blue));
    assert_eq!(score, Score { blue: 48, green: 1 });
}

#[test]
fn terminal_is_a_pure_function_of_state() {
    let game = enclosed_green_game();
    assert!(game.game_over());
    assert!(game.game_over());
    let open_game = Game::new(7, 7);
    assert!(!open_game.game_over());
    assert!(!open_game.game_over());
}

#[test]
fn terminal_components_are_disjoint_and_cover_at_most_the_board() {
    let game = enclosed_green_game();
    assert!(game.game_over());
    let blue = game.reachable_positions(game.blue_position, 49);
    let green = game.reachable_positions(game.green_position, 49);
    let mut blue_count = 0;
    let mut green_count = 0;
    for y in 0..7 {
        for x in 0..7 {
            assert!(!(blue[y][x] && green[y][x]));
            if blue[y][x] {
                blue_count += 1;
            }
            if green[y][x] {
                green_count += 1;
            }
        }
    }
    assert!(blue_count + green_count <= 49);
    let (_, score) = game.game_result();
    assert_eq!(score.blue, blue_count);
    assert_eq!(score.green, green_count);
}

#[test]
fn two_cell_board_plays_to_a_draw() {
    let mut game = Game::new(2, 1);
    assert!(game.make_move(mv(0, 0, Direction::Right)));
    assert!(game.game_over());
    let (winner, score) = game.game_result();
    assert!(matches!(winner, Winner::Draw));
    assert_eq!(score, Score { blue: 1, green: 1 });
}

#[test]
fn single_cell_board_has_no_moves() {
    let game = Game::new(1, 1);
    assert!(game.possible_moves().is_empty());
    // Both tokens share the one cell, so they are never disconnected.
    assert!(!game.game_over());
}
